//! Questions about the notes: what was found in them goes to the model with the question.
use crate::ai::config::AiConfig;
use crate::ai::prompt::{Task, TaskModel};
use crate::ai::sse::{events_model, AiEvent, EventModel};
use crate::block::opt_text;
use crate::index::{found, hits_model, PlaceModel, SearchHit, VaultIndex};
use crate::text::{
    chars_of, digits_of, extend, extend_str, glue, is_blank, push_chars, string_of, trim,
    trim_chars, wide_number_chars,
};
use vstd::prelude::*;

verus! {

/// How many characters of notes are sent at most.
pub const CONTEXT_MAX_CHARS: usize = 4000;

/// How many places of one note are taken.
pub const HITS_PER_NOTE: usize = 3;

/// How many places are taken in all.
pub const HITS_TOTAL: usize = 12;

/// What is said where requests cannot be made.
pub const NO_ENDPOINT: &'static str =
    "尚未配置 AI 端点。按 Ctrl+Shift+, 打开设置，或设置环境变量 FASTNOTE_API_KEY。";

/// A question and its answer.
#[derive(Clone, Debug)]
pub struct Turn {
    pub question: String,
    pub answer: String,
    pub sources: Vec<SearchHit>,
}

pub struct TurnModel {
    pub question: Seq<char>,
    pub answer: Seq<char>,
    pub sources: Seq<PlaceModel>,
}

impl View for Turn {
    type V = TurnModel;

    open spec fn view(&self) -> TurnModel {
        TurnModel {
            question: self.question@,
            answer: self.answer@,
            sources: hits_model(self.sources@),
        }
    }
}

pub open spec fn turns_model(v: Seq<Turn>) -> Seq<TurnModel> {
    v.map_values(|t: Turn| t@)
}

// ---------- what is sent of the notes ----------

/// A place as it is sent: the note, the line from one on, and what stands there.
pub open spec fn block_of(h: PlaceModel) -> Seq<char> {
    "### "@ + h.name + " （第 "@ + digits_of((h.line + 1) as nat) + " 行）\n"@ + trim(h.snippet)
        + "\n\n"@
}

/// `out`, and behind it the places, up to the first that would make it too long. Blank
/// ones are passed over.
pub open spec fn context_from(hits: Seq<PlaceModel>, out: Seq<char>) -> Seq<char>
    decreases hits.len(),
{
    if hits.len() == 0 {
        out
    } else if trim(hits[0].snippet).len() == 0 {
        context_from(hits.drop_first(), out)
    } else if out.len() + block_of(hits[0]).len() > CONTEXT_MAX_CHARS {
        out
    } else {
        context_from(hits.drop_first(), out + block_of(hits[0]))
    }
}

fn hit_block(h: &SearchHit) -> (r: Vec<char>)
    ensures
        r@ == block_of(h@),
{
    let sc: Vec<char> = chars_of(&h.snippet);
    let mut v: Vec<char> = chars_of("### ");
    extend_str(&mut v, &h.name);
    extend_str(&mut v, " （第 ");
    let n: Vec<char> = wide_number_chars(h.line as u128 + 1);
    extend(&mut v, n.as_slice());
    extend_str(&mut v, " 行）\n");
    extend(&mut v, trim_chars(sc.as_slice()));
    extend_str(&mut v, "\n\n");
    v
}

/// The places as they are sent.
pub fn build_context(hits: &[SearchHit]) -> (r: String)
    ensures
        r@ == context_from(hits_model(hits@), Seq::empty()),
{
    let ghost hm = hits_model(hits@);
    let mut out: String = String::new();
    let mut have: usize = 0;
    let mut k: usize = 0;
    proof {
        assert(out@ =~= Seq::<char>::empty());
        assert(hm.skip(0) =~= hm);
    }
    while k < hits.len()
        invariant
            0 <= k <= hits@.len(),
            hm == hits_model(hits@),
            have == out@.len(),
            have <= CONTEXT_MAX_CHARS,
            context_from(hm, Seq::empty()) == context_from(hm.skip(k as int), out@),
        decreases hits@.len() - k,
    {
        proof {
            assert(hm.skip(k as int)[0] == hits@[k as int]@);
            assert(hm.skip(k as int).drop_first() =~= hm.skip(k + 1));
        }
        if !is_blank(&hits[k].snippet) {
            let block: Vec<char> = hit_block(&hits[k]);
            if block.len() > CONTEXT_MAX_CHARS - have {
                return out;
            }
            push_chars(&mut out, block.as_slice());
            have = have + block.len();
        }
        k = k + 1;
    }
    out
}

/// What is sent of the notes stays within its limit.
pub proof fn context_is_capped(hits: Seq<PlaceModel>, out: Seq<char>)
    requires
        out.len() <= CONTEXT_MAX_CHARS,
    ensures
        context_from(hits, out).len() <= CONTEXT_MAX_CHARS,
    decreases hits.len(),
{
    if hits.len() > 0 {
        if trim(hits[0].snippet).len() == 0 {
            context_is_capped(hits.drop_first(), out);
        } else if out.len() + block_of(hits[0]).len() <= CONTEXT_MAX_CHARS {
            context_is_capped(hits.drop_first(), out + block_of(hits[0]));
        }
    }
}

// ---------- the conversation ----------

/// The text that events bring.
pub open spec fn deltas_of(events: Seq<EventModel>) -> Seq<char>
    decreases events.len(),
{
    if events.len() == 0 {
        Seq::empty()
    } else {
        deltas_of(events.drop_last()) + match events.last() {
            EventModel::Delta(d) => d,
            _ => Seq::empty(),
        }
    }
}

/// The last error among events.
pub open spec fn error_of(events: Seq<EventModel>) -> Option<Seq<char>>
    decreases events.len(),
{
    if events.len() == 0 {
        None
    } else {
        match events.last() {
            EventModel::Error(e) => Some(e),
            _ => error_of(events.drop_last()),
        }
    }
}

/// Whether events end a reply.
pub open spec fn ends_reply(events: Seq<EventModel>) -> bool {
    exists|k: int| 0 <= k < events.len() && !(#[trigger] events[k] is Delta)
}

/// What events make of an answer: their text behind it, and then the error.
pub open spec fn answer_after(answer: Seq<char>, events: Seq<EventModel>) -> Seq<char> {
    let a = answer + deltas_of(events);
    match error_of(events) {
        Some(e) => if a.len() == 0 {
            "⚠️ "@ + e
        } else {
            a + "\n\n⚠️ "@ + e
        },
        None => a,
    }
}

/// What events bring: their text, their last error, and whether they end the reply.
pub struct Batch {
    pub text: String,
    pub error: Option<String>,
    pub finished: bool,
}

/// What events bring, taken together.
pub fn fold_events(events: &[AiEvent]) -> (r: Batch)
    ensures
        r.text@ == deltas_of(events_model(events@)),
        opt_text(r.error) == error_of(events_model(events@)),
        r.finished == ends_reply(events_model(events@)),
{
    let ghost em = events_model(events@);
    let mut text: String = String::new();
    let mut error: Option<String> = None;
    let mut finished: bool = false;
    let mut k: usize = 0;
    proof {
        assert(text@ =~= Seq::<char>::empty());
        assert(em.take(0) =~= Seq::empty());
    }
    while k < events.len()
        invariant
            0 <= k <= events@.len(),
            em == events_model(events@),
            text@ == deltas_of(em.take(k as int)),
            opt_text(error) == error_of(em.take(k as int)),
            finished == exists|j: int| 0 <= j < k && !(#[trigger] em[j] is Delta),
        decreases events@.len() - k,
    {
        proof {
            assert(em.take(k + 1).drop_last() =~= em.take(k as int));
            assert(em.take(k + 1).last() == em[k as int]);
            assert(em[k as int] == events@[k as int]@);
        }
        let ghost was = finished;
        let ghost before = text@;
        match &events[k] {
            AiEvent::Delta(d) => {
                let dc: Vec<char> = chars_of(d);
                push_chars(&mut text, dc.as_slice());
            },
            AiEvent::Done => {
                finished = true;
            },
            AiEvent::Error(e) => {
                error = Some(e.clone());
                finished = true;
            },
        }
        proof {
            assert(before + Seq::<char>::empty() =~= before);
            if was {
                let j = choose|j: int| 0 <= j < k && !(#[trigger] em[j] is Delta);
                assert(!(em[j] is Delta));
            }
        }
        k = k + 1;
    }
    proof {
        assert(em.take(k as int) =~= em);
    }
    Batch { text, error, finished }
}

/// A conversation about the notes.
pub struct Chat {
    pub turns: Vec<Turn>,
    /// Whether an answer is still coming.
    pub streaming: bool,
}

/// What is asked, if the input asks anything.
pub open spec fn question_in(input: Seq<char>, streaming: bool) -> Option<Seq<char>> {
    if streaming || trim(input).len() == 0 {
        None
    } else {
        Some(trim(input))
    }
}

impl Chat {
    /// A conversation before the first question.
    pub fn new() -> (r: Chat)
        ensures
            r.turns@.len() == 0,
            !r.streaming,
    {
        Chat { turns: Vec::new(), streaming: false }
    }

    /// The question in the input. While an answer is still coming there is none.
    pub fn question(&self, input: &str) -> (r: Option<String>)
        ensures
            opt_text(r) == question_in(input@, self.streaming),
    {
        if self.streaming || is_blank(input) {
            return None;
        }
        let cs: Vec<char> = chars_of(input);
        Some(string_of(trim_chars(cs.as_slice())))
    }

    /// Asks a question, with what the notes say about it. What comes back is the action
    /// to run; none if there is no endpoint, which the answer to the first question then
    /// says. `read` holds the text of each note as it is now.
    pub fn ask(
        &mut self,
        index: &VaultIndex,
        read: &Vec<Option<String>>,
        cfg: &AiConfig,
        question: String,
    ) -> (r: Option<Task>)
        requires
            index.wf(),
        ensures
            ({
                let hits = found(
                    index@,
                    read@,
                    question@,
                    HITS_PER_NOTE as int,
                    HITS_TOTAL as int,
                );
                let context = context_from(hits, Seq::empty());
                let refused = old(self).turns@.len() == 0 && !cfg@.is_configured();
                &&& turns_model(final(self).turns@) == turns_model(old(self).turns@).push(
                    TurnModel {
                        question: question@,
                        answer: if refused {
                            NO_ENDPOINT@
                        } else {
                            Seq::empty()
                        },
                        sources: hits,
                    },
                )
                &&& final(self).streaming == (!refused || old(self).streaming)
                &&& r is None == refused
                &&& r matches Some(task) ==> task@ == TaskModel::Chat(
                    if trim(context).len() == 0 {
                        None
                    } else {
                        Some(context)
                    },
                )
            }),
    {
        let ghost before = self.turns@;
        let hits: Vec<SearchHit> = index.search(&question, HITS_PER_NOTE, HITS_TOTAL, read);
        let context: String = build_context(hits.as_slice());
        let ghost hm = hits_model(hits@);
        let ghost qm = question@;
        if self.turns.len() == 0 && !cfg.is_configured() {
            self.turns.push(Turn { question, answer: NO_ENDPOINT.to_owned(), sources: hits });
            proof {
                assert(turns_model(self.turns@) =~= turns_model(before).push(
                    TurnModel { question: qm, answer: NO_ENDPOINT@, sources: hm },
                ));
            }
            return None;
        }
        let answer: String = String::new();
        proof {
            assert(answer@ =~= Seq::<char>::empty());
        }
        self.turns.push(Turn { question, answer, sources: hits });
        self.streaming = true;
        proof {
            assert(turns_model(self.turns@) =~= turns_model(before).push(
                TurnModel { question: qm, answer: Seq::empty(), sources: hm },
            ));
        }
        let sent: Option<String> = if is_blank(&context) {
            None
        } else {
            Some(context)
        };
        Some(Task::Chat { context: sent })
    }

    /// Takes what has come of the answer; says whether it is complete.
    pub fn take(&mut self, events: &[AiEvent]) -> (r: bool)
        ensures
            ({
                let em = events_model(events@);
                let before = turns_model(old(self).turns@);
                &&& r == ends_reply(em)
                &&& final(self).streaming == (old(self).streaming && !r)
                &&& turns_model(final(self).turns@) == if before.len() == 0 {
                    before
                } else {
                    before.drop_last().push(
                        TurnModel {
                            answer: answer_after(before.last().answer, em),
                            ..before.last()
                        },
                    )
                }
            }),
    {
        let batch: Batch = fold_events(events);
        let ghost em = events_model(events@);
        let ghost before = turns_model(self.turns@);
        let ghost old_turns = self.turns@;
        if let Some(turn) = self.turns.pop() {
            let ghost tm = turn@;
            proof {
                assert(tm == before.last());
            }
            let added: String = glue(&turn.answer, &batch.text);
            let answer: String = match batch.error {
                Some(e) => if added.as_str().is_empty() {
                    glue("⚠️ ", &e)
                } else {
                    glue(&glue(&added, "\n\n⚠️ "), &e)
                },
                None => added,
            };
            let ghost am = answer@;
            self.turns.push(Turn { question: turn.question, answer, sources: turn.sources });
            proof {
                assert(am == answer_after(before.last().answer, em));
                assert(turns_model(self.turns@) =~= before.drop_last().push(
                    TurnModel { answer: am, ..before.last() },
                ));
            }
        } else {
            proof {
                assert(turns_model(self.turns@) =~= before);
            }
        }
        if batch.finished {
            self.streaming = false;
        }
        batch.finished
    }

    /// Stops waiting for the answer.
    pub fn cancel(&mut self)
        ensures
            final(self).turns@ == old(self).turns@,
            !final(self).streaming,
    {
        self.streaming = false;
    }
}

} // verus!
