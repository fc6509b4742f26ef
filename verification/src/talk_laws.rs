//! What is promised of talking to a model: what it is asked, how its reply is read, and what
//! is shown of it.
use crate::ai::config::{chosen, AiConfigModel};
use crate::ai::prompt::{
    context_of, request_of, rules_of, MessageModel, TaskModel, CHAT_SYSTEM, COMPLETE_SYSTEM,
    EDITOR_SYSTEM,
};
use crate::ai::request_for;
use crate::ai::sse::{
    bytes_say, line_end, line_of, one_line, packet_of, payload_of, read_of, summary_of, EventModel,
    Json, SseModel,
};
use crate::block::same_ignoring_case;
use crate::block_laws::{is_white, lemma_cut_ends, lemma_cut_start, times};
use crate::chat::{answer_after, block_of, context_from, deltas_of, ends_reply, error_of, question_in};
use crate::index::PlaceModel;
use crate::text::{
    blen, digits_of, floor_index, has_text, is_space, lemma_floor_index_off, lemma_word_len_is,
    trim, trim_run_end, trim_start, word_len,
};
use vstd::prelude::*;

verus! {

// ---------- the service ----------

/// Requests go to the address of the service, whatever slashes end it.
pub proof fn requests_go_to_the_service(c: AiConfigModel, base: Seq<char>, n: nat)
    requires
        c.base_url == base + times('/', n),
        base.len() == 0 || base.last() != '/',
    ensures
        c.chat_endpoint() == base + seq![
            '/',
            'c',
            'h',
            'a',
            't',
            '/',
            'c',
            'o',
            'm',
            'p',
            'l',
            'e',
            't',
            'i',
            'o',
            'n',
            's',
        ],
{
    reveal_strlit("/chat/completions");
    lemma_slashes(base, n);
    assert("/chat/completions"@ =~= seq![
        '/',
        'c',
        'h',
        'a',
        't',
        '/',
        'c',
        'o',
        'm',
        'p',
        'l',
        'e',
        't',
        'i',
        'o',
        'n',
        's',
    ]);
}

proof fn lemma_slashes(base: Seq<char>, n: nat)
    requires
        base.len() == 0 || base.last() != '/',
    ensures
        trim_run_end(base + times('/', n), '/') == base,
    decreases n,
{
    let s = base + times('/', n);
    if n == 0 {
        assert(s =~= base);
    } else {
        let m = (n - 1) as nat;
        assert(s.last() == '/');
        assert(s.drop_last() =~= base + times('/', m));
        lemma_slashes(base, m);
    }
}

/// A service whose address holds the name of this machine, in upper or lower case, needs no
/// key; any other does.
pub proof fn local_services_need_no_key(c: AiConfigModel, a: Seq<char>, w: Seq<char>, b: Seq<char>)
    requires
        c.base_url == a + w + b,
        same_ignoring_case(w, "localhost"@) || same_ignoring_case(w, "127.0.0.1"@)
            || same_ignoring_case(w, "0.0.0.0"@),
    ensures
        c.is_local(),
        trim(c.model).len() > 0 && trim(c.base_url).len() > 0 ==> c.is_configured(),
{
    let pat = if same_ignoring_case(w, "localhost"@) {
        "localhost"@
    } else if same_ignoring_case(w, "127.0.0.1"@) {
        "127.0.0.1"@
    } else {
        "0.0.0.0"@
    };
    let u = crate::ai::config::ascii_lowered(c.base_url);
    let i = a.len() as int;
    reveal_strlit("localhost");
    reveal_strlit("127.0.0.1");
    reveal_strlit("0.0.0.0");
    assert forall|k: int| 0 <= k < pat.len() implies crate::block::ascii_lower(#[trigger] pat[k])
        == pat[k] by {}
    assert(u.subrange(i, i + pat.len()) =~= pat) by {
        assert forall|k: int| 0 <= k < pat.len() implies #[trigger] u.subrange(i, i + pat.len())[k]
            == pat[k] by {
            assert(c.base_url[i + k] == w[k]);
            assert(crate::block::ascii_lower(w[k]) == crate::block::ascii_lower(pat[k]));
        }
    }
    crate::query_laws::holding_is_standing_inside(u, pat);
}

/// A service can be asked if it has an address and a model, and a key unless it is local.
pub proof fn services_need_an_address_and_a_model(c: AiConfigModel)
    ensures
        c.is_configured() ==> !is_white(c.base_url) && !is_white(c.model),
        c.is_configured() && is_white(c.api_key) ==> c.is_local(),
        c.is_local() ==> has_text(crate::ai::config::ascii_lowered(c.base_url), "localhost"@)
            || has_text(crate::ai::config::ascii_lowered(c.base_url), "127.0.0.1"@) || has_text(
            crate::ai::config::ascii_lowered(c.base_url),
            "0.0.0.0"@,
        ),
        !is_white(c.base_url) && !is_white(c.model) && !is_white(c.api_key) ==> c.is_configured(),
{
    lemma_white(c.base_url);
    lemma_white(c.model);
    lemma_white(c.api_key);
}

/// Nothing is left of a text by cutting off white space if and only if it is white.
pub proof fn lemma_white(s: Seq<char>)
    ensures
        trim(s).len() == 0 <==> is_white(s),
{
    crate::text::lemma_lead_spaces(s);
    let t = trim_start(s);
    crate::text::lemma_trim_end(t);
    let n = crate::text::lead_spaces(s);
    if is_white(s) {
        if n < s.len() {
            assert(is_space(s[n]));
        }
        assert(t.len() == 0);
    } else {
        let k = choose|k: int| 0 <= k < s.len() && !is_space(#[trigger] s[k]);
        assert(n <= k);
        assert(n < s.len());
        assert(t[0] == s[n]);
        if trim(s).len() == 0 {
            assert(is_space(t[0]));
        }
    }
}

/// Text is completed by a model of its own if there is one.
pub proof fn completion_has_its_model(c: AiConfigModel)
    ensures
        c.completion_model matches Some(m) ==> c.model_for_completion() == m,
        c.completion_model is None ==> c.model_for_completion() == c.model,
{
}

// ---------- requests ----------

/// What is sent to complete a text is what stands before the cursor, and what stands behind it
/// if that is more than white space: of the one no more than the last twelve hundred
/// characters, of the other the first three hundred.
pub proof fn completion_sees_both_sides(a: Seq<char>, b: Seq<char>)
    ensures
        ({
            let x = if a.len() > 1200 {
                a.skip(a.len() - 1200)
            } else {
                a
            };
            let y = if b.len() > 300 {
                b.take(300)
            } else {
                b
            };
            let r = context_of(a + b, blen(a) as int);
            &&& is_white(y) ==> r == x
            &&& !is_white(y) ==> (x + seq!['<', 'C', 'U', 'R', 'S', 'O', 'R', '>'] + y).is_prefix_of(r)
        }),
{
    let s = a + b;
    assert(s.take(a.len() as int) =~= a);
    lemma_floor_index_off(s, a.len() as int);
    let x = if a.len() > 1200 {
        a.skip(a.len() - 1200)
    } else {
        a
    };
    let y = if b.len() > 300 {
        b.take(300)
    } else {
        b
    };
    let c = a.len() as int;
    assert(floor_index(s, blen(a) as int) == c);
    assert(s.subrange(crate::ai::prompt::context_start(c), c) =~= x);
    assert(s.subrange(c, crate::ai::prompt::context_end(s, c)) =~= y);
    lemma_white(y);
    reveal_strlit("<CURSOR>");
    assert("<CURSOR>"@ =~= seq!['<', 'C', 'U', 'R', 'S', 'O', 'R', '>']);
    let head = x + seq!['<', 'C', 'U', 'R', 'S', 'O', 'R', '>'] + y;
    let r = context_of(s, blen(a) as int);
    if !is_white(y) {
        assert(r.take(head.len() as int) =~= head);
    }
}

/// Whatever is asked, the text that it is asked of stands at the end of the request, as it is;
/// only an instruction of one's own stands alone where no text is selected.
pub proof fn requests_end_with_the_text(task: TaskModel, selected: Seq<char>)
    requires
        !(task is Custom && is_white(selected)),
    ensures
        selected.is_suffix_of(request_of(task, selected)),
        task matches TaskModel::Custom(i) ==> i.is_prefix_of(request_of(task, selected)),
        task matches TaskModel::Chat(Some(ctx)) && is_white(ctx) ==> request_of(task, selected)
            == selected,
        task == TaskModel::Chat(None) ==> request_of(task, selected) == selected,
{
    let r = request_of(task, selected);
    lemma_white(selected);
    if let TaskModel::Chat(Some(ctx)) = task {
        lemma_white(ctx);
    }
    assert(r.skip(r.len() - selected.len()) =~= selected);
    if let TaskModel::Custom(i) = task {
        assert(r.take(i.len() as int) =~= i);
    }
}

/// An instruction stands alone where no text is selected.
pub proof fn instructions_can_stand_alone(i: Seq<char>, selected: Seq<char>)
    requires
        is_white(selected),
    ensures
        request_of(TaskModel::Custom(i), selected) == i,
{
    lemma_white(selected);
}

/// A request goes to the service with its model and messages, and with the key if there is one;
/// a service that cannot be asked is told of.
pub proof fn requests_carry_the_messages(
    c: AiConfigModel,
    messages: Seq<MessageModel>,
    model: Seq<char>,
)
    ensures
        c.is_configured() ==> (request_for(c, messages, model) matches Ok(r) && {
            &&& r.url == c.chat_endpoint()
            &&& r.messages == messages
            &&& r.model == model
            &&& r.stream
            &&& is_white(c.api_key) ==> r.bearer is None
            &&& !is_white(c.api_key) ==> r.bearer == Some(trim(c.api_key))
            &&& r.temperature == c.temperature && r.max_tokens == c.max_tokens
        }),
        !c.is_configured() ==> (request_for(c, messages, model) matches Err(e) && e is Error),
{
    lemma_white(c.api_key);
}

/// What is said of the service counts if it is more than white space; else what was kept does.
pub proof fn what_is_said_counts(said: String, kept: Seq<char>)
    ensures
        !is_white(said@) ==> chosen(Some(said), kept) == said@,
        is_white(said@) ==> chosen(Some(said), kept) == kept,
        chosen(None, kept) == kept,
{
    lemma_white(said@);
}

/// Completing and answering have rules of their own; all other tasks are those of an editor.
pub proof fn tasks_have_their_rules(t: Seq<char>, ctx: Option<Seq<char>>)
    ensures
        rules_of(TaskModel::Complete) == COMPLETE_SYSTEM@,
        rules_of(TaskModel::Chat(ctx)) == CHAT_SYSTEM@,
        rules_of(TaskModel::Polish) == EDITOR_SYSTEM@,
        rules_of(TaskModel::Translate(t)) == EDITOR_SYSTEM@,
        rules_of(TaskModel::Summarize) == EDITOR_SYSTEM@,
        rules_of(TaskModel::Explain) == EDITOR_SYSTEM@,
        rules_of(TaskModel::Custom(t)) == EDITOR_SYSTEM@,
{
}

// ---------- replies ----------

/// A line is read by what follows `data:`, whatever white space stands around it.
pub proof fn data_is_what_follows(a: Seq<char>, b: Seq<char>, p: Seq<char>, c: Seq<char>)
    requires
        is_white(a) && is_white(b) && is_white(c),
        p.len() > 0,
        !is_space(p[0]),
        !is_space(p.last()),
    ensures
        payload_of(a + (seq!['d', 'a', 't', 'a', ':'] + b + p) + c) == p,
{
    let head = seq!['d', 'a', 't', 'a', ':'];
    let t = head + b + p;
    assert(t.last() == p.last());
    lemma_cut_ends(a, t, c);
    reveal_strlit("data:");
    assert("data:"@ =~= head);
    assert(head.is_prefix_of(t));
    let none = Seq::<char>::empty();
    lemma_cut_ends(b, p, none);
    assert(t.skip(5) =~= b + p + none);
}

/// Empty lines and comments are passed over, and so is what is no object; `[DONE]` ends the
/// reply.
pub proof fn lines_that_say_nothing_are_passed_over(
    a: Seq<char>,
    p: Seq<char>,
    c: Seq<char>,
    v: Option<Json>,
)
    requires
        is_white(a) && is_white(c),
        p.len() > 0 ==> !is_space(p[0]) && !is_space(p.last()),
    ensures
        p.len() == 0 ==> line_of(a + p + c, v) == SseModel::Skip,
        p.len() > 0 && p[0] == ':' ==> line_of(a + p + c, v) == SseModel::Skip,
        p == seq!['[', 'D', 'O', 'N', 'E', ']'] ==> line_of(a + p + c, v) == SseModel::Done,
        p == seq!['[', 'D', 'O', 'N', 'E', ']'] ==> line_of(
            a + (seq!['d', 'a', 't', 'a', ':'] + a + p) + c,
            v,
        ) == SseModel::Done,
        p.len() > 0 && p[0] != '{' && p != seq!['[', 'D', 'O', 'N', 'E', ']'] ==> line_of(
            a + (seq!['d', 'a', 't', 'a', ':'] + a + p) + c,
            v,
        ) == SseModel::Skip,
{
    reveal_strlit("data:");
    reveal_strlit("[DONE]");
    let done = seq!['[', 'D', 'O', 'N', 'E', ']'];
    assert("[DONE]"@ =~= done);
    let head = seq!['d', 'a', 't', 'a', ':'];
    assert("data:"@ =~= head);
    if p.len() == 0 {
        let s = a + p + c;
        assert(is_white(s)) by {
            assert forall|k: int| 0 <= k < s.len() implies is_space(#[trigger] s[k]) by {
                if k < a.len() {
                    assert(s[k] == a[k]);
                } else {
                    assert(s[k] == c[k - a.len()]);
                }
            }
        }
        lemma_white(s);
    } else {
        lemma_cut_ends(a, p, c);
        data_is_what_follows(a, a, p, c);
        let t = head + a + p;
        assert(t.last() == p.last());
        lemma_cut_ends(a, t, c);
        assert(t[0] == 'd');
        if p == done {
            assert(p[0] == '[');
            if head.is_prefix_of(p) {
                assert(p[0] == head[0]);
            }
        }
    }
}

/// An object behind `data:` says what it says.
pub proof fn objects_are_read(a: Seq<char>, b: Seq<char>, p: Seq<char>, c: Seq<char>, v: Json)
    requires
        is_white(a) && is_white(b) && is_white(c),
        p.len() > 0,
        p[0] == '{',
        !is_space(p.last()),
    ensures
        line_of(a + (seq!['d', 'a', 't', 'a', ':'] + b + p) + c, Some(v)) == packet_of(v),
        line_of(a + (seq!['d', 'a', 't', 'a', ':'] + b + p) + c, None) == SseModel::Skip,
{
    data_is_what_follows(a, b, p, c);
    let t = seq!['d', 'a', 't', 'a', ':'] + b + p;
    assert(t.last() == p.last());
    lemma_cut_ends(a, t, c);
    assert(t[0] == 'd');
    reveal_strlit("[DONE]");
}

/// An object whose first choice brings text adds that text; a choice that is finished ends the
/// reply; an error is shown.
pub proof fn choices_bring_text(
    m: Map<Seq<char>, Json>,
    list: Seq<Json>,
    choice: Map<Seq<char>, Json>,
    part: Map<Seq<char>, Json>,
    s: Seq<char>,
)
    ensures
        !m.contains_key("error"@) && m.contains_key("choices"@) && m["choices"@] == Json::Array(list)
            && list.len() > 0 && list[0] == Json::Object(choice) && choice.contains_key("delta"@)
            && choice["delta"@] == Json::Object(part) && part.contains_key("content"@)
            && part["content"@] == Json::Text(s) && s.len() > 0 ==> packet_of(Json::Object(m))
            == SseModel::Delta(s),
        !m.contains_key("error"@) && m.contains_key("choices"@) && m["choices"@] == Json::Array(list)
            && list.len() > 0 && list[0] == Json::Object(choice) && !choice.contains_key("delta"@)
            && choice.contains_key("message"@) && choice["message"@] == Json::Object(part)
            && part.contains_key("content"@) && part["content"@] == Json::Text(s) && s.len() > 0
            ==> packet_of(Json::Object(m)) == SseModel::Delta(s),
        !m.contains_key("error"@) && m.contains_key("choices"@) && m["choices"@] == Json::Array(list)
            && list.len() > 0 && list[0] == Json::Object(choice) && !choice.contains_key("delta"@)
            && !choice.contains_key("message"@) ==> packet_of(Json::Object(m)) == if choice.contains_key(
            "finish_reason"@,
        ) && choice["finish_reason"@] != Json::Null {
            SseModel::Done
        } else {
            SseModel::Skip
        },
        !m.contains_key("error"@) && !m.contains_key("choices"@) ==> packet_of(Json::Object(m))
            == SseModel::Skip,
        m.contains_key("error"@) && m["error"@] == Json::Object(part) && part.contains_key(
            "message"@,
        ) && part["message"@] == Json::Text(s) ==> packet_of(Json::Object(m)) == SseModel::Delta(
            seq!['\n', '[', '错', '误', ']', ' '] + s + seq!['\n'],
        ),
{
    reveal_strlit("\n[错误] ");
    reveal_strlit("\n");
    assert("\n[错误] "@ =~= seq!['\n', '[', '错', '误', ']', ' ']);
    assert("\n"@ =~= seq!['\n']);
}

/// Lines are read one after the other; what has no line break yet waits.
pub proof fn lines_are_read_in_order(line: Seq<u8>, rest: Seq<u8>)
    requires
        forall|k: int| 0 <= k < line.len() ==> #[trigger] line[k] != 10,
    ensures
        read_of(line).events.len() == 0 && read_of(line).pending == line && !read_of(line).over,
        ({
            let r = read_of(line + seq![10u8] + rest);
            match bytes_say(line) {
                SseModel::Skip => r == read_of(rest),
                SseModel::Done => r.events == seq![EventModel::Done] && r.over,
                SseModel::Delta(d) => {
                    &&& r.pending == read_of(rest).pending && r.over == read_of(rest).over
                    &&& r.events == (if d.len() == 0 {
                        Seq::empty()
                    } else {
                        seq![EventModel::Delta(d)]
                    }) + read_of(rest).events
                },
            }
        }),
{
    let b = line + seq![10u8] + rest;
    let n = line.len() as int;
    lemma_line_end(line, n);
    assert forall|k: int| 0 <= k < n implies #[trigger] b[k] != 10 by {
        assert(b[k] == line[k]);
    }
    lemma_line_end(b, n);
    assert(b.take(n) =~= line);
    assert(b.skip(n + 1) =~= rest);
    let none = Seq::<EventModel>::empty();
    assert(none + read_of(rest).events =~= read_of(rest).events);
}

proof fn lemma_line_end(b: Seq<u8>, n: int)
    requires
        0 <= n <= b.len(),
        forall|k: int| 0 <= k < n ==> #[trigger] b[k] != 10,
        n < b.len() ==> b[n] == 10,
    ensures
        line_end(b) == n,
    decreases b.len(),
{
    if n > 0 {
        assert(b[0] != 10);
        let t = b.drop_first();
        assert forall|k: int| 0 <= k < n - 1 implies #[trigger] t[k] != 10 by {
            assert(t[k] == b[k + 1]);
        }
        lemma_line_end(t, n - 1);
    }
}

/// A message is brought onto one line: its words with one blank between each two.
pub proof fn words_stand_on_one_line(a: Seq<char>, w: Seq<char>, s: Seq<char>)
    requires
        is_white(a),
        w.len() > 0,
        forall|k: int| 0 <= k < w.len() ==> !is_space(#[trigger] w[k]),
        s.len() > 0 ==> is_space(s[0]),
    ensures
        one_line(a).len() == 0,
        is_white(s) ==> one_line(a + w + s) == w,
        !is_white(s) ==> one_line(a + w + s) == w + seq![' '] + one_line(s),
{
    let t = w + s;
    assert(a + w + s =~= a + t);
    assert(t[0] == w[0]);
    lemma_cut_start(a, t);
    let n = w.len() as int;
    assert forall|k: int| 0 <= k < n implies !is_space(#[trigger] t[k]) by {
        assert(t[k] == w[k]);
    }
    if s.len() > 0 {
        assert(t[n] == s[0]);
    }
    lemma_word_len_is(t, n);
    assert(t.take(n) =~= w);
    assert(t.skip(n) =~= s);
    lemma_one_line_empty(a);
    lemma_one_line_empty(s);
    assert(w.push(' ') =~= w + seq![' ']);
}

proof fn lemma_one_line_empty(s: Seq<char>)
    ensures
        one_line(s).len() == 0 <==> is_white(s),
{
    crate::text::lemma_lead_spaces(s);
    let t = trim_start(s);
    crate::text::lemma_word_len(t);
    let n = crate::text::lead_spaces(s);
    if is_white(s) {
        if n < s.len() {
            assert(is_space(s[n]));
        }
        assert(t.len() == 0);
    } else {
        let k = choose|k: int| 0 <= k < s.len() && !is_space(#[trigger] s[k]);
        assert(n <= k);
        assert(t[0] == s[n]);
        if word_len(t) == 0 {
            assert(is_space(t[0]));
        }
    }
}

/// A refusal is shown by its message, or else by the start of what came, on one line.
pub proof fn refusals_are_shown(
    body: Seq<char>,
    m: Map<Seq<char>, Json>,
    e: Map<Seq<char>, Json>,
    s: Seq<char>,
)
    ensures
        one_line(body).len() <= 200 ==> summary_of(body, None) == one_line(body),
        one_line(body).len() > 200 ==> summary_of(body, None) == one_line(body).take(200),
        !m.contains_key("error"@) ==> summary_of(body, Some(Json::Object(m))) == summary_of(
            body,
            None,
        ),
        m.contains_key("error"@) && m["error"@] == Json::Object(e) && e.contains_key("message"@)
            && e["message"@] == Json::Text(s) ==> summary_of(body, Some(Json::Object(m))) == s,
{
    let l = one_line(body);
    assert(l.take(l.len() as int) =~= l);
}

// ---------- the conversation ----------

/// The blocks of the places that show anything.
pub open spec fn blocks(hits: Seq<PlaceModel>) -> Seq<char>
    decreases hits.len(),
{
    if hits.len() == 0 {
        Seq::empty()
    } else if is_white(hits.last().snippet) {
        blocks(hits.drop_last())
    } else {
        blocks(hits.drop_last()) + block_of(hits.last())
    }
}

proof fn lemma_blocks_front(h: PlaceModel, rest: Seq<PlaceModel>)
    ensures
        blocks(seq![h] + rest) == (if is_white(h.snippet) {
            Seq::empty()
        } else {
            block_of(h)
        }) + blocks(rest),
    decreases rest.len(),
{
    let none = Seq::<PlaceModel>::empty();
    let front = if is_white(h.snippet) {
        Seq::empty()
    } else {
        block_of(h)
    };
    if rest.len() == 0 {
        assert(seq![h] + rest =~= seq![h]);
        assert(seq![h].drop_last() =~= none);
        assert(blocks(none) =~= Seq::<char>::empty());
        assert(blocks(seq![h]) =~= front);
        assert(front + blocks(rest) =~= front);
    } else {
        let all = seq![h] + rest;
        assert(all.drop_last() =~= seq![h] + rest.drop_last());
        assert(all.last() == rest.last());
        lemma_blocks_front(h, rest.drop_last());
        assert(blocks(all) =~= front + blocks(rest));
    }
}

/// What a question is sent with are the places that were found, from the first on and as many
/// as four thousand characters hold; places that show nothing are left out.
pub proof fn questions_are_sent_with_places(hits: Seq<PlaceModel>, out: Seq<char>) -> (k: int)
    requires
        out.len() <= 4000,
    ensures
        0 <= k <= hits.len(),
        context_from(hits, out) == out + blocks(hits.take(k)),
        k < hits.len() ==> !is_white(hits[k].snippet) && context_from(hits, out).len() + block_of(
            hits[k],
        ).len() > 4000,
        context_from(hits, out).len() <= 4000,
    decreases hits.len(),
{
    let none = Seq::<PlaceModel>::empty();
    assert(hits.take(0) =~= none);
    assert(blocks(none) =~= Seq::<char>::empty());
    assert(out + blocks(none) =~= out);
    if hits.len() == 0 {
        0
    } else {
        let h = hits[0];
        let rest = hits.drop_first();
        lemma_white(h.snippet);
        if is_white(h.snippet) {
            let k = questions_are_sent_with_places(rest, out);
            lemma_blocks_front(h, rest.take(k));
            assert(hits.take(k + 1) =~= seq![h] + rest.take(k));
            assert(Seq::<char>::empty() + blocks(rest.take(k)) =~= blocks(rest.take(k)));
            k + 1
        } else if out.len() + block_of(h).len() > 4000 {
            0
        } else {
            let k = questions_are_sent_with_places(rest, out + block_of(h));
            lemma_blocks_front(h, rest.take(k));
            assert(hits.take(k + 1) =~= seq![h] + rest.take(k));
            assert(out + block_of(h) + blocks(rest.take(k)) =~= out + (block_of(h) + blocks(
                rest.take(k),
            )));
            k + 1
        }
    }
}

/// A place is sent under its note and line, counted from one.
pub proof fn places_are_sent_under_their_note(h: PlaceModel)
    requires
        h.line >= 0,
    ensures
        block_of(h) == seq!['#', '#', '#', ' '] + h.name + seq![' ', '（', '第', ' '] + digits_of(
            (h.line + 1) as nat,
        ) + seq![' ', '行', '）', '\n'] + trim(h.snippet) + seq!['\n', '\n'],
{
    reveal_strlit("### ");
    reveal_strlit(" （第 ");
    reveal_strlit(" 行）\n");
    reveal_strlit("\n\n");
    assert("### "@ =~= seq!['#', '#', '#', ' ']);
    assert(" （第 "@ =~= seq![' ', '（', '第', ' ']);
    assert(" 行）\n"@ =~= seq![' ', '行', '）', '\n']);
    assert("\n\n"@ =~= seq!['\n', '\n']);
}

/// What a reply brings is put behind what it has brought, piece by piece; an error ends it and
/// is shown behind.
pub proof fn answers_grow_piece_by_piece(
    answer: Seq<char>,
    events: Seq<EventModel>,
    d: Seq<char>,
    e: Seq<char>,
)
    requires
        error_of(events) is None,
    ensures
        answer_after(answer, Seq::empty()) == answer,
        answer_after(answer, events.push(EventModel::Delta(d))) == answer_after(answer, events) + d,
        answer_after(answer, events.push(EventModel::Done)) == answer_after(answer, events),
        answer_after(answer, events).len() > 0 ==> answer_after(
            answer,
            events.push(EventModel::Error(e)),
        ) == answer_after(answer, events) + seq!['\n', '\n', '\u{26a0}', '\u{fe0f}', ' '] + e,
        answer_after(answer, events).len() == 0 ==> answer_after(
            answer,
            events.push(EventModel::Error(e)),
        ) == seq!['\u{26a0}', '\u{fe0f}', ' '] + e,
{
    let none = Seq::<EventModel>::empty();
    assert(deltas_of(none) =~= Seq::<char>::empty());
    assert(error_of(none) is None);
    assert(answer + Seq::<char>::empty() =~= answer);
    let (x, y, z) = (
        events.push(EventModel::Delta(d)),
        events.push(EventModel::Done),
        events.push(EventModel::Error(e)),
    );
    assert(x.drop_last() =~= events);
    assert(y.drop_last() =~= events);
    assert(z.drop_last() =~= events);
    let a = answer + deltas_of(events);
    assert(answer + deltas_of(x) =~= a + d);
    assert(answer + deltas_of(y) =~= a);
    assert(answer + deltas_of(z) =~= a);
    assert(error_of(x) == error_of(events));
    assert(error_of(y) == error_of(events));
    assert(error_of(z) == Some(e));
    reveal_strlit("⚠️ ");
    reveal_strlit("\n\n⚠️ ");
    assert("⚠️ "@ =~= seq!['\u{26a0}', '\u{fe0f}', ' ']);
    assert("\n\n⚠️ "@ =~= seq!['\n', '\n', '\u{26a0}', '\u{fe0f}', ' ']);
}

/// A reply has ended once anything but text has come.
pub proof fn replies_end_with_what_is_no_text(events: Seq<EventModel>, d: Seq<char>, e: Seq<char>)
    ensures
        !ends_reply(Seq::empty()),
        ends_reply(events.push(EventModel::Delta(d))) == ends_reply(events),
        ends_reply(events.push(EventModel::Done)),
        ends_reply(events.push(EventModel::Error(e))),
{
    let n = events.len() as int;
    let x = events.push(EventModel::Delta(d));
    if ends_reply(events) {
        let k = choose|k: int| 0 <= k < n && !(#[trigger] events[k] is Delta);
        assert(!(x[k] is Delta));
    }
    if ends_reply(x) {
        let k = choose|k: int| 0 <= k < x.len() && !(#[trigger] x[k] is Delta);
        assert(x[k] == events[k]);
    }
    assert(!(events.push(EventModel::Done)[n] is Delta));
    assert(!(events.push(EventModel::Error(e))[n] is Delta));
}

/// A question is what is typed without the white space around it; nothing is asked while a
/// reply comes, and nothing if nothing is typed.
pub proof fn questions_are_asked_one_by_one(a: Seq<char>, q: Seq<char>, b: Seq<char>)
    requires
        is_white(a) && is_white(b),
        q.len() > 0,
        !is_space(q[0]),
        !is_space(q.last()),
    ensures
        question_in(a + q + b, false) == Some(q),
        question_in(a + q + b, true) is None,
        question_in(a, false) is None,
{
    lemma_cut_ends(a, q, b);
    lemma_white(a);
}

} // verus!
