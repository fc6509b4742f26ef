//! The editing pane: what keys and the mouse do to the text, which lines are in view, and
//! what the model writes.
use crate::ai::config::{AiConfig, AiConfigModel};
use crate::ai::sse::{events_model, AiEvent, EventModel};
use crate::block::{
    block_at, blocks_from, code_line, heading_level, image_of, is_fence_close, is_rule,
    is_table_delim, is_table_row, item_line, lemma_shape_at, lemma_upto, level_of, list_item,
    opt_text, plain_line, quote_depth, quote_line, row_line, shape_at, upto, BlockModel,
};
use crate::chat::{deltas_of, ends_reply, error_of, fold_events, Batch};
use crate::document::{
    blocks_between, byte_of_line, bytes_between, clamp_to, lemma_byte_of_line, line_at,
    line_of_byte, lines_input, Document,
};
use crate::editor::{
    flushed, fresh_editor, inserted, moved_down, moved_up, moved_word_left, moved_word_right,
    no_goal, placed, room, sel_hi, sel_lo, selection_replaced, streamed, Editor, EditorModel,
};
use crate::input::{with_selection, InputField};
use crate::rope::{lemma_line_count, line_count};
use crate::text::{
    blen, byte_len, chars_of, floor_index, index_at, lead_spaces, lemma_blen_concat, lemma_run_of,
    starts_with, string_of, trim, trim_chars, trim_start, trim_start_chars,
};
use std::ops::Range;
use vstd::prelude::*;
use vstd::slice::slice_subrange;

verus! {

// ---------- scrolling ----------

/// How many lines are kept between the cursor and the edge of the view.
pub const SCROLL_PAD: usize = 2;

/// The first line in view, so that line `line` is in view with some lines around it, where
/// `rows` lines fit in and `scroll` was the first one.
pub open spec fn revealed(scroll: int, rows: int, line: int) -> int {
    let bottom = scroll + if rows > SCROLL_PAD + 1 {
        rows - SCROLL_PAD - 1
    } else {
        0
    };
    if line < scroll + SCROLL_PAD {
        if line > SCROLL_PAD {
            line - SCROLL_PAD
        } else {
            0
        }
    } else if line > bottom {
        line + SCROLL_PAD + 1 - if rows > SCROLL_PAD + 2 {
            rows
        } else {
            SCROLL_PAD + 2
        }
    } else {
        scroll
    }
}

/// A line that is revealed is in view.
pub proof fn revealed_line_is_in_view(scroll: int, rows: int, line: int)
    requires
        0 <= scroll,
        0 <= line,
        rows > SCROLL_PAD,
    ensures
        0 <= revealed(scroll, rows, line) <= line < revealed(scroll, rows, line) + rows,
{
}

/// Which lines are in view.
#[derive(Clone, Copy, Debug, PartialEq, Eq, Structural)]
pub struct Scroll {
    /// The first line in view.
    pub line: usize,
    /// How many lines fit in.
    pub rows: usize,
}

impl Scroll {
    /// Scrolls down, at most to the last of `total` lines.
    pub fn down(&mut self, n: usize, total: usize)
        ensures
            final(self).rows == old(self).rows,
            final(self).line == ({
                let last = if total > 0 {
                    total - 1
                } else {
                    0
                };
                if old(self).line + n < last {
                    old(self).line + n
                } else {
                    last
                }
            }),
    {
        let last: usize = if total > 0 {
            total - 1
        } else {
            0
        };
        self.line = if self.line < last && n < last - self.line {
            self.line + n
        } else {
            last
        };
    }

    /// Scrolls up.
    pub fn up(&mut self, n: usize)
        ensures
            final(self).rows == old(self).rows,
            final(self).line == if old(self).line > n {
                old(self).line - n
            } else {
                0
            },
    {
        self.line = if self.line > n {
            self.line - n
        } else {
            0
        };
    }

    /// Brings a line into view.
    pub fn bring_in(&mut self, line: usize)
        ensures
            final(self).rows == old(self).rows,
            final(self).line == revealed(old(self).line as int, old(self).rows as int, line as int),
    {
        let (s, rows) = (self.line, self.rows);
        if line < s || line - s < SCROLL_PAD {
            self.line = if line > SCROLL_PAD {
                line - SCROLL_PAD
            } else {
                0
            };
            return ;
        }
        let below: usize = if rows > SCROLL_PAD + 1 {
            rows - SCROLL_PAD - 1
        } else {
            0
        };
        if line - s > below {
            self.line = line - if rows > SCROLL_PAD + 2 {
                rows - SCROLL_PAD - 1
            } else {
                1
            };
        }
    }
}

// ---------- what the model writes ----------

/// The state of what the model writes into the text.
#[derive(Debug)]
pub struct Assist {
    /// What it proposes at the cursor.
    pub proposal: Option<String>,
    /// Whether a proposal is still coming.
    pub completing: bool,
    /// What has come of the proposal.
    pub acc: String,
    /// Whether it is writing into the text.
    pub inserting: bool,
    pub streaming: bool,
}

pub struct AssistModel {
    pub proposal: Option<Seq<char>>,
    pub completing: bool,
    pub acc: Seq<char>,
    pub inserting: bool,
    pub streaming: bool,
}

impl View for Assist {
    type V = AssistModel;

    open spec fn view(&self) -> AssistModel {
        AssistModel {
            proposal: opt_text(self.proposal),
            completing: self.completing,
            acc: self.acc@,
            inserting: self.inserting,
            streaming: self.streaming,
        }
    }
}

/// The model writes nothing.
pub open spec fn idle() -> AssistModel {
    AssistModel {
        proposal: None,
        completing: false,
        acc: Seq::empty(),
        inserting: false,
        streaming: false,
    }
}

/// What has come of a proposal, taken in. An error ends it and takes the proposal away.
pub open spec fn proposal_after(a: AssistModel, events: Seq<EventModel>) -> AssistModel {
    if error_of(events) is Some {
        AssistModel { proposal: None, streaming: false, completing: false, ..a }
    } else {
        let acc = a.acc + deltas_of(events);
        let b = if acc.len() == 0 {
            a
        } else {
            AssistModel { proposal: Some(acc), acc, streaming: false, ..a }
        };
        if ends_reply(events) {
            AssistModel { completing: false, ..b }
        } else {
            b
        }
    }
}

impl Assist {
    /// The model writes nothing.
    pub fn new() -> (r: Assist)
        ensures
            r@ == idle(),
    {
        let acc: String = String::new();
        proof {
            assert(acc@ =~= Seq::<char>::empty());
        }
        Assist { proposal: None, completing: false, acc, inserting: false, streaming: false }
    }

    /// Drops whatever the model was writing.
    pub fn cancel(&mut self)
        ensures
            final(self)@ == idle(),
    {
        *self = Assist::new();
    }

    /// A proposal is asked for.
    pub fn start_completion(&mut self)
        ensures
            final(self)@ == (AssistModel { completing: true, ..old(self)@ }),
    {
        self.completing = true;
    }

    /// Takes in what has come of a proposal; says whether there is no more to come.
    pub fn take_completion(&mut self, events: &[AiEvent]) -> (r: bool)
        ensures
            final(self)@ == proposal_after(old(self)@, events_model(events@)),
            r == ends_reply(events_model(events@)),
    {
        let batch: Batch = fold_events(events);
        proof {
            lemma_error_ends(events_model(events@));
        }
        if batch.error.is_some() {
            self.proposal = None;
            self.streaming = false;
            self.completing = false;
            return true;
        }
        let acc: String = crate::text::glue(&self.acc, &batch.text);
        if !acc.as_str().is_empty() {
            self.acc = acc.clone();
            self.proposal = Some(acc);
            self.streaming = false;
        }
        if batch.finished {
            self.completing = false;
        }
        batch.finished
    }

    /// The proposal was dropped while it was still coming.
    pub fn drop_completion(&mut self)
        ensures
            final(self)@ == (AssistModel { completing: false, proposal: None, ..old(self)@ }),
    {
        self.completing = false;
        self.proposal = None;
    }

    /// Drops the proposal, if there is one or one is coming; says whether there was.
    pub fn dismiss(&mut self) -> (r: bool)
        ensures
            r == (old(self)@.proposal is Some || old(self)@.completing),
            final(self)@ == if r {
                idle()
            } else {
                old(self)@
            },
    {
        if self.proposal.is_some() || self.completing {
            self.cancel();
            true
        } else {
            false
        }
    }
}

proof fn lemma_error_ends(events: Seq<EventModel>)
    ensures
        error_of(events) is Some ==> ends_reply(events),
    decreases events.len(),
{
    if events.len() > 0 {
        match events.last() {
            EventModel::Error(_) => {
                assert(!(events[events.len() - 1] is Delta));
            },
            _ => {
                let front = events.drop_last();
                lemma_error_ends(front);
                if error_of(front) is Some {
                    let k = choose|k: int| 0 <= k < front.len() && !(#[trigger] front[k] is Delta);
                    assert(!(events[k] is Delta));
                }
            },
        }
    }
}

// ---------- outline ----------

/// A heading of the document.
#[derive(Clone, Debug, PartialEq, Eq)]
pub struct Heading {
    pub level: u8,
    pub text: String,
    pub line: usize,
}

pub struct HeadingModel {
    pub level: u8,
    pub text: Seq<char>,
    pub line: int,
}

impl View for Heading {
    type V = HeadingModel;

    open spec fn view(&self) -> HeadingModel {
        HeadingModel { level: self.level, text: self.text@, line: self.line as int }
    }
}

pub open spec fn headings_model(v: Seq<Heading>) -> Seq<HeadingModel> {
    v.map_values(|h: Heading| h@)
}

/// The headings among the first `n` lines.
pub open spec fn headings_upto(t: Seq<char>, n: int) -> Seq<HeadingModel>
    decreases n,
{
    if n <= 0 {
        Seq::empty()
    } else {
        let rest = headings_upto(t, n - 1);
        let line = line_at(t, n - 1);
        match heading_level(line) {
            Some(level) => rest.push(
                HeadingModel {
                    level,
                    text: trim(trim_start(line).skip(level as int)),
                    line: n - 1,
                },
            ),
            None => rest,
        }
    }
}

/// The headings of a document, with the line of each.
pub fn outline(doc: &Document) -> (r: Vec<Heading>)
    ensures
        headings_model(r@) == headings_upto(doc@.text, line_count(doc@.text)),
{
    let n: usize = doc.len_lines();
    let ghost t = doc@.text;
    let mut out: Vec<Heading> = Vec::new();
    let mut k: usize = 0;
    proof {
        assert(headings_model(out@) =~= headings_upto(t, 0));
    }
    while k < n
        invariant
            0 <= k <= n,
            n == line_count(doc@.text),
            t == doc@.text,
            headings_model(out@) == headings_upto(t, k as int),
        decreases n - k,
    {
        let line: String = doc.line_text(k);
        let cs: Vec<char> = chars_of(&line);
        if let Some(level) = level_of(cs.as_slice()) {
            let s = trim_start_chars(cs.as_slice());
            proof {
                lemma_run_of(s@, '#');
            }
            let rest = slice_subrange(s, level as usize, s.len());
            proof {
                assert(rest@ =~= s@.skip(level as int));
            }
            let h = Heading { level, text: string_of(trim_chars(rest)), line: k };
            let ghost hm = h@;
            let ghost before = out@;
            out.push(h);
            proof {
                assert(headings_model(out@) =~= headings_model(before).push(hm));
            }
        }
        k = k + 1;
    }
    out
}

// ---------- pasting ----------

/// `s` with every line break as a line feed.
pub open spec fn unix_breaks(s: Seq<char>) -> Seq<char>
    decreases s.len(),
{
    if s.len() == 0 {
        s
    } else if s.last() == '\n' && s.len() > 1 && s[s.len() - 2] == '\r' {
        unix_breaks(s.drop_last().drop_last()).push('\n')
    } else {
        unix_breaks(s.drop_last()).push(
            if s.last() == '\r' {
                '\n'
            } else {
                s.last()
            },
        )
    }
}

fn unix_chars(cs: &[char]) -> (r: Vec<char>)
    ensures
        r@ == unix_breaks(cs@),
{
    let mut out: Vec<char> = Vec::new();
    let mut i: usize = 0;
    proof {
        assert(cs@.take(0) =~= out@);
    }
    while i < cs.len()
        invariant
            0 <= i <= cs@.len(),
            out@ == unix_breaks(cs@.take(i as int)),
            i > 0 ==> out@.len() > 0,
            i > 0 && cs@[i - 1] == '\r' ==> out@.last() == '\n' && out@.drop_last() == unix_breaks(
                cs@.take(i - 1),
            ),
        decreases cs@.len() - i,
    {
        let c: char = cs[i];
        let ghost t = cs@.take(i + 1);
        proof {
            assert(t.drop_last() =~= cs@.take(i as int));
            assert(t.last() == c);
            if i > 0 {
                assert(t[t.len() - 2] == cs@[i - 1]);
                assert(t.drop_last().drop_last() =~= cs@.take(i - 1));
            }
        }
        if c == '\n' && i > 0 && cs[i - 1] == '\r' {
            proof {
                assert(out@ =~= out@.drop_last().push('\n'));
            }
        } else if c == '\r' {
            let ghost before = out@;
            out.push('\n');
            proof {
                assert(out@.drop_last() =~= before);
            }
        } else {
            out.push(c);
        }
        i = i + 1;
    }
    proof {
        assert(cs@.take(cs@.len() as int) =~= cs@);
    }
    out
}

/// No carriage return is left.
pub proof fn unix_breaks_leave_no_return(s: Seq<char>)
    ensures
        !unix_breaks(s).contains('\r'),
        unix_breaks(s).len() <= s.len(),
        blen(unix_breaks(s)) <= blen(s),
    decreases s.len(),
{
    if s.len() > 0 {
        let u = unix_breaks(s);
        crate::text::lemma_blen_push(s.drop_last(), s.last());
        assert(s =~= s.drop_last().push(s.last()));
        if s.last() == '\n' && s.len() > 1 && s[s.len() - 2] == '\r' {
            let f = s.drop_last().drop_last();
            unix_breaks_leave_no_return(f);
            crate::text::lemma_blen_push(f, '\r');
            assert(s.drop_last() =~= f.push('\r'));
            crate::text::lemma_blen_push(unix_breaks(f), '\n');
            assert forall|k: int| 0 <= k < u.len() implies u[k] != '\r' by {
                if k < u.len() - 1 {
                    assert(unix_breaks(f)[k] == u[k]);
                    assert(unix_breaks(f).contains(u[k]));
                }
            }
        } else {
            let f = s.drop_last();
            unix_breaks_leave_no_return(f);
            let c = if s.last() == '\r' {
                '\n'
            } else {
                s.last()
            };
            crate::text::lemma_blen_push(unix_breaks(f), c);
            assert forall|k: int| 0 <= k < u.len() implies u[k] != '\r' by {
                if k < u.len() - 1 {
                    assert(unix_breaks(f)[k] == u[k]);
                    assert(unix_breaks(f).contains(u[k]));
                }
            }
        }
    }
}

// ---------- the pane ----------

fn closes_fence(cs: &[char]) -> (r: bool)
    ensures
        r == is_fence_close(cs@),
{
    let head = trim_start_chars(cs);
    starts_with(head, "```") || starts_with(head, "~~~")
}

/// The editing pane.
pub struct EditorView {
    pub input: InputField,
    pub scroll: Scroll,
    pub assist: Assist,
    /// Whether the mouse is selecting.
    pub is_selecting: bool,
    pub cfg: AiConfig,
}

/// The line of the cursor.
pub open spec fn cursor_line(e: EditorModel) -> int {
    line_of_byte(e.doc.text, e.cursor)
}

/// How many of the first `n` lines open or close a code block.
pub open spec fn fence_lines(t: Seq<char>, n: int) -> nat
    decreases n,
{
    if n <= 0 {
        0
    } else {
        fence_lines(t, n - 1) + if is_fence_close(line_at(t, n - 1)) {
            1nat
        } else {
            0
        }
    }
}

/// Whether a line belongs to a code block, its fences among it.
pub open spec fn is_code_line(t: Seq<char>, line: int) -> bool {
    is_fence_close(line_at(t, line)) || fence_lines(t, line) % 2 == 1
}

/// Whether a proposal is to be asked for: at the end of a line that is not one of code.
pub open spec fn completion_wanted(e: EditorModel, cfg: AiConfigModel) -> bool {
    let t = e.doc.text;
    let line = cursor_line(e);
    let text = line_at(t, line);
    let col = if e.cursor > byte_of_line(t, line) {
        e.cursor - byte_of_line(t, line)
    } else {
        0
    };
    &&& cfg.is_configured()
    &&& t.len() > 0
    &&& trim(text.skip(floor_index(text, col))).len() == 0
    &&& !is_code_line(t, line)
}

/// The bytes that an action works on: the selection, or else the line of the cursor.
pub open spec fn task_target(e: EditorModel) -> (int, int) {
    if e.cursor != e.anchor {
        (sel_lo(e), sel_hi(e))
    } else {
        let at = byte_of_line(e.doc.text, cursor_line(e));
        (at, at + blen(line_at(e.doc.text, cursor_line(e))))
    }
}

/// So many lines up.
pub open spec fn up_times(e: EditorModel, n: int) -> EditorModel
    decreases n,
{
    if n <= 0 {
        e
    } else {
        moved_up(up_times(e, n - 1), false)
    }
}

/// So many lines down.
pub open spec fn down_times(e: EditorModel, n: int) -> EditorModel
    decreases n,
{
    if n <= 0 {
        e
    } else {
        moved_down(down_times(e, n - 1), false)
    }
}

/// How many lines a page has: as many as fit in, but for two.
pub open spec fn page_of(rows: int) -> int {
    if rows > 3 {
        rows - 2
    } else {
        1
    }
}

/// Where the first error is; the number of events if there is none.
pub open spec fn first_error(events: Seq<EventModel>, k: int) -> int
    decreases events.len() - k,
{
    if k < 0 || k >= events.len() || events[k] is Error {
        k
    } else {
        first_error(events, k + 1)
    }
}

/// What the first `n` events write into the text, and the first line in view then.
pub open spec fn written(
    e: EditorModel,
    scroll: int,
    rows: int,
    events: Seq<EventModel>,
    n: int,
) -> (EditorModel, int)
    decreases n,
{
    if n <= 0 {
        (e, scroll)
    } else {
        let (f, s) = written(e, scroll, rows, events, n - 1);
        match events[n - 1] {
            EventModel::Delta(d) => {
                let g = streamed(f, d);
                (g, revealed(s, rows, cursor_line(g)))
            },
            _ => (f, s),
        }
    }
}

/// Whether any of the first `n` events brings text.
pub open spec fn any_delta(events: Seq<EventModel>, n: int) -> bool {
    exists|k: int| 0 <= k < n && #[trigger] events[k] is Delta
}

proof fn lemma_written_cursor(
    e: EditorModel,
    scroll: int,
    rows: int,
    events: Seq<EventModel>,
    n: int,
)
    requires
        0 <= n <= events.len(),
    ensures
        written(e, scroll, rows, events, n).0.cursor == e.cursor + blen(deltas_of(events.take(n))),
    decreases n,
{
    if n > 0 {
        lemma_written_cursor(e, scroll, rows, events, n - 1);
        let t = events.take(n);
        assert(t.drop_last() =~= events.take(n - 1));
        assert(t.last() == events[n - 1]);
        match events[n - 1] {
            EventModel::Delta(d) => {
                lemma_blen_concat(deltas_of(events.take(n - 1)), d);
                if d.len() == 0 {
                    assert(blen(d) == 0);
                }
            },
            _ => {
                lemma_blen_concat(deltas_of(events.take(n - 1)), Seq::empty());
            },
        }
    } else {
        assert(events.take(0) =~= Seq::empty());
    }
}

proof fn lemma_deltas_grow(events: Seq<EventModel>, n: int)
    requires
        0 <= n <= events.len(),
    ensures
        blen(deltas_of(events.take(n))) <= blen(deltas_of(events)),
    decreases events.len(),
{
    if n == events.len() {
        assert(events.take(n) =~= events);
    } else {
        let f = events.drop_last();
        lemma_deltas_grow(f, n);
        assert(f.take(n) =~= events.take(n));
        let d = match events.last() {
            EventModel::Delta(d) => d,
            _ => Seq::empty(),
        };
        lemma_blen_concat(deltas_of(f), d);
    }
}

impl EditorView {
    pub open spec fn wf(&self) -> bool {
        self.input.wf()
    }

    pub open spec fn editor(&self) -> EditorModel {
        self.input.editor@
    }

    /// A pane with an editor.
    pub fn new(editor: Editor, cfg: AiConfig) -> (r: EditorView)
        requires
            editor.wf(),
        ensures
            r.wf(),
            r.editor() == editor@,
            r.input.marked is None,
            r.scroll == (Scroll { line: 0, rows: 30 }),
            r.assist@ == idle(),
            !r.is_selecting,
            r.cfg == cfg,
    {
        EditorView {
            input: InputField { editor, marked: None },
            scroll: Scroll { line: 0, rows: 30 },
            assist: Assist::new(),
            is_selecting: false,
            cfg,
        }
    }

    /// Shows another document from its start.
    pub fn open(&mut self, doc: Document)
        requires
            doc.wf(),
        ensures
            final(self).wf(),
            final(self).editor() == fresh_editor(doc@),
            final(self).input.marked == old(self).input.marked,
            final(self).scroll == (Scroll { line: 0, ..old(self).scroll }),
            final(self).assist@ == idle(),
            final(self).is_selecting == old(self).is_selecting,
            final(self).cfg == old(self).cfg,
    {
        self.assist.cancel();
        self.input.editor = Editor::new(doc);
        self.scroll.line = 0;
    }

    /// Uses another endpoint from now on.
    pub fn set_ai_config(&mut self, cfg: AiConfig)
        ensures
            *final(self) == (EditorView { cfg, ..*old(self) }),
    {
        self.cfg = cfg;
    }

    /// Brings the cursor into view.
    pub fn reveal_cursor(&mut self)
        ensures
            final(self).input == old(self).input,
            final(self).assist == old(self).assist,
            final(self).is_selecting == old(self).is_selecting,
            final(self).cfg == old(self).cfg,
            final(self).scroll.rows == old(self).scroll.rows,
            final(self).scroll.line == revealed(
                old(self).scroll.line as int,
                old(self).scroll.rows as int,
                cursor_line(old(self).editor()),
            ),
    {
        let line: usize = self.input.editor.document().byte_to_line(self.input.editor.cursor());
        self.scroll.bring_in(line);
    }

    /// Whether a proposal is to be asked for.
    pub fn wants_completion(&self) -> (r: bool)
        ensures
            r == completion_wanted(self.editor(), self.cfg@),
    {
        if !self.cfg.is_configured() {
            return false;
        }
        let doc = self.input.editor.document();
        let cursor: usize = self.input.editor.cursor();
        if doc.len_bytes() == 0 {
            proof {
                crate::text::lemma_blen_bounds(doc@.text);
            }
            return false;
        }
        let line: usize = doc.byte_to_line(cursor);
        let text: String = doc.line_text(line);
        let start: usize = doc.line_to_byte(line);
        proof {
            crate::text::lemma_blen_bounds(doc@.text);
        }
        let col: usize = if cursor > start {
            cursor - start
        } else {
            0
        };
        let cs: Vec<char> = chars_of(&text);
        let i: usize = index_at(cs.as_slice(), col);
        let after = slice_subrange(cs.as_slice(), i, cs.len());
        proof {
            assert(after@ =~= cs@.skip(i as int));
        }
        if trim_chars(after).len() > 0 {
            return false;
        }
        if closes_fence(cs.as_slice()) {
            return false;
        }
        let mut odd: bool = false;
        let mut k: usize = 0;
        while k < line
            invariant
                0 <= k <= line,
                odd == (fence_lines(doc@.text, k as int) % 2 == 1),
            decreases line - k,
        {
            let above: Vec<char> = chars_of(&doc.line_text(k));
            if closes_fence(above.as_slice()) {
                odd = !odd;
            }
            k = k + 1;
        }
        !odd
    }

    /// What follows every edit and move: whatever the model was writing is dropped, and the
    /// cursor is brought into view. Says whether a proposal is to be asked for.
    pub fn settle(&mut self) -> (r: bool)
        ensures
            final(self).input == old(self).input,
            final(self).assist@ == idle(),
            final(self).is_selecting == old(self).is_selecting,
            final(self).cfg == old(self).cfg,
            final(self).scroll.rows == old(self).scroll.rows,
            final(self).scroll.line == revealed(
                old(self).scroll.line as int,
                old(self).scroll.rows as int,
                cursor_line(old(self).editor()),
            ),
            r == completion_wanted(old(self).editor(), old(self).cfg@),
    {
        self.assist.cancel();
        self.reveal_cursor();
        self.wants_completion()
    }

    /// Puts the cursor at the start of a line, at most the last, near the top of the view.
    pub fn goto_line(&mut self, line: usize)
        requires
            old(self).wf(),
        ensures
            final(self).wf(),
            ({
                let e = old(self).editor();
                let k = clamp_to(line as int, line_count(e.doc.text) - 1);
                &&& final(self).editor() == no_goal(placed(e, byte_of_line(e.doc.text, k), false))
                &&& final(self).scroll == (Scroll {
                    line: if k > 2 {
                        (k - 2) as usize
                    } else {
                        0
                    },
                    ..old(self).scroll
                })
            }),
            final(self).input.marked == old(self).input.marked,
            final(self).assist == old(self).assist,
            final(self).is_selecting == old(self).is_selecting,
            final(self).cfg == old(self).cfg,
    {
        let n: usize = self.input.editor.document().len_lines();
        proof {
            lemma_line_count(self.editor().doc.text);
        }
        let k: usize = if line < n - 1 {
            line
        } else {
            n - 1
        };
        let byte: usize = self.input.editor.document().line_to_byte(k);
        self.input.editor.set_cursor(byte);
        self.scroll.line = if k > 2 {
            k - 2
        } else {
            0
        };
    }

    /// A page up.
    pub fn page_up(&mut self)
        requires
            old(self).wf(),
        ensures
            final(self).wf(),
            final(self).editor() == up_times(
                old(self).editor(),
                page_of(old(self).scroll.rows as int),
            ),
            final(self).input.marked == old(self).input.marked,
            final(self).scroll == old(self).scroll,
            final(self).assist == old(self).assist,
            final(self).is_selecting == old(self).is_selecting,
            final(self).cfg == old(self).cfg,
    {
        let n: usize = if self.scroll.rows > 3 {
            self.scroll.rows - 2
        } else {
            1
        };
        let mut k: usize = 0;
        while k < n
            invariant
                0 <= k <= n,
                n == page_of(old(self).scroll.rows as int),
                self.wf(),
                self.editor() == up_times(old(self).editor(), k as int),
                self.input.marked == old(self).input.marked,
                self.scroll == old(self).scroll,
                self.assist == old(self).assist,
                self.is_selecting == old(self).is_selecting,
                self.cfg == old(self).cfg,
            decreases n - k,
        {
            self.input.editor.move_up(false);
            k = k + 1;
        }
    }

    /// A page down.
    pub fn page_down(&mut self)
        requires
            old(self).wf(),
        ensures
            final(self).wf(),
            final(self).editor() == down_times(
                old(self).editor(),
                page_of(old(self).scroll.rows as int),
            ),
            final(self).input.marked == old(self).input.marked,
            final(self).scroll == old(self).scroll,
            final(self).assist == old(self).assist,
            final(self).is_selecting == old(self).is_selecting,
            final(self).cfg == old(self).cfg,
    {
        let n: usize = if self.scroll.rows > 3 {
            self.scroll.rows - 2
        } else {
            1
        };
        let mut k: usize = 0;
        while k < n
            invariant
                0 <= k <= n,
                n == page_of(old(self).scroll.rows as int),
                self.wf(),
                self.editor() == down_times(old(self).editor(), k as int),
                self.input.marked == old(self).input.marked,
                self.scroll == old(self).scroll,
                self.assist == old(self).assist,
                self.is_selecting == old(self).is_selecting,
                self.cfg == old(self).cfg,
            decreases n - k,
        {
            self.input.editor.move_down(false);
            k = k + 1;
        }
    }

    /// What is copied: the selected text, if there is any.
    pub fn copy(&self) -> (r: Option<String>)
        ensures
            ({
                let e = self.editor();
                let s = bytes_between(e.doc.text, sel_lo(e), sel_hi(e));
                opt_text(r) == if s.len() == 0 {
                    None
                } else {
                    Some(s)
                }
            }),
    {
        let t: String = self.input.editor.selected_text();
        if t.as_str().is_empty() {
            None
        } else {
            Some(t)
        }
    }

    /// Cuts the selected text out, if there is any.
    pub fn cut(&mut self) -> (r: Option<String>)
        requires
            old(self).wf(),
        ensures
            final(self).wf(),
            ({
                let e = old(self).editor();
                let s = bytes_between(e.doc.text, sel_lo(e), sel_hi(e));
                &&& opt_text(r) == if s.len() == 0 {
                    None
                } else {
                    Some(s)
                }
                &&& final(self).editor() == if s.len() == 0 {
                    e
                } else {
                    selection_replaced(e, Seq::empty())
                }
            }),
            final(self).input.marked == old(self).input.marked,
            final(self).scroll == old(self).scroll,
            final(self).assist == old(self).assist,
            final(self).is_selecting == old(self).is_selecting,
            final(self).cfg == old(self).cfg,
    {
        let r: Option<String> = self.copy();
        if r.is_some() {
            self.put_nothing();
        }
        r
    }

    fn put_nothing(&mut self)
        requires
            old(self).wf(),
        ensures
            final(self).wf(),
            final(self).editor() == selection_replaced(old(self).editor(), Seq::empty()),
            final(self).input.marked == old(self).input.marked,
            final(self).scroll == old(self).scroll,
            final(self).assist == old(self).assist,
            final(self).is_selecting == old(self).is_selecting,
            final(self).cfg == old(self).cfg,
    {
        proof {
            self.input.editor.lemma_positions();
            reveal_strlit("");
            assert(""@ =~= Seq::<char>::empty());
            assert(blen(""@) == 0);
        }
        self.input.editor.replace_selection("");
    }

    /// Pastes text, with every line break as a line feed. It is undone by itself.
    pub fn paste(&mut self, text: &str)
        requires
            old(self).wf(),
            room(old(self).editor(), blen(unix_breaks(text@))),
        ensures
            final(self).wf(),
            final(self).editor() == put_alone(old(self).editor(), unix_breaks(text@)),
            final(self).input.marked == old(self).input.marked,
            final(self).scroll == old(self).scroll,
            final(self).assist == old(self).assist,
            final(self).is_selecting == old(self).is_selecting,
            final(self).cfg == old(self).cfg,
    {
        let cs: Vec<char> = chars_of(text);
        let u: Vec<char> = unix_chars(cs.as_slice());
        self.insert_alone(&string_of(u.as_slice()));
    }

    fn insert_alone(&mut self, text: &str)
        requires
            old(self).wf(),
            room(old(self).editor(), blen(text@)),
        ensures
            final(self).wf(),
            final(self).editor() == put_alone(old(self).editor(), text@),
            final(self).input.marked == old(self).input.marked,
            final(self).scroll == old(self).scroll,
            final(self).assist == old(self).assist,
            final(self).is_selecting == old(self).is_selecting,
            final(self).cfg == old(self).cfg,
    {
        self.input.editor.break_undo_group();
        let ghost e = self.input.editor@;
        self.input.editor.insert(text);
        proof {
            let soon = choose|soon: bool| self.input.editor@ == inserted(e, text@, soon);
            assert(inserted(e, text@, soon) == inserted(e, text@, false));
        }
        self.input.editor.break_undo_group();
    }

    /// Takes the proposal into the text, if anything of it has come; says whether it did.
    pub fn accept_proposal(&mut self) -> (r: bool)
        requires
            old(self).wf(),
            room(old(self).editor(), blen(old(self).assist@.acc)),
        ensures
            final(self).wf(),
            r == (old(self).assist@.acc.len() > 0),
            r ==> ({
                let e = put_alone(old(self).editor(), old(self).assist@.acc);
                &&& final(self).editor() == e
                &&& final(self).assist@ == (AssistModel {
                    completing: false,
                    proposal: None,
                    acc: Seq::empty(),
                    ..old(self).assist@
                })
                &&& final(self).scroll.rows == old(self).scroll.rows
                &&& final(self).scroll.line == revealed(
                    old(self).scroll.line as int,
                    old(self).scroll.rows as int,
                    cursor_line(e),
                )
                &&& final(self).input.marked == old(self).input.marked
                &&& final(self).is_selecting == old(self).is_selecting
                &&& final(self).cfg == old(self).cfg
            }),
            !r ==> *final(self) == *old(self),
    {
        if self.assist.acc.as_str().is_empty() {
            return false;
        }
        let text: String = self.assist.acc.clone();
        self.assist.completing = false;
        self.assist.proposal = None;
        let none: String = String::new();
        proof {
            assert(none@ =~= Seq::<char>::empty());
        }
        self.assist.acc = none;
        self.insert_alone(&text);
        self.reveal_cursor();
        true
    }

    // ---------- the mouse ----------

    /// A click: the cursor goes there, and moving on selects.
    pub fn click(&mut self, off: usize)
        requires
            old(self).wf(),
        ensures
            final(self).wf(),
            final(self).editor() == no_goal(placed(old(self).editor(), off as int, false)),
            final(self).is_selecting,
            final(self).input.marked == old(self).input.marked,
            final(self).scroll == old(self).scroll,
            final(self).assist == old(self).assist,
            final(self).cfg == old(self).cfg,
    {
        self.input.editor.set_cursor(off);
        self.is_selecting = true;
    }

    /// A click with the shift key: the selection is drawn from its far end to there.
    pub fn shift_click(&mut self, off: usize)
        requires
            old(self).wf(),
        ensures
            final(self).wf(),
            ({
                let e = old(self).editor();
                let a = if off < sel_lo(e) {
                    sel_hi(e)
                } else {
                    sel_lo(e)
                };
                final(self).editor() == with_selection(e, Some(between(a, off as int)))
            }),
            final(self).input.marked == old(self).input.marked,
            final(self).scroll == old(self).scroll,
            final(self).assist == old(self).assist,
            final(self).is_selecting == old(self).is_selecting,
            final(self).cfg == old(self).cfg,
    {
        let sel: Range<usize> = self.input.editor.selection();
        let a: usize = if off < sel.start {
            sel.end
        } else {
            sel.start
        };
        self.select_between(a, off);
    }

    fn select_between(&mut self, a: usize, b: usize)
        requires
            old(self).wf(),
        ensures
            final(self).wf(),
            final(self).editor() == with_selection(
                old(self).editor(),
                Some(between(a as int, b as int)),
            ),
            final(self).input.marked == old(self).input.marked,
            final(self).scroll == old(self).scroll,
            final(self).assist == old(self).assist,
            final(self).is_selecting == old(self).is_selecting,
            final(self).cfg == old(self).cfg,
    {
        if a < b {
            self.input.editor.select(a..b);
        } else {
            self.input.editor.select(b..a);
        }
    }

    /// A double click: the word there is selected.
    pub fn double_click(&mut self, off: usize)
        requires
            old(self).wf(),
        ensures
            final(self).wf(),
            final(self).editor() == moved_word_right(
                moved_word_left(no_goal(placed(old(self).editor(), off as int, false)), false),
                true,
            ),
            final(self).input.marked == old(self).input.marked,
            final(self).scroll == old(self).scroll,
            final(self).assist == old(self).assist,
            final(self).is_selecting == old(self).is_selecting,
            final(self).cfg == old(self).cfg,
    {
        self.input.editor.set_cursor(off);
        self.input.editor.move_word_left(false);
        self.input.editor.move_word_right(true);
    }

    /// The mouse moves while it is selecting: the selection is drawn from its other end to
    /// there.
    pub fn drag(&mut self, off: usize)
        requires
            old(self).wf(),
        ensures
            final(self).wf(),
            ({
                let e = old(self).editor();
                let a = if e.cursor == sel_lo(e) {
                    sel_hi(e)
                } else {
                    sel_lo(e)
                };
                final(self).editor() == if old(self).is_selecting {
                    with_selection(e, Some(between(a, off as int)))
                } else {
                    e
                }
            }),
            final(self).input.marked == old(self).input.marked,
            final(self).scroll == old(self).scroll,
            final(self).assist == old(self).assist,
            final(self).is_selecting == old(self).is_selecting,
            final(self).cfg == old(self).cfg,
    {
        if !self.is_selecting {
            return ;
        }
        let sel: Range<usize> = self.input.editor.selection();
        let a: usize = if self.input.editor.cursor() == sel.start {
            sel.end
        } else {
            sel.start
        };
        self.select_between(a, off);
    }

    // ---------- the model writes into the text ----------

    /// Takes away what an action works on, so that the result comes in its place. What was
    /// there goes to the model; nothing is done without an endpoint.
    pub fn run_insert_task(&mut self) -> (r: Option<String>)
        requires
            old(self).wf(),
        ensures
            final(self).wf(),
            r is Some == old(self).cfg@.is_configured(),
            r is None ==> *final(self) == *old(self),
            r matches Some(s) ==> ({
                let e = old(self).editor();
                let (a, b) = task_target(e);
                &&& s@ == bytes_between(e.doc.text, a, b)
                &&& final(self).editor() == selection_replaced(
                    with_selection(e, Some((a, b))),
                    Seq::empty(),
                )
                &&& final(self).assist@ == (AssistModel { inserting: true, ..idle() })
                &&& final(self).input.marked == old(self).input.marked
                &&& final(self).scroll == old(self).scroll
                &&& final(self).is_selecting == old(self).is_selecting
                &&& final(self).cfg == old(self).cfg
            }),
    {
        if !self.cfg.is_configured() {
            return None;
        }
        let total: usize = self.input.editor.document().len_bytes();
        let target: Range<usize> = if self.input.editor.has_selection() {
            self.input.editor.selection()
        } else {
            let doc = self.input.editor.document();
            let line: usize = doc.byte_to_line(self.input.editor.cursor());
            let start: usize = doc.line_to_byte(line);
            let len: usize = byte_len(&doc.line_text(line));
            proof {
                lemma_byte_of_line(doc@.text, line as int);
                lemma_byte_of_line(doc@.text, line + 1);
            }
            start..start + len
        };
        let (a, b) = (target.start, target.end);
        let original: String = self.input.editor.document().slice_to_string(a..b);
        self.assist.cancel();
        self.input.editor.select(target);
        self.put_nothing();
        self.assist.inserting = true;
        Some(original)
    }

    /// Takes in text that the model writes.
    pub fn stream_delta(&mut self, delta: &str)
        requires
            old(self).wf(),
            old(self).editor().cursor + blen(delta@) <= usize::MAX,
        ensures
            final(self).wf(),
            final(self).editor() == streamed(old(self).editor(), delta@),
            final(self).scroll.rows == old(self).scroll.rows,
            final(self).scroll.line == revealed(
                old(self).scroll.line as int,
                old(self).scroll.rows as int,
                cursor_line(streamed(old(self).editor(), delta@)),
            ),
            final(self).assist@ == (AssistModel { streaming: true, ..old(self).assist@ }),
            final(self).input.marked == old(self).input.marked,
            final(self).is_selecting == old(self).is_selecting,
            final(self).cfg == old(self).cfg,
    {
        self.assist.streaming = true;
        self.input.editor.stream_insert(delta);
        self.reveal_cursor();
    }

    /// Takes in what has come of the model's text, up to an error; says whether there is no
    /// more to come. All of it is undone together.
    pub fn take_insert(&mut self, events: &[AiEvent]) -> (r: bool)
        requires
            old(self).wf(),
            old(self).editor().cursor + blen(deltas_of(events_model(events@))) <= usize::MAX,
        ensures
            final(self).wf(),
            ({
                let em = events_model(events@);
                let n = first_error(em, 0);
                let (e, s) = written(
                    old(self).editor(),
                    old(self).scroll.line as int,
                    old(self).scroll.rows as int,
                    em,
                    n,
                );
                &&& r == ends_reply(em)
                &&& final(self).editor() == if n == em.len() && r {
                    flushed(e)
                } else {
                    e
                }
                &&& final(self).scroll.line == s
                &&& final(self).scroll.rows == old(self).scroll.rows
                &&& final(self).assist@ == (AssistModel {
                    inserting: old(self).assist@.inserting && !r,
                    streaming: !r && (old(self).assist@.streaming || any_delta(em, n)),
                    ..old(self).assist@
                })
            }),
            final(self).input.marked == old(self).input.marked,
            final(self).is_selecting == old(self).is_selecting,
            final(self).cfg == old(self).cfg,
    {
        let ghost em = events_model(events@);
        let ghost e0 = self.editor();
        let ghost (s0, rows) = (self.scroll.line as int, self.scroll.rows as int);
        let mut done: bool = false;
        let mut k: usize = 0;
        while k < events.len()
            invariant
                0 <= k <= events@.len(),
                em == events_model(events@),
                e0 == old(self).editor(),
                s0 == old(self).scroll.line,
                rows == old(self).scroll.rows,
                e0.cursor + blen(deltas_of(em)) <= usize::MAX,
                self.wf(),
                first_error(em, 0) == first_error(em, k as int),
                (self.editor(), self.scroll.line as int) == written(e0, s0, rows, em, k as int),
                self.scroll.rows == old(self).scroll.rows,
                self.assist@ == (AssistModel {
                    streaming: old(self).assist@.streaming || any_delta(em, k as int),
                    ..old(self).assist@
                }),
                self.input.marked == old(self).input.marked,
                self.is_selecting == old(self).is_selecting,
                self.cfg == old(self).cfg,
                done == exists|j: int| 0 <= j < k && !(#[trigger] em[j] is Delta),
            decreases events@.len() - k,
        {
            let ghost was = done;
            let ghost any = any_delta(em, k as int);
            proof {
                assert(em[k as int] == events@[k as int]@);
            }
            match &events[k] {
                AiEvent::Delta(d) => {
                    proof {
                        lemma_written_cursor(e0, s0, rows, em, k as int);
                        lemma_written_cursor(e0, s0, rows, em, k + 1);
                        lemma_deltas_grow(em, k + 1);
                        assert(em[k as int] == EventModel::Delta(d@));
                        assert(d@.len() == 0 ==> blen(d@) == 0);
                        assert(written(e0, s0, rows, em, k + 1).0 == streamed(self.editor(), d@));
                        assert(self.editor().cursor + blen(d@) == streamed(
                            self.editor(),
                            d@,
                        ).cursor);
                    }
                    self.stream_delta(d);
                    proof {
                        assert(em[k as int] is Delta);
                        assert(any_delta(em, k + 1));
                    }
                },
                AiEvent::Done => {
                    done = true;
                    proof {
                        assert(!(em[k as int] is Delta));
                        lemma_any_delta(em, k as int);
                    }
                },
                AiEvent::Error(_) => {
                    self.assist.streaming = false;
                    self.assist.inserting = false;
                    proof {
                        assert(!(em[k as int] is Delta));
                    }
                    return true;
                },
            }
            proof {
                if was {
                    let j = choose|j: int| 0 <= j < k && !(#[trigger] em[j] is Delta);
                    assert(!(em[j] is Delta));
                }
            }
            k = k + 1;
        }
        if done {
            self.input.editor.finish_stream();
            self.assist.streaming = false;
            self.assist.inserting = false;
        }
        done
    }

    /// The model is stopped: what it has written stays, and is undone together.
    pub fn stop_insert(&mut self)
        requires
            old(self).wf(),
        ensures
            final(self).wf(),
            final(self).editor() == flushed(old(self).editor()),
            final(self).assist@ == (AssistModel {
                streaming: false,
                inserting: false,
                ..old(self).assist@
            }),
            final(self).input.marked == old(self).input.marked,
            final(self).scroll == old(self).scroll,
            final(self).is_selecting == old(self).is_selecting,
            final(self).cfg == old(self).cfg,
    {
        self.input.editor.finish_stream();
        self.assist.streaming = false;
        self.assist.inserting = false;
    }
}

proof fn lemma_any_delta(events: Seq<EventModel>, k: int)
    requires
        0 <= k < events.len(),
        !(events[k] is Delta),
    ensures
        any_delta(events, k + 1) == any_delta(events, k),
{
    if any_delta(events, k + 1) {
        let j = choose|j: int| 0 <= j < k + 1 && #[trigger] events[j] is Delta;
        assert(events[j] is Delta);
    }
    if any_delta(events, k) {
        let j = choose|j: int| 0 <= j < k && #[trigger] events[j] is Delta;
        assert(events[j] is Delta);
    }
}

/// The two in order.
pub open spec fn between(a: int, b: int) -> (int, int) {
    if a < b {
        (a, b)
    } else {
        (b, a)
    }
}

/// Text put in that is undone by itself.
pub open spec fn put_alone(e: EditorModel, s: Seq<char>) -> EditorModel {
    let e1 = EditorModel { timed: false, ..flushed(e) };
    EditorModel { timed: false, ..flushed(inserted(e1, s, false)) }
}

// ---------- code ----------

/// A line that does not start with a fence character opens and closes no code block.
proof fn lemma_no_fence(l: Seq<char>)
    requires
        trim_start(l).len() == 0 || (trim_start(l)[0] != '`' && trim_start(l)[0] != '~'),
    ensures
        !is_fence_close(l),
{
    reveal_strlit("```");
    reveal_strlit("~~~");
    let t = trim_start(l);
    if t.len() >= 3 {
        assert(t.take(3)[0] == t[0]);
    }
}

proof fn lemma_trimmed_start(l: Seq<char>)
    requires
        trim(l).len() > 0,
    ensures
        trim_start(l).len() > 0,
        trim(l)[0] == trim_start(l)[0],
{
    crate::text::lemma_trim_end(trim_start(l));
}

/// Lines that a block other than code is made of hold no fence.
proof fn lemma_plain_block(lines: Seq<Seq<char>>, i: int, k: int)
    requires
        0 <= i < lines.len(),
        i <= k < shape_at(lines, i).1,
        !(shape_at(lines, i).0 is CodeFence),
    ensures
        k < lines.len(),
        !is_fence_close(lines[k]),
{
    let line = lines[i];
    lemma_shape_at(lines, i);
    lemma_upto(lines, i + 1, quote_line());
    lemma_upto(lines, i + 1, plain_line());
    if let Some(it) = list_item(line) {
        lemma_upto(lines, i + 1, item_line(it.indent));
    }
    if i + 1 < lines.len() {
        lemma_upto(lines, i + 2, row_line());
    }
    let l = lines[k];
    if k == i {
        if crate::block::is_blank(l) {
            lemma_blank_start(l);
            lemma_no_fence(l);
        } else if heading_level(l) is Some {
            lemma_run_of(trim_start(l), '#');
            lemma_no_fence(l);
        }
    } else if crate::block::is_blank(line) || heading_level(line) is Some || is_rule(line) {
    } else if quote_depth(line) is Some {
        assert(quote_line()(l));
        lemma_no_fence(l);
    } else if list_item(line) is Some {
        assert(item_line(list_item(line)->0.indent)(l));
    } else if is_table_row(line) && i + 1 < lines.len() && is_table_delim(lines[i + 1]) {
        if k > i + 1 {
            assert(row_line()(l));
        }
        lemma_trimmed_start(l);
        lemma_no_fence(l);
    } else if image_of(line) is Some {
    } else {
        assert(plain_line()(l));
    }
}

proof fn lemma_blank_start(l: Seq<char>)
    requires
        trim(l).len() == 0,
    ensures
        trim_start(l).len() == 0,
{
    let u = trim_start(l);
    crate::text::lemma_lead_spaces(l);
    crate::text::lemma_trim_end(u);
    if u.len() > 0 {
        assert(u[0] == l[lead_spaces(l)]);
    }
}

proof fn lemma_fences_same(t: Seq<char>, a: int, b: int)
    requires
        0 <= a <= b,
        forall|k: int| a <= k < b ==> !is_fence_close(#[trigger] line_at(t, k)),
    ensures
        fence_lines(t, b) == fence_lines(t, a),
    decreases b - a,
{
    if a < b {
        assert(!is_fence_close(line_at(t, b - 1)));
        lemma_fences_same(t, a, b - 1);
    }
}

/// Whether the lines of a block are all lines of code, or none of them is.
pub open spec fn all_code_or_none(t: Seq<char>, b: BlockModel) -> bool {
    forall|k: int|
        b.first_line <= k < b.end_line ==> #[trigger] is_code_line(t, k) == (b.kind is CodeFence)
}

proof fn lemma_code_from(t: Seq<char>, i: int)
    requires
        0 <= i <= line_count(t),
        fence_lines(t, i) % 2 == 0,
    ensures
        forall|j: int|
            0 <= j < blocks_from(lines_input(t, 0, line_count(t)), i).len() ==> all_code_or_none(
                t,
                #[trigger] blocks_from(lines_input(t, 0, line_count(t)), i)[j],
            ),
    decreases line_count(t) - i,
{
    let n = line_count(t);
    let m = lines_input(t, 0, n);
    if i < n {
        lemma_shape_at(m.lines, i);
        let (kind, end) = shape_at(m.lines, i);
        let b = block_at(m, i);
        assert(m.lines[i] == line_at(t, i));
        if kind is CodeFence {
            let j = upto(m.lines, i + 1, code_line());
            lemma_upto(m.lines, i + 1, code_line());
            assert(is_fence_close(line_at(t, i)));
            assert(fence_lines(t, i + 1) == fence_lines(t, i) + 1);
            assert forall|k: int| i + 1 <= k < j implies !is_fence_close(
                #[trigger] line_at(t, k),
            ) by {
                assert(m.lines[k] == line_at(t, k));
                assert(code_line()(m.lines[k]));
            }
            assert forall|k: int| i <= k < end implies #[trigger] is_code_line(t, k) by {
                if i < k < j {
                    lemma_fences_same(t, i + 1, k);
                } else if k == j {
                    assert(m.lines[j] == line_at(t, j));
                    assert(!code_line()(m.lines[j]));
                }
            }
            if j < n {
                lemma_fences_same(t, i + 1, j);
                assert(m.lines[j] == line_at(t, j));
                assert(!code_line()(m.lines[j]));
                assert(fence_lines(t, j + 1) == fence_lines(t, j) + 1);
                lemma_code_from(t, end);
            }
        } else {
            assert forall|k: int| i <= k < end implies !is_fence_close(
                #[trigger] line_at(t, k),
            ) by {
                lemma_plain_block(m.lines, i, k);
                assert(m.lines[k] == line_at(t, k));
            }
            assert forall|k: int| i <= k < end implies !#[trigger] is_code_line(t, k) by {
                assert(!is_fence_close(line_at(t, k)));
                lemma_fences_same(t, i, k);
            }
            lemma_fences_same(t, i, end);
            lemma_code_from(t, end);
        }
        assert(all_code_or_none(t, b));
        let rest = blocks_from(m, end);
        assert(blocks_from(m, i) == seq![b] + rest);
        assert forall|j: int| 0 <= j < blocks_from(m, i).len() implies all_code_or_none(
            t,
            #[trigger] blocks_from(m, i)[j],
        ) by {
            if j > 0 {
                assert(blocks_from(m, i)[j] == rest[j - 1]);
            }
        }
    }
}

/// The lines of code are those of the code blocks, so that nothing is proposed in any of
/// them.
pub proof fn nothing_is_proposed_in_code(e: EditorModel, cfg: AiConfigModel, j: int)
    requires
        0 <= j < blocks_between(e.doc.text, 0, line_count(e.doc.text)).len(),
    ensures
        ({
            let b = blocks_between(e.doc.text, 0, line_count(e.doc.text))[j];
            &&& all_code_or_none(e.doc.text, b)
            &&& b.kind is CodeFence && b.first_line <= cursor_line(e) < b.end_line
                ==> !completion_wanted(e, cfg)
        }),
{
    lemma_line_count(e.doc.text);
    lemma_code_from(e.doc.text, 0);
    let b = blocks_between(e.doc.text, 0, line_count(e.doc.text))[j];
    assert(all_code_or_none(e.doc.text, b));
    if b.kind is CodeFence && b.first_line <= cursor_line(e) < b.end_line {
        assert(is_code_line(e.doc.text, cursor_line(e)));
    }
}

} // verus!
