//! The state of an editor: cursor, selection, undo history, and Markdown-aware
//! typing. It knows nothing of windows.
use crate::block::{
    blocks_model, check_box, count_digits, decimal, digit_run, is_blank, number_of, Block, BlockKind, BlockModel,
    KindModel, ListMarker,
};
use crate::document::{
    blocks_between, byte_at_line_col, byte_of_line, bytes_between, clamp_to, doc_inserted,
    doc_removed, fits, fresh_doc, lemma_byte_of_line, lemma_line_of_byte, line_at, line_col,
    line_of_byte, next_boundary, prev_boundary, view_window, with_inserted, DocModel, Document,
    Newline, VIEW_PAD,
};
use crate::rope::{line_count, line_index};
use crate::text::{
    blen, byte_len, chars_len, chars_of, count_lead_spaces, count_run, digits_of, ends_with, extend,
    floor_index, is_space, is_space_char, lead_spaces, lemma_blen_bounds, lemma_blen_concat,
    lemma_blen_split, lemma_floor_index, lemma_floor_index_off, lemma_lead_spaces, lemma_off_ends,
    lemma_off_mono, lemma_run_of, number_chars, run_of, starts_with, string_of, trim_chars,
    trim_end, trim_end_chars, trim_start, trim_start_chars,
};
use std::ops::Range;
use std::time::{Duration, Instant};
use vstd::prelude::*;
use vstd::slice::slice_subrange;

verus! {

// ---------- time ----------

/// `std::time::Instant`, a point in time.
#[verifier::external_type_specification]
#[verifier::external_body]
pub struct ExInstant(Instant);

/// `Instant::now`: nothing is claimed of the time.
pub assume_specification[ Instant::now ]() -> (r: Instant)
;

/// `Instant::duration_since`: the time from an earlier point to this one; nothing is
/// claimed of it.
pub assume_specification[ Instant::duration_since ](now: &Instant, earlier: Instant) -> (r: Duration)
;

/// `Duration::as_millis`: whole milliseconds; nothing is claimed of them.
pub assume_specification[ Duration::as_millis ](d: &Duration) -> (r: u128)
;

/// Typing that goes on within this time is undone together, in milliseconds.
pub const UNDO_MERGE_MILLIS: u128 = 700;

/// How many steps can be undone.
pub const UNDO_LIMIT: usize = 2000;

// ---------- the model ----------

pub enum EditModel {
    Insert { at: int, text: Seq<char> },
    Delete { at: int, text: Seq<char> },
}

/// The edit that takes an edit back.
pub open spec fn inverse(e: EditModel) -> EditModel {
    match e {
        EditModel::Insert { at, text } => EditModel::Delete { at, text },
        EditModel::Delete { at, text } => EditModel::Insert { at, text },
    }
}

/// Edits that are undone together: their inverses in the order in which the edits
/// were made, to be carried out from the last to the first.
pub struct GroupModel {
    pub inverted: Seq<EditModel>,
    /// Where the cursor goes when the group is undone.
    pub before: int,
    pub after: int,
}

pub struct EditorModel {
    pub doc: DocModel,
    pub cursor: int,
    /// The other end of the selection.
    pub anchor: int,
    /// The column that moving up and down aims at.
    pub goal: Option<int>,
    pub undo: Seq<GroupModel>,
    pub redo: Seq<GroupModel>,
    /// The group that edits are still added to.
    pub pending: Option<GroupModel>,
    /// Whether the time of the last edit is known.
    pub timed: bool,
}

/// The document after an edit.
pub open spec fn apply_edit(d: DocModel, e: EditModel) -> DocModel {
    match e {
        EditModel::Insert { at, text } => doc_inserted(d, at, text),
        EditModel::Delete { at, text } => doc_removed(d, at, at + blen(text)),
    }
}

/// The document after edits, carried out from the last to the first.
pub open spec fn apply_all(d: DocModel, xs: Seq<EditModel>) -> DocModel
    decreases xs.len(),
{
    if xs.len() == 0 {
        d
    } else {
        apply_all(apply_edit(d, xs.last()), xs.drop_last())
    }
}

/// The edits that take edits back, in the order for `apply_all`.
pub open spec fn flipped(xs: Seq<EditModel>) -> Seq<EditModel> {
    Seq::new(xs.len(), |k: int| inverse(xs[xs.len() - 1 - k]))
}

// ---------- steps of editing ----------

/// The state with the open group closed.
pub open spec fn flushed(e: EditorModel) -> EditorModel {
    match e.pending {
        None => e,
        Some(g) => if g.inverted.len() == 0 {
            EditorModel { pending: None, ..e }
        } else {
            let u = e.undo.push(GroupModel { after: e.cursor, ..g });
            EditorModel {
                pending: None,
                undo: if u.len() > UNDO_LIMIT {
                    u.drop_first()
                } else {
                    u
                },
                ..e
            }
        },
    }
}

/// The state in which an edit starts: in the open group, or in a new one.
pub open spec fn begun(e: EditorModel, merge: bool) -> EditorModel {
    let f = flushed(e);
    let e1 = if merge {
        e
    } else {
        EditorModel {
            pending: Some(
                GroupModel { inverted: Seq::empty(), before: f.cursor, after: f.cursor },
            ),
            ..f
        }
    };
    EditorModel { redo: Seq::empty(), timed: true, ..e1 }
}

/// Whether an edit may join the open group, if the last one was made `soon` before.
pub open spec fn merges(e: EditorModel, mergeable: bool, soon: bool) -> bool {
    mergeable && e.pending is Some && e.timed && soon
}

pub open spec fn recorded(e: EditorModel, x: EditModel) -> EditorModel {
    match e.pending {
        Some(g) => EditorModel {
            pending: Some(GroupModel { inverted: g.inverted.push(inverse(x)), ..g }),
            ..e
        },
        None => e,
    }
}

/// Puts text in at a byte.
pub open spec fn put(e: EditorModel, at: int, s: Seq<char>) -> EditorModel {
    if s.len() == 0 {
        e
    } else {
        recorded(
            EditorModel { doc: doc_inserted(e.doc, at, s), ..e },
            EditModel::Insert { at, text: s },
        )
    }
}

/// Takes the bytes from `a` to `b` away.
pub open spec fn taken(e: EditorModel, a: int, b: int) -> EditorModel {
    if a >= b {
        e
    } else {
        recorded(
            EditorModel { doc: doc_removed(e.doc, a, b), ..e },
            EditModel::Delete { at: a, text: bytes_between(e.doc.text, a, b) },
        )
    }
}

/// The cursor at `c`, nothing selected.
pub open spec fn at_cursor(e: EditorModel, c: int) -> EditorModel {
    EditorModel { cursor: c, anchor: c, ..e }
}

pub open spec fn sel_lo(e: EditorModel) -> int {
    if e.cursor <= e.anchor {
        e.cursor
    } else {
        e.anchor
    }
}

pub open spec fn sel_hi(e: EditorModel) -> int {
    if e.cursor <= e.anchor {
        e.anchor
    } else {
        e.cursor
    }
}

/// The selection taken away.
pub open spec fn cut_selection(e: EditorModel) -> EditorModel {
    if e.cursor == e.anchor {
        e
    } else {
        at_cursor(taken(e, sel_lo(e), sel_hi(e)), sel_lo(e))
    }
}

/// Text put in at the cursor, the cursor behind it.
pub open spec fn typed(e: EditorModel, s: Seq<char>) -> EditorModel {
    at_cursor(put(e, e.cursor, s), e.cursor + blen(s))
}

pub open spec fn no_goal(e: EditorModel) -> EditorModel {
    EditorModel { goal: None, ..e }
}

pub open spec fn is_single(s: Seq<char>) -> bool {
    s.len() == 1 && s[0] != '\n'
}

/// Text typed or pasted.
pub open spec fn inserted(e: EditorModel, s: Seq<char>, soon: bool) -> EditorModel {
    if s.len() == 0 {
        e
    } else {
        let e1 = cut_selection(begun(e, merges(e, is_single(s), soon)));
        let e2 = no_goal(typed(e1, s));
        if is_single(s) {
            e2
        } else {
            flushed(e2)
        }
    }
}

/// Where a backspace at byte `c` deletes from: one character back, a whole CR LF.
pub open spec fn back_from(t: Seq<char>, c: int) -> int {
    let p = prev_boundary(t, c);
    let q = prev_boundary(t, p);
    if bytes_between(t, p, c) == seq!['\n'] && q < p && bytes_between(t, q, p) == seq!['\r'] {
        q
    } else {
        p
    }
}

pub open spec fn backspaced(e: EditorModel, soon: bool) -> EditorModel {
    let e1 = begun(e, merges(e, true, soon));
    if e1.cursor != e1.anchor {
        flushed(cut_selection(e1))
    } else if e1.cursor == 0 {
        e1
    } else {
        let a = back_from(e1.doc.text, e1.cursor);
        no_goal(at_cursor(taken(e1, a, e1.cursor), a))
    }
}

/// Where a forward delete at byte `c` deletes to: one character on, a whole CR LF.
pub open spec fn forward_to(t: Seq<char>, c: int) -> int {
    let p = next_boundary(t, c);
    let q = next_boundary(t, p);
    if bytes_between(t, c, p) == seq!['\r'] && bytes_between(t, p, q) == seq!['\n'] {
        q
    } else {
        p
    }
}

pub open spec fn deleted_forward(e: EditorModel, soon: bool) -> EditorModel {
    let e1 = begun(e, merges(e, true, soon));
    if e1.cursor != e1.anchor {
        flushed(cut_selection(e1))
    } else if e1.cursor >= blen(e1.doc.text) {
        e1
    } else {
        no_goal(taken(e1, e1.cursor, forward_to(e1.doc.text, e1.cursor)))
    }
}

pub open spec fn newline_text(n: Newline) -> Seq<char> {
    match n {
        Newline::Lf => seq!['\n'],
        Newline::Crlf => seq!['\r', '\n'],
    }
}

pub open spec fn is_bullet(t: Seq<char>) -> bool {
    "- "@.is_prefix_of(t) || "* "@.is_prefix_of(t) || "+ "@.is_prefix_of(t)
}

/// How long the mark of a quote is that `t` starts with: a blank behind the `>` belongs
/// to it, and so does another `>`.
pub open spec fn quote_mark(t: Seq<char>) -> int {
    if t.len() > 1 && (t[1] == ' ' || t[1] == '>') {
        2
    } else {
        1
    }
}

/// What the line below a line starts with, so that it goes on the same quote or
/// list; and how long the marker of the line itself is.
pub open spec fn continuation(line: Seq<char>) -> Option<(Seq<char>, int)> {
    let t = trim_start(line);
    let indent = line.take(lead_spaces(line));
    let n = blen(indent) as int;
    let d = digit_run(t);
    if t.len() > 0 && t[0] == '>' {
        Some((indent + seq!['>', ' '], n + quote_mark(t)))
    } else if is_bullet(t) {
        if check_box(t.skip(2)) is Some {
            Some((indent + t.take(2) + seq!['[', ' ', ']', ' '], n + 6))
        } else {
            Some((indent + t.take(2), n + 2))
        }
    } else if 1 <= d <= 9 && (". "@.is_prefix_of(t.skip(d)) || ") "@.is_prefix_of(t.skip(d))) {
        Some((indent + digits_of(decimal(t.take(d)) + 1) + seq![t[d], ' '], n + d + 2))
    } else {
        None
    }
}

/// A line break typed: it goes on a quote or list, or leaves it behind an empty item.
pub open spec fn broken(e: EditorModel) -> EditorModel {
    let e1 = cut_selection(begun(e, false));
    let nl = newline_text(e1.doc.newline);
    let (line, col) = line_col(e1.doc.text, e1.cursor);
    let text = line_at(e1.doc.text, line);
    let len = blen(trim_end(text)) as int;
    let start = byte_of_line(e1.doc.text, line);
    flushed(
        no_goal(
            match continuation(text) {
                Some((next, marker)) => if len <= marker && col >= len {
                    typed(at_cursor(taken(e1, start, start + blen(text)), start), nl)
                } else {
                    typed(e1, nl + next)
                },
                None => typed(e1, nl),
            },
        ),
    )
}

/// A state on the way through selected lines, with how far their ends have moved.
pub struct ShiftModel {
    pub e: EditorModel,
    pub first: int,
    pub total: int,
}

pub open spec fn two_blanks() -> Seq<char> {
    seq![' ', ' ']
}

/// One line indented by two blanks unless it is blank, or outdented by at most two.
pub open spec fn shift_line(s: ShiftModel, first: int, line: int, add: bool) -> ShiftModel {
    let t = s.e.doc.text;
    let start = byte_of_line(t, line);
    let text = line_at(t, line);
    let run = run_of(text, ' ');
    let cut = if run < 2 {
        run
    } else {
        2
    };
    if add {
        if is_blank(text) {
            s
        } else {
            ShiftModel {
                e: put(s.e, start, two_blanks()),
                first: if line == first {
                    2
                } else {
                    s.first
                },
                total: s.total + 2,
            }
        }
    } else if cut > 0 {
        ShiftModel {
            e: taken(s.e, start, start + cut),
            first: if line == first {
                -cut
            } else {
                s.first
            },
            total: s.total - cut,
        }
    } else {
        s
    }
}

/// The lines from `line` up to `first`, the last one first.
pub open spec fn shift_lines_from(s: ShiftModel, first: int, line: int, add: bool) -> ShiftModel
    decreases line - first + 1,
{
    if line < first {
        s
    } else {
        shift_lines_from(shift_line(s, first, line, add), first, line - 1, add)
    }
}

pub open spec fn shifted(e: EditorModel, add: bool) -> EditorModel {
    let lo = sel_lo(e);
    let hi = sel_hi(e);
    let first = line_of_byte(e.doc.text, lo);
    let last = line_of_byte(e.doc.text, hi);
    let s = shift_lines_from(ShiftModel { e, first: 0, total: 0 }, first, last, add);
    let a = if lo + s.first > 0 {
        lo + s.first
    } else {
        0
    };
    let b = if hi + s.total > a {
        hi + s.total
    } else {
        a
    };
    let n = blen(s.e.doc.text) as int;
    EditorModel { anchor: clamp_to(a, n), cursor: clamp_to(b, n), ..s.e }
}

pub open spec fn indented(e: EditorModel) -> EditorModel {
    let e1 = begun(e, false);
    flushed(
        if e1.cursor != e1.anchor {
            shifted(e1, true)
        } else {
            typed(e1, two_blanks())
        },
    )
}

pub open spec fn outdented(e: EditorModel) -> EditorModel {
    flushed(shifted(begun(e, false), false))
}

/// The selection wrapped in a marker, or freed from it; without a selection a pair
/// of markers with the cursor between.
pub open spec fn wrap_toggled(e: EditorModel, m: Seq<char>) -> EditorModel {
    let e1 = begun(e, false);
    let lo = sel_lo(e1);
    let hi = sel_hi(e1);
    let text = bytes_between(e1.doc.text, lo, hi);
    let new = if blen(text) >= 2 * blen(m) && m.is_prefix_of(text) && m.is_suffix_of(text) {
        text.subrange(m.len() as int, text.len() - m.len())
    } else {
        m + text + m
    };
    flushed(
        if lo == hi {
            at_cursor(put(e1, e1.cursor, m + m), e1.cursor + blen(m))
        } else {
            EditorModel {
                anchor: lo,
                cursor: lo + blen(new),
                ..put(taken(e1, lo, hi), lo, new)
            }
        },
    )
}

/// A heading of this level made of a line's text; level zero is plain text.
pub open spec fn as_heading(text: Seq<char>, level: u8) -> Seq<char> {
    let bare = trim_start(text.skip(run_of(text, '#')));
    if level == 0 {
        bare
    } else {
        Seq::new(level as nat, |k: int| '#').push(' ') + bare
    }
}

pub open spec fn heading_set(e: EditorModel, level: u8) -> EditorModel {
    let e1 = begun(e, false);
    let line = line_col(e1.doc.text, e1.cursor).0;
    let start = byte_of_line(e1.doc.text, line);
    let text = line_at(e1.doc.text, line);
    let new = as_heading(text, level);
    flushed(at_cursor(put(taken(e1, start, start + blen(text)), start, new), start + blen(new)))
}

/// The check box of the line at the cursor: the byte where it stands, and whether
/// it is ticked.
pub open spec fn task_at_cursor(e: EditorModel) -> Option<(int, bool)> {
    let line = line_col(e.doc.text, e.cursor).0;
    let text = line_at(e.doc.text, line);
    let t = trim_start(text);
    match check_box(t.skip(2)) {
        Some(ticked) if is_bullet(t) => Some(
            (
                byte_of_line(e.doc.text, line) + blen(text.take(lead_spaces(text))) + 2,
                ticked,
            ),
        ),
        _ => None,
    }
}

pub open spec fn task_toggled(e: EditorModel) -> EditorModel {
    match task_at_cursor(e) {
        Some((at, ticked)) => flushed(
            put(
                taken(begun(e, false), at, at + 3),
                at,
                if ticked {
                    seq!['[', ' ', ']']
                } else {
                    seq!['[', 'x', ']']
                },
            ),
        ),
        None => e,
    }
}

pub open spec fn selection_replaced(e: EditorModel, s: Seq<char>) -> EditorModel {
    flushed(typed(cut_selection(begun(e, false)), s))
}

/// Text that streams in: it joins the open group, whatever the time.
pub open spec fn streamed(e: EditorModel, s: Seq<char>) -> EditorModel {
    if s.len() == 0 {
        e
    } else {
        typed(if e.pending is None {
            begun(e, false)
        } else {
            e
        }, s)
    }
}

// ---------- undo and redo ----------

/// The state after the edits of a group were carried out.
pub open spec fn replayed(e: EditorModel, g: GroupModel) -> EditorModel {
    let doc = apply_all(e.doc, g.inverted);
    at_cursor(EditorModel { doc, ..e }, clamp_to(g.before, blen(doc.text) as int))
}

/// The group that takes a group back.
pub open spec fn counter_group(g: GroupModel) -> GroupModel {
    GroupModel { inverted: flipped(g.inverted), before: g.after, after: g.before }
}

pub open spec fn undone(e: EditorModel) -> EditorModel {
    let f = flushed(e);
    if f.undo.len() == 0 {
        f
    } else {
        EditorModel {
            undo: f.undo.drop_last(),
            redo: f.redo.push(counter_group(f.undo.last())),
            ..replayed(f, f.undo.last())
        }
    }
}

pub open spec fn redone(e: EditorModel) -> EditorModel {
    if e.redo.len() == 0 {
        e
    } else {
        EditorModel {
            redo: e.redo.drop_last(),
            undo: e.undo.push(counter_group(e.redo.last())),
            ..replayed(e, e.redo.last())
        }
    }
}

// ---------- motion ----------

/// The cursor at a byte, at most the text's end; the selection kept or dropped.
pub open spec fn placed(e: EditorModel, b: int, extend: bool) -> EditorModel {
    let c = clamp_to(b, blen(e.doc.text) as int);
    EditorModel {
        cursor: c,
        anchor: if extend {
            e.anchor
        } else {
            c
        },
        ..e
    }
}

pub open spec fn moved_left(e: EditorModel, extend: bool) -> EditorModel {
    no_goal(
        if !extend && e.cursor != e.anchor {
            placed(e, sel_lo(e), false)
        } else {
            placed(e, prev_boundary(e.doc.text, e.cursor), extend)
        },
    )
}

pub open spec fn moved_right(e: EditorModel, extend: bool) -> EditorModel {
    no_goal(
        if !extend && e.cursor != e.anchor {
            placed(e, sel_hi(e), false)
        } else {
            placed(e, next_boundary(e.doc.text, e.cursor), extend)
        },
    )
}

/// The column that moving up and down aims at.
pub open spec fn goal_of(e: EditorModel) -> int {
    match e.goal {
        Some(g) => g,
        None => line_col(e.doc.text, e.cursor).1,
    }
}

pub open spec fn moved_up(e: EditorModel, extend: bool) -> EditorModel {
    let (line, _) = line_col(e.doc.text, e.cursor);
    let goal = goal_of(e);
    let target = if line == 0 {
        0
    } else {
        byte_at_line_col(e.doc.text, line - 1, goal)
    };
    EditorModel { goal: Some(goal), ..placed(e, target, extend) }
}

pub open spec fn moved_down(e: EditorModel, extend: bool) -> EditorModel {
    let (line, _) = line_col(e.doc.text, e.cursor);
    let goal = goal_of(e);
    let target = if line >= line_count(e.doc.text) - 1 {
        blen(e.doc.text) as int
    } else {
        byte_at_line_col(e.doc.text, line + 1, goal)
    };
    EditorModel { goal: Some(goal), ..placed(e, target, extend) }
}

/// To the first character that is not white space; from there to the line's start.
pub open spec fn moved_line_start(e: EditorModel, extend: bool) -> EditorModel {
    let (line, _) = line_col(e.doc.text, e.cursor);
    let start = byte_of_line(e.doc.text, line);
    let text = line_at(e.doc.text, line);
    let smart = start + blen(text.take(lead_spaces(text)));
    no_goal(placed(e, if e.cursor == smart {
        start
    } else {
        smart
    }, extend))
}

pub open spec fn moved_line_end(e: EditorModel, extend: bool) -> EditorModel {
    let (line, _) = line_col(e.doc.text, e.cursor);
    no_goal(
        placed(e, byte_of_line(e.doc.text, line) + blen(line_at(e.doc.text, line)), extend),
    )
}

/// The character that a byte belongs to.
pub open spec fn char_at_byte(t: Seq<char>, b: int) -> Option<char> {
    if b < blen(t) {
        Some(t[floor_index(t, b)])
    } else {
        None
    }
}

/// Whether the Unicode tables call a character alphabetic or numeric.
pub uninterp spec fn is_alphanumeric(c: char) -> bool;

/// `char::is_alphanumeric`: a function of the character alone.
pub assume_specification[ char::is_alphanumeric ](c: char) -> (r: bool)
    ensures
        r == is_alphanumeric(c),
;

/// A Chinese character.
pub open spec fn is_han(c: char) -> bool {
    '\u{4e00}' <= c <= '\u{9fff}'
}

/// What a run of characters is made of.
#[derive(Clone, Copy, Debug, PartialEq, Eq, Structural)]
pub enum Run {
    Space,
    /// Letters, digits and `_`.
    Letters,
    /// Chinese characters.
    Han,
}

pub open spec fn in_run(c: char, run: Run) -> bool {
    match run {
        Run::Space => is_space(c),
        Run::Letters => !is_han(c) && (is_alphanumeric(c) || c == '_'),
        Run::Han => is_han(c),
    }
}

/// The run of which a word with this character is made.
pub open spec fn run_with(c: Option<char>) -> Run {
    match c {
        Some(c) if is_han(c) => Run::Han,
        _ => Run::Letters,
    }
}

/// Back from byte `p` over a run.
pub open spec fn skip_left(t: Seq<char>, p: int, run: Run) -> int
    decreases p,
{
    proof {
        lemma_prev_boundary(t, p);
    }
    if p <= 0 {
        p
    } else {
        match char_at_byte(t, prev_boundary(t, p)) {
            Some(c) if in_run(c, run) => skip_left(t, prev_boundary(t, p), run),
            _ => p,
        }
    }
}

/// On from byte `p` over a run.
pub open spec fn skip_right(t: Seq<char>, p: int, run: Run) -> int
    decreases blen(t) - p,
{
    proof {
        lemma_next_boundary(t, p);
    }
    if p < 0 || p >= blen(t) {
        p
    } else {
        match char_at_byte(t, p) {
            Some(c) if in_run(c, run) => skip_right(t, next_boundary(t, p), run),
            _ => p,
        }
    }
}

pub proof fn lemma_prev_boundary(t: Seq<char>, b: int)
    ensures
        0 < b ==> 0 <= prev_boundary(t, b) < b,
        0 <= b <= blen(t) ==> prev_boundary(t, b) <= blen(t),
{
    if 0 <= b {
        lemma_floor_index(t, b);
        let i = floor_index(t, b);
        if i > 0 {
            lemma_off_mono(t, i - 1, i);
        }
    }
}

pub proof fn lemma_next_boundary(t: Seq<char>, b: int)
    ensures
        0 <= b < blen(t) ==> b < next_boundary(t, b) <= blen(t),
        0 <= b ==> next_boundary(t, b) <= blen(t),
{
    if 0 <= b {
        lemma_floor_index(t, b);
        let i = floor_index(t, b);
        lemma_off_ends(t);
        if i < t.len() {
            lemma_off_mono(t, i + 1, t.len() as int);
        }
    }
}

/// Over white space, then over a word: a run of letters, digits and `_`, or a run of
/// Chinese characters.
pub open spec fn moved_word_left(e: EditorModel, extend: bool) -> EditorModel {
    let t = e.doc.text;
    let p = skip_left(t, e.cursor, Run::Space);
    let run = run_with(char_at_byte(t, prev_boundary(t, p)));
    no_goal(placed(e, skip_left(t, p, run), extend))
}

pub open spec fn moved_word_right(e: EditorModel, extend: bool) -> EditorModel {
    let t = e.doc.text;
    let p = skip_right(t, e.cursor, Run::Space);
    no_goal(placed(e, skip_right(t, p, run_with(char_at_byte(t, p))), extend))
}

// ---------- the editor ----------

#[derive(Debug)]
enum Edit {
    Insert { at: usize, text: String },
    Delete { at: usize, text: String },
}

impl Edit {
    spec fn model(self) -> EditModel {
        match self {
            Edit::Insert { at, text } => EditModel::Insert { at: at as int, text: text@ },
            Edit::Delete { at, text } => EditModel::Delete { at: at as int, text: text@ },
        }
    }

    fn invert(&self) -> (r: Edit)
        ensures
            r.model() == inverse(self.model()),
    {
        match self {
            Edit::Insert { at, text } => Edit::Delete { at: *at, text: text.clone() },
            Edit::Delete { at, text } => Edit::Insert { at: *at, text: text.clone() },
        }
    }
}

struct UndoGroup {
    inverted: Vec<Edit>,
    cursor_before: usize,
    cursor_after: usize,
}

spec fn edits_model(v: Seq<Edit>) -> Seq<EditModel> {
    v.map_values(|x: Edit| x.model())
}

impl UndoGroup {
    spec fn model(self) -> GroupModel {
        GroupModel {
            inverted: edits_model(self.inverted@),
            before: self.cursor_before as int,
            after: self.cursor_after as int,
        }
    }
}

spec fn groups_model(v: Seq<UndoGroup>) -> Seq<GroupModel> {
    v.map_values(|g: UndoGroup| g.model())
}

pub struct Editor {
    pub doc: Document,
    cursor: usize,
    anchor: usize,
    goal: Option<usize>,
    undo: Vec<UndoGroup>,
    redo: Vec<UndoGroup>,
    pending: Option<UndoGroup>,
    last_edit_at: Option<Instant>,
}

impl View for Editor {
    type V = EditorModel;

    closed spec fn view(&self) -> EditorModel {
        EditorModel {
            doc: self.doc@,
            cursor: self.cursor as int,
            anchor: self.anchor as int,
            goal: match self.goal {
                Some(g) => Some(g as int),
                None => None,
            },
            undo: groups_model(self.undo@),
            redo: groups_model(self.redo@),
            pending: match self.pending {
                Some(g) => Some(g.model()),
                None => None,
            },
            timed: self.last_edit_at is Some,
        }
    }
}

/// The state right after a document was opened.
pub open spec fn fresh_editor(d: DocModel) -> EditorModel {
    EditorModel {
        doc: d,
        cursor: 0,
        anchor: 0,
        goal: None,
        undo: Seq::empty(),
        redo: Seq::empty(),
        pending: None,
        timed: false,
    }
}

/// Whether an edit so many milliseconds behind another counts as made soon after it.
pub fn soon_after(millis: u128) -> (r: bool)
    ensures
        r == (millis < UNDO_MERGE_MILLIS),
{
    millis < UNDO_MERGE_MILLIS
}

impl Default for Editor {
    /// An editor with an empty document.
    fn default() -> (r: Editor)
        ensures
            r.wf(),
            exists|n: Newline| r@ == fresh_editor(fresh_doc(Seq::empty(), None, n)),
    {
        Editor::new(Document::empty())
    }
}

impl Editor {
    pub closed spec fn wf(&self) -> bool {
        self.doc.wf()
    }

    pub fn document(&self) -> (r: &Document)
        ensures
            r@ == self@.doc,
            self.wf() ==> r.wf(),
    {
        &self.doc
    }

    pub fn new(doc: Document) -> (r: Editor)
        requires
            doc.wf(),
        ensures
            r.wf(),
            r@ == fresh_editor(doc@),
    {
        let r = Editor {
            doc,
            cursor: 0,
            anchor: 0,
            goal: None,
            undo: Vec::new(),
            redo: Vec::new(),
            pending: None,
            last_edit_at: None,
        };
        proof {
            assert(r@.undo =~= Seq::<GroupModel>::empty());
            assert(r@.redo =~= Seq::<GroupModel>::empty());
        }
        r
    }

    /// The document was saved under this path.
    pub fn saved_as(&mut self, path: &str)
        requires
            old(self).wf(),
        ensures
            final(self).wf(),
            final(self)@ == (EditorModel {
                doc: DocModel { path: Some(path@), dirty: false, ..old(self)@.doc },
                ..old(self)@
            }),
    {
        self.doc.saved_as(path);
    }

    /// The blocks around these lines of the document.
    pub fn blocks_for_lines(&mut self, want: Range<usize>) -> (r: &[Block])
        requires
            old(self).wf(),
            fits(old(self)@.doc.text),
        ensures
            final(self).wf(),
            ({
                let d = old(self)@.doc;
                let (a, b) = view_window(d, want.start as int, want.end as int);
                &&& blocks_model(r@) == blocks_between(d.text, a, b)
                &&& final(self)@ == (EditorModel {
                    doc: DocModel { covered: Some((a, b)), ..d },
                    ..old(self)@
                })
            }),
            line_count(old(self)@.doc.text) <= VIEW_PAD ==> blocks_model(r@) == blocks_between(
                old(self)@.doc.text,
                0,
                line_count(old(self)@.doc.text),
            ),
    {
        self.doc.blocks_for_lines(want)
    }

    /// Cursor and anchor are positions in memory.
    pub proof fn lemma_positions(&self)
        ensures
            0 <= self@.cursor <= usize::MAX,
            0 <= self@.anchor <= usize::MAX,
    {
    }

    pub fn cursor(&self) -> (r: usize)
        ensures
            r == self@.cursor,
    {
        self.cursor
    }

    pub fn has_selection(&self) -> (r: bool)
        ensures
            r == (self@.cursor != self@.anchor),
    {
        self.cursor != self.anchor
    }

    pub fn selection(&self) -> (r: Range<usize>)
        ensures
            r.start == sel_lo(self@),
            r.end == sel_hi(self@),
    {
        if self.cursor <= self.anchor {
            self.cursor..self.anchor
        } else {
            self.anchor..self.cursor
        }
    }

    pub fn selected_text(&self) -> (r: String)
        ensures
            r@ == bytes_between(self@.doc.text, sel_lo(self@), sel_hi(self@)),
    {
        let sel = self.selection();
        self.doc.slice_to_string(sel)
    }

    pub fn set_cursor(&mut self, byte: usize)
        requires
            old(self).wf(),
        ensures
            final(self).wf(),
            final(self)@ == no_goal(placed(old(self)@, byte as int, false)),
    {
        self.place(byte, false);
        self.goal = None;
    }

    /// Selects a range; the cursor is at its end.
    pub fn select(&mut self, range: Range<usize>)
        requires
            old(self).wf(),
        ensures
            final(self).wf(),
            final(self)@ == (EditorModel {
                anchor: clamp_to(range.start as int, blen(old(self)@.doc.text) as int),
                cursor: clamp_to(range.end as int, blen(old(self)@.doc.text) as int),
                goal: None,
                ..old(self)@
            }),
    {
        let n: usize = self.doc.len_bytes();
        self.anchor = if range.start < n {
            range.start
        } else {
            n
        };
        self.cursor = if range.end < n {
            range.end
        } else {
            n
        };
        self.goal = None;
    }

    pub fn select_all(&mut self)
        requires
            old(self).wf(),
        ensures
            final(self).wf(),
            final(self)@ == (EditorModel {
                anchor: 0,
                cursor: blen(old(self)@.doc.text) as int,
                ..old(self)@
            }),
    {
        self.anchor = 0;
        self.cursor = self.doc.len_bytes();
    }

    pub fn collapse_selection(&mut self)
        requires
            old(self).wf(),
        ensures
            final(self).wf(),
            final(self)@ == at_cursor(old(self)@, old(self)@.cursor),
    {
        self.anchor = self.cursor;
    }

    fn place(&mut self, byte: usize, extend: bool)
        requires
            old(self).wf(),
        ensures
            final(self).wf(),
            final(self)@ == placed(old(self)@, byte as int, extend),
    {
        let n: usize = self.doc.len_bytes();
        self.cursor = if byte < n {
            byte
        } else {
            n
        };
        if !extend {
            self.anchor = self.cursor;
        }
    }

    pub fn move_left(&mut self, extend: bool)
        requires
            old(self).wf(),
        ensures
            final(self).wf(),
            final(self)@ == moved_left(old(self)@, extend),
    {
        if !extend && self.has_selection() {
            let b: usize = self.selection().start;
            self.place(b, false);
        } else {
            let b: usize = self.doc.prev_char_boundary(self.cursor);
            self.place(b, extend);
        }
        self.goal = None;
    }

    pub fn move_right(&mut self, extend: bool)
        requires
            old(self).wf(),
        ensures
            final(self).wf(),
            final(self)@ == moved_right(old(self)@, extend),
    {
        if !extend && self.has_selection() {
            let b: usize = self.selection().end;
            self.place(b, false);
        } else {
            let b: usize = self.doc.next_char_boundary(self.cursor);
            self.place(b, extend);
        }
        self.goal = None;
    }

    pub fn move_up(&mut self, extend: bool)
        requires
            old(self).wf(),
        ensures
            final(self).wf(),
            final(self)@ == moved_up(old(self)@, extend),
    {
        let (line, col) = self.doc.byte_to_line_col(self.cursor);
        let goal: usize = match self.goal {
            Some(g) => g,
            None => col,
        };
        if line == 0 {
            self.place(0, extend);
        } else {
            let b: usize = self.doc.line_col_to_byte(line - 1, goal);
            self.place(b, extend);
        }
        self.goal = Some(goal);
    }

    pub fn move_down(&mut self, extend: bool)
        requires
            old(self).wf(),
        ensures
            final(self).wf(),
            final(self)@ == moved_down(old(self)@, extend),
    {
        let (line, col) = self.doc.byte_to_line_col(self.cursor);
        let goal: usize = match self.goal {
            Some(g) => g,
            None => col,
        };
        let n: usize = self.doc.len_lines();
        proof {
            crate::rope::lemma_line_count(self@.doc.text);
        }
        if line >= n - 1 {
            let b: usize = self.doc.len_bytes();
            self.place(b, extend);
        } else {
            let b: usize = self.doc.line_col_to_byte(line + 1, goal);
            self.place(b, extend);
        }
        self.goal = Some(goal);
    }

    pub fn move_line_start(&mut self, extend: bool)
        requires
            old(self).wf(),
        ensures
            final(self).wf(),
            final(self)@ == moved_line_start(old(self)@, extend),
    {
        let (line, col) = self.doc.byte_to_line_col(self.cursor);
        let total: usize = self.doc.len_bytes();
        proof {
            lemma_line_of_byte(
                self@.doc.text,
                clamp_to(self@.cursor, blen(self@.doc.text) as int),
            );
            lemma_byte_of_line(self@.doc.text, line as int);
            lemma_byte_of_line(self@.doc.text, line + 1);
        }
        let start: usize = self.doc.line_to_byte(line);
        let text: Vec<char> = chars_of(&self.doc.line_text(line));
        let indent: usize = crate::block::indent_of(text.as_slice());
        let smart: usize = start + indent;
        let b: usize = if self.cursor == smart {
            start
        } else {
            smart
        };
        self.place(b, extend);
        self.goal = None;
    }

    pub fn move_line_end(&mut self, extend: bool)
        requires
            old(self).wf(),
        ensures
            final(self).wf(),
            final(self)@ == moved_line_end(old(self)@, extend),
    {
        let (line, col) = self.doc.byte_to_line_col(self.cursor);
        let total: usize = self.doc.len_bytes();
        proof {
            lemma_line_of_byte(
                self@.doc.text,
                clamp_to(self@.cursor, blen(self@.doc.text) as int),
            );
            lemma_byte_of_line(self@.doc.text, line as int);
            lemma_byte_of_line(self@.doc.text, line + 1);
        }
        let start: usize = self.doc.line_to_byte(line);
        let len: usize = byte_len(&self.doc.line_text(line));
        self.place(start + len, extend);
        self.goal = None;
    }

    pub fn move_doc_start(&mut self, extend: bool)
        requires
            old(self).wf(),
        ensures
            final(self).wf(),
            final(self)@ == no_goal(placed(old(self)@, 0, extend)),
    {
        self.place(0, extend);
        self.goal = None;
    }

    pub fn move_doc_end(&mut self, extend: bool)
        requires
            old(self).wf(),
        ensures
            final(self).wf(),
            final(self)@ == no_goal(placed(old(self)@, blen(old(self)@.doc.text) as int, extend)),
    {
        let b: usize = self.doc.len_bytes();
        self.place(b, extend);
        self.goal = None;
    }

    /// The character that a byte belongs to.
    fn char_at(&self, byte: usize) -> (r: Option<char>)
        ensures
            r == char_at_byte(self@.doc.text, byte as int),
    {
        let n: usize = self.doc.len_bytes();
        if byte >= n {
            return None;
        }
        let end: usize = self.doc.next_char_boundary(byte);
        let s: Vec<char> = chars_of(&self.doc.slice_to_string(byte..end));
        proof {
            let t = self@.doc.text;
            lemma_floor_index(t, byte as int);
            let i = floor_index(t, byte as int);
            if i == t.len() {
                lemma_off_ends(t);
            }
            lemma_floor_index_off(t, i + 1);
            assert(s@ =~= seq![t[i]]);
        }
        Some(s[0])
    }

    /// Back from a byte over a run.
    fn go_left(&self, from: usize, run: Run) -> (r: usize)
        ensures
            r == skip_left(self@.doc.text, from as int, run),
    {
        let mut p: usize = from;
        while p > 0
            invariant
                skip_left(self@.doc.text, from as int, run) == skip_left(
                    self@.doc.text,
                    p as int,
                    run,
                ),
            decreases p,
        {
            proof {
                lemma_prev_boundary(self@.doc.text, p as int);
            }
            let prev: usize = self.doc.prev_char_boundary(p);
            match self.char_at(prev) {
                Some(c) => {
                    if !char_goes_on(c, run) {
                        return p;
                    }
                    p = prev;
                },
                None => {
                    return p;
                },
            }
        }
        p
    }

    /// On from a byte over a run.
    fn go_right(&self, from: usize, run: Run) -> (r: usize)
        ensures
            r == skip_right(self@.doc.text, from as int, run),
    {
        let n: usize = self.doc.len_bytes();
        let mut p: usize = from;
        while p < n
            invariant
                n == blen(self@.doc.text),
                skip_right(self@.doc.text, from as int, run) == skip_right(
                    self@.doc.text,
                    p as int,
                    run,
                ),
            decreases n - p,
        {
            match self.char_at(p) {
                Some(c) => {
                    if !char_goes_on(c, run) {
                        return p;
                    }
                    p = self.doc.next_char_boundary(p);
                },
                None => {
                    return p;
                },
            }
        }
        p
    }

    pub fn move_word_left(&mut self, extend: bool)
        requires
            old(self).wf(),
        ensures
            final(self).wf(),
            final(self)@ == moved_word_left(old(self)@, extend),
    {
        let p: usize = self.go_left(self.cursor, Run::Space);
        let run: Run = run_of_word(self.char_at(self.doc.prev_char_boundary(p)));
        let q: usize = self.go_left(p, run);
        self.place(q, extend);
        self.goal = None;
    }

    pub fn move_word_right(&mut self, extend: bool)
        requires
            old(self).wf(),
        ensures
            final(self).wf(),
            final(self)@ == moved_word_right(old(self)@, extend),
    {
        let p: usize = self.go_right(self.cursor, Run::Space);
        let run: Run = run_of_word(self.char_at(p));
        let q: usize = self.go_right(p, run);
        self.place(q, extend);
        self.goal = None;
    }

    /// The line and the column of the cursor.
    pub fn cursor_line_col(&self) -> (r: (usize, usize))
        ensures
            (r.0 as int, r.1 as int) == line_col(self@.doc.text, self@.cursor),
    {
        self.doc.byte_to_line_col(self.cursor)
    }
}

fn han(c: char) -> (r: bool)
    ensures
        r == is_han(c),
{
    '\u{4e00}' <= c && c <= '\u{9fff}'
}

fn char_goes_on(c: char, run: Run) -> (r: bool)
    ensures
        r == in_run(c, run),
{
    match run {
        Run::Space => is_space_char(c),
        Run::Letters => !han(c) && (c.is_alphanumeric() || c == '_'),
        Run::Han => han(c),
    }
}

fn run_of_word(c: Option<char>) -> (r: Run)
    ensures
        r == run_with(c),
{
    match c {
        Some(c) => if han(c) {
            Run::Han
        } else {
            Run::Letters
        },
        None => Run::Letters,
    }
}

// ---------- editing ----------

/// How long a text is after an insertion.
pub proof fn lemma_inserted_blen(t: Seq<char>, b: int, s: Seq<char>)
    requires
        0 <= b,
    ensures
        blen(with_inserted(t, b, s)) == blen(t) + blen(s),
{
    lemma_floor_index(t, b);
    let i = floor_index(t, b);
    lemma_blen_split(t, i);
    lemma_blen_concat(t.take(i), s);
    lemma_blen_concat(t.take(i) + s, t.skip(i));
}


impl Editor {
    /// Closes the open group.
    fn flush_group(&mut self)
        requires
            old(self).wf(),
        ensures
            final(self).wf(),
            final(self)@ == flushed(old(self)@),
    {
        let ghost e = self@;
        let taken: Option<UndoGroup> = self.pending.take();
        match taken {
            Some(g) => {
                if g.inverted.len() > 0 {
                    let ghost before = self.undo@;
                    let closed = UndoGroup {
                        inverted: g.inverted,
                        cursor_before: g.cursor_before,
                        cursor_after: self.cursor,
                    };
                    let ghost cm = closed.model();
                    self.undo.push(closed);
                    proof {
                        assert(groups_model(self.undo@) =~= groups_model(before).push(cm));
                    }
                    let ghost grown = self.undo@;
                    if self.undo.len() > UNDO_LIMIT {
                        let first = self.undo.remove(0);
                        proof {
                            assert(groups_model(self.undo@) =~= groups_model(grown).drop_first());
                        }
                    }
                }
            },
            None => {},
        }
    }

    /// Opens a group, or goes on with the open one.
    fn begin_group(&mut self, mergeable: bool, soon: bool, now: Instant)
        requires
            old(self).wf(),
        ensures
            final(self).wf(),
            final(self)@ == begun(old(self)@, merges(old(self)@, mergeable, soon)),
    {
        let merge: bool = mergeable && self.pending.is_some() && self.last_edit_at.is_some() && soon;
        if !merge {
            self.flush_group();
            self.pending = Some(
                UndoGroup {
                    inverted: Vec::new(),
                    cursor_before: self.cursor,
                    cursor_after: self.cursor,
                },
            );
            proof {
                assert(self.pending->0.model().inverted =~= Seq::<EditModel>::empty());
            }
        }
        self.last_edit_at = Some(now);
        self.redo.clear();
        proof {
            assert(groups_model(self.redo@) =~= Seq::<GroupModel>::empty());
        }
    }

    /// Whether the last edit was made just before `now`.
    fn edited_soon(&self, now: &Instant) -> (r: bool)
        ensures
            r ==> self@.timed,
    {
        match self.last_edit_at {
            Some(t) => soon_after(now.duration_since(t).as_millis()),
            None => false,
        }
    }

    /// Closes the open group: what follows is undone by itself.
    pub fn break_undo_group(&mut self)
        requires
            old(self).wf(),
        ensures
            final(self).wf(),
            final(self)@ == (EditorModel { timed: false, ..flushed(old(self)@) }),
    {
        self.flush_group();
        self.last_edit_at = None;
    }

    fn record(&mut self, edit: Edit)
        ensures
            final(self).doc == old(self).doc,
            final(self)@ == recorded(old(self)@, edit.model()),
    {
        let taken: Option<UndoGroup> = self.pending.take();
        match taken {
            Some(g) => {
                let mut inverted: Vec<Edit> = g.inverted;
                let ghost before = inverted@;
                let x: Edit = edit.invert();
                let ghost xm = x.model();
                inverted.push(x);
                proof {
                    assert(edits_model(inverted@) =~= edits_model(before).push(xm));
                }
                self.pending = Some(
                    UndoGroup {
                        inverted,
                        cursor_before: g.cursor_before,
                        cursor_after: g.cursor_after,
                    },
                );
            },
            None => {},
        }
    }

    fn do_insert(&mut self, at: usize, text: &str)
        requires
            old(self).wf(),
        ensures
            final(self).wf(),
            final(self)@ == put(old(self)@, at as int, text@),
            blen(final(self)@.doc.text) == blen(old(self)@.doc.text) + blen(text@),
    {
        proof {
            lemma_inserted_blen(self@.doc.text, at as int, text@);
            lemma_blen_bounds(text@);
        }
        if text.is_empty() {
            return ;
        }
        self.doc.insert(at, text);
        self.record(Edit::Insert { at, text: text.to_owned() });
    }

    fn do_delete(&mut self, start: usize, end: usize)
        requires
            old(self).wf(),
        ensures
            final(self).wf(),
            final(self)@ == taken(old(self)@, start as int, end as int),
    {
        if start >= end {
            return ;
        }
        let text: String = self.doc.slice_to_string(start..end);
        self.doc.remove(start..end);
        self.record(Edit::Delete { at: start, text });
    }
}

/// Behind the selection's start there is room for `n` more bytes.
pub open spec fn room(e: EditorModel, n: nat) -> bool {
    sel_lo(e) + n <= usize::MAX
}

impl Editor {
    /// Takes the selection away, if there is one.
    fn delete_selection_inner(&mut self) -> (r: bool)
        requires
            old(self).wf(),
        ensures
            final(self).wf(),
            final(self)@ == cut_selection(old(self)@),
            r == (old(self)@.cursor != old(self)@.anchor),
    {
        let sel = self.selection();
        if sel.start >= sel.end {
            return false;
        }
        self.do_delete(sel.start, sel.end);
        self.cursor = sel.start;
        self.anchor = sel.start;
        true
    }

    /// Puts text in at the cursor and the cursor behind it.
    fn type_text(&mut self, text: &str)
        requires
            old(self).wf(),
            old(self)@.cursor + blen(text@) <= usize::MAX,
        ensures
            final(self).wf(),
            final(self)@ == typed(old(self)@, text@),
    {
        let at: usize = self.cursor;
        let len: usize = byte_len(text);
        self.do_insert(at, text);
        self.cursor = at + len;
        self.anchor = self.cursor;
    }

    /// Types or pastes text. Single characters typed one after the other are undone
    /// together.
    pub fn insert(&mut self, text: &str)
        requires
            old(self).wf(),
            room(old(self)@, blen(text@)),
        ensures
            final(self).wf(),
            exists|soon: bool| final(self)@ == inserted(old(self)@, text@, soon),
    {
        let now: Instant = Instant::now();
        let soon: bool = self.edited_soon(&now);
        self.insert_timed(text, soon, now);
        proof {
            assert(self@ == inserted(old(self)@, text@, soon));
        }
    }

    /// Types or pastes text at a time `now`, `soon` after the last edit or not.
    pub fn insert_timed(&mut self, text: &str, soon: bool, now: Instant)
        requires
            old(self).wf(),
            room(old(self)@, blen(text@)),
        ensures
            final(self).wf(),
            final(self)@ == inserted(old(self)@, text@, soon),
    {
        let cs: Vec<char> = chars_of(text);
        if cs.len() == 0 {
            return ;
        }
        let single: bool = cs.len() == 1 && cs[0] != '\n';
        self.begin_group(single, soon, now);
        self.delete_selection_inner();
        self.type_text(text);
        self.goal = None;
        if !single {
            self.flush_group();
        }
    }

    pub fn backspace(&mut self)
        requires
            old(self).wf(),
        ensures
            final(self).wf(),
            exists|soon: bool| final(self)@ == backspaced(old(self)@, soon),
    {
        let now: Instant = Instant::now();
        let soon: bool = self.edited_soon(&now);
        self.backspace_timed(soon, now);
        proof {
            assert(self@ == backspaced(old(self)@, soon));
        }
    }

    /// Deletes the selection or the character before the cursor.
    pub fn backspace_timed(&mut self, soon: bool, now: Instant)
        requires
            old(self).wf(),
        ensures
            final(self).wf(),
            final(self)@ == backspaced(old(self)@, soon),
    {
        self.begin_group(true, soon, now);
        if self.delete_selection_inner() {
            self.flush_group();
            return ;
        }
        if self.cursor == 0 {
            return ;
        }
        let prev: usize = self.doc.prev_char_boundary(self.cursor);
        let before: usize = self.doc.prev_char_boundary(prev);
        let last: Vec<char> = chars_of(&self.doc.slice_to_string(prev..self.cursor));
        let second: Vec<char> = chars_of(&self.doc.slice_to_string(before..prev));
        proof {
            if last@.len() == 1 && last@[0] == '\n' {
                assert(last@ =~= seq!['\n']);
            }
            if second@.len() == 1 && second@[0] == '\r' {
                assert(second@ =~= seq!['\r']);
            }
        }
        let whole_break: bool = last.len() == 1 && last[0] == '\n' && before < prev && second.len()
            == 1 && second[0] == '\r';
        let start: usize = if whole_break {
            before
        } else {
            prev
        };
        self.do_delete(start, self.cursor);
        self.cursor = start;
        self.anchor = start;
        self.goal = None;
    }

    pub fn delete_forward(&mut self)
        requires
            old(self).wf(),
        ensures
            final(self).wf(),
            exists|soon: bool| final(self)@ == deleted_forward(old(self)@, soon),
    {
        let now: Instant = Instant::now();
        let soon: bool = self.edited_soon(&now);
        self.delete_forward_timed(soon, now);
        proof {
            assert(self@ == deleted_forward(old(self)@, soon));
        }
    }

    /// Deletes the selection or the character behind the cursor.
    pub fn delete_forward_timed(&mut self, soon: bool, now: Instant)
        requires
            old(self).wf(),
        ensures
            final(self).wf(),
            final(self)@ == deleted_forward(old(self)@, soon),
    {
        self.begin_group(true, soon, now);
        if self.delete_selection_inner() {
            self.flush_group();
            return ;
        }
        if self.cursor >= self.doc.len_bytes() {
            return ;
        }
        let next: usize = self.doc.next_char_boundary(self.cursor);
        let after: usize = self.doc.next_char_boundary(next);
        let first: Vec<char> = chars_of(&self.doc.slice_to_string(self.cursor..next));
        let second: Vec<char> = chars_of(&self.doc.slice_to_string(next..after));
        proof {
            if first@.len() == 1 && first@[0] == '\r' {
                assert(first@ =~= seq!['\r']);
            }
            if second@.len() == 1 && second@[0] == '\n' {
                assert(second@ =~= seq!['\n']);
            }
        }
        let whole_break: bool = first.len() == 1 && first[0] == '\r' && second.len() == 1
            && second[0] == '\n';
        let end: usize = if whole_break {
            after
        } else {
            next
        };
        self.do_delete(self.cursor, end);
        self.goal = None;
    }

    /// Starts a group of its own, whatever the time.
    fn begin_alone(&mut self)
        requires
            old(self).wf(),
        ensures
            final(self).wf(),
            final(self)@ == begun(old(self)@, false),
    {
        let now: Instant = Instant::now();
        self.begin_group(false, false, now);
    }

    /// Replaces the selection.
    pub fn replace_selection(&mut self, text: &str)
        requires
            old(self).wf(),
            room(old(self)@, blen(text@)),
        ensures
            final(self).wf(),
            final(self)@ == selection_replaced(old(self)@, text@),
    {
        self.begin_alone();
        self.delete_selection_inner();
        self.type_text(text);
        self.flush_group();
    }

    /// Takes in text that streams in. All of it is undone together.
    pub fn stream_insert(&mut self, delta: &str)
        requires
            old(self).wf(),
            old(self)@.cursor + blen(delta@) <= usize::MAX,
        ensures
            final(self).wf(),
            final(self)@ == streamed(old(self)@, delta@),
    {
        if delta.is_empty() {
            return ;
        }
        if self.pending.is_none() {
            self.begin_alone();
        }
        self.type_text(delta);
    }

    /// Ends a stream.
    pub fn finish_stream(&mut self)
        requires
            old(self).wf(),
        ensures
            final(self).wf(),
            final(self)@ == flushed(old(self)@),
    {
        self.flush_group();
    }

    /// A line break. Lists and quotes go on; behind an empty item they end.
    pub fn newline(&mut self)
        requires
            old(self).wf(),
            broken(old(self)@).cursor <= usize::MAX,
        ensures
            final(self).wf(),
            final(self)@ == broken(old(self)@),
    {
        self.begin_alone();
        self.delete_selection_inner();
        let ghost e1 = self@;
        let nl = self.doc.newline().as_str();
        let (line, col) = self.doc.byte_to_line_col(self.cursor);
        let total: usize = self.doc.len_bytes();
        proof {
            lemma_line_of_byte(e1.doc.text, clamp_to(e1.cursor, blen(e1.doc.text) as int));
            lemma_byte_of_line(e1.doc.text, line as int);
            lemma_byte_of_line(e1.doc.text, line + 1);
        }
        let text: Vec<char> = chars_of(&self.doc.line_text(line));
        let t = text.as_slice();
        let bare = trim_end_chars(t);
        proof {
            crate::text::lemma_trim_end(t@);
            lemma_blen_split(t@, bare@.len() as int);
        }
        let len: usize = chars_len(bare);
        let mut ins: Vec<char> = chars_of(nl);
        proof {
            assert(nl@ == newline_text(e1.doc.newline));
        }
        match continuation_prefix(t) {
            Some((next, marker)) => {
                if len as u128 <= marker && col >= len {
                    let start: usize = self.doc.line_to_byte(line);
                    let end: usize = start + chars_len(t);
                    self.do_delete(start, end);
                    self.cursor = start;
                    self.anchor = start;
                    proof {
                        lemma_flushed_cursor(no_goal(typed(self@, nl@)));
                    }
                    self.type_text(nl);
                    self.goal = None;
                    self.flush_group();
                    return ;
                }
                extend(&mut ins, next.as_slice());
            },
            None => {},
        }
        proof {
            lemma_flushed_cursor(no_goal(typed(e1, ins@)));
        }
        self.type_text(&string_of(ins.as_slice()));
        self.goal = None;
        self.flush_group();
    }
}

/// Closing a group leaves the cursor and the text alone.
proof fn lemma_flushed_cursor(e: EditorModel)
    ensures
        flushed(e).cursor == e.cursor,
        flushed(e).anchor == e.anchor,
        flushed(e).doc == e.doc,
{
}

/// What the line below a line starts with, and how long the line's own marker is.
fn continuation_prefix(line: &[char]) -> (r: Option<(Vec<char>, u128)>)
    requires
        blen(line@) <= usize::MAX,
    ensures
        match r {
            Some((next, n)) => continuation(line@) == Some((next@, n as int)),
            None => continuation(line@) is None,
        },
{
    let t = trim_start_chars(line);
    let k: usize = count_lead_spaces(line);
    let indent = slice_subrange(line, 0, k);
    proof {
        lemma_lead_spaces(line@);
        assert(indent@ =~= line@.take(k as int));
        lemma_blen_split(line@, k as int);
        reveal_strlit("- ");
        reveal_strlit("* ");
        reveal_strlit("+ ");
        reveal_strlit(". ");
        reveal_strlit(") ");
    }
    let n: u128 = chars_len(indent) as u128;
    let mut next: Vec<char> = vstd::slice::slice_to_vec(indent);
    if t.len() > 0 && t[0] == '>' {
        next.push('>');
        next.push(' ');
        proof {
            assert(next@ =~= indent@ + seq!['>', ' ']);
        }
        let mark: u128 = if t.len() > 1 && (t[1] == ' ' || t[1] == '>') {
            2
        } else {
            1
        };
        return Some((next, n + mark));
    }
    if bullet(t) {
        let rest = slice_subrange(t, 2, t.len());
        let marker = slice_subrange(t, 0, 2);
        proof {
            assert(rest@ =~= t@.skip(2));
            assert(marker@ =~= t@.take(2));
        }
        extend(&mut next, marker);
        if crate::block::box_of(rest).is_some() {
            next.push('[');
            next.push(' ');
            next.push(']');
            next.push(' ');
            proof {
                assert(next@ =~= indent@ + t@.take(2) + seq!['[', ' ', ']', ' ']);
            }
            return Some((next, n + 6));
        }
        return Some((next, n + 2));
    }
    let d: usize = count_digits(t);
    if d == 0 || d > 9 {
        return None;
    }
    let after = slice_subrange(t, d, t.len());
    let head = slice_subrange(t, 0, d);
    proof {
        assert(after@ =~= t@.skip(d as int));
        assert(head@ =~= t@.take(d as int));
        crate::block::lemma_digit_run(t@);
    }
    if starts_with(after, ". ") || starts_with(after, ") ") {
        let number: Vec<char> = number_chars(number_of(head) + 1);
        extend(&mut next, number.as_slice());
        next.push(after[0]);
        next.push(' ');
        proof {
            assert(after@[0] == t@[d as int]);
            assert(next@ =~= indent@ + digits_of(decimal(t@.take(d as int)) + 1) + seq![
                t@[d as int],
                ' ',
            ]);
        }
        return Some((next, n + d as u128 + 2));
    }
    None
}

fn bullet(t: &[char]) -> (r: bool)
    ensures
        r == is_bullet(t@),
{
    starts_with(t, "- ") || starts_with(t, "* ") || starts_with(t, "+ ")
}

proof fn lemma_line_behind(t: Seq<char>, k: int)
    requires
        0 <= k,
    ensures
        byte_of_line(t, clamp_to(k, line_count(t))) == byte_of_line(t, k),
{
    crate::rope::lemma_line_index(t, k);
    crate::rope::lemma_line_count(t);
    crate::rope::lemma_line_index(t, line_count(t));
}

impl Editor {
    /// Indents or outdents one line. Returns by how much it moved.
    fn shift_one(&mut self, line: usize, add: bool) -> (r: i128)
        requires
            old(self).wf(),
        ensures
            final(self).wf(),
            -2 <= r <= 2,
            forall|first: int, d: int, total: int|
                #![trigger shift_line(ShiftModel { e: old(self)@, first: d, total }, first, line as int, add)]
                shift_line(ShiftModel { e: old(self)@, first: d, total }, first, line as int, add) == (
                ShiftModel {
                    e: final(self)@,
                    first: if line == first && r != 0 {
                        r as int
                    } else {
                        d
                    },
                    total: total + r,
                }),
    {
        let start: usize = self.doc.line_to_byte(line);
        let text: Vec<char> = chars_of(&self.doc.line_text(line));
        let t = text.as_slice();
        let total: usize = self.doc.len_bytes();
        proof {
            lemma_line_behind(self@.doc.text, line as int);
        }
        if add {
            if trim_chars(t).len() == 0 {
                return 0;
            }
            proof {
                reveal_strlit("  ");
                assert("  "@ =~= two_blanks());
            }
            self.do_insert(start, "  ");
            return 2;
        }
        let run: usize = count_run(t, ' ');
        let cut: usize = if run < 2 {
            run
        } else {
            2
        };
        if cut == 0 {
            return 0;
        }
        proof {
            lemma_byte_of_line(self@.doc.text, line as int);
            lemma_byte_of_line(self@.doc.text, line + 1);
            lemma_run_of(t@, ' ');
            lemma_blen_bounds(t@);
        }
        self.do_delete(start, start + cut);
        -(cut as i128)
    }

    /// Indents or outdents the selected lines.
    fn shift_lines(&mut self, add: bool)
        requires
            old(self).wf(),
        ensures
            final(self).wf(),
            final(self)@ == shifted(old(self)@, add),
    {
        let sel = self.selection();
        let ghost e = self@;
        let first: usize = self.doc.byte_to_line(sel.start);
        let last: usize = self.doc.byte_to_line(sel.end);
        let mut delta_first: i128 = 0;
        let mut delta_total: i128 = 0;
        let mut line: usize = last;
        let mut more: bool = last >= first;
        let ghost done = shift_lines_from(ShiftModel { e, first: 0, total: 0 }, first as int, last as int, add);
        while more
            invariant
                self.wf(),
                line <= last,
                more ==> line >= first,
                -2 <= delta_first <= 2,
                -2 * (last - line) - 2 <= delta_total <= 2 * (last - line) + 2,
                more ==> -2 * (last - line) <= delta_total <= 2 * (last - line),
                done == shift_lines_from(
                    ShiftModel { e: self@, first: delta_first as int, total: delta_total as int },
                    first as int,
                    if more {
                        line as int
                    } else {
                        first - 1
                    },
                    add,
                ),
            decreases line + if more { 1int } else { 0 },
        {
            let ghost s = ShiftModel { e: self@, first: delta_first as int, total: delta_total as int };
            let r: i128 = self.shift_one(line, add);
            proof {
                assert(shift_line(s, first as int, line as int, add).total == s.total + r);
            }
            delta_total = delta_total + r;
            if line == first && r != 0 {
                delta_first = r;
            }
            if line == first {
                more = false;
            } else {
                line = line - 1;
            }
        }
        let n: usize = self.doc.len_bytes();
        let a0: i128 = sel.start as i128 + delta_first;
        let a: i128 = if a0 > 0 {
            a0
        } else {
            0
        };
        let b0: i128 = sel.end as i128 + delta_total;
        let b: i128 = if b0 > a {
            b0
        } else {
            a
        };
        self.anchor = if a < n as i128 {
            a as usize
        } else {
            n
        };
        self.cursor = if b < n as i128 {
            b as usize
        } else {
            n
        };
    }

    /// Indents the selected lines, or puts two blanks in at the cursor.
    pub fn indent(&mut self)
        requires
            old(self).wf(),
            room(old(self)@, 2),
        ensures
            final(self).wf(),
            final(self)@ == indented(old(self)@),
    {
        self.begin_alone();
        if self.has_selection() {
            self.shift_lines(true);
        } else {
            proof {
                reveal_strlit("  ");
                assert("  "@ =~= two_blanks());
                reveal_with_fuel(blen, 3);
            }
            self.type_text("  ");
        }
        self.flush_group();
    }

    /// Outdents the selected lines or the line at the cursor.
    pub fn outdent(&mut self)
        requires
            old(self).wf(),
        ensures
            final(self).wf(),
            final(self)@ == outdented(old(self)@),
    {
        self.begin_alone();
        self.shift_lines(false);
        self.flush_group();
    }

    /// Wraps the selection in a marker, or takes the marker away.
    pub fn toggle_wrap(&mut self, marker: &str)
        requires
            old(self).wf(),
            wrap_toggled(old(self)@, marker@).cursor <= usize::MAX,
        ensures
            final(self).wf(),
            final(self)@ == wrap_toggled(old(self)@, marker@),
    {
        self.begin_alone();
        let ghost e1 = self@;
        let sel = self.selection();
        let m: Vec<char> = chars_of(marker);
        let mlen: usize = byte_len(marker);
        if sel.start >= sel.end {
            let at: usize = self.cursor;
            let mut pair: Vec<char> = Vec::new();
            extend(&mut pair, m.as_slice());
            extend(&mut pair, m.as_slice());
            proof {
                assert(pair@ =~= marker@ + marker@);
                lemma_flushed_cursor(
                    at_cursor(put(e1, e1.cursor, marker@ + marker@), e1.cursor + blen(marker@)),
                );
            }
            self.do_insert(at, &string_of(pair.as_slice()));
            self.cursor = at + mlen;
            self.anchor = self.cursor;
            self.flush_group();
            return ;
        }
        let text: Vec<char> = chars_of(&self.doc.slice_to_string(sel.start..sel.end));
        let tlen: usize = chars_len(text.as_slice());
        let mut new: Vec<char> = Vec::new();
        if tlen >= mlen && tlen - mlen >= mlen && starts_with(text.as_slice(), marker) && ends_with(
            text.as_slice(),
            m.as_slice(),
        ) {
            proof {
                lemma_inner_range(text@, m@);
            }
            extend(&mut new, slice_subrange(text.as_slice(), m.len(), text.len() - m.len()));
            proof {
                assert(new@ =~= text@.subrange(m@.len() as int, text@.len() - m@.len()));
            }
        } else {
            extend(&mut new, m.as_slice());
            extend(&mut new, text.as_slice());
            extend(&mut new, m.as_slice());
            proof {
                assert(new@ =~= m@ + text@ + m@);
            }
        }
        let s: String = string_of(new.as_slice());
        self.do_delete(sel.start, sel.end);
        self.do_insert(sel.start, &s);
        proof {
            lemma_flushed_cursor(
                EditorModel {
                    anchor: sel.start as int,
                    cursor: sel.start + blen(new@),
                    ..self@
                },
            );
        }
        self.anchor = sel.start;
        self.cursor = sel.start + byte_len(&s);
        self.flush_group();
    }

    /// Makes the line at the cursor a heading of this level, or plain text.
    pub fn set_heading(&mut self, level: u8)
        requires
            old(self).wf(),
        ensures
            final(self).wf(),
            final(self)@ == heading_set(old(self)@, level),
    {
        self.begin_alone();
        let ghost e1 = self@;
        let (line, col) = self.doc.byte_to_line_col(self.cursor);
        let total: usize = self.doc.len_bytes();
        proof {
            lemma_line_of_byte(e1.doc.text, clamp_to(e1.cursor, blen(e1.doc.text) as int));
            lemma_byte_of_line(e1.doc.text, line as int);
            lemma_byte_of_line(e1.doc.text, line + 1);
        }
        let start: usize = self.doc.line_to_byte(line);
        let text: Vec<char> = chars_of(&self.doc.line_text(line));
        let t = text.as_slice();
        let hashes: usize = count_run(t, '#');
        let after = slice_subrange(t, hashes, t.len());
        proof {
            assert(after@ =~= t@.skip(hashes as int));
        }
        let bare = trim_start_chars(after);
        let mut new: Vec<char> = Vec::new();
        if level > 0 {
            let mut k: u8 = 0;
            while k < level
                invariant
                    0 <= k <= level,
                    new@ == Seq::new(k as nat, |j: int| '#'),
                decreases level - k,
            {
                new.push('#');
                k = k + 1;
                proof {
                    assert(new@ =~= Seq::new(k as nat, |j: int| '#'));
                }
            }
            new.push(' ');
        }
        extend(&mut new, bare);
        proof {
            assert(new@ =~= as_heading(t@, level));
            lemma_heading_fits(e1, line as int, start as int, t@);
        }
        let s: String = string_of(new.as_slice());
        let len: usize = chars_len(t);
        self.do_delete(start, start + len);
        let ghost e2 = self@;
        self.do_insert(start, &s);
        let grown: usize = self.doc.len_bytes();
        let c: usize = start + byte_len(&s);
        self.cursor = c;
        self.anchor = c;
        self.flush_group();
    }

    /// Ticks or clears the check box of the line at the cursor. Returns whether there
    /// is one.
    pub fn toggle_task(&mut self) -> (r: bool)
        requires
            old(self).wf(),
        ensures
            final(self).wf(),
            r == (task_at_cursor(old(self)@) is Some),
            final(self)@ == task_toggled(old(self)@),
    {
        let ghost e = self@;
        let (line, col) = self.doc.byte_to_line_col(self.cursor);
        let total: usize = self.doc.len_bytes();
        proof {
            lemma_line_of_byte(e.doc.text, clamp_to(e.cursor, blen(e.doc.text) as int));
            lemma_byte_of_line(e.doc.text, line as int);
            lemma_byte_of_line(e.doc.text, line + 1);
            reveal_strlit("- ");
            reveal_strlit("* ");
            reveal_strlit("+ ");
            reveal_strlit("[ ] ");
            reveal_strlit("[x] ");
            reveal_strlit("[X] ");
            reveal_strlit("[ ]");
            reveal_strlit("[x]");
            assert("[ ]"@ =~= seq!['[', ' ', ']']);
            assert("[x]"@ =~= seq!['[', 'x', ']']);
        }
        let start: usize = self.doc.line_to_byte(line);
        let text: Vec<char> = chars_of(&self.doc.line_text(line));
        let t = trim_start_chars(text.as_slice());
        if !bullet(t) {
            return false;
        }
        let rest = slice_subrange(t, 2, t.len());
        proof {
            assert(rest@ =~= t@.skip(2));
        }
        let ticked: bool = match crate::block::box_of(rest) {
            Some(b) => b,
            None => {
                return false;
            },
        };
        let indent: usize = crate::block::indent_of(text.as_slice());
        proof {
            lemma_lead_spaces(text@);
            lemma_blen_split(text@, lead_spaces(text@));
            lemma_blen_bounds(t@);
            assert(t@.len() >= 6);
        }
        let at: usize = start + indent + 2;
        self.begin_alone();
        self.do_delete(at, at + 3);
        if ticked {
            self.do_insert(at, "[ ]");
        } else {
            self.do_insert(at, "[x]");
        }
        self.flush_group();
        true
    }
}

/// Where both ends of a text are taken away, they do not overlap.
proof fn lemma_inner_range(text: Seq<char>, m: Seq<char>)
    requires
        blen(text) >= 2 * blen(m),
        m.is_prefix_of(text),
        m.is_suffix_of(text),
    ensures
        m.len() <= text.len() - m.len(),
{
    let k = text.len() - m.len();
    if m.len() > k {
        lemma_blen_split(text, k);
        assert(text.skip(k) =~= m);
        assert(text.take(m.len() as int) =~= m);
        lemma_off_mono(text, k, m.len() as int);
    }
}

/// Behind the place of a line there is as much text as was before it.
proof fn lemma_heading_fits(e: EditorModel, line: int, start: int, text: Seq<char>)
    requires
        0 <= line < line_count(e.doc.text),
        start == byte_of_line(e.doc.text, line),
        text == line_at(e.doc.text, line),
    ensures
        blen(taken(e, start, start + blen(text)).doc.text) >= start,
{
    let t = e.doc.text;
    lemma_byte_of_line(t, line);
    lemma_byte_of_line(t, line + 1);
    if blen(text) > 0 {
        crate::rope::lemma_line_index(t, line);
        lemma_floor_index_off(t, line_index(t, line));
        lemma_floor_index(t, start + blen(text));
        lemma_blen_concat(
            t.take(line_index(t, line)),
            t.skip(floor_index(t, start + blen(text))),
        );
    }
}

impl Editor {
    /// Carries an edit out without recording it.
    fn apply_raw(&mut self, x: &Edit)
        requires
            old(self).wf(),
        ensures
            final(self).wf(),
            final(self)@ == (EditorModel { doc: apply_edit(old(self)@.doc, x.model()), ..old(self)@ }),
    {
        match x {
            Edit::Insert { at, text } => {
                self.doc.insert(*at, text);
            },
            Edit::Delete { at, text } => {
                let len: usize = byte_len(text);
                let n: usize = self.doc.len_bytes();
                let end: usize = if len <= usize::MAX - *at {
                    *at + len
                } else {
                    usize::MAX
                };
                self.doc.remove(*at..end);
            },
        }
    }

    /// Carries the edits of a group out, the last one first, and sets the cursor.
    /// Returns the group that takes them back.
    fn replay(&mut self, g: UndoGroup) -> (r: UndoGroup)
        requires
            old(self).wf(),
        ensures
            final(self).wf(),
            final(self)@ == replayed(old(self)@, g.model()),
            r.model() == counter_group(g.model()),
    {
        let ghost e = self@;
        let ghost xs = edits_model(g.inverted@);
        let mut back: Vec<Edit> = Vec::new();
        let mut k: usize = g.inverted.len();
        proof {
            assert(xs.take(k as int) =~= xs);
        }
        while k > 0
            invariant
                self.wf(),
                0 <= k <= g.inverted@.len(),
                xs == edits_model(g.inverted@),
                self@ == (EditorModel { doc: self@.doc, ..e }),
                apply_all(e.doc, xs) == apply_all(self@.doc, xs.take(k as int)),
                edits_model(back@) == flipped(xs).take(xs.len() - k),
            decreases k,
        {
            let ghost before = back@;
            proof {
                assert(xs.take(k as int).last() == xs[k - 1]);
                assert(xs.take(k as int).drop_last() =~= xs.take(k - 1));
                assert(xs[k - 1] == g.inverted@[k - 1].model());
            }
            self.apply_raw(&g.inverted[k - 1]);
            let x: Edit = g.inverted[k - 1].invert();
            let ghost xm = x.model();
            back.push(x);
            proof {
                assert(edits_model(back@) =~= edits_model(before).push(xm));
                assert(flipped(xs)[xs.len() - k] == xm);
                assert(flipped(xs).take(xs.len() - k + 1) =~= flipped(xs).take(xs.len() - k).push(xm));
            }
            k = k - 1;
        }
        proof {
            assert(flipped(xs).take(xs.len() as int) =~= flipped(xs));
        }
        let n: usize = self.doc.len_bytes();
        self.cursor = if g.cursor_before < n {
            g.cursor_before
        } else {
            n
        };
        self.anchor = self.cursor;
        UndoGroup {
            inverted: back,
            cursor_before: g.cursor_after,
            cursor_after: g.cursor_before,
        }
    }

    /// Takes the last group of edits back. Returns whether there was one.
    pub fn undo(&mut self) -> (r: bool)
        requires
            old(self).wf(),
        ensures
            final(self).wf(),
            r == (flushed(old(self)@).undo.len() > 0),
            final(self)@ == undone(old(self)@),
    {
        self.flush_group();
        let ghost f = self@;
        let ghost before = self.undo@;
        match self.undo.pop() {
            Some(g) => {
                let ghost gm = g.model();
                proof {
                    assert(groups_model(self.undo@) =~= groups_model(before).drop_last());
                    assert(groups_model(before).last() == gm);
                }
                let back: UndoGroup = self.replay(g);
                let ghost bm = back.model();
                let ghost redo0 = self.redo@;
                self.redo.push(back);
                proof {
                    assert(groups_model(self.redo@) =~= groups_model(redo0).push(bm));
                }
                true
            },
            None => false,
        }
    }

    /// Carries out again what was taken back last. Returns whether there was anything.
    pub fn redo(&mut self) -> (r: bool)
        requires
            old(self).wf(),
        ensures
            final(self).wf(),
            r == (old(self)@.redo.len() > 0),
            final(self)@ == redone(old(self)@),
    {
        let ghost before = self.redo@;
        match self.redo.pop() {
            Some(g) => {
                let ghost gm = g.model();
                proof {
                    assert(groups_model(self.redo@) =~= groups_model(before).drop_last());
                    assert(groups_model(before).last() == gm);
                }
                let back: UndoGroup = self.replay(g);
                let ghost bm = back.model();
                let ghost undo0 = self.undo@;
                self.undo.push(back);
                proof {
                    assert(groups_model(self.undo@) =~= groups_model(undo0).push(bm));
                }
                true
            },
            None => false,
        }
    }

    /// The lines of the block at the cursor.
    pub fn active_block_lines(&mut self) -> (r: Option<Range<usize>>)
        requires
            old(self).wf(),
            fits(old(self)@.doc.text),
        ensures
            final(self).wf(),
            active_block_found(old(self)@, final(self)@),
            r matches Some(x) && exists|b: BlockModel|
                is_active_block(old(self)@, b) && x.start == b.first_line && x.end == b.end_line,
    {
        let c: usize = self.cursor;
        let ghost e = self@;
        let found = self.doc.block_at_byte(c);
        let r: Option<Range<usize>> = match found {
            Some(b) => {
                proof {
                    assert(is_active_block(e, b@));
                }
                Some(b.lines.start..b.lines.end)
            },
            None => None,
        };
        r
    }

    /// The kind of the block at the cursor.
    pub fn active_block_kind(&mut self) -> (r: Option<BlockKind>)
        requires
            old(self).wf(),
            fits(old(self)@.doc.text),
        ensures
            final(self).wf(),
            active_block_found(old(self)@, final(self)@),
            r matches Some(x) && exists|b: BlockModel|
                is_active_block(old(self)@, b) && x@ == b.kind,
    {
        let c: usize = self.cursor;
        let ghost e = self@;
        let found = self.doc.block_at_byte(c);
        let r: Option<BlockKind> = match found {
            Some(b) => {
                proof {
                    assert(is_active_block(e, b@));
                }
                Some(b.kind.clone())
            },
            None => None,
        };
        r
    }

    /// The number of the list item at the cursor.
    pub fn current_list_number(&mut self) -> (r: Option<u64>)
        requires
            old(self).wf(),
            fits(old(self)@.doc.text),
        ensures
            final(self).wf(),
            active_block_found(old(self)@, final(self)@),
            exists|b: BlockModel| is_active_block(old(self)@, b) && r == list_number(b.kind),
    {
        match self.active_block_kind() {
            Some(BlockKind::List { marker: ListMarker::Ordered(n), .. }) => Some(n),
            _ => None,
        }
    }
}

/// Whether `b` is the block at the cursor, among the blocks in view.
pub open spec fn is_active_block(e: EditorModel, b: BlockModel) -> bool {
    let line = line_of_byte(e.doc.text, e.cursor);
    let (x, y) = view_window(e.doc, line, line + 1);
    crate::document::block_with_line(blocks_between(e.doc.text, x, y), line, b)
}

/// Looking for the block at the cursor changes nothing but which blocks are kept.
pub open spec fn active_block_found(e: EditorModel, f: EditorModel) -> bool {
    let line = line_of_byte(e.doc.text, e.cursor);
    f == EditorModel {
        doc: DocModel { covered: Some(view_window(e.doc, line, line + 1)), ..e.doc },
        ..e
    }
}

pub open spec fn list_number(k: KindModel) -> Option<u64> {
    match k {
        KindModel::List { marker: ListMarker::Ordered(n), .. } => Some(n),
        _ => None,
    }
}

} // verus!
