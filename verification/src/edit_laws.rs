//! What editing commands promise of each other.
use crate::block::{check_box, heading_level, is_blank};
use crate::document::{
    break_at, byte_at_line_col, byte_of_line, bytes_between, clamp_to, lemma_byte_of_line,
    lemma_line_of_byte, lemma_line_parts, line_at, line_body, line_col, line_of_byte,
};
use crate::editor::{
    as_heading, begun, flushed, indented, is_bullet, moved_down, moved_up, outdented, put, sel_hi, sel_lo,
    shift_line, shift_lines_from, shifted, taken, task_at_cursor, task_toggled, two_blanks, wrap_toggled, EditorModel,
    ShiftModel,
};
use crate::rope::{
    breaks_upto, ends_line, full_line, is_break, lemma_breaks_mono, lemma_line_count,
    lemma_line_index, lemma_line_index_mono, line_count, line_index, line_index_from,
};
use crate::text::{
    blen, floor_index, is_space, lead_spaces, lemma_blen_concat, lemma_floor_index,
    lemma_floor_index_off, lemma_floor_mono, lemma_lead_spaces, lemma_lead_spaces_is,
    lemma_off_ends, lemma_off_mono, lemma_off_step, lemma_run_of_is, off, run_of, trim_start, width,
};
use crate::undo_laws::at_boundaries;
use crate::view::down_times;
use vstd::prelude::*;

verus! {

// ---------- replacing a stretch ----------

/// The text with other characters in the place of those from `i` to `j`.
pub open spec fn replaced(t: Seq<char>, i: int, j: int, s: Seq<char>) -> Seq<char> {
    t.take(i) + s + t.skip(j)
}

/// Taking a stretch away and putting text in its place replaces it, and nothing else.
pub proof fn lemma_replaced(e: EditorModel, i: int, j: int, s: Seq<char>)
    requires
        0 <= i < j <= e.doc.text.len(),
        s.len() > 0,
    ensures
        ({
            let t = e.doc.text;
            let (lo, hi) = (off(t, i) as int, off(t, j) as int);
            let f = put(taken(e, lo, hi), lo, s);
            &&& lo < hi
            &&& bytes_between(t, lo, hi) == t.subrange(i, j)
            &&& f.doc.text == replaced(t, i, j, s)
            &&& f.cursor == e.cursor
            &&& f.anchor == e.anchor
            &&& off(f.doc.text, i) == lo
            &&& off(f.doc.text, i + s.len()) == lo + blen(s)
        }),
{
    let t = e.doc.text;
    lemma_off_mono(t, i, j);
    lemma_off_mono(t, j, t.len() as int);
    lemma_off_ends(t);
    lemma_floor_index_off(t, i);
    lemma_floor_index_off(t, j);
    let u = t.take(i) + t.skip(j);
    assert(u.take(i) =~= t.take(i));
    lemma_floor_index_off(u, i);
    let v = replaced(t, i, j, s);
    assert(u.take(i) + s + u.skip(i) =~= v);
    assert(v.take(i) =~= t.take(i));
    assert(v.take(i + s.len()) =~= t.take(i) + s);
    lemma_blen_concat(t.take(i), s);
}

proof fn lemma_flushed_keeps(e: EditorModel)
    ensures
        flushed(e).doc == e.doc,
        flushed(e).cursor == e.cursor,
        flushed(e).anchor == e.anchor,
        flushed(e).goal == e.goal,
{
}

// ---------- wrapping ----------

/// Whether a text starts and ends with a marker, so that it can be freed from it.
pub open spec fn is_wrapped(s: Seq<char>, m: Seq<char>) -> bool {
    blen(s) >= 2 * blen(m) && m.is_prefix_of(s) && m.is_suffix_of(s)
}

proof fn lemma_wrapped_twice(e: EditorModel, i: int, j: int, m: Seq<char>)
    requires
        0 <= i < j <= e.doc.text.len(),
        sel_lo(e) == off(e.doc.text, i),
        sel_hi(e) == off(e.doc.text, j),
        !is_wrapped(e.doc.text.subrange(i, j), m),
    ensures
        ({
            let once = wrap_toggled(e, m);
            let twice = wrap_toggled(once, m);
            &&& once.doc.text == replaced(e.doc.text, i, j, m + e.doc.text.subrange(i, j) + m)
            &&& sel_lo(once) == sel_lo(e)
            &&& sel_hi(once) == sel_lo(e) + blen(m + e.doc.text.subrange(i, j) + m)
            &&& twice.doc.text == e.doc.text
            &&& sel_lo(twice) == sel_lo(e)
            &&& sel_hi(twice) == sel_hi(e)
        }),
{
    let t = e.doc.text;
    let s = t.subrange(i, j);
    let (lo, hi) = (off(t, i) as int, off(t, j) as int);
    let new = m + s + m;
    let e1 = begun(e, false);
    lemma_flushed_keeps(e);
    lemma_replaced(e1, i, j, new);
    lemma_blen_concat(m, s);
    lemma_blen_concat(m + s, m);
    let once = wrap_toggled(e, m);
    let u = replaced(t, i, j, new);
    let k = i + new.len();
    let f = put(taken(e1, lo, hi), lo, new);
    lemma_flushed_keeps(EditorModel { anchor: lo, cursor: lo + blen(new), ..f });
    assert(once.doc.text == u);
    assert(sel_lo(once) == off(u, i));
    assert(sel_hi(once) == off(u, k));
    assert(u.subrange(i, k) =~= new);
    assert(m.is_prefix_of(new)) by {
        assert(new.take(m.len() as int) =~= m);
    }
    assert(m.is_suffix_of(new)) by {
        assert(new.skip(new.len() - m.len()) =~= m);
    }
    assert(new.subrange(m.len() as int, new.len() - m.len()) =~= s);
    let e2 = begun(once, false);
    lemma_flushed_keeps(once);
    lemma_replaced(e2, i, k, s);
    assert(replaced(u, i, k, s) =~= t);
    let g = put(taken(e2, lo, off(u, k) as int), lo, s);
    lemma_flushed_keeps(EditorModel { anchor: lo, cursor: lo + blen(s), ..g });
    assert(t.take(j) =~= t.take(i) + s);
    lemma_blen_concat(t.take(i), s);
}

/// Wrapping a selection that is not wrapped puts the marker before and behind it, with all
/// of that selected and nothing else changed. Doing it again gives text and selection back.
pub proof fn wrapping_twice_gives_text_and_selection_back(e: EditorModel, m: Seq<char>)
    requires
        at_boundaries(e),
        e.cursor != e.anchor,
        !is_wrapped(bytes_between(e.doc.text, sel_lo(e), sel_hi(e)), m),
    ensures
        ({
            let t = e.doc.text;
            let (lo, hi) = (sel_lo(e), sel_hi(e));
            let new = m + bytes_between(t, lo, hi) + m;
            let once = wrap_toggled(e, m);
            let twice = wrap_toggled(once, m);
            &&& once.doc.text == t.take(floor_index(t, lo)) + new + t.skip(floor_index(t, hi))
            &&& sel_lo(once) == lo
            &&& sel_hi(once) == lo + blen(new)
            &&& twice.doc.text == t
            &&& sel_lo(twice) == lo
            &&& sel_hi(twice) == hi
        }),
{
    let t = e.doc.text;
    let i = choose|i: int| 0 <= i <= t.len() && #[trigger] off(t, i) == sel_lo(e);
    let j = choose|j: int| 0 <= j <= t.len() && #[trigger] off(t, j) == sel_hi(e);
    if j <= i {
        lemma_off_mono(t, j, i);
    }
    lemma_off_mono(t, i, j);
    lemma_off_mono(t, j, t.len() as int);
    lemma_off_ends(t);
    lemma_floor_index_off(t, i);
    lemma_floor_index_off(t, j);
    lemma_wrapped_twice(e, i, j, m);
}

// ---------- headings ----------

/// A heading has the level that was set, and setting it again changes nothing.
pub proof fn headings_are_set_once(text: Seq<char>, level: u8)
    requires
        1 <= level,
    ensures
        as_heading(as_heading(text, level), level) == as_heading(text, level),
        level <= 6 ==> heading_level(as_heading(text, level)) == Some(level),
{
    let bare = trim_start(text.skip(run_of(text, '#')));
    let h = as_heading(text, level);
    assert(h[level as int] == ' ');
    assert forall|k: int| 0 <= k < level implies #[trigger] h[k] == '#' by {}
    lemma_run_of_is(h, '#', level as int);
    lemma_lead_spaces(text.skip(run_of(text, '#')));
    let rest = h.skip(level as int);
    assert(rest =~= seq![' '] + bare);
    assert(is_space(rest[0]));
    assert(bare.len() > 0 ==> rest[1] == bare[0]);
    assert(bare.len() > 0 ==> !is_space(bare[0])) by {
        let s = text.skip(run_of(text, '#'));
        if bare.len() > 0 {
            assert(bare[0] == s[lead_spaces(s)]);
        }
    }
    lemma_lead_spaces_is(rest, 1);
    assert(rest.skip(1) =~= bare);
    assert(!is_space('#'));
    lemma_lead_spaces_is(h, 0);
    assert(h.skip(0) =~= h);
}

// ---------- moving up and down ----------

/// Whether a line ends where its text ends: before a LF or CR LF, or at the text's end.
pub open spec fn ends_plainly(t: Seq<char>, k: int) -> bool {
    k == line_count(t) - 1 || break_at(t, k) > 0
}

/// A column within a line belongs to that line.
proof fn lemma_column_in_line(t: Seq<char>, k: int, col: int)
    requires
        0 <= k < line_count(t),
        0 <= col,
        ends_plainly(t, k),
    ensures
        ({
            let b = byte_at_line_col(t, k, col);
            0 <= b <= blen(t) && line_of_byte(t, b) == k
        }),
{
    let b = byte_at_line_col(t, k, col);
    lemma_byte_of_line(t, k);
    lemma_byte_of_line(t, k + 1);
    lemma_line_index(t, k);
    lemma_line_index(t, k + 1);
    lemma_line_index_mono(t, k, k + 1);
    lemma_line_parts(full_line(t, k));
    lemma_off_mono(t, line_index(t, k), line_index(t, k + 1));
    assert(t.take(line_index(t, k + 1)) =~= t.take(line_index(t, k)) + full_line(t, k));
    lemma_blen_concat(t.take(line_index(t, k)), full_line(t, k));
    lemma_floor_index(t, b);
    let i = floor_index(t, b);
    lemma_floor_index_off(t, line_index(t, k));
    lemma_floor_mono(t, byte_of_line(t, k), b);
    lemma_breaks_mono(t, line_index(t, k), i);
    lemma_breaks_mono(t, i, t.len() as int);
    if k < line_count(t) - 1 {
        assert(b < byte_of_line(t, k + 1));
        if i >= line_index(t, k + 1) {
            lemma_off_mono(t, line_index(t, k + 1), i);
        }
        assert(breaks_upto(t, i) < k + 1);
    }
}

/// Moving down over lines keeps aiming at the column that the cursor had at first.
pub proof fn moving_down_keeps_the_column(e: EditorModel, n: int)
    requires
        0 <= e.cursor <= blen(e.doc.text),
        e.goal is None,
        1 <= n,
        cursor_line_of(e) + n < line_count(e.doc.text),
        forall|k: int|
            cursor_line_of(e) < k <= cursor_line_of(e) + n ==> #[trigger] ends_plainly(
                e.doc.text,
                k,
            ),
    ensures
        ({
            let col = line_col(e.doc.text, e.cursor).1;
            let f = down_times(e, n);
            &&& f.cursor == byte_at_line_col(e.doc.text, cursor_line_of(e) + n, col)
            &&& f.anchor == f.cursor
            &&& f.goal == Some(col)
            &&& f.doc == e.doc
            &&& line_of_byte(e.doc.text, f.cursor) == cursor_line_of(e) + n
        }),
    decreases n,
{
    let t = e.doc.text;
    let line = cursor_line_of(e);
    let col = line_col(t, e.cursor).1;
    lemma_line_of_byte(t, e.cursor);
    if n > 1 {
        moving_down_keeps_the_column(e, n - 1);
    } else {
        assert(down_times(e, 0) == e);
    }
    let f = down_times(e, n - 1);
    assert(ends_plainly(t, line + n));
    lemma_column_in_line(t, line + n, col);
    assert(down_times(e, n) == moved_down(f, false));
}

/// The line of the cursor.
pub open spec fn cursor_line_of(e: EditorModel) -> int {
    line_col(e.doc.text, e.cursor).0
}

/// Down and up again leads back, if the cursor stands in the text of its line.
pub proof fn down_and_up_lead_back(e: EditorModel)
    requires
        0 <= e.cursor <= blen(e.doc.text),
        e.goal is None,
        cursor_line_of(e) + 1 < line_count(e.doc.text),
        ends_plainly(e.doc.text, cursor_line_of(e) + 1),
        line_col(e.doc.text, e.cursor).1 <= blen(line_at(e.doc.text, cursor_line_of(e))),
    ensures
        moved_up(moved_down(e, false), false).cursor == e.cursor,
{
    let t = e.doc.text;
    let line = cursor_line_of(e);
    let col = line_col(t, e.cursor).1;
    lemma_line_of_byte(t, e.cursor);
    lemma_column_in_line(t, line + 1, col);
    let f = moved_down(e, false);
    assert(f.goal == Some(col));
    assert(line_col(t, f.cursor).0 == line + 1);
}

// ---------- ticking ----------

/// Whether two texts differ only by characters of equal width that end no line.
pub open spec fn same_shape(t: Seq<char>, u: Seq<char>) -> bool {
    &&& t.len() == u.len()
    &&& forall|k: int| 0 <= k < t.len() ==> #[trigger] same_kind(t[k], u[k])
}

pub open spec fn same_kind(a: char, b: char) -> bool {
    a == b || (width(a) == width(b) && !is_break(a) && !is_break(b))
}

proof fn lemma_shape_breaks(t: Seq<char>, u: Seq<char>, i: int)
    requires
        same_shape(t, u),
        0 <= i <= t.len(),
    ensures
        breaks_upto(t, i) == breaks_upto(u, i),
        off(t, i) == off(u, i),
    decreases i,
{
    if i > 0 {
        lemma_shape_breaks(t, u, i - 1);
        assert(same_kind(t[i - 1], u[i - 1]));
        if i < t.len() {
            assert(same_kind(t[i], u[i]));
        }
        assert(ends_line(t, i) == ends_line(u, i));
        lemma_off_step(t, i - 1);
        lemma_off_step(u, i - 1);
    } else {
        lemma_off_ends(t);
        lemma_off_ends(u);
    }
}

proof fn lemma_shape_line_index(t: Seq<char>, u: Seq<char>, k: int, i: int)
    requires
        same_shape(t, u),
        0 <= i <= t.len(),
    ensures
        line_index_from(t, k, i) == line_index_from(u, k, i),
    decreases t.len() - i,
{
    lemma_shape_breaks(t, u, i);
    if i < t.len() {
        lemma_shape_line_index(t, u, k, i + 1);
    }
}

proof fn lemma_shape_lines(t: Seq<char>, u: Seq<char>, b: int, k: int)
    requires
        same_shape(t, u),
        0 <= b,
        0 <= k,
    ensures
        blen(t) == blen(u),
        line_count(t) == line_count(u),
        line_index(t, k) == line_index(u, k),
        floor_index(t, b) == floor_index(u, b),
        line_of_byte(t, b) == line_of_byte(u, b),
        byte_of_line(t, k) == byte_of_line(u, k),
        line_at(t, k).len() == line_at(u, k).len(),
{
    lemma_shape_breaks(t, u, t.len() as int);
    lemma_off_ends(t);
    lemma_off_ends(u);
    lemma_shape_line_index(t, u, k, 0);
    lemma_shape_line_index(t, u, k + 1, 0);
    lemma_line_index(t, k);
    lemma_line_index(t, k + 1);
    lemma_line_index_mono(t, k, k + 1);
    lemma_shape_breaks(t, u, line_index(t, k));
    lemma_floor_index(t, b);
    lemma_floor_index(u, b);
    let (i, j) = (floor_index(t, b), floor_index(u, b));
    lemma_shape_breaks(t, u, i);
    lemma_shape_breaks(t, u, j);
    if i < j {
        lemma_shape_breaks(t, u, i + 1);
        lemma_off_mono(u, i + 1, j);
    } else if j < i {
        lemma_shape_breaks(t, u, j + 1);
        lemma_off_mono(t, j + 1, i);
    }
    let (l, m) = (full_line(t, k), full_line(u, k));
    let a = line_index(t, k);
    if l.len() > 0 {
        assert(l.last() == t[a + l.len() - 1] && m.last() == u[a + l.len() - 1]);
        assert(same_kind(t[a + l.len() - 1], u[a + l.len() - 1]));
        if l.len() > 1 {
            assert(l.drop_last().last() == t[a + l.len() - 2]);
            assert(m.drop_last().last() == u[a + l.len() - 2]);
            assert(same_kind(t[a + l.len() - 2], u[a + l.len() - 2]));
        }
    }
}

pub open spec fn box_text(ticked: bool) -> Seq<char> {
    if ticked {
        seq!['[', 'x', ']']
    } else {
        seq!['[', ' ', ']']
    }
}

/// Where the check box at the cursor stands in the text.
proof fn lemma_box_at(e: EditorModel) -> (i: int)
    requires
        0 <= e.cursor,
        task_at_cursor(e) is Some,
    ensures
        0 <= i,
        i + 4 <= e.doc.text.len(),
        off(e.doc.text, i) == (task_at_cursor(e)->0).0,
        e.doc.text[i] == '[',
        e.doc.text[i + 2] == ']',
        e.doc.text[i + 1] == ' ' || e.doc.text[i + 1] == 'x' || e.doc.text[i + 1] == 'X',
        (task_at_cursor(e)->0).1 == (e.doc.text[i + 1] != ' '),
        i == line_index(e.doc.text, cursor_line_of(e)) + lead_spaces(
            line_at(e.doc.text, cursor_line_of(e)),
        ) + 2,
        lead_spaces(line_at(e.doc.text, cursor_line_of(e))) + 6 <= line_at(
            e.doc.text,
            cursor_line_of(e),
        ).len(),
        cursor_line_of(e) < line_count(e.doc.text),
        0 <= cursor_line_of(e),
{
    let t = e.doc.text;
    let x = clamp_to(e.cursor, blen(t) as int);
    lemma_line_of_byte(t, x);
    let k = cursor_line_of(e);
    let text = line_at(t, k);
    let lead = lead_spaces(text);
    let s = trim_start(text);
    let a = line_index(t, k);
    lemma_lead_spaces(text);
    lemma_line_index(t, k);
    lemma_line_index(t, k + 1);
    lemma_line_index_mono(t, k, k + 1);
    lemma_line_parts(full_line(t, k));
    reveal_strlit("- ");
    reveal_strlit("* ");
    reveal_strlit("+ ");
    reveal_strlit("[ ] ");
    reveal_strlit("[x] ");
    reveal_strlit("[X] ");
    let r = s.skip(2);
    let p = if "[ ] "@.is_prefix_of(r) {
        "[ ] "@
    } else if "[x] "@.is_prefix_of(r) {
        "[x] "@
    } else {
        "[X] "@
    };
    let q = if "- "@.is_prefix_of(s) {
        "- "@
    } else if "* "@.is_prefix_of(s) {
        "* "@
    } else {
        "+ "@
    };
    assert(p.is_prefix_of(r) && q.is_prefix_of(s));
    assert(r[0] == p[0] && r[1] == p[1] && r[2] == p[2]);
    assert(s[0] == q[0] && s[1] == q[1]);
    let i = a + lead + 2;
    assert forall|j: int| 0 <= j < s.len() implies #[trigger] s[j] == t[a + lead + j] by {
        assert(s[j] == text[lead + j]);
    }
    assert(r[0] == s[2] && r[1] == s[3] && r[2] == s[4]);
    assert(t[i] == s[2] && t[i + 1] == s[3] && t[i + 2] == s[4]);
    assert(t.take(a + lead) =~= t.take(a) + text.take(lead)) by {
        assert(text.take(lead) =~= t.subrange(a, a + lead));
    }
    lemma_blen_concat(t.take(a), text.take(lead));
    assert(t[a + lead] == s[0] && t[a + lead + 1] == s[1]);
    lemma_off_step(t, a + lead);
    lemma_off_step(t, a + lead + 1);
    i
}

/// A line with another box in the same place is read with that box.
proof fn lemma_box_read(text: Seq<char>, text2: Seq<char>, ticked: bool)
    requires
        text.len() == text2.len(),
        lead_spaces(text) + 6 <= text.len(),
        forall|j: int| 0 <= j < lead_spaces(text) + 2 ==> #[trigger] text2[j] == text[j],
        text2[lead_spaces(text) + 2] == '[',
        text2[lead_spaces(text) + 3] == box_text(!ticked)[1],
        text2[lead_spaces(text) + 4] == ']',
        text2[lead_spaces(text) + 5] == text[lead_spaces(text) + 5],
        is_bullet(trim_start(text)),
        check_box(trim_start(text).skip(2)) == Some(ticked),
    ensures
        lead_spaces(text2) == lead_spaces(text),
        is_bullet(trim_start(text2)),
        check_box(trim_start(text2).skip(2)) == Some(!ticked),
{
    let lead = lead_spaces(text);
    lemma_lead_spaces(text);
    assert(text[lead] == text2[lead]);
    lemma_lead_spaces_is(text2, lead);
    let (p, q) = (trim_start(text), trim_start(text2));
    assert(q[0] == p[0] && q[1] == p[1]) by {
        assert(q[0] == text2[lead] && q[1] == text2[lead + 1]);
        assert(p[0] == text[lead] && p[1] == text[lead + 1]);
    }
    reveal_strlit("- ");
    reveal_strlit("* ");
    reveal_strlit("+ ");
    reveal_strlit("[ ] ");
    reveal_strlit("[x] ");
    reveal_strlit("[X] ");
    assert(is_bullet(q)) by {
        if "- "@.is_prefix_of(p) {
            assert("- "@ =~= q.take(2)) by {
                assert(p.take(2) =~= "- "@);
                assert(p.take(2)[0] == p[0] && p.take(2)[1] == p[1]);
            }
        } else if "* "@.is_prefix_of(p) {
            assert("* "@ =~= q.take(2)) by {
                assert(p.take(2) =~= "* "@);
                assert(p.take(2)[0] == p[0] && p.take(2)[1] == p[1]);
            }
        } else {
            assert("+ "@ =~= q.take(2)) by {
                assert(p.take(2) =~= "+ "@);
                assert(p.take(2)[0] == p[0] && p.take(2)[1] == p[1]);
            }
        }
    }
    let r = q.skip(2);
    let old_r = p.skip(2);
    assert(old_r[3] == ' ') by {
        if "[ ] "@.is_prefix_of(old_r) {
            assert(old_r.take(4)[3] == "[ ] "@[3]);
        } else if "[x] "@.is_prefix_of(old_r) {
            assert(old_r.take(4)[3] == "[x] "@[3]);
        } else {
            assert(old_r.take(4)[3] == "[X] "@[3]);
        }
    }
    assert(r[0] == text2[lead + 2] && r[1] == text2[lead + 3] && r[2] == text2[lead + 4] && r[3]
        == text2[lead + 5]);
    assert(old_r[3] == text[lead + 5]);
    if ticked {
        assert(r.take(4) =~= "[ ] "@);
    } else {
        assert(r.take(4) =~= "[x] "@);
        assert(!"[ ] "@.is_prefix_of(r)) by {
            if "[ ] "@.is_prefix_of(r) {
                assert(r.take(4)[1] == "[ ] "@[1]);
            }
        }
    }
}

/// Ticking changes the box and nothing else, and the box is found again.
#[verifier::rlimit(40)]
proof fn lemma_ticked(e: EditorModel) -> (i: int)
    requires
        0 <= e.cursor,
        task_at_cursor(e) is Some,
    ensures
        ({
            let (at, ticked) = task_at_cursor(e)->0;
            let f = task_toggled(e);
            &&& 0 <= i && i + 4 <= e.doc.text.len()
            &&& off(e.doc.text, i) == at
            &&& e.doc.text[i] == '[' && e.doc.text[i + 2] == ']'
            &&& ticked == (e.doc.text[i + 1] != ' ')
            &&& ticked ==> e.doc.text[i + 1] == 'x' || e.doc.text[i + 1] == 'X'
            &&& f.doc.text == replaced(e.doc.text, i, i + 3, box_text(!ticked))
            &&& f.cursor == e.cursor
            &&& f.anchor == e.anchor
            &&& task_at_cursor(f) == Some((at, !ticked))
        }),
{
    let t = e.doc.text;
    let (at, ticked) = task_at_cursor(e)->0;
    let i = lemma_box_at(e);
    let s = box_text(!ticked);
    let e1 = begun(e, false);
    lemma_flushed_keeps(e);
    lemma_off_step(t, i);
    lemma_off_step(t, i + 1);
    lemma_off_step(t, i + 2);
    lemma_replaced(e1, i, i + 3, s);
    let g = put(taken(e1, at, at + 3), at, s);
    lemma_flushed_keeps(g);
    let f = task_toggled(e);
    let u = replaced(t, i, i + 3, s);
    assert(f.doc.text == u);
    assert forall|k: int| 0 <= k < t.len() implies #[trigger] same_kind(t[k], u[k]) by {
        if k < i {
            assert(u[k] == t[k]);
        } else if k >= i + 3 {
            assert(u[k] == t[k]);
        } else {
            assert(u[k] == s[k - i]);
        }
    }
    let x = clamp_to(e.cursor, blen(t) as int);
    lemma_line_of_byte(t, x);
    let k = cursor_line_of(e);
    lemma_shape_lines(t, u, x, k);
    assert(cursor_line_of(f) == k);
    let (text, text2) = (line_at(t, k), line_at(u, k));
    let a = line_index(t, k);
    let lead = lead_spaces(text);
    lemma_lead_spaces(text);
    lemma_line_index(t, k);
    lemma_line_index(t, k + 1);
    lemma_line_index_mono(t, k, k + 1);
    lemma_shape_line_index(t, u, k + 1, 0);
    lemma_line_parts(full_line(t, k));
    lemma_line_parts(full_line(u, k));
    assert forall|j: int| 0 <= j < text.len() implies #[trigger] text2[j] == u[a + j] && text[j]
        == t[a + j] by {
        assert(text2[j] == full_line(u, k)[j]);
        assert(text[j] == full_line(t, k)[j]);
    }
    assert forall|j: int| 0 <= j < lead + 2 implies #[trigger] text2[j] == text[j] by {
        assert(u[a + j] == t[a + j]);
    }
    assert(u[i] == s[0] && u[i + 1] == s[1] && u[i + 2] == s[2] && u[i + 3] == t[i + 3]);
    assert(text2[lead + 2] == s[0] && text2[lead + 3] == s[1] && text2[lead + 4] == s[2]);
    assert(text2[lead + 5] == text[lead + 5]);
    lemma_box_read(text, text2, ticked);
    assert(text2.take(lead) =~= text.take(lead));
    i
}

/// Changing a box in its place and changing it back.
proof fn lemma_box_twice(
    t: Seq<char>,
    u: Seq<char>,
    v: Seq<char>,
    i: int,
    j: int,
    ticked: bool,
)
    requires
        0 <= i,
        i + 4 <= t.len(),
        0 <= j,
        j + 4 <= u.len(),
        t[i] == '[',
        t[i + 2] == ']',
        ticked == (t[i + 1] != ' '),
        ticked ==> t[i + 1] == 'x' || t[i + 1] == 'X',
        off(t, i) == off(u, j),
        u == replaced(t, i, i + 3, box_text(!ticked)),
        v == replaced(u, j, j + 3, box_text(ticked)),
    ensures
        v == replaced(t, i, i + 3, box_text(ticked)),
        t[i + 1] != 'X' ==> v == t,
{
    assert(u.take(i) =~= t.take(i));
    lemma_floor_index_off(u, i);
    lemma_floor_index_off(u, j);
    assert(i == j);
    assert(v =~= replaced(t, i, i + 3, box_text(ticked)));
    if t[i + 1] != 'X' {
        assert(v =~= t);
    }
}

/// Ticking a box flips it, and ticking it again gives the text back. A box that is ticked
/// with a capital letter gets a small one.
pub proof fn ticking_twice_gives_the_text_back(e: EditorModel)
    requires
        0 <= e.cursor,
        task_at_cursor(e) is Some,
    ensures
        ({
            let (at, ticked) = task_at_cursor(e)->0;
            let once = task_toggled(e);
            let twice = task_toggled(once);
            &&& task_at_cursor(once) == Some((at, !ticked))
            &&& exists|i: int|
                0 <= i && i + 3 <= e.doc.text.len() && off(e.doc.text, i) == at && twice.doc.text
                    == #[trigger] replaced(e.doc.text, i, i + 3, box_text(ticked)) && (
                e.doc.text[i + 1] != 'X' ==> twice.doc.text == e.doc.text)
        }),
{
    let once = task_toggled(e);
    let i = lemma_ticked(e);
    let j = lemma_ticked(once);
    lemma_box_twice(
        e.doc.text,
        once.doc.text,
        task_toggled(once).doc.text,
        i,
        j,
        (task_at_cursor(e)->0).1,
    );
}

// ---------- indenting ----------

/// All lines of a text with their breaks.
pub open spec fn all_lines(t: Seq<char>) -> Seq<Seq<char>> {
    Seq::new(line_count(t) as nat, |k: int| full_line(t, k))
}

/// Lines put together.
pub open spec fn cat(ls: Seq<Seq<char>>) -> Seq<char>
    decreases ls.len(),
{
    if ls.len() == 0 {
        Seq::empty()
    } else {
        cat(ls.drop_last()) + ls.last()
    }
}

pub proof fn lemma_cat_prefix(t: Seq<char>, k: int)
    requires
        0 <= k <= line_count(t),
    ensures
        cat(all_lines(t).take(k)) == t.take(line_index(t, k)),
    decreases k,
{
    let ls = all_lines(t);
    lemma_line_count(t);
    lemma_line_index(t, k);
    if k == 0 {
        assert(ls.take(0) =~= Seq::empty());
        assert(t.take(0) =~= Seq::empty());
    } else {
        lemma_cat_prefix(t, k - 1);
        lemma_line_index(t, k - 1);
        lemma_line_index_mono(t, k - 1, k);
        assert(ls.take(k).drop_last() =~= ls.take(k - 1));
        assert(ls.take(k).last() == full_line(t, k - 1));
        assert(t.take(line_index(t, k)) =~= t.take(line_index(t, k - 1)) + full_line(t, k - 1));
    }
}

/// The lines of a text make the text.
pub proof fn lines_make_their_text(t: Seq<char>)
    ensures
        cat(all_lines(t)) == t,
{
    lemma_line_count(t);
    let n = line_count(t);
    lemma_cat_prefix(t, n);
    lemma_line_index(t, n);
    assert(all_lines(t).take(n) =~= all_lines(t));
    assert(t.take(line_index(t, n)) =~= t);
}

proof fn lemma_cat_split(ls: Seq<Seq<char>>, k: int)
    requires
        0 <= k < ls.len(),
    ensures
        cat(ls) == cat(ls.take(k)) + ls[k] + cat(ls.skip(k + 1)),
    decreases ls.len(),
{
    let n = ls.len() as int;
    if k == n - 1 {
        assert(ls.take(k) =~= ls.drop_last());
        assert(ls.skip(k + 1) =~= Seq::empty());
        assert(cat(ls) =~= cat(ls.take(k)) + ls[k] + cat(ls.skip(k + 1)));
    } else {
        let f = ls.drop_last();
        lemma_cat_split(f, k);
        assert(f.take(k) =~= ls.take(k));
        let s = ls.skip(k + 1);
        assert(s.drop_last() =~= f.skip(k + 1));
        assert(s.last() == ls.last());
        assert(cat(ls) =~= cat(ls.take(k)) + ls[k] + cat(s));
    }
}

/// `t` with two blanks before index `li`.
pub open spec fn with_blanks(t: Seq<char>, li: int) -> Seq<char> {
    t.take(li) + two_blanks() + t.skip(li)
}

proof fn lemma_blanks_breaks(t: Seq<char>, li: int, i: int)
    requires
        0 <= li <= t.len(),
        li == 0 || ends_line(t, li),
        0 <= i <= t.len() + 2,
    ensures
        i <= li ==> breaks_upto(with_blanks(t, li), i) == breaks_upto(t, i),
        li < i <= li + 2 ==> breaks_upto(with_blanks(t, li), i) == breaks_upto(t, li),
        li + 2 <= i ==> breaks_upto(with_blanks(t, li), i) == breaks_upto(t, i - 2),
    decreases i,
{
    let u = with_blanks(t, li);
    if i > 0 {
        lemma_blanks_breaks(t, li, i - 1);
        if i <= li {
            assert(u[i - 1] == t[i - 1]);
            if i < li {
                assert(u[i] == t[i]);
            } else {
                assert(u[i] == ' ');
            }
            assert(ends_line(u, i) == ends_line(t, i));
        } else if i <= li + 2 {
            assert(u[i - 1] == ' ');
            assert(!is_break(' '));
            assert(!ends_line(u, i));
        } else {
            assert(u[i - 1] == t[i - 3]);
            if i < u.len() {
                assert(u[i] == t[i - 2]);
            }
            assert(ends_line(u, i) == ends_line(t, i - 2));
        }
    }
}

pub proof fn lemma_line_index_is(s: Seq<char>, m: int, i: int)
    requires
        0 <= m,
        0 <= i <= s.len(),
        i < s.len() ==> breaks_upto(s, i) >= m,
        forall|j: int| 0 <= j < i ==> #[trigger] breaks_upto(s, j) < m,
    ensures
        line_index(s, m) == i,
{
    lemma_line_index(s, m);
    let n = line_index(s, m);
    if n < i {
        lemma_breaks_mono(s, n, s.len() as int);
        assert(breaks_upto(s, n) < m);
        if m >= line_count(s) {
            assert(n == s.len());
        }
    } else if i < n {
        assert(breaks_upto(s, i) < m);
    }
}

/// Blanks before a line go into that line, and no other line changes.
proof fn lemma_blanks_in_line(t: Seq<char>, k: int)
    requires
        0 <= k < line_count(t),
    ensures
        ({
            let u = with_blanks(t, line_index(t, k));
            &&& line_count(u) == line_count(t)
            &&& line_index(u, k) == line_index(t, k)
            &&& all_lines(u) == all_lines(t).update(k, two_blanks() + full_line(t, k))
        }),
{
    let li = line_index(t, k);
    let u = with_blanks(t, li);
    lemma_line_index(t, k);
    if li > 0 {
        assert(breaks_upto(t, li - 1) < k);
        assert(ends_line(t, li));
    }
    lemma_blanks_breaks(t, li, u.len() as int);
    assert(line_count(u) == line_count(t));
    assert forall|m: int| 0 <= m <= line_count(t) implies #[trigger] line_index(u, m) == if m <= k {
        line_index(t, m)
    } else {
        line_index(t, m) + 2
    } by {
        lemma_line_index(t, m);
        let n = line_index(t, m);
        if m <= k {
            lemma_line_index_mono(t, m, k);
            lemma_blanks_breaks(t, li, n);
            assert forall|j: int| 0 <= j < n implies #[trigger] breaks_upto(u, j) < m by {
                lemma_blanks_breaks(t, li, j);
                assert(breaks_upto(t, j) < m);
            }
            lemma_line_index_is(u, m, n);
        } else {
            lemma_line_index_mono(t, k, m);
            lemma_blanks_breaks(t, li, n + 2);
            lemma_breaks_mono(t, li, t.len() as int);
            if n == li {
                assert(m >= line_count(t));
                assert(n == t.len());
            }
            assert forall|j: int| 0 <= j < n + 2 implies #[trigger] breaks_upto(u, j) < m by {
                lemma_blanks_breaks(t, li, j);
                if j <= li {
                    lemma_breaks_mono(t, j, li);
                } else if j > li + 2 {
                    assert(breaks_upto(t, j - 2) < m);
                }
            }
            lemma_line_index_is(u, m, n + 2);
        }
    }
    let (a, b) = (all_lines(u), all_lines(t).update(k, two_blanks() + full_line(t, k)));
    assert forall|m: int| 0 <= m < line_count(t) implies a[m] == b[m] by {
        assert(line_index(u, m) == if m <= k {
            line_index(t, m)
        } else {
            line_index(t, m) + 2
        });
        assert(line_index(u, m + 1) == if m + 1 <= k {
            line_index(t, m + 1)
        } else {
            line_index(t, m + 1) + 2
        });
        lemma_line_index(t, m);
        lemma_line_index(t, m + 1);
        lemma_line_index_mono(t, m, m + 1);
        if m < k {
            lemma_line_index_mono(t, m + 1, k);
        } else if m > k {
            lemma_line_index_mono(t, k, m);
        }
        assert(a[m] =~= b[m]);
    }
    assert(a =~= b);
}

/// A line indented, unless it is blank.
pub open spec fn line_indented(l: Seq<char>) -> Seq<char> {
    if is_blank(line_body(l)) {
        l
    } else {
        two_blanks() + l
    }
}

/// The lines with those from `a` to `b` indented.
pub open spec fn mixed(ls: Seq<Seq<char>>, a: int, b: int) -> Seq<Seq<char>> {
    Seq::new(
        ls.len(),
        |k: int|
            if a <= k <= b {
                line_indented(ls[k])
            } else {
                ls[k]
            },
    )
}

/// Indented lines make a text that has these lines.
pub proof fn lemma_mixed(t: Seq<char>, a: int, b: int)
    requires
        0 <= a,
        b < line_count(t),
    ensures
        all_lines(cat(mixed(all_lines(t), a, b))) == mixed(all_lines(t), a, b),
    decreases b - a + 1,
{
    let ls = all_lines(t);
    if a > b {
        assert(mixed(ls, a, b) =~= ls);
        lines_make_their_text(t);
    } else {
        lemma_mixed(t, a + 1, b);
        let v = cat(mixed(ls, a + 1, b));
        let m = mixed(ls, a + 1, b);
        assert(line_count(v) == ls.len()) by {
            assert(all_lines(v).len() == m.len());
            lemma_line_count(v);
        }
        assert(full_line(v, a) == all_lines(v)[a]);
        assert(m[a] == ls[a]);
        if is_blank(line_body(ls[a])) {
            assert(mixed(ls, a, b) =~= m);
        } else {
            lemma_blanks_in_line(v, a);
            let u = with_blanks(v, line_index(v, a));
            assert(all_lines(u) =~= mixed(ls, a, b));
            lines_make_their_text(u);
        }
    }
}

proof fn lemma_body_of_indented(l: Seq<char>)
    ensures
        line_body(two_blanks() + l) == two_blanks() + line_body(l),
        run_of(two_blanks() + line_body(l), ' ') >= 2,
{
    let p = two_blanks();
    let w = p + l;
    if l.len() > 0 {
        assert(w.last() == l.last());
        if l.last() == '\n' {
            assert(w.drop_last() =~= p + l.drop_last());
            if l.len() > 1 {
                assert(w.drop_last().last() == l.drop_last().last());
                assert(p + l.drop_last().drop_last() =~= (p + l.drop_last()).drop_last());
            } else {
                assert(w.drop_last() =~= p);
                assert(p.last() == ' ');
            }
        }
    } else {
        assert(w =~= p);
        assert(p + l =~= p);
    }
    assert(line_body(w) =~= p + line_body(l));
    let s = p + line_body(l);
    assert(s[0] == ' ' && s.drop_first()[0] == ' ');
    crate::text::lemma_run_of(s.drop_first().drop_first(), ' ');
    assert(run_of(s, ' ') == 1 + run_of(s.drop_first(), ' '));
}

/// Whether the blank ones among the lines from `a` to `b` do not start with a blank.
pub open spec fn blanks_are_bare(t: Seq<char>, a: int, b: int) -> bool {
    forall|k: int|
        a <= k <= b && is_blank(line_at(t, k)) ==> run_of(#[trigger] line_at(t, k), ' ') == 0
}

pub proof fn lemma_indent_lines(s: ShiftModel, t: Seq<char>, first: int, line: int, last: int)
    requires
        0 <= first,
        first - 1 <= line <= last,
        last < line_count(t),
        s.e.doc.text == cat(mixed(all_lines(t), line + 1, last)),
    ensures
        shift_lines_from(s, first, line, true).e.doc.text == cat(mixed(all_lines(t), first, last)),
    decreases line - first + 1,
{
    let ls = all_lines(t);
    if line >= first {
        let m = mixed(ls, line + 1, last);
        let v = s.e.doc.text;
        lemma_mixed(t, line + 1, last);
        lemma_line_count(v);
        assert(all_lines(v).len() == m.len());
        assert(full_line(v, line) == all_lines(v)[line]);
        assert(m[line] == ls[line]);
        assert(line_at(v, line) == line_body(ls[line]));
        let next = shift_line(s, first, line, true);
        if is_blank(line_at(v, line)) {
            assert(mixed(ls, line, last) =~= m);
        } else {
            lemma_line_index(v, line);
            lemma_floor_index_off(v, line_index(v, line));
            lemma_blanks_in_line(v, line);
            let u = with_blanks(v, line_index(v, line));
            assert(next.e.doc.text == u);
            assert(all_lines(u) =~= mixed(ls, line, last));
            lines_make_their_text(u);
        }
        lemma_indent_lines(next, t, first, line - 1, last);
    }
}

/// Taking the blanks of the last indented line away leaves it as it was.
proof fn lemma_unindented(v: Seq<char>, ls: Seq<Seq<char>>, first: int, line: int)
    requires
        0 <= first <= line < ls.len(),
        all_lines(v) == mixed(ls, first, line),
        line_count(v) == ls.len(),
        v == cat(mixed(ls, first, line)),
        !is_blank(line_body(ls[line])),
        line_index(v, line) + 2 <= v.len(),
        0 <= line_index(v, line),
    ensures
        v.take(line_index(v, line)) + v.skip(line_index(v, line) + 2) == cat(
            mixed(ls, first, line - 1),
        ),
{
    let m = mixed(ls, first, line);
    let rest = mixed(ls, first, line - 1);
    let li = line_index(v, line);
    lemma_cat_prefix(v, line);
    lemma_cat_split(m, line);
    lemma_cat_split(rest, line);
    assert(rest.take(line) =~= m.take(line));
    assert(rest.skip(line + 1) =~= m.skip(line + 1));
    assert(rest[line] == ls[line]);
    assert(m[line].skip(2) =~= ls[line]);
    let front = cat(m.take(line));
    let behind = cat(m.skip(line + 1));
    assert(front.len() == li);
    assert(v.take(li) =~= front);
    assert(v.skip(li + 2) =~= m[line].skip(2) + behind);
    assert(v.take(li) + v.skip(li + 2) =~= front + ls[line] + behind);
}

proof fn lemma_outdent_lines(s: ShiftModel, t: Seq<char>, first: int, line: int, last: int)
    requires
        0 <= first,
        first - 1 <= line <= last,
        last < line_count(t),
        blanks_are_bare(t, first, last),
        s.e.doc.text == cat(mixed(all_lines(t), first, line)),
    ensures
        shift_lines_from(s, first, line, false).e.doc.text == t,
    decreases line - first + 1,
{
    let ls = all_lines(t);
    if line < first {
        assert(mixed(ls, first, line) =~= ls);
        lines_make_their_text(t);
    } else {
        let m = mixed(ls, first, line);
        let v = s.e.doc.text;
        lemma_mixed(t, first, line);
        lemma_line_count(v);
        assert(all_lines(v).len() == m.len());
        assert(full_line(v, line) == all_lines(v)[line]);
        assert(m[line] == line_indented(ls[line]));
        assert(line_at(v, line) == line_body(m[line]));
        assert(line_at(t, line) == line_body(ls[line]));
        let next = shift_line(s, first, line, false);
        let rest = mixed(ls, first, line - 1);
        if is_blank(line_body(ls[line])) {
            assert(run_of(line_at(t, line), ' ') == 0);
            assert(rest =~= m);
            assert(next == s);
        } else {
            lemma_body_of_indented(ls[line]);
            let li = line_index(v, line);
            lemma_line_index(v, line);
            lemma_line_index(v, line + 1);
            lemma_line_index_mono(v, line, line + 1);
            let l = full_line(v, line);
            assert(l =~= v.subrange(li, line_index(v, line + 1)));
            assert(l[0] == ' ' && l[1] == ' ');
            assert(v[li] == l[0] && v[li + 1] == l[1]);
            lemma_off_step(v, li);
            lemma_off_step(v, li + 1);
            lemma_off_mono(v, li + 2, v.len() as int);
            lemma_off_ends(v);
            lemma_floor_index_off(v, li);
            lemma_floor_index_off(v, li + 2);
            let w = v.take(li) + v.skip(li + 2);
            assert(next.e.doc.text == w);
            lemma_unindented(v, ls, first, line);
            assert(w == cat(rest));
        }
        lemma_outdent_lines(next, t, first, line - 1, last);
    }
}

/// Outdenting lines takes back indenting them. Lines of blanks alone are left out: they
/// are not indented, and yet outdented.
pub proof fn outdenting_takes_indenting_back(e: EditorModel, f: EditorModel, first: int, last: int)
    requires
        0 <= first <= last < line_count(e.doc.text),
        blanks_are_bare(e.doc.text, first, last),
        f.doc.text == shift_lines_from(
            ShiftModel { e, first: 0, total: 0 },
            first,
            last,
            true,
        ).e.doc.text,
    ensures
        shift_lines_from(ShiftModel { e: f, first: 0, total: 0 }, first, last, false).e.doc.text
            == e.doc.text,
{
    let t = e.doc.text;
    lines_make_their_text(t);
    assert(mixed(all_lines(t), last + 1, last) =~= all_lines(t));
    lemma_indent_lines(ShiftModel { e, first: 0, total: 0 }, t, first, last, last);
    lemma_outdent_lines(ShiftModel { e: f, first: 0, total: 0 }, t, first, last, last);
}

/// How many lines from `a` to `b` are not blank.
pub open spec fn filled(ls: Seq<Seq<char>>, a: int, b: int) -> int
    decreases b - a + 1,
{
    if b < a {
        0
    } else {
        filled(ls, a, b - 1) + if is_blank(line_body(ls[b])) {
            0int
        } else {
            1
        }
    }
}

pub proof fn lemma_filled_front(ls: Seq<Seq<char>>, a: int, b: int)
    requires
        a <= b,
    ensures
        filled(ls, a, b) == filled(ls, a + 1, b) + if is_blank(line_body(ls[a])) {
            0int
        } else {
            1
        },
        filled(ls, a + 1, b) >= 0,
    decreases b - a,
{
    if a < b {
        lemma_filled_front(ls, a, b - 1);
    } else {
        assert(filled(ls, a, b - 1) == 0);
        assert(filled(ls, a + 1, b) == 0);
    }
}

pub proof fn lemma_indent_counts(s: ShiftModel, t: Seq<char>, first: int, line: int, last: int)
    requires
        0 <= first,
        first - 1 <= line <= last,
        last < line_count(t),
        s.e.doc.text == cat(mixed(all_lines(t), line + 1, last)),
    ensures
        ({
            let r = shift_lines_from(s, first, line, true);
            &&& r.total == s.total + 2 * filled(all_lines(t), first, line)
            &&& line >= first ==> r.first == if is_blank(line_body(all_lines(t)[first])) {
                s.first
            } else {
                2
            }
            &&& r.e.cursor == s.e.cursor
            &&& r.e.anchor == s.e.anchor
        }),
    decreases line - first + 1,
{
    let ls = all_lines(t);
    if line >= first {
        let m = mixed(ls, line + 1, last);
        let v = s.e.doc.text;
        lemma_mixed(t, line + 1, last);
        lemma_line_count(v);
        assert(all_lines(v).len() == m.len());
        assert(full_line(v, line) == all_lines(v)[line]);
        assert(m[line] == ls[line]);
        assert(line_at(v, line) == line_body(ls[line]));
        let next = shift_line(s, first, line, true);
        if is_blank(line_at(v, line)) {
            assert(mixed(ls, line, last) =~= m);
        } else {
            lemma_line_index(v, line);
            lemma_floor_index_off(v, line_index(v, line));
            lemma_blanks_in_line(v, line);
            let u = with_blanks(v, line_index(v, line));
            assert(next.e.doc.text == u);
            assert(all_lines(u) =~= mixed(ls, line, last));
            lines_make_their_text(u);
        }
        lemma_indent_counts(next, t, first, line - 1, last);
    }
}

/// Where lines start after others were indented.
pub proof fn lemma_mixed_start(ls: Seq<Seq<char>>, a: int, b: int, k: int)
    requires
        0 <= a,
        b < ls.len(),
        0 <= k <= ls.len(),
    ensures
        blen(cat(mixed(ls, a, b).take(k))) == blen(cat(ls.take(k))) + 2 * filled(
            ls,
            a,
            if k - 1 < b {
                k - 1
            } else {
                b
            },
        ),
    decreases k,
{
    let m = mixed(ls, a, b);
    if k == 0 {
        assert(m.take(0) =~= ls.take(0));
    } else {
        lemma_mixed_start(ls, a, b, k - 1);
        assert(m.take(k).drop_last() =~= m.take(k - 1));
        assert(ls.take(k).drop_last() =~= ls.take(k - 1));
        assert(m.take(k).last() == m[k - 1]);
        assert(ls.take(k).last() == ls[k - 1]);
        lemma_blen_concat(cat(m.take(k - 1)), m[k - 1]);
        lemma_blen_concat(cat(ls.take(k - 1)), ls[k - 1]);
        lemma_blen_concat(two_blanks(), ls[k - 1]);
        assert(two_blanks() =~= Seq::<char>::empty().push(' ').push(' '));
        crate::text::lemma_blen_push(Seq::<char>::empty(), ' ');
        crate::text::lemma_blen_push(Seq::<char>::empty().push(' '), ' ');
        assert(blen(Seq::<char>::empty()) == 0);
    }
}

/// A byte between the starts of two lines belongs to the first of them.
proof fn lemma_byte_between(t: Seq<char>, k: int, b: int)
    requires
        0 <= k < line_count(t),
        byte_of_line(t, k) <= b <= blen(t),
        k < line_count(t) - 1 ==> b < byte_of_line(t, k + 1),
    ensures
        line_of_byte(t, b) == k,
{
    lemma_line_index(t, k);
    lemma_line_index(t, k + 1);
    lemma_byte_of_line(t, k);
    lemma_floor_index(t, b);
    let i = floor_index(t, b);
    lemma_floor_index_off(t, line_index(t, k));
    lemma_floor_mono(t, byte_of_line(t, k), b);
    lemma_breaks_mono(t, line_index(t, k), i);
    lemma_breaks_mono(t, i, t.len() as int);
    if k < line_count(t) - 1 {
        if i >= line_index(t, k + 1) {
            lemma_off_mono(t, line_index(t, k + 1), i);
        }
        assert(breaks_upto(t, i) < k + 1);
    }
}

proof fn lemma_byte_in_line(t: Seq<char>, b: int)
    requires
        0 <= b <= blen(t),
    ensures
        ({
            let k = line_of_byte(t, b);
            &&& 0 <= k < line_count(t)
            &&& byte_of_line(t, k) <= b
            &&& k < line_count(t) - 1 ==> b < byte_of_line(t, k + 1)
        }),
{
    lemma_line_of_byte(t, b);
    let k = line_of_byte(t, b);
    lemma_floor_index(t, b);
    let i = floor_index(t, b);
    crate::rope::lemma_index_in_line(t, i);
    lemma_line_index(t, k + 1);
    if k < line_count(t) - 1 {
        if i + 1 <= line_index(t, k + 1) {
            lemma_off_mono(t, i + 1, line_index(t, k + 1));
        }
    }
}

/// Indenting the selected lines and outdenting them gives the text back. Lines of blanks
/// alone are left out: they are not indented, and yet outdented.
#[verifier::rlimit(40)]
pub proof fn indenting_and_outdenting_give_the_text_back(e: EditorModel)
    requires
        e.cursor != e.anchor,
        0 <= sel_lo(e),
        sel_hi(e) <= blen(e.doc.text),
        blanks_are_bare(
            e.doc.text,
            line_of_byte(e.doc.text, sel_lo(e)),
            line_of_byte(e.doc.text, sel_hi(e)),
        ),
    ensures
        outdented(indented(e)).doc.text == e.doc.text,
{
    let t = e.doc.text;
    let ls = all_lines(t);
    let e1 = begun(e, false);
    lemma_flushed_keeps(e);
    let (lo, hi) = (sel_lo(e), sel_hi(e));
    let (first, last) = (line_of_byte(t, lo), line_of_byte(t, hi));
    lemma_byte_in_line(t, lo);
    lemma_byte_in_line(t, hi);
    lemma_floor_mono(t, lo, hi);
    lemma_floor_index(t, lo);
    lemma_floor_index(t, hi);
    lemma_breaks_mono(t, floor_index(t, lo), floor_index(t, hi));
    assert(first <= last);
    lines_make_their_text(t);
    assert(mixed(ls, last + 1, last) =~= ls);
    let s0 = ShiftModel { e: e1, first: 0, total: 0 };
    let s = shift_lines_from(s0, first, last, true);
    lemma_indent_lines(s0, t, first, last, last);
    lemma_indent_counts(s0, t, first, last, last);
    lemma_filled_front(ls, first, last);
    lemma_mixed(t, first, last);
    let m = mixed(ls, first, last);
    let u = s.e.doc.text;
    lemma_line_count(u);
    lemma_line_count(t);
    assert(all_lines(u).len() == m.len());
    assert(line_count(u) == line_count(t));
    lines_make_their_text(u);
    assert forall|k: int| 0 <= k <= line_count(t) implies #[trigger] byte_of_line(u, k)
        == byte_of_line(t, k) + 2 * filled(
        ls,
        first,
        if k - 1 < last {
            k - 1
        } else {
            last
        },
    ) by {
        lemma_cat_prefix(u, k);
        lemma_cat_prefix(t, k);
        lemma_mixed_start(ls, first, last, k);
    }
    let n = line_count(t);
    lemma_line_index(t, n);
    lemma_line_index(u, n);
    lemma_off_ends(t);
    lemma_off_ends(u);
    assert(byte_of_line(u, n) == byte_of_line(t, n) + 2 * filled(ls, first, last));
    let (a, b) = (lo + s.first, hi + s.total);
    assert(filled(ls, first, first - 1) == 0);
    assert(filled(ls, first, first) == filled(ls, first, first - 1) + if is_blank(
        line_body(ls[first]),
    ) {
        0int
    } else {
        1
    });
    assert(byte_of_line(u, first) == byte_of_line(t, first));
    assert(byte_of_line(u, first + 1) == byte_of_line(t, first + 1) + s.first);
    assert(byte_of_line(u, last) == byte_of_line(t, last) + 2 * filled(ls, first, last - 1));
    assert(byte_of_line(u, last + 1) == byte_of_line(t, last + 1) + s.total);
    assert(filled(ls, first, last) >= filled(ls, first, last - 1));
    assert(a <= b);
    lemma_byte_between(u, first, a);
    lemma_byte_between(u, last, b);
    let shifted_e = shifted(e1, true);
    lemma_flushed_keeps(shifted_e);
    let f = indented(e);
    assert(f.doc.text == u && f.anchor == a && f.cursor == b);
    let f1 = begun(f, false);
    lemma_flushed_keeps(f);
    lemma_outdent_lines(ShiftModel { e: f1, first: 0, total: 0 }, t, first, last, last);
    lemma_flushed_keeps(shifted(f1, false));
}

} // verus!
