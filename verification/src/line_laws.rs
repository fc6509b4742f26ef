//! What keys do to lines: where a line starts and ends, and what becomes of it and of the
//! lines around it.
use crate::block::{digit_run, is_digit, lemma_digit_run};
use crate::block_laws::{box_read, is_white, lemma_box, lemma_cut_start};
use crate::document::{
    byte_of_line, clamp_to, line_at, line_body, line_col, line_of_byte, newline_of,
    Newline,
};
use crate::edit_laws::{
    all_lines, cat, filled, lemma_filled_front, lemma_indent_counts, lemma_indent_lines,
    lemma_line_index_is, lemma_mixed, lemma_mixed_start, lines_make_their_text, mixed,
};
use crate::editor::{
    as_heading, begun, broken, continuation, heading_set, indented, is_bullet, moved_down,
    moved_line_end, moved_line_start, moved_up, newline_text, outdented, sel_hi, sel_lo, shift_line,
    shift_lines_from, task_at_cursor, task_toggled, EditorModel, ShiftModel,
};
use crate::rope::{
    breaks_upto, ends_line, full_line, is_break, lemma_breaks_mono, lemma_index_in_line,
    lemma_line_count, lemma_line_index, lemma_line_index_mono, line_count, line_index,
};
use crate::talk_laws::lemma_white;
use crate::text::{
    blen, digits_of, floor_index, is_space, lead_spaces, lemma_blen_bounds, lemma_blen_concat, lemma_digits,
    lemma_floor_index, lemma_floor_index_off, lemma_off_ends, lemma_off_mono, lemma_off_step,
    lemma_run_of, off, run_of, trim_start,
};
use crate::typing_laws::{
    lemma_ascii_blen, lemma_begun_keeps, lemma_number_goes_on, lemma_place, lemma_put_here,
    lemma_take_here, lemma_trimmed_len, line_breaks_go_in_at_the_cursor, on_line, stands,
};
use vstd::prelude::*;

verus! {

// ---------- where lines lie ----------

/// Lines end at a line feed, a carriage return, and the other characters that Unicode has for
/// that.
pub proof fn lines_end_at_breaks(c: char)
    ensures
        is_break('\n') && is_break('\r') && is_break('\u{b}') && is_break('\u{c}'),
        is_break('\u{85}') && is_break('\u{2028}') && is_break('\u{2029}'),
        ' ' <= c <= '~' ==> !is_break(c),
        c == '\t' ==> !is_break(c),
        '\u{202a}' <= c ==> !is_break(c),
{
}

pub open spec fn has_no_break(l: Seq<char>) -> bool {
    forall|k: int| 0 <= k < l.len() ==> !is_break(#[trigger] l[k])
}

/// Whether a text is that before a line: nothing, or lines with their breaks.
pub open spec fn is_before_a_line(pre: Seq<char>) -> bool {
    pre.len() == 0 || pre.last() == '\n'
}

/// Whether a line that ends with this, and with that behind it, ends here: a break, or the end
/// of the text.
pub open spec fn ends_here(br: Seq<char>, post: Seq<char>) -> bool {
    br == seq!['\n'] || br == seq!['\r', '\n'] || (br.len() == 0 && post.len() == 0)
}

proof fn lemma_same_breaks(pre: Seq<char>, rest: Seq<char>, i: int)
    requires
        is_before_a_line(pre),
        0 <= i <= pre.len(),
    ensures
        breaks_upto(pre + rest, i) == breaks_upto(pre, i),
    decreases i,
{
    if i > 0 {
        lemma_same_breaks(pre, rest, i - 1);
        let t = pre + rest;
        assert(t[i - 1] == pre[i - 1]);
        if i < pre.len() {
            assert(t[i] == pre[i]);
        } else {
            assert(pre[i - 1] == '\n');
        }
        assert(ends_line(t, i) == ends_line(pre, i));
    }
}

proof fn lemma_no_breaks(t: Seq<char>, i: int, j: int)
    requires
        0 <= i <= j <= t.len(),
        forall|k: int| i <= k < j ==> !is_break(#[trigger] t[k]),
    ensures
        breaks_upto(t, j) == breaks_upto(t, i),
    decreases j - i,
{
    if i < j {
        assert(!is_break(t[j - 1]));
        lemma_no_breaks(t, i, j - 1);
    }
}

/// Where a line lies in its text, by characters.
pub proof fn lemma_line_lies(pre: Seq<char>, l: Seq<char>, br: Seq<char>, post: Seq<char>)
    requires
        is_before_a_line(pre),
        has_no_break(l),
        ends_here(br, post),
    ensures
        ({
            let t = pre + l + br + post;
            let k = line_count(pre) - 1;
            &&& 0 <= k < line_count(t)
            &&& line_index(t, k) == pre.len()
            &&& line_index(t, k + 1) == pre.len() + l.len() + br.len()
            &&& full_line(t, k) == l + br
            &&& line_at(t, k) == l
            &&& forall|i: int|
                pre.len() <= i <= pre.len() + l.len() ==> #[trigger] breaks_upto(t, i) == k
            &&& br.len() > 0 ==> line_count(pre + l + br) == line_count(pre) + 1
        }),
{
    let t = pre + l + br + post;
    let k = line_count(pre) - 1;
    let i = pre.len() as int;
    let j = i + l.len();
    let m = j + br.len();
    assert(t =~= pre + (l + br + post));
    lemma_same_breaks(pre, l + br + post, i);
    lemma_breaks_mono(pre, 0, i);
    assert(breaks_upto(t, i) == k);
    assert forall|x: int| i <= x <= j implies #[trigger] breaks_upto(t, x) == k by {
        assert forall|y: int| i <= y < x implies !is_break(#[trigger] t[y]) by {
            assert(t[y] == l[y - i]);
        }
        lemma_no_breaks(t, i, x);
    }
    assert forall|x: int| 0 <= x < i implies #[trigger] breaks_upto(t, x) < k by {
        lemma_breaks_mono(t, x, i - 1);
        assert(t[i - 1] == pre[i - 1]);
        assert(ends_line(t, i));
    }
    lemma_line_index_is(t, k, i);
    lemma_breaks_mono(t, i, t.len() as int);
    if br.len() == 0 {
        assert(m == t.len());
        assert(breaks_upto(t, j) == k);
        lemma_line_index(t, k + 1);
    } else {
        assert(t[m - 1] == br[br.len() - 1]);
        assert(t[m - 1] == '\n');
        if br.len() == 2 {
            assert(t[j] == br[0] && t[j + 1] == br[1]);
            assert(t[j] == '\r' && t[j + 1] == '\n');
            assert(!ends_line(t, j + 1));
            assert(breaks_upto(t, j) == k);
            assert(breaks_upto(t, j + 1) == k);
        } else {
            assert(br.len() == 1);
            assert(breaks_upto(t, j) == k);
        }
        assert(breaks_upto(t, m - 1) == k);
        assert(ends_line(t, m));
        assert(breaks_upto(t, m) == k + 1);
        assert forall|x: int| 0 <= x < m implies #[trigger] breaks_upto(t, x) < k + 1 by {
            lemma_breaks_mono(t, x, m - 1);
        }
        lemma_line_index_is(t, k + 1, m);
        let u = pre + l + br;
        assert(u.last() == '\n');
        lemma_same_breaks(u, post, m);
        assert(u.len() == m);
        assert(t =~= u + post);
    }
    assert(t.subrange(i, m) =~= l + br);
    let w = l + br;
    if br.len() == 0 {
        assert(w =~= l);
        if l.len() > 0 && l.last() == '\n' {
            assert(is_break(l[l.len() - 1]));
        }
    } else {
        assert(w.last() == '\n');
        let v = w.drop_last();
        if br.len() == 1 {
            assert(v =~= l);
            if l.len() > 0 && l.last() == '\r' {
                assert(is_break(l[l.len() - 1]));
            }
        } else {
            assert(v =~= l.push('\r'));
            assert(v.drop_last() =~= l);
        }
    }
    assert(line_body(w) == l);
    lemma_breaks_mono(t, m, t.len() as int);
}

/// A place in a line has that line, and its column counts from where the line starts.
pub proof fn places_lie_in_their_line(
    pre: Seq<char>,
    l: Seq<char>,
    br: Seq<char>,
    post: Seq<char>,
    c: int,
)
    requires
        is_before_a_line(pre),
        has_no_break(l),
        ends_here(br, post),
        0 <= c <= blen(l),
    ensures
        ({
            let t = pre + l + br + post;
            let k = line_count(pre) - 1;
            &&& line_col(t, blen(pre) + c) == (k, c)
            &&& line_of_byte(t, blen(pre) + c) == k
            &&& line_at(t, k) == l
            &&& byte_of_line(t, k) == blen(pre)
            &&& 0 <= k < line_count(t)
            &&& blen(t) == blen(pre) + blen(l) + blen(br) + blen(post)
        }),
{
    let t = pre + l + br + post;
    lemma_line_lies(pre, l, br, post);
    assert(t =~= pre + l + (br + post));
    lemma_place(pre, l, br + post);
    lemma_blen_concat(br, post);
    let (i, j) = (pre.len() as int, pre.len() + l.len() as int);
    let b = blen(pre) + c;
    lemma_floor_index(t, b);
    let x = floor_index(t, b);
    if x < i {
        lemma_off_mono(t, x + 1, i);
    }
    if x > j {
        lemma_off_mono(t, j, x);
        lemma_off_step(t, j);
        lemma_off_mono(t, j + 1, x);
    }
    assert(breaks_upto(t, x) == line_count(pre) - 1);
}

// ---------- moving ----------

/// The end of a line is where its text ends, and its start where its text starts or, from
/// there, where the line starts.
pub proof fn lines_have_ends(
    e: EditorModel,
    pre: Seq<char>,
    ind: Seq<char>,
    body: Seq<char>,
    br: Seq<char>,
    post: Seq<char>,
    extend: bool,
)
    requires
        is_before_a_line(pre),
        is_white(ind),
        has_no_break(ind + body),
        body.len() == 0 || !is_space(body[0]),
        ends_here(br, post),
        e.doc.text == pre + (ind + body) + br + post,
        blen(pre) <= e.cursor <= blen(pre) + blen(ind + body),
    ensures
        moved_line_end(e, extend).cursor == blen(pre) + blen(ind + body),
        e.cursor != blen(pre) + blen(ind) ==> moved_line_start(e, extend).cursor == blen(pre)
            + blen(ind),
        e.cursor == blen(pre) + blen(ind) ==> moved_line_start(e, extend).cursor == blen(pre),
        extend ==> moved_line_end(e, extend).anchor == e.anchor && moved_line_start(
            e,
            extend,
        ).anchor == e.anchor,
        !extend ==> moved_line_end(e, extend).anchor == moved_line_end(e, extend).cursor,
        !extend ==> moved_line_start(e, extend).anchor == moved_line_start(e, extend).cursor,
{
    let l = ind + body;
    places_lie_in_their_line(pre, l, br, post, e.cursor - blen(pre));
    lemma_cut_start(ind, body);
    assert(l.take(ind.len() as int) =~= ind);
    lemma_blen_concat(ind, body);
}

/// Up and down lead to the same column of the line above or below, or to its end if it is
/// shorter; above the first line to the start of the text, and below the last to its end.
pub proof fn up_and_down_keep_the_column(
    e: EditorModel,
    pre: Seq<char>,
    l: Seq<char>,
    br: Seq<char>,
    m: Seq<char>,
    br2: Seq<char>,
    post: Seq<char>,
    c: int,
)
    requires
        is_before_a_line(pre),
        has_no_break(l) && has_no_break(m),
        br == seq!['\n'] || br == seq!['\r', '\n'],
        ends_here(br2, post),
        e.doc.text == pre + l + br + m + br2 + post,
        e.goal is None,
    ensures
        0 <= c <= blen(l) && e.cursor == blen(pre) + c ==> {
            &&& moved_down(e, false).cursor == blen(pre + l + br) + clamp_to(c, blen(m) as int)
            &&& pre.len() == 0 ==> moved_up(e, false).cursor == 0
            &&& moved_down(e, false).goal == Some(c)
            &&& moved_down(e, true).anchor == e.anchor
        },
        0 <= c <= blen(m) && e.cursor == blen(pre + l + br) + c ==> {
            &&& moved_up(e, false).cursor == blen(pre) + clamp_to(c, blen(l) as int)
            &&& br2.len() == 0 ==> moved_down(e, false).cursor == blen(e.doc.text)
            &&& moved_up(e, false).goal == Some(c)
            &&& moved_up(e, true).anchor == e.anchor
        },
{
    let t = e.doc.text;
    let p2 = pre + l + br;
    assert(t =~= pre + l + br + (m + br2 + post));
    assert(t =~= p2 + m + br2 + post);
    assert(p2.last() == '\n');
    lemma_line_lies(pre, l, br, m + br2 + post);
    lemma_line_lies(p2, m, br2, post);
    lemma_blen_concat(pre, l);
    lemma_blen_concat(pre + l, br);
    lemma_blen_concat(p2, m);
    lemma_blen_concat(p2 + m, br2);
    lemma_blen_concat(p2 + m + br2, post);
    lemma_blen_concat(pre + l + br, m + br2 + post);
    lemma_blen_bounds(l);
    lemma_blen_bounds(m);
    lemma_line_count(pre);
    if pre.len() == 0 {
        assert(line_count(pre) == 1);
    }
    places_lie_in_their_line(pre, l, br, m + br2 + post, 0);
    places_lie_in_their_line(p2, m, br2, post, 0);
    if 0 <= c <= blen(l) && e.cursor == blen(pre) + c {
        places_lie_in_their_line(pre, l, br, m + br2 + post, c);
    }
    if 0 <= c <= blen(m) && e.cursor == blen(p2) + c {
        places_lie_in_their_line(p2, m, br2, post, c);
        if br2.len() == 0 {
            let k = line_count(p2) - 1;
            lemma_line_index(t, k + 1);
            if k + 1 < line_count(t) {
                assert(breaks_upto(t, line_index(t, k + 1)) == k + 1);
                assert(p2.len() <= line_index(t, k + 1) <= p2.len() + m.len());
            }
        }
    }
}

// ---------- changing a line ----------

/// Setting a heading changes the line of the cursor, and the cursor stands at its end.
pub proof fn headings_change_their_line(
    e: EditorModel,
    pre: Seq<char>,
    l: Seq<char>,
    br: Seq<char>,
    post: Seq<char>,
    level: u8,
)
    requires
        is_before_a_line(pre),
        has_no_break(l),
        ends_here(br, post),
        e.doc.text == pre + l + br + post,
        blen(pre) <= e.cursor <= blen(pre) + blen(l),
    ensures
        heading_set(e, level).doc.text == pre + as_heading(l, level) + br + post,
        heading_set(e, level).cursor == blen(pre) + blen(as_heading(l, level)),
{
    let b = begun(e, false);
    lemma_begun_keeps(e, false);
    places_lie_in_their_line(pre, l, br, post, e.cursor - blen(pre));
    let t = e.doc.text;
    let rest = br + post;
    assert(t =~= pre + l + rest);
    lemma_take_here(b, pre, l, rest);
    let c = crate::editor::taken(b, blen(pre) as int, blen(pre) + blen(l) as int);
    let new = as_heading(l, level);
    lemma_put_here(c, pre, rest, new);
    assert(pre + new + rest =~= pre + new + br + post);
}

/// Ticking changes the box of the task that the cursor stands in, and nothing else; in a line
/// that is no task it changes nothing.
pub proof fn ticking_changes_the_box(
    e: EditorModel,
    pre: Seq<char>,
    ind: Seq<char>,
    mark: char,
    c: char,
    body: Seq<char>,
    br: Seq<char>,
    post: Seq<char>,
)
    requires
        is_before_a_line(pre),
        is_white(ind),
        has_no_break(ind) && has_no_break(body),
        mark == '-' || mark == '*' || mark == '+',
        c == ' ' || c == 'x' || c == 'X',
        ends_here(br, post),
        e.doc.text == pre + (ind + seq![mark, ' ', '[', c, ']', ' '] + body) + br + post,
        blen(pre) <= e.cursor <= blen(pre) + blen(
            ind + seq![mark, ' ', '[', c, ']', ' '] + body,
        ),
    ensures
        task_toggled(e).doc.text == pre + (ind + seq![
            mark,
            ' ',
            '[',
            if c == ' ' {
                'x'
            } else {
                ' '
            },
            ']',
            ' ',
        ] + body) + br + post,
        task_toggled(e).cursor == e.cursor,
        task_toggled(e).anchor == e.anchor,
{
    let head = seq![mark, ' ', '[', c, ']', ' '];
    let l = ind + head + body;
    lemma_task_line(ind, mark, c, body);
    places_lie_in_their_line(pre, l, br, post, e.cursor - blen(pre));
    let ticked = c != ' ';
    let at = blen(pre) + blen(ind) + 2int;
    assert(task_at_cursor(e) == Some((at, ticked)));
    let d = if c == ' ' {
        'x'
    } else {
        ' '
    };
    lemma_around(pre, ind, mark, c, body, br, post);
    lemma_around(pre, ind, mark, d, body, br, post);
    let first = pre + ind + seq![mark, ' '];
    assert(blen(first) == at) by {
        lemma_blen_concat(pre, ind);
        lemma_blen_concat(pre + ind, seq![mark, ' ']);
        lemma_ascii_blen(seq![mark, ' ']);
    }
    lemma_box_changed(e, first, c, d, seq![' '] + body + br + post);
}

proof fn lemma_around(
    pre: Seq<char>,
    ind: Seq<char>,
    mark: char,
    c: char,
    body: Seq<char>,
    br: Seq<char>,
    post: Seq<char>,
)
    ensures
        pre + (ind + seq![mark, ' ', '[', c, ']', ' '] + body) + br + post == pre + ind + seq![
            mark,
            ' ',
        ] + seq!['[', c, ']'] + (seq![' '] + body + br + post),
{
    let head = seq![mark, ' ', '[', c, ']', ' '];
    assert(head =~= seq![mark, ' '] + seq!['[', c, ']'] + seq![' ']);
    let (x, y) = (seq![mark, ' '], seq!['[', c, ']']);
    let z = seq![' '];
    assert(pre + (ind + (x + y + z) + body) + br + post =~= pre + ind + x + y + (z + body + br + post));
}

proof fn lemma_box_changed(e: EditorModel, first: Seq<char>, c: char, d: char, rest: Seq<char>)
    requires
        c == ' ' || c == 'x' || c == 'X',
        d == if c == ' ' {
            'x'
        } else {
            ' '
        },
    ensures
        e.doc.text == first + seq!['[', c, ']'] + rest && task_at_cursor(e) == Some(
            (blen(first) as int, c != ' '),
        ) ==> {
            let f = task_toggled(e);
            f.doc.text == first + seq!['[', d, ']'] + rest && f.cursor == e.cursor && f.anchor
                == e.anchor
        },
{
    let old = seq!['[', c, ']'];
    if e.doc.text == first + old + rest && task_at_cursor(e) == Some((blen(first) as int, c != ' ')) {
        let b = begun(e, false);
        lemma_begun_keeps(e, false);
        lemma_ascii_blen(old);
        lemma_take_here(b, first, old, rest);
        let f = crate::editor::taken(b, blen(first) as int, blen(first) as int + 3);
        lemma_put_here(f, first, rest, seq!['[', d, ']']);
    }
}

proof fn lemma_task_line(ind: Seq<char>, mark: char, c: char, body: Seq<char>)
    requires
        is_white(ind),
        has_no_break(ind) && has_no_break(body),
        mark == '-' || mark == '*' || mark == '+',
        c == ' ' || c == 'x' || c == 'X',
    ensures
        ({
            let l = ind + seq![mark, ' ', '[', c, ']', ' '] + body;
            &&& has_no_break(l)
            &&& l.take(lead_spaces(l)) == ind
            &&& is_bullet(trim_start(l))
            &&& crate::block::check_box(trim_start(l).skip(2)) == Some(c != ' ')
        }),
{
    let head = seq![mark, ' ', '[', c, ']', ' '];
    let l = ind + head + body;
    assert forall|k: int| 0 <= k < l.len() implies !is_break(#[trigger] l[k]) by {
        if k < ind.len() {
            assert(l[k] == ind[k]);
        } else if k < ind.len() + 6 {
            assert(l[k] == head[k - ind.len()]);
        } else {
            assert(l[k] == body[k - ind.len() - 6]);
        }
    }
    let u = head + body;
    assert(l =~= ind + u);
    assert(u[0] == mark);
    lemma_cut_start(ind, u);
    assert(l.take(ind.len() as int) =~= ind);
    let w = u.skip(2);
    lemma_box(w);
    assert(w[0] == '[' && w[1] == c && w[2] == ']' && w[3] == ' ');
    reveal_strlit("- ");
    reveal_strlit("* ");
    reveal_strlit("+ ");
    let two = u.take(2);
    assert(two[0] == mark && two[1] == ' ');
    if mark == '-' {
        assert(two =~= "- "@);
    } else if mark == '*' {
        assert(two =~= "* "@);
    } else {
        assert(two =~= "+ "@);
    }
}

/// Where the line of the cursor is no task, ticking changes nothing.
pub proof fn ticking_needs_a_box(
    e: EditorModel,
    pre: Seq<char>,
    ind: Seq<char>,
    body: Seq<char>,
    br: Seq<char>,
    post: Seq<char>,
)
    requires
        is_before_a_line(pre),
        is_white(ind),
        has_no_break(ind + body),
        body.len() == 0 || !is_space(body[0]),
        ends_here(br, post),
        e.doc.text == pre + (ind + body) + br + post,
        blen(pre) <= e.cursor <= blen(pre) + blen(ind + body),
        body.len() < 2 || (body[0] != '-' && body[0] != '*' && body[0] != '+') || body[1] != ' '
            || box_read(body.skip(2)) is None,
    ensures
        task_toggled(e) == e,
{
    places_lie_in_their_line(pre, ind + body, br, post, e.cursor - blen(pre));
    lemma_cut_start(ind, body);
    reveal_strlit("- ");
    reveal_strlit("* ");
    reveal_strlit("+ ");
    if is_bullet(body) {
        assert(body.take(2)[0] == body[0] && body.take(2)[1] == body[1]);
        assert(body[1] == ' ');
        lemma_box(body.skip(2));
    }
}

// ---------- line breaks ----------

/// Whether a line is the mark of an item or of a quote and nothing more.
pub open spec fn is_bare_mark(m: Seq<char>) -> bool {
    ||| m == seq!['-', ' '] || m == seq!['*', ' '] || m == seq!['+', ' ']
    ||| m == seq!['>', ' '] || m == seq!['>']
    ||| m.len() == 6 && (m[0] == '-' || m[0] == '*' || m[0] == '+') && m[1] == ' ' && box_read(
        m.skip(2),
    ) is Some
    ||| exists|n: nat|
        n < 999_999_999 && (m == #[trigger] digits_of(n) + seq!['.', ' '] || m == digits_of(n) + seq![
            ')',
            ' ',
        ])
}

/// A line break behind a mark with nothing behind it ends the list or the quote: the mark goes,
/// and the break stands in its place.
pub proof fn bare_marks_end_the_list(
    e: EditorModel,
    pre: Seq<char>,
    ind: Seq<char>,
    m: Seq<char>,
    br: Seq<char>,
    post: Seq<char>,
)
    requires
        is_before_a_line(pre),
        is_white(ind),
        has_no_break(ind),
        is_bare_mark(m),
        ends_here(br, post),
        e.doc.text == pre + (ind + m) + br + post,
        e.cursor == blen(pre) + blen(ind + m),
        e.anchor == e.cursor,
    ensures
        broken(e).doc.text == pre + newline_text(e.doc.newline) + br + post,
        broken(e).cursor == blen(pre) + blen(newline_text(e.doc.newline)),
{
    let l = ind + m;
    lemma_bare_mark(ind, m);
    places_lie_in_their_line(pre, l, br, post, blen(l) as int);
    let b = begun(e, false);
    lemma_begun_keeps(e, false);
    lemma_trimmed_len(l, Seq::empty());
    assert(l + Seq::<char>::empty() =~= l);
    let rest = br + post;
    assert(e.doc.text =~= pre + l + rest);
    lemma_take_here(b, pre, l, rest);
    let c = crate::editor::at_cursor(
        crate::editor::taken(b, blen(pre) as int, blen(pre) + blen(l) as int),
        blen(pre) as int,
    );
    let nl = newline_text(e.doc.newline);
    lemma_put_here(c, pre, rest, nl);
    assert(pre + nl + rest =~= pre + nl + br + post);
}

proof fn lemma_bare_mark(ind: Seq<char>, m: Seq<char>)
    requires
        is_white(ind),
        has_no_break(ind),
        is_bare_mark(m),
    ensures
        has_no_break(ind + m),
        continuation(ind + m) matches Some((next, mark)) && mark == blen(ind + m),
{
    let l = ind + m;
    let none = Seq::<char>::empty();
    assert forall|k: int| 0 <= k < m.len() implies (#[trigger] m[k]) as u32 <= 127 && ' ' <= m[k]
        <= '~' by {
        if exists|n: nat|
            n < 999_999_999 && (m == #[trigger] digits_of(n) + seq!['.', ' '] || m == digits_of(n)
                + seq![')', ' ']) {
            let n = choose|n: nat|
                n < 999_999_999 && (m == #[trigger] digits_of(n) + seq!['.', ' '] || m == digits_of(
                    n,
                ) + seq![')', ' ']);
            lemma_digits(n);
            if k < digits_of(n).len() {
                assert('0' <= digits_of(n)[k] <= '9');
            }
        } else if m.len() == 6 {
            let w = m.skip(2);
            assert(m[2] == w[0] && m[3] == w[1] && m[4] == w[2] && m[5] == w[3]);
        }
    }
    assert forall|k: int| 0 <= k < l.len() implies !is_break(#[trigger] l[k]) by {
        if k < ind.len() {
            assert(l[k] == ind[k]);
        } else {
            let c = m[k - ind.len()];
            assert(l[k] == c);
            lines_end_at_breaks(c);
        }
    }
    lemma_ascii_blen(m);
    lemma_blen_concat(ind, m);
    reveal_strlit("- ");
    reveal_strlit("* ");
    reveal_strlit("+ ");
    assert("- "@ =~= seq!['-', ' ']);
    assert("* "@ =~= seq!['*', ' ']);
    assert("+ "@ =~= seq!['+', ' ']);
    if exists|n: nat|
        n < 999_999_999 && (m == #[trigger] digits_of(n) + seq!['.', ' '] || m == digits_of(n)
            + seq![')', ' ']) {
        let n = choose|n: nat|
            n < 999_999_999 && (m == #[trigger] digits_of(n) + seq!['.', ' '] || m == digits_of(n)
                + seq![')', ' ']);
        let sep = if m == digits_of(n) + seq!['.', ' '] {
            '.'
        } else {
            ')'
        };
        lemma_number_goes_on(ind, n, sep, none);
        assert(ind + digits_of(n) + seq![sep, ' '] + none =~= l);
    } else {
        assert(m[0] == '>' || m[0] == '-' || m[0] == '*' || m[0] == '+');
        lemma_cut_start(ind, m);
        assert(l.take(ind.len() as int) =~= ind);
        if m[0] != '>' {
            assert(m.take(2) =~= seq![m[0], ' ']);
            lemma_box(m.skip(2));
        }
    }
}

/// A number goes on only with a full stop or a bracket and a blank behind it, and only if it has
/// no more than nine digits.
pub proof fn other_numbers_do_not_go_on(
    e: EditorModel,
    pre: Seq<char>,
    post: Seq<char>,
    ind: Seq<char>,
    ds: Seq<char>,
    rest: Seq<char>,
)
    requires
        stands(e, pre, Seq::empty(), post),
        is_white(ind),
        ds.len() > 0,
        forall|k: int| 0 <= k < ds.len() ==> '0' <= #[trigger] ds[k] <= '9',
        rest.len() > 0 ==> !('0' <= rest[0] <= '9'),
        ds.len() > 9 || rest.len() < 2 || (rest[0] != '.' && rest[0] != ')') || rest[1] != ' ',
        on_line(e, ind + ds + rest),
    ensures
        broken(e).doc.text == pre + newline_text(e.doc.newline) + post,
{
    reveal_strlit("- ");
    reveal_strlit("* ");
    reveal_strlit("+ ");
    reveal_strlit(". ");
    reveal_strlit(") ");
    line_breaks_go_in_at_the_cursor(e, pre, post);
    let t = ds + rest;
    assert(ind + ds + rest =~= ind + t);
    assert(t[0] == ds[0]);
    assert('0' <= ds[0] <= '9');
    lemma_cut_start(ind, t);
    lemma_digit_run(t);
    let d = digit_run(t);
    let n = ds.len() as int;
    if d < n {
        assert(t[d] == ds[d]);
        assert('0' <= ds[d] <= '9');
    } else if d > n {
        assert(t[n] == rest[0]);
        assert(is_digit(t[n]));
    }
    assert(t.skip(d) =~= rest);
    if t.len() >= 2 {
        assert(t.take(2)[0] == t[0]);
    }
    if rest.len() >= 2 {
        assert(rest.take(2)[0] == rest[0] && rest.take(2)[1] == rest[1]);
    }
}

// ---------- indenting ----------

proof fn lemma_body_white(l: Seq<char>)
    ensures
        crate::block::is_blank(line_body(l)) <==> is_white(l),
{
    let b = line_body(l);
    lemma_white(b);
    if is_white(b) && !is_white(l) {
        let k = choose|k: int| 0 <= k < l.len() && !is_space(#[trigger] l[k]);
        if k < b.len() {
            assert(b[k] == l[k]);
            assert(is_space(b[k]));
        }
    }
    if is_white(l) {
        assert forall|k: int| 0 <= k < b.len() implies is_space(#[trigger] b[k]) by {
            assert(b[k] == l[k]);
        }
    }
}

/// Indenting a selection puts two blanks before each of its lines that is not blank, and
/// changes no other line.
pub proof fn selected_lines_are_indented(e: EditorModel, k: int)
    requires
        e.cursor != e.anchor,
        0 <= e.cursor <= blen(e.doc.text),
        0 <= e.anchor <= blen(e.doc.text),
        0 <= k < line_count(e.doc.text),
    ensures
        ({
            let t = e.doc.text;
            let u = indented(e).doc.text;
            &&& line_count(u) == line_count(t)
            &&& full_line(u, k) == if line_of_byte(t, sel_lo(e)) <= k <= line_of_byte(t, sel_hi(e))
                && !is_white(full_line(t, k)) {
                seq![' ', ' '] + full_line(t, k)
            } else {
                full_line(t, k)
            }
        }),
{
    let t = e.doc.text;
    let b = begun(e, false);
    lemma_begun_keeps(e, false);
    let (first, last) = (line_of_byte(t, sel_lo(e)), line_of_byte(t, sel_hi(e)));
    lemma_floor_index(t, sel_lo(e));
    lemma_floor_index(t, sel_hi(e));
    lemma_index_in_line(t, floor_index(t, sel_lo(e)));
    lemma_index_in_line(t, floor_index(t, sel_hi(e)));
    crate::text::lemma_floor_mono(t, sel_lo(e), sel_hi(e));
    lemma_breaks_mono(t, floor_index(t, sel_lo(e)), floor_index(t, sel_hi(e)));
    lines_make_their_text(t);
    assert(mixed(all_lines(t), last + 1, last) =~= all_lines(t));
    lemma_indent_lines(ShiftModel { e: b, first: 0, total: 0 }, t, first, last, last);
    lemma_mixed(t, first, last);
    let u = cat(mixed(all_lines(t), first, last));
    assert(indented(e).doc.text == u);
    lemma_line_count(u);
    assert(all_lines(u).len() == all_lines(t).len());
    assert(full_line(u, k) == all_lines(u)[k]);
    lemma_body_white(full_line(t, k));
}

/// Indented lines stay selected: the selection starts as far behind the start of its first line
/// as before, with the blanks put in there, and ends as far before the end of the text.
pub proof fn indented_lines_stay_selected(e: EditorModel)
    requires
        e.cursor != e.anchor,
        0 <= e.cursor <= blen(e.doc.text),
        0 <= e.anchor <= blen(e.doc.text),
    ensures
        ({
            let t = e.doc.text;
            let f = indented(e);
            &&& f.anchor == sel_lo(e) + if is_white(full_line(t, line_of_byte(t, sel_lo(e)))) {
                0int
            } else {
                2
            }
            &&& blen(f.doc.text) - f.cursor == blen(t) - sel_hi(e)
        }),
{
    let t = e.doc.text;
    let ls = all_lines(t);
    let b = begun(e, false);
    lemma_begun_keeps(e, false);
    let (lo, hi) = (sel_lo(e), sel_hi(e));
    let (first, last) = (line_of_byte(t, lo), line_of_byte(t, hi));
    lemma_floor_index(t, lo);
    lemma_floor_index(t, hi);
    lemma_index_in_line(t, floor_index(t, lo));
    lemma_index_in_line(t, floor_index(t, hi));
    crate::text::lemma_floor_mono(t, lo, hi);
    lemma_breaks_mono(t, floor_index(t, lo), floor_index(t, hi));
    lines_make_their_text(t);
    assert(mixed(ls, last + 1, last) =~= ls);
    let s0 = ShiftModel { e: b, first: 0, total: 0 };
    lemma_indent_lines(s0, t, first, last, last);
    lemma_indent_counts(s0, t, first, last, last);
    lemma_filled_front(ls, first, last);
    lemma_indented_len(t, first, last);
    lemma_body_white(full_line(t, first));
}

proof fn lemma_indented_len(t: Seq<char>, first: int, last: int)
    requires
        0 <= first <= last < line_count(t),
    ensures
        blen(cat(mixed(all_lines(t), first, last))) == blen(t) + 2 * filled(
            all_lines(t),
            first,
            last,
        ),
{
    let ls = all_lines(t);
    let m = mixed(ls, first, last);
    let n = line_count(t);
    let u = cat(m);
    lines_make_their_text(t);
    lemma_mixed_start(ls, first, last, n);
    assert(ls.take(n) =~= ls);
    assert(m.take(n) =~= m);
}

/// A line without the blanks that outdenting takes: two of them, or one if there is but one.
pub open spec fn drawn_out(l: Seq<char>) -> Seq<char> {
    if l.len() >= 2 && l[0] == ' ' && l[1] == ' ' {
        l.skip(2)
    } else if l.len() >= 1 && l[0] == ' ' {
        l.skip(1)
    } else {
        l
    }
}

/// The lines with those from `a` to `b` outdented.
pub open spec fn drawn(ls: Seq<Seq<char>>, a: int, b: int) -> Seq<Seq<char>> {
    Seq::new(
        ls.len(),
        |k: int|
            if a <= k <= b {
                drawn_out(ls[k])
            } else {
                ls[k]
            },
    )
}

/// Whether a line keeps its start when its blanks are taken: not where a carriage return
/// stands before it and nothing but a line feed is left of it.
pub open spec fn keeps_its_start(t: Seq<char>, k: int) -> bool {
    k > 0 && full_line(t, k - 1).len() > 0 && full_line(t, k - 1).last() == '\r' ==> drawn_out(
        full_line(t, k),
    ).len() == 0 || drawn_out(full_line(t, k))[0] != '\n'
}

/// `t` without `r` characters from `li` on.
pub open spec fn without_blanks(t: Seq<char>, li: int, r: int) -> Seq<char> {
    t.take(li) + t.skip(li + r)
}

/// Whether `r` blanks start a line at `li`, and taking them leaves the line's start.
pub open spec fn can_take(t: Seq<char>, li: int, r: int) -> bool {
    &&& 0 <= li && 0 <= r && li + r <= t.len()
    &&& li == 0 || ends_line(t, li)
    &&& forall|k: int| li <= k < li + r ==> #[trigger] t[k] == ' '
    &&& !(li > 0 && t[li - 1] == '\r' && li + r < t.len() && t[li + r] == '\n')
}

proof fn lemma_cut_breaks(t: Seq<char>, li: int, r: int, i: int)
    requires
        can_take(t, li, r),
        0 <= i <= t.len() - r,
    ensures
        i <= li ==> breaks_upto(without_blanks(t, li, r), i) == breaks_upto(t, i),
        li <= i ==> breaks_upto(without_blanks(t, li, r), i) == breaks_upto(t, i + r),
    decreases i,
{
    let u = without_blanks(t, li, r);
    if i > 0 {
        lemma_cut_breaks(t, li, r, i - 1);
        if i <= li {
            assert(u[i - 1] == t[i - 1]);
            if i < li {
                assert(u[i] == t[i]);
            } else if i < u.len() {
                assert(u[i] == t[i + r]);
            }
            assert(ends_line(u, i) == ends_line(t, i));
        } else {
            assert(u[i - 1] == t[i - 1 + r]);
            if i < u.len() {
                assert(u[i] == t[i + r]);
            }
            assert(ends_line(u, i) == ends_line(t, i + r));
        }
    }
    if i == li {
        assert forall|k: int| li <= k < li + r implies !is_break(#[trigger] t[k]) by {
            assert(t[k] == ' ');
        }
        lemma_no_breaks(t, li, li + r);
    }
}

/// Blanks taken from the start of a line are taken from that line, and no other line changes.
proof fn lemma_cut_in_line(t: Seq<char>, k: int, r: int)
    requires
        0 <= k < line_count(t),
        can_take(t, line_index(t, k), r),
        line_index(t, k) + r <= line_index(t, k + 1),
    ensures
        ({
            let u = without_blanks(t, line_index(t, k), r);
            &&& line_count(u) == line_count(t)
            &&& all_lines(u) == all_lines(t).update(k, full_line(t, k).skip(r))
        }),
{
    let li = line_index(t, k);
    let u = without_blanks(t, li, r);
    lemma_line_index(t, k);
    lemma_cut_breaks(t, li, r, u.len() as int);
    assert(line_count(u) == line_count(t));
    assert forall|m: int| 0 <= m <= line_count(t) implies #[trigger] line_index(u, m) == if m <= k {
        line_index(t, m)
    } else {
        line_index(t, m) - r
    } by {
        lemma_line_index(t, m);
        let n = line_index(t, m);
        if m <= k {
            lemma_line_index_mono(t, m, k);
            lemma_cut_breaks(t, li, r, n);
            assert forall|j: int| 0 <= j < n implies #[trigger] breaks_upto(u, j) < m by {
                lemma_cut_breaks(t, li, r, j);
                assert(breaks_upto(t, j) < m);
            }
            lemma_line_index_is(u, m, n);
        } else {
            lemma_line_index_mono(t, k + 1, m);
            lemma_cut_breaks(t, li, r, n - r);
            assert forall|j: int| 0 <= j < n - r implies #[trigger] breaks_upto(u, j) < m by {
                lemma_cut_breaks(t, li, r, j);
                if j <= li {
                    lemma_breaks_mono(t, j, li);
                } else {
                    assert(breaks_upto(t, j + r) < m);
                }
            }
            lemma_line_index_is(u, m, n - r);
        }
    }
    let (a, b) = (all_lines(u), all_lines(t).update(k, full_line(t, k).skip(r)));
    assert forall|m: int| 0 <= m < line_count(t) implies a[m] == b[m] by {
        assert(line_index(u, m) == if m <= k {
            line_index(t, m)
        } else {
            line_index(t, m) - r
        });
        assert(line_index(u, m + 1) == if m + 1 <= k {
            line_index(t, m + 1)
        } else {
            line_index(t, m + 1) - r
        });
        lemma_line_index(t, m);
        lemma_line_index(t, m + 1);
        lemma_line_index_mono(t, m, m + 1);
        if m < k {
            lemma_line_index_mono(t, m + 1, k);
        } else if m > k {
            lemma_line_index_mono(t, k + 1, m);
        }
        assert(a[m] =~= b[m]);
    }
    assert(a =~= b);
}

proof fn lemma_blanks_run(l: Seq<char>)
    ensures
        ({
            let run = run_of(line_body(l), ' ');
            let cut = if run < 2 {
                run
            } else {
                2
            };
            &&& 0 <= cut <= l.len()
            &&& drawn_out(l) == l.skip(cut)
            &&& forall|k: int| 0 <= k < cut ==> #[trigger] l[k] == ' '
        }),
{
    let b = line_body(l);
    lemma_run_of(b, ' ');
    let run = run_of(b, ' ');
    assert forall|k: int| 0 <= k < b.len() implies #[trigger] b[k] == l[k] by {}
    assert forall|k: int| b.len() <= k < l.len() implies #[trigger] l[k] != ' ' by {}
    assert(l.skip(0) =~= l);
    if run > 0 {
        assert(b[0] == ' ');
    }
    if run > 1 {
        assert(b[1] == ' ');
    }
}

proof fn lemma_outdented_lines(s: ShiftModel, t: Seq<char>, first: int, line: int, last: int)
    requires
        0 <= first,
        first - 1 <= line <= last,
        last < line_count(t),
        forall|k: int| first <= k <= last ==> #[trigger] keeps_its_start(t, k),
        all_lines(s.e.doc.text) == drawn(all_lines(t), line + 1, last),
    ensures
        all_lines(shift_lines_from(s, first, line, false).e.doc.text) == drawn(
            all_lines(t),
            first,
            last,
        ),
    decreases line - first + 1,
{
    let ls = all_lines(t);
    if line >= first {
        let m = drawn(ls, line + 1, last);
        let v = s.e.doc.text;
        lemma_line_count(v);
        lemma_line_count(t);
        assert(all_lines(v).len() == m.len());
        assert(full_line(v, line) == all_lines(v)[line]);
        assert(m[line] == ls[line]);
        let l = full_line(v, line);
        assert(l == full_line(t, line));
        lemma_blanks_run(l);
        let run = run_of(line_body(l), ' ');
        let cut = if run < 2 {
            run
        } else {
            2
        };
        let li = line_index(v, line);
        lemma_line_index(v, line);
        lemma_line_index(v, line + 1);
        lemma_line_index_mono(v, line, line + 1);
        assert(l =~= v.subrange(li, line_index(v, line + 1)));
        assert(l.len() == line_index(v, line + 1) - li);
        let next = shift_line(s, first, line, false);
        if cut > 0 {
            assert forall|k: int| li <= k < li + cut implies #[trigger] v[k] == ' ' by {
                assert(v[k] == l[k - li]);
            }
            if li > 0 {
                assert(breaks_upto(v, li - 1) < line);
                assert(ends_line(v, li));
            }
            if li > 0 && v[li - 1] == '\r' && li + cut < v.len() && v[li + cut] == '\n' {
                assert(line > 0);
                lemma_line_index(v, line - 1);
                lemma_line_index_mono(v, line - 1, line);
                lemma_breaks_mono(v, line_index(v, line - 1), li);
                assert(full_line(v, line - 1) == all_lines(v)[line - 1]);
                assert(all_lines(v)[line - 1] == ls[line - 1]);
                let p = full_line(v, line - 1);
                assert(p == full_line(t, line - 1));
                assert(line_index(v, line - 1) < li);
                assert(p.len() > 0 && p.last() == v[li - 1]);
                assert(keeps_its_start(t, line));
                if l.len() > cut {
                    assert(drawn_out(l)[0] == l[cut]);
                    assert(l[cut] == v[li + cut]);
                } else {
                    assert(line_index(v, line + 1) == li + cut);
                    assert(v[li + cut - 1] == ' ');
                    if line + 1 < line_count(v) {
                        lemma_line_index(v, line + 1);
                        assert(breaks_upto(v, li + cut - 1) < line + 1);
                        assert(ends_line(v, li + cut));
                    } else {
                        assert(line_index(v, line + 1) == v.len());
                    }
                }
            }
            assert(can_take(v, li, cut));
            lemma_cut_in_line(v, line, cut);
            lemma_cut_bytes(v, li, cut);
            let w = without_blanks(v, li, cut);
            assert(next.e.doc.text == w);
            assert(all_lines(w) =~= drawn(ls, line, last));
        } else {
            assert(l.skip(0) =~= l);
            assert(drawn(ls, line, last) =~= m);
        }
        lemma_outdented_lines(next, t, first, line - 1, last);
    }
}

proof fn lemma_cut_bytes(v: Seq<char>, li: int, cut: int)
    requires
        0 <= li,
        1 <= cut <= 2,
        li + cut <= v.len(),
        forall|k: int| li <= k < li + cut ==> #[trigger] v[k] == ' ',
    ensures
        off(v, li) + cut == off(v, li + cut),
        off(v, li + cut) <= blen(v),
        floor_index(v, off(v, li) as int) == li,
        floor_index(v, off(v, li) + cut) == li + cut,
{
    lemma_off_step(v, li);
    assert(v[li] == ' ');
    if cut == 2 {
        lemma_off_step(v, li + 1);
        assert(v[li + 1] == ' ');
    }
    lemma_off_mono(v, li + cut, v.len() as int);
    lemma_off_ends(v);
    lemma_floor_index_off(v, li);
    lemma_floor_index_off(v, li + cut);
}

/// Outdenting takes up to two blanks from the start of each line of the selection, and changes
/// no other line.
pub proof fn selected_lines_are_outdented(e: EditorModel, k: int)
    requires
        0 <= e.cursor <= blen(e.doc.text),
        0 <= e.anchor <= blen(e.doc.text),
        0 <= k < line_count(e.doc.text),
        forall|j: int|
            line_of_byte(e.doc.text, sel_lo(e)) <= j <= line_of_byte(e.doc.text, sel_hi(e))
                ==> #[trigger] keeps_its_start(e.doc.text, j),
    ensures
        ({
            let t = e.doc.text;
            let u = outdented(e).doc.text;
            &&& line_count(u) == line_count(t)
            &&& full_line(u, k) == if line_of_byte(t, sel_lo(e)) <= k <= line_of_byte(t, sel_hi(e)) {
                drawn_out(full_line(t, k))
            } else {
                full_line(t, k)
            }
        }),
{
    let t = e.doc.text;
    let b = begun(e, false);
    lemma_begun_keeps(e, false);
    let (first, last) = (line_of_byte(t, sel_lo(e)), line_of_byte(t, sel_hi(e)));
    lemma_floor_index(t, sel_lo(e));
    lemma_floor_index(t, sel_hi(e));
    lemma_index_in_line(t, floor_index(t, sel_lo(e)));
    lemma_index_in_line(t, floor_index(t, sel_hi(e)));
    crate::text::lemma_floor_mono(t, sel_lo(e), sel_hi(e));
    lemma_breaks_mono(t, floor_index(t, sel_lo(e)), floor_index(t, sel_hi(e)));
    assert(drawn(all_lines(t), last + 1, last) =~= all_lines(t));
    let s = ShiftModel { e: b, first: 0, total: 0 };
    lemma_outdented_lines(s, t, first, last, last);
    let u = shift_lines_from(s, first, last, false).e.doc.text;
    assert(outdented(e).doc.text == u);
    lemma_line_count(u);
    lemma_line_count(t);
    assert(all_lines(u).len() == all_lines(t).len());
    assert(full_line(u, k) == all_lines(u)[k]);
}

// ---------- documents ----------

/// A document breaks its lines by carriage return and line feed if it does so anywhere.
pub proof fn documents_keep_their_breaks(a: Seq<char>, b: Seq<char>)
    ensures
        newline_of(a + seq!['\r', '\n'] + b) == Newline::Crlf,
        !a.contains('\r') ==> newline_of(a) == Newline::Lf,
{
    let t = a + seq!['\r', '\n'] + b;
    let pat = seq!['\r', '\n'];
    let i = a.len() as int;
    assert(t.subrange(i, i + 2) =~= pat);
    crate::query_laws::holding_is_standing_inside(t, pat);
    crate::query_laws::holding_is_standing_inside(a, pat);
    if !a.contains('\r') && newline_of(a) == Newline::Crlf {
        let k = choose|k: int| 0 <= k && k + 2 <= a.len() && #[trigger] a.subrange(k, k + 2) == pat;
        assert(a.subrange(k, k + 2)[0] == a[k]);
        assert(a.contains('\r'));
    }
}

} // verus!
