//! What keys do to a text: the text before and behind the place stays as it is, and what comes
//! between is what the key stands for.
use crate::block::{digit_run, is_digit, lemma_digit_run, list_item, ListMarker};
use crate::block_laws::{
    box_read, indent_of, is_white, lemma_cut_start, numbers_start_items, times,
};
use crate::date::lemma_decimal_digits;
use crate::document::{
    byte_of_line, bytes_between, clamp_to, line_at, line_col, next_boundary, prev_boundary, Newline,
};
use crate::editor::{
    as_heading, back_from, backspaced, begun, broken, char_at_byte, continuation, cut_selection,
    deleted_forward, flushed, in_run, indented, inserted, lemma_next_boundary, lemma_prev_boundary,
    moved_left, moved_line_end, moved_line_start, moved_right, moved_word_left, moved_word_right,
    newline_text, put, sel_hi, sel_lo, selection_replaced, skip_left, skip_right, streamed, taken,
    wrap_toggled, EditorModel, Run,
};
use crate::text::{
    blen, digits_of, floor_index, is_space, lead_spaces, lemma_blen_bounds, lemma_blen_concat,
    lemma_blen_split, lemma_digits, lemma_floor_index_off, lemma_off_ends, lemma_off_mono,
    lemma_run_of_is, lemma_trim_end, off, trim_end,
};
use vstd::prelude::*;

verus! {

// ---------- the place ----------

/// Whether the text is `pre`, then what is selected, and then `post`; nothing is selected
/// where `mid` is empty, and the cursor stands behind `pre`.
pub open spec fn stands(e: EditorModel, pre: Seq<char>, mid: Seq<char>, post: Seq<char>) -> bool {
    &&& e.doc.text == pre + mid + post
    &&& sel_lo(e) == blen(pre)
    &&& sel_hi(e) == blen(pre) + blen(mid)
}

pub proof fn lemma_place(pre: Seq<char>, mid: Seq<char>, post: Seq<char>)
    ensures
        ({
            let t = pre + mid + post;
            let (i, j) = (pre.len() as int, pre.len() + mid.len() as int);
            &&& off(t, i) == blen(pre) && off(t, j) == blen(pre) + blen(mid)
            &&& blen(t) == blen(pre) + blen(mid) + blen(post)
            &&& floor_index(t, blen(pre) as int) == i
            &&& floor_index(t, blen(pre) + blen(mid) as int) == j
            &&& bytes_between(t, blen(pre) as int, blen(pre) + blen(mid) as int) == mid
            &&& t.take(i) == pre && t.skip(j) == post && t.take(j) == pre + mid
        }),
{
    let t = pre + mid + post;
    let (i, j) = (pre.len() as int, pre.len() + mid.len() as int);
    assert(t.take(i) =~= pre);
    assert(t.take(j) =~= pre + mid);
    assert(t.skip(j) =~= post);
    lemma_blen_concat(pre, mid);
    lemma_blen_concat(pre + mid, post);
    lemma_floor_index_off(t, i);
    lemma_floor_index_off(t, j);
    assert(t.subrange(i, j) =~= mid);
}

pub proof fn lemma_put_here(e: EditorModel, pre: Seq<char>, post: Seq<char>, s: Seq<char>)
    requires
        e.doc.text == pre + post,
    ensures
        put(e, blen(pre) as int, s).doc.text == pre + s + post,
        put(e, blen(pre) as int, s).cursor == e.cursor,
        put(e, blen(pre) as int, s).anchor == e.anchor,
{
    let none = Seq::<char>::empty();
    assert(pre + none + post =~= pre + post);
    lemma_place(pre, none, post);
    if s.len() == 0 {
        assert(pre + s + post =~= pre + post);
    }
    assert((pre + post).skip(pre.len() as int) =~= post);
}

pub proof fn lemma_take_here(e: EditorModel, pre: Seq<char>, mid: Seq<char>, post: Seq<char>)
    requires
        e.doc.text == pre + mid + post,
    ensures
        ({
            let f = taken(e, blen(pre) as int, blen(pre) + blen(mid) as int);
            f.doc.text == pre + post && f.cursor == e.cursor && f.anchor == e.anchor
        }),
{
    lemma_place(pre, mid, post);
    lemma_blen_bounds(mid);
    if mid.len() == 0 {
        assert(pre + mid + post =~= pre + post);
    }
}

pub proof fn lemma_begun_keeps(e: EditorModel, merge: bool)
    ensures
        begun(e, merge).doc == e.doc,
        begun(e, merge).cursor == e.cursor,
        begun(e, merge).anchor == e.anchor,
        flushed(e).doc == e.doc,
        flushed(e).cursor == e.cursor,
        flushed(e).anchor == e.anchor,
{
}

proof fn lemma_cut(e: EditorModel, pre: Seq<char>, mid: Seq<char>, post: Seq<char>)
    requires
        stands(e, pre, mid, post),
    ensures
        cut_selection(e).doc.text == pre + post,
        cut_selection(e).cursor == blen(pre),
        cut_selection(e).anchor == blen(pre),
{
    lemma_take_here(e, pre, mid, post);
    lemma_blen_bounds(mid);
    if mid.len() == 0 {
        assert(pre + mid + post =~= pre + post);
    }
}

// ---------- typing ----------

/// What is typed, pasted, streamed in or put in the place of the selection stands where the
/// selection stood, with the cursor behind it and nothing selected; all else stays.
pub proof fn typing_replaces_the_selection(
    e: EditorModel,
    pre: Seq<char>,
    mid: Seq<char>,
    post: Seq<char>,
    s: Seq<char>,
    soon: bool,
)
    requires
        stands(e, pre, mid, post),
    ensures
        s.len() > 0 ==> inserted(e, s, soon).doc.text == pre + s + post,
        s.len() > 0 ==> inserted(e, s, soon).cursor == blen(pre) + blen(s),
        s.len() > 0 ==> inserted(e, s, soon).anchor == blen(pre) + blen(s),
        s.len() == 0 ==> inserted(e, s, soon) == e,
        selection_replaced(e, s).doc.text == pre + s + post,
        selection_replaced(e, s).cursor == blen(pre) + blen(s),
        selection_replaced(e, s).anchor == blen(pre) + blen(s),
        mid.len() == 0 ==> streamed(e, s).doc.text == pre + s + post,
        mid.len() == 0 && s.len() > 0 ==> streamed(e, s).cursor == blen(pre) + blen(s),
{
    let m = crate::editor::merges(e, crate::editor::is_single(s), soon);
    lemma_begun_keeps(e, m);
    lemma_begun_keeps(e, false);
    let a = begun(e, m);
    lemma_cut(a, pre, mid, post);
    lemma_put_here(cut_selection(a), pre, post, s);
    let b = begun(e, false);
    lemma_cut(b, pre, mid, post);
    lemma_put_here(cut_selection(b), pre, post, s);
    if mid.len() == 0 {
        assert(pre + mid + post =~= pre + post);
        lemma_put_here(b, pre, post, s);
        lemma_put_here(e, pre, post, s);
        lemma_blen_bounds(mid);
        if s.len() == 0 {
            assert(pre + s + post =~= pre + post);
        }
    }
}

/// A backspace takes the selection away, or else the character before the cursor; a line break
/// of two characters goes as a whole.
pub proof fn backspace_takes_one_character(
    e: EditorModel,
    pre: Seq<char>,
    mid: Seq<char>,
    post: Seq<char>,
    c: char,
    soon: bool,
)
    ensures
        stands(e, pre, mid, post) && mid.len() > 0 ==> backspaced(e, soon).doc.text == pre + post
            && backspaced(e, soon).cursor == blen(pre),
        stands(e, pre.push(c), Seq::empty(), post) && !(c == '\n' && pre.len() > 0 && pre.last()
            == '\r') ==> backspaced(e, soon).doc.text == pre + post && backspaced(e, soon).cursor
            == blen(pre),
        stands(e, pre.push('\r').push('\n'), Seq::empty(), post) ==> backspaced(e, soon).doc.text
            == pre + post && backspaced(e, soon).cursor == blen(pre),
        stands(e, Seq::empty(), Seq::empty(), post) ==> backspaced(e, soon).doc.text == post
            && backspaced(e, soon).cursor == 0,
{
    let m = crate::editor::merges(e, true, soon);
    let b = begun(e, m);
    let none = Seq::<char>::empty();
    lemma_begun_keeps(e, m);
    lemma_begun_keeps(cut_selection(b), m);
    if stands(e, pre, mid, post) && mid.len() > 0 {
        lemma_blen_bounds(mid);
        lemma_cut(b, pre, mid, post);
    }
    if stands(e, pre.push(c), none, post) && !(c == '\n' && pre.len() > 0 && pre.last() == '\r') {
        lemma_back_one(b, pre, c, post);
    }
    if stands(e, pre.push('\r').push('\n'), none, post) {
        lemma_back_two(b, pre, post);
    }
    if stands(e, none, none, post) {
        assert(none + none + post =~= post);
    }
}

proof fn lemma_char_at(a: Seq<char>, c: char, b: Seq<char>)
    ensures
        ({
            let t = a.push(c) + b;
            let (x, y) = (blen(a) as int, blen(a.push(c)) as int);
            &&& prev_boundary(t, y) == x
            &&& next_boundary(t, x) == y
            &&& bytes_between(t, x, y) == seq![c]
            &&& x < y <= blen(t)
        }),
{
    let t = a.push(c) + b;
    assert(a + seq![c] =~= a.push(c));
    assert(a + seq![c] + b =~= t);
    lemma_place(a, seq![c], b);
    lemma_blen_concat(a, seq![c]);
    lemma_blen_bounds(seq![c]);
}

proof fn lemma_back_one(b: EditorModel, pre: Seq<char>, c: char, post: Seq<char>)
    requires
        stands(b, pre.push(c), Seq::empty(), post),
        !(c == '\n' && pre.len() > 0 && pre.last() == '\r'),
    ensures
        b.cursor == b.anchor,
        b.cursor > 0,
        back_from(b.doc.text, b.cursor) == blen(pre),
        taken(b, blen(pre) as int, b.cursor).doc.text == pre + post,
{
    let none = Seq::<char>::empty();
    let t = pre.push(c) + post;
    assert(pre.push(c) + none + post =~= t);
    lemma_char_at(pre, c, post);
    assert(pre + seq![c] + post =~= t);
    lemma_blen_concat(pre, seq![c]);
    assert(pre + seq![c] =~= pre.push(c));
    lemma_take_here(b, pre, seq![c], post);
    if c == '\n' && pre.len() > 0 {
        let p = pre.drop_last();
        let d = pre.last();
        assert(p.push(d) =~= pre);
        lemma_char_at(p, d, seq![c] + post);
        assert(p.push(d) + (seq![c] + post) =~= t);
        assert(seq![d][0] == d);
        assert(seq!['\r'][0] == '\r');
    }
    if pre.len() == 0 {
        assert(blen(pre) == 0);
        assert(prev_boundary(t, 0) == 0) by {
            lemma_floor_index_off(t, 0);
            lemma_off_ends(t);
        }
    }
    assert(seq![c][0] == c && seq!['\n'][0] == '\n');
}

proof fn lemma_back_two(b: EditorModel, pre: Seq<char>, post: Seq<char>)
    requires
        stands(b, pre.push('\r').push('\n'), Seq::empty(), post),
    ensures
        b.cursor == b.anchor,
        b.cursor > 0,
        back_from(b.doc.text, b.cursor) == blen(pre),
        taken(b, blen(pre) as int, b.cursor).doc.text == pre + post,
{
    let none = Seq::<char>::empty();
    let p = pre.push('\r');
    let t = p.push('\n') + post;
    assert(p.push('\n') + none + post =~= t);
    lemma_char_at(p, '\n', post);
    lemma_char_at(pre, '\r', seq!['\n'] + post);
    assert(pre.push('\r') + (seq!['\n'] + post) =~= t);
    let two = seq!['\r', '\n'];
    assert(pre + two + post =~= t);
    assert(pre + two =~= p.push('\n'));
    lemma_blen_concat(pre, two);
    lemma_take_here(b, pre, two, post);
}

/// A forward delete takes the selection away, or else the character behind the cursor; a line
/// break of two characters goes as a whole.
pub proof fn forward_delete_takes_one_character(
    e: EditorModel,
    pre: Seq<char>,
    mid: Seq<char>,
    post: Seq<char>,
    c: char,
    soon: bool,
)
    ensures
        stands(e, pre, mid, post) && mid.len() > 0 ==> deleted_forward(e, soon).doc.text == pre
            + post && deleted_forward(e, soon).cursor == blen(pre),
        stands(e, pre, Seq::empty(), seq![c] + post) && !(c == '\r' && post.len() > 0 && post[0]
            == '\n') ==> deleted_forward(e, soon).doc.text == pre + post && deleted_forward(
            e,
            soon,
        ).cursor == blen(pre),
        stands(e, pre, Seq::empty(), seq!['\r', '\n'] + post) ==> deleted_forward(e, soon).doc.text
            == pre + post && deleted_forward(e, soon).cursor == blen(pre),
        stands(e, pre, Seq::empty(), Seq::empty()) ==> deleted_forward(e, soon).doc.text == pre,
{
    let m = crate::editor::merges(e, true, soon);
    let b = begun(e, m);
    let none = Seq::<char>::empty();
    lemma_begun_keeps(e, m);
    lemma_begun_keeps(cut_selection(b), m);
    if stands(e, pre, mid, post) && mid.len() > 0 {
        lemma_blen_bounds(mid);
        lemma_cut(b, pre, mid, post);
    }
    if stands(e, pre, none, seq![c] + post) && !(c == '\r' && post.len() > 0 && post[0] == '\n') {
        let t = pre.push(c) + post;
        assert(pre + none + (seq![c] + post) =~= t);
        assert(pre + seq![c] + post =~= t);
        lemma_char_at(pre, c, post);
        assert(pre + seq![c] =~= pre.push(c));
        lemma_blen_concat(pre, seq![c]);
        lemma_take_here(b, pre, seq![c], post);
        if c == '\r' && post.len() > 0 {
            let d = post[0];
            let rest = post.drop_first();
            lemma_char_at(pre.push(c), d, rest);
            assert(pre.push(c).push(d) + rest =~= t);
            assert(seq![d][0] == d && seq!['\n'][0] == '\n');
        } else if c == '\r' {
            lemma_place(pre.push(c), none, none);
            assert(pre.push(c) + none + none =~= t);
            assert(next_boundary(t, blen(pre.push(c)) as int) == blen(t));
            assert(bytes_between(t, blen(t) as int, blen(t) as int) =~= none);
            assert(none.len() != seq!['\n'].len());
        }
        assert(seq![c][0] == c && seq!['\r'][0] == '\r');
    }
    if stands(e, pre, none, seq!['\r', '\n'] + post) {
        let p = pre.push('\r');
        let t = p.push('\n') + post;
        assert(pre + none + (seq!['\r', '\n'] + post) =~= t);
        lemma_char_at(pre, '\r', seq!['\n'] + post);
        assert(pre.push('\r') + (seq!['\n'] + post) =~= t);
        lemma_char_at(p, '\n', post);
        let two = seq!['\r', '\n'];
        assert(pre + two + post =~= t);
        assert(pre + two =~= p.push('\n'));
        lemma_blen_concat(pre, two);
        lemma_take_here(b, pre, two, post);
    }
    if stands(e, pre, none, none) {
        assert(pre + none + none =~= pre);
    }
}

/// Without a selection, wrapping puts the marker twice, with the cursor between; and indenting
/// puts two blanks.
pub proof fn markers_and_blanks_are_put_in(
    e: EditorModel,
    pre: Seq<char>,
    post: Seq<char>,
    m: Seq<char>,
)
    requires
        stands(e, pre, Seq::empty(), post),
    ensures
        wrap_toggled(e, m).doc.text == pre + m + m + post,
        wrap_toggled(e, m).cursor == blen(pre) + blen(m),
        wrap_toggled(e, m).anchor == blen(pre) + blen(m),
        indented(e).doc.text == pre + seq![' ', ' '] + post,
        indented(e).cursor == blen(pre) + 2,
{
    let none = Seq::<char>::empty();
    let b = begun(e, false);
    lemma_begun_keeps(e, false);
    assert(pre + none + post =~= pre + post);
    lemma_put_here(b, pre, post, m + m);
    assert(pre + (m + m) + post =~= pre + m + m + post);
    lemma_put_here(b, pre, post, seq![' ', ' ']);
    assert(blen(seq![' ', ' ']) == 2) by {
        assert(seq![' ', ' '] =~= seq![' '] + seq![' ']);
        lemma_blen_concat(seq![' '], seq![' ']);
        assert(seq![' '].drop_first() =~= none);
        assert(blen(none) == 0);
        assert(blen(seq![' ']) == 1);
    }
}

/// A selection is put between markers, or freed from them if it stands between them; it stays
/// selected.
pub proof fn selections_are_wrapped_and_freed(
    e: EditorModel,
    pre: Seq<char>,
    mid: Seq<char>,
    post: Seq<char>,
    m: Seq<char>,
    body: Seq<char>,
)
    requires
        stands(e, pre, mid, post),
        mid.len() > 0,
        m.len() > 0,
    ensures
        mid == m + body + m ==> {
            &&& wrap_toggled(e, m).doc.text == pre + body + post
            &&& sel_lo(wrap_toggled(e, m)) == blen(pre)
            &&& sel_hi(wrap_toggled(e, m)) == blen(pre) + blen(body)
        },
        !m.is_prefix_of(mid) || !m.is_suffix_of(mid) || blen(mid) < 2 * blen(m) ==> {
            &&& wrap_toggled(e, m).doc.text == pre + (m + mid + m) + post
            &&& sel_lo(wrap_toggled(e, m)) == blen(pre)
            &&& sel_hi(wrap_toggled(e, m)) == blen(pre) + blen(m + mid + m)
        },
{
    if mid == m + body + m {
        lemma_freed(m, body);
    }
    lemma_wrapped(e, pre, mid, post, m, rewrapped(mid, m));
}

/// What a selection becomes: freed from the markers, or put between them.
spec fn rewrapped(mid: Seq<char>, m: Seq<char>) -> Seq<char> {
    if blen(mid) >= 2 * blen(m) && m.is_prefix_of(mid) && m.is_suffix_of(mid) {
        mid.subrange(m.len() as int, mid.len() - m.len())
    } else {
        m + mid + m
    }
}

proof fn lemma_freed(m: Seq<char>, body: Seq<char>)
    ensures
        rewrapped(m + body + m, m) == body,
        m.is_prefix_of(m + body + m) && m.is_suffix_of(m + body + m),
        blen(m + body + m) >= 2 * blen(m),
{
    let mid = m + body + m;
    lemma_blen_concat(m, body);
    lemma_blen_concat(m + body, m);
    assert(mid.take(m.len() as int) =~= m);
    assert(mid.skip(mid.len() - m.len()) =~= m);
    assert(mid.subrange(m.len() as int, mid.len() - m.len()) =~= body);
}

proof fn lemma_wrapped(
    e: EditorModel,
    pre: Seq<char>,
    mid: Seq<char>,
    post: Seq<char>,
    m: Seq<char>,
    new: Seq<char>,
)
    requires
        stands(e, pre, mid, post),
        mid.len() > 0,
        new == rewrapped(mid, m),
    ensures
        wrap_toggled(e, m).doc.text == pre + new + post,
        sel_lo(wrap_toggled(e, m)) == blen(pre),
        sel_hi(wrap_toggled(e, m)) == blen(pre) + blen(new),
{
    let b = begun(e, false);
    lemma_begun_keeps(e, false);
    lemma_place(pre, mid, post);
    lemma_blen_bounds(mid);
    lemma_take_here(b, pre, mid, post);
    let c = taken(b, blen(pre) as int, blen(pre) + blen(mid) as int);
    lemma_put_here(c, pre, post, new);
}

/// A heading of a level has as many marks, a blank, and the text behind the marks that there
/// were; at level zero there are none.
pub proof fn headings_get_as_many_marks(n: nat, gap: Seq<char>, body: Seq<char>, level: u8)
    requires
        is_white(gap),
        gap.len() > 0 || body.len() == 0 || body[0] != '#',
        body.len() == 0 || !is_space(body[0]),
    ensures
        as_heading(times('#', n) + gap + body, level) == if level == 0 {
            body
        } else {
            times('#', level as nat) + seq![' '] + body
        },
{
    let t = times('#', n) + (gap + body);
    assert(times('#', n) + gap + body =~= t);
    let m = n as int;
    if t.len() > m {
        assert(t[m] == (gap + body)[0]);
        if gap.len() > 0 {
            assert(is_space(gap[0]));
        }
    }
    assert forall|k: int| 0 <= k < m implies #[trigger] t[k] == '#' by {}
    lemma_run_of_is(t, '#', m);
    assert(t.skip(m) =~= gap + body);
    lemma_cut_start(gap, body);
    assert(Seq::new(level as nat, |k: int| '#').push(' ') =~= times('#', level as nat) + seq![' ']);
}

// ---------- line breaks ----------

/// A line break is that of the document.
pub proof fn breaks_are_those_of_the_document()
    ensures
        newline_text(Newline::Lf) == seq!['\n'],
        newline_text(Newline::Crlf) == seq!['\r', '\n'],
{
}

/// A line break goes in where the cursor stands, with what goes on the line behind it; only
/// where a line has nothing behind its mark and the cursor stands at its end, the line is
/// emptied instead.
pub proof fn line_breaks_go_in_at_the_cursor(e: EditorModel, pre: Seq<char>, post: Seq<char>)
    requires
        stands(e, pre, Seq::empty(), post),
    ensures
        ({
            let t = e.doc.text;
            let nl = newline_text(e.doc.newline);
            let (line, col) = line_col(t, e.cursor);
            let l = line_at(t, line);
            match continuation(l) {
                None => broken(e).doc.text == pre + nl + post && broken(e).cursor == blen(pre + nl),
                Some((next, mark)) => col < blen(trim_end(l)) || mark < blen(trim_end(l)) ==> {
                    &&& broken(e).doc.text == pre + (nl + next) + post
                    &&& broken(e).cursor == blen(pre) + blen(nl + next)
                },
            }
        }),
{
    let none = Seq::<char>::empty();
    let b = begun(e, false);
    lemma_begun_keeps(e, false);
    lemma_cut(b, pre, none, post);
    let c = cut_selection(b);
    let nl = newline_text(c.doc.newline);
    lemma_put_here(c, pre, post, nl);
    lemma_blen_concat(pre, nl);
    let l = line_at(c.doc.text, line_col(c.doc.text, c.cursor).0);
    assert(pre + none + post =~= pre + post);
    assert(c.doc.newline == e.doc.newline);
    match continuation(l) {
        Some((next, _)) => {
            lemma_put_here(c, pre, post, nl + next);
        },
        None => {},
    }
}

pub proof fn lemma_ascii_blen(s: Seq<char>)
    requires
        forall|k: int| 0 <= k < s.len() ==> (#[trigger] s[k]) as u32 <= 127,
    ensures
        blen(s) == s.len(),
    decreases s.len(),
{
    if s.len() > 0 {
        let r = s.drop_first();
        assert forall|k: int| 0 <= k < r.len() implies (#[trigger] r[k]) as u32 <= 127 by {
            assert(r[k] == s[k + 1]);
        }
        lemma_ascii_blen(r);
        assert(s[0] as u32 <= 127);
    }
}

/// How long a line is without the white space at its end: longer than what stands before a
/// text in it that is not blank, and no longer than that before white space.
pub proof fn lemma_trimmed_len(head: Seq<char>, body: Seq<char>)
    ensures
        !is_white(body) ==> blen(trim_end(head + body)) > blen(head),
        is_white(body) ==> blen(trim_end(head + body)) <= blen(head),
{
    let s = head + body;
    lemma_trim_end(s);
    let n = trim_end(s).len() as int;
    assert(trim_end(s) =~= s.take(n));
    if is_white(body) {
        if n > head.len() {
            assert(s[n - 1] == body[n - 1 - head.len()]);
            assert(is_space(body[n - 1 - head.len()]));
        }
        assert(s.take(n) =~= head.take(n));
        lemma_blen_split(head, n);
    } else {
        let k = choose|k: int| 0 <= k < body.len() && !is_space(body[k]);
        if n <= head.len() + k {
            assert(is_space(s[head.len() + k]));
        }
        assert(s.take(n) =~= head + body.take(n - head.len()));
        lemma_blen_concat(head, body.take(n - head.len()));
        lemma_blen_bounds(body.take(n - head.len()));
    }
}

/// Whether the line of the cursor is this one.
pub open spec fn on_line(e: EditorModel, l: Seq<char>) -> bool {
    line_at(e.doc.text, line_col(e.doc.text, e.cursor).0) == l
}

/// Behind a numbered item with text a line break starts the next one: with the same
/// indentation, the number one greater, and the same separator. It is read as that item.
pub proof fn numbered_items_go_on(
    e: EditorModel,
    pre: Seq<char>,
    post: Seq<char>,
    ind: Seq<char>,
    n: nat,
    sep: char,
    body: Seq<char>,
    more: Seq<char>,
)
    requires
        stands(e, pre, Seq::empty(), post),
        is_white(ind),
        n < 999_999_999,
        sep == '.' || sep == ')',
        !is_white(body),
        on_line(e, ind + digits_of(n) + seq![sep, ' '] + body),
    ensures
        ({
            let next = ind + digits_of(n + 1) + seq![sep, ' '];
            &&& broken(e).doc.text == pre + (newline_text(e.doc.newline) + next) + post
            &&& broken(e).cursor == blen(pre) + blen(newline_text(e.doc.newline) + next)
            &&& list_item(next + more) matches Some(it) && it.marker == ListMarker::Ordered(
                (n + 1) as u64,
            ) && it.indent == indent_of(ind)
        }),
{
    let l = ind + digits_of(n) + seq![sep, ' '] + body;
    lemma_number_goes_on(ind, n, sep, body);
    line_breaks_go_in_at_the_cursor(e, pre, post);
    let head = ind + digits_of(n) + seq![sep, ' '];
    lemma_trimmed_len(head, body);
    let m = digits_of(n) + seq![sep, ' '];
    assert(head =~= ind + m);
    lemma_blen_concat(ind, m);
    lemma_digits(n);
    assert forall|k: int| 0 <= k < m.len() implies (#[trigger] m[k]) as u32 <= 127 by {
        if k < digits_of(n).len() {
            assert('0' <= digits_of(n)[k] <= '9');
        }
    }
    lemma_ascii_blen(m);
    numbers_start_items(ind, n + 1, sep, more);
}

pub proof fn lemma_number_goes_on(ind: Seq<char>, n: nat, sep: char, body: Seq<char>)
    requires
        is_white(ind),
        n < 999_999_999,
        sep == '.' || sep == ')',
    ensures
        continuation(ind + digits_of(n) + seq![sep, ' '] + body) == Some(
            (
                ind + digits_of(n + 1) + seq![sep, ' '],
                blen(ind) + digits_of(n).len() + 2 as int,
            ),
        ),
{
    reveal_strlit("- ");
    reveal_strlit("* ");
    reveal_strlit("+ ");
    reveal_strlit(". ");
    reveal_strlit(") ");
    let ds = digits_of(n);
    let d = ds.len() as int;
    numbers_start_items(ind, n, sep, body);
    crate::block_laws::lemma_digits_len(n);
    let t = ds + (seq![sep, ' '] + body);
    let s = ind + ds + seq![sep, ' '] + body;
    assert(s =~= ind + t);
    assert(t[0] == ds[0]);
    lemma_cut_start(ind, t);
    assert(s.take(ind.len() as int) =~= ind);
    assert(t[d] == sep && t[d + 1] == ' ');
    lemma_digit_run(t);
    let e = digit_run(t);
    if e < d {
        assert(is_digit(ds[e]));
    } else if e > d {
        assert(is_digit(t[d]));
    }
    assert(t.take(2)[0] == t[0]);
    assert(t.take(d) =~= ds);
    assert(t.skip(d) =~= seq![sep, ' '] + body);
    assert(t.skip(d).take(2) =~= seq![sep, ' ']);
    assert(". "@ =~= seq!['.', ' ']);
    assert(") "@ =~= seq![')', ' ']);
    lemma_decimal_digits(n);
}

/// Behind an item with text a line break starts another one with the same mark, and behind a
/// task one that is not ticked.
pub proof fn items_go_on(
    e: EditorModel,
    pre: Seq<char>,
    post: Seq<char>,
    ind: Seq<char>,
    c: char,
    body: Seq<char>,
)
    requires
        stands(e, pre, Seq::empty(), post),
        is_white(ind),
        c == '-' || c == '*' || c == '+',
        on_line(e, ind + seq![c, ' '] + body),
    ensures
        ({
            let nl = newline_text(e.doc.newline);
            let plain = ind + seq![c, ' '];
            let task = ind + seq![c, ' ', '[', ' ', ']', ' '];
            &&& box_read(body) is None && !is_white(body) ==> broken(e).doc.text == pre + (nl + plain)
                + post
            &&& box_read(body) is Some && !is_white(body.skip(4)) ==> broken(e).doc.text == pre + (nl
                + task) + post
        }),
{
    let l = ind + seq![c, ' '] + body;
    line_breaks_go_in_at_the_cursor(e, pre, post);
    lemma_item_goes_on(ind, c, body);
    let m = seq![c, ' '];
    lemma_ascii_blen(m);
    lemma_blen_concat(ind, m);
    lemma_trimmed_len(ind + m, body);
    if box_read(body) is Some {
        lemma_task_len(ind, c, body);
    }
}

proof fn lemma_item_goes_on(ind: Seq<char>, c: char, body: Seq<char>)
    requires
        is_white(ind),
        c == '-' || c == '*' || c == '+',
    ensures
        continuation(ind + seq![c, ' '] + body) == Some(
            if box_read(body) is Some {
                (ind + seq![c, ' ', '[', ' ', ']', ' '], blen(ind) + 6 as int)
            } else {
                (ind + seq![c, ' '], blen(ind) + 2 as int)
            },
        ),
{
    reveal_strlit("- ");
    reveal_strlit("* ");
    reveal_strlit("+ ");
    let l = ind + seq![c, ' '] + body;
    let t = seq![c, ' '] + body;
    assert(l =~= ind + t);
    assert(t[0] == c);
    lemma_cut_start(ind, t);
    assert(l.take(ind.len() as int) =~= ind);
    assert(t.take(2) =~= seq![c, ' ']);
    assert("- "@ =~= seq!['-', ' ']);
    assert("* "@ =~= seq!['*', ' ']);
    assert("+ "@ =~= seq!['+', ' ']);
    assert(t.skip(2) =~= body);
    crate::block_laws::lemma_box(body);
    assert(ind + t.take(2) + seq!['[', ' ', ']', ' '] =~= ind + seq![c, ' ', '[', ' ', ']', ' ']);
}

proof fn lemma_task_len(ind: Seq<char>, c: char, body: Seq<char>)
    requires
        c == '-' || c == '*' || c == '+',
        box_read(body) is Some,
    ensures
        !is_white(body.skip(4)) ==> blen(trim_end(ind + seq![c, ' '] + body)) > blen(ind) + 6,
{
    let m = seq![c, ' '];
    let m2 = m + body.take(4);
    assert forall|k: int| 0 <= k < m2.len() implies (#[trigger] m2[k]) as u32 <= 127 by {
        if k >= 2 {
            assert(m2[k] == body[k - 2]);
        }
    }
    lemma_ascii_blen(m2);
    lemma_blen_concat(ind, m2);
    lemma_trimmed_len(ind + m2, body.skip(4));
    assert(ind + m2 + body.skip(4) =~= ind + m + body);
}

/// Behind a quoted line with text a line break starts another one.
pub proof fn quotes_go_on(
    e: EditorModel,
    pre: Seq<char>,
    post: Seq<char>,
    ind: Seq<char>,
    body: Seq<char>,
)
    requires
        stands(e, pre, Seq::empty(), post),
        is_white(ind),
        !is_white(body),
        on_line(e, ind + seq!['>', ' '] + body) || (body[0] != '>' && body[0] != ' ' && on_line(
            e,
            ind + seq!['>'] + body,
        )),
    ensures
        broken(e).doc.text == pre + (newline_text(e.doc.newline) + (ind + seq!['>', ' '])) + post,
{
    line_breaks_go_in_at_the_cursor(e, pre, post);
    let m = if on_line(e, ind + seq!['>', ' '] + body) {
        seq!['>', ' ']
    } else {
        seq!['>']
    };
    let l = ind + m + body;
    let t = m + body;
    assert(l =~= ind + t);
    assert(t[0] == '>');
    lemma_cut_start(ind, t);
    assert(l.take(ind.len() as int) =~= ind);
    lemma_ascii_blen(m);
    lemma_blen_concat(ind, m);
    lemma_trimmed_len(ind + m, body);
    assert(t[m.len() as int] == body[0]);
}

/// Behind any other line a line break is a line break.
pub proof fn other_lines_do_not_go_on(
    e: EditorModel,
    pre: Seq<char>,
    post: Seq<char>,
    ind: Seq<char>,
    t: Seq<char>,
)
    requires
        stands(e, pre, Seq::empty(), post),
        is_white(ind),
        t.len() == 0 || (!is_space(t[0]) && t[0] != '>' && !is_digit(t[0]) && !(t.len() >= 2 && (
        t[0] == '-' || t[0] == '*' || t[0] == '+') && t[1] == ' ')),
        on_line(e, ind + t),
    ensures
        broken(e).doc.text == pre + newline_text(e.doc.newline) + post,
{
    reveal_strlit("- ");
    reveal_strlit("* ");
    reveal_strlit("+ ");
    line_breaks_go_in_at_the_cursor(e, pre, post);
    lemma_cut_start(ind, t);
    if t.len() >= 2 {
        assert(t.take(2)[0] == t[0] && t.take(2)[1] == t[1]);
    }
    lemma_digit_run(t);
}

// ---------- moving ----------

/// An arrow moves over one character, or to the end of the selection on its side; with the
/// selection held, its other end stays.
pub proof fn arrows_move_over_one_character(
    e: EditorModel,
    pre: Seq<char>,
    c: char,
    post: Seq<char>,
    extend: bool,
)
    requires
        e.doc.text == pre.push(c) + post,
        extend || e.cursor == e.anchor,
    ensures
        e.cursor == blen(pre) ==> moved_right(e, extend).cursor == blen(pre.push(c)),
        e.cursor == blen(pre.push(c)) ==> moved_left(e, extend).cursor == blen(pre),
        extend ==> moved_right(e, extend).anchor == e.anchor && moved_left(e, extend).anchor
            == e.anchor,
        !extend ==> moved_right(e, extend).anchor == moved_right(e, extend).cursor && moved_left(
            e,
            extend,
        ).anchor == moved_left(e, extend).cursor,
        moved_right(e, extend).doc == e.doc && moved_left(e, extend).doc == e.doc,
{
    lemma_char_at(pre, c, post);
}

/// Without holding it, an arrow leads out of a selection.
pub proof fn arrows_lead_out_of_a_selection(e: EditorModel)
    requires
        e.cursor != e.anchor,
        0 <= e.cursor <= blen(e.doc.text),
        0 <= e.anchor <= blen(e.doc.text),
    ensures
        moved_left(e, false).cursor <= e.cursor && moved_left(e, false).cursor <= e.anchor,
        moved_left(e, false).cursor == e.cursor || moved_left(e, false).cursor == e.anchor,
        moved_right(e, false).cursor >= e.cursor && moved_right(e, false).cursor >= e.anchor,
        moved_right(e, false).cursor == e.cursor || moved_right(e, false).cursor == e.anchor,
        moved_left(e, false).anchor == moved_left(e, false).cursor,
        moved_right(e, false).anchor == moved_right(e, false).cursor,
{
}

proof fn lemma_skip_right(t: Seq<char>, i: int, j: int, run: Run)
    requires
        0 <= i <= j <= t.len(),
        forall|k: int| i <= k < j ==> in_run(#[trigger] t[k], run),
        j < t.len() ==> !in_run(t[j], run),
    ensures
        skip_right(t, off(t, i) as int, run) == off(t, j),
    decreases j - i,
{
    lemma_off_ends(t);
    if i < t.len() {
        lemma_off_mono(t, i, t.len() as int);
        lemma_floor_index_off(t, i);
        lemma_next_boundary(t, off(t, i) as int);
        assert(char_at_byte(t, off(t, i) as int) == Some(t[i]));
        crate::document::boundaries_step_over_one_character(t, i);
        if i < j {
            assert(in_run(t[i], run));
            lemma_skip_right(t, i + 1, j, run);
        }
    }
}

proof fn lemma_skip_left(t: Seq<char>, i: int, j: int, run: Run)
    requires
        0 <= i <= j <= t.len(),
        forall|k: int| i <= k < j ==> in_run(#[trigger] t[k], run),
        i > 0 ==> !in_run(t[i - 1], run),
    ensures
        skip_left(t, off(t, j) as int, run) == off(t, i),
    decreases j - i,
{
    lemma_off_ends(t);
    if j > 0 {
        lemma_off_mono(t, 0, j);
        lemma_off_mono(t, j - 1, t.len() as int);
        lemma_floor_index_off(t, j - 1);
        lemma_prev_boundary(t, off(t, j) as int);
        crate::document::boundaries_step_over_one_character(t, j - 1);
        assert(char_at_byte(t, off(t, j - 1) as int) == Some(t[j - 1]));
        if i < j {
            assert(in_run(t[j - 1], run));
            lemma_skip_left(t, i, j - 1, run);
        }
    }
}

/// Whether a text is a word: of Chinese characters, or of letters, digits and `_`.
pub open spec fn is_word_of(s: Seq<char>, han: bool) -> bool {
    s.len() > 0 && forall|k: int| 0 <= k < s.len() ==> in_word_of(#[trigger] s[k], han)
}

pub open spec fn in_word_of(c: char, han: bool) -> bool {
    if han {
        '\u{4e00}' <= c && c <= '\u{9fff}'
    } else {
        !('\u{4e00}' <= c && c <= '\u{9fff}') && (c == '_' || crate::editor::is_alphanumeric(c))
    }
}

/// Moving by a word leads over white space and then over a whole word, to its end or to its
/// start.
pub proof fn words_are_moved_over(
    e: EditorModel,
    pre: Seq<char>,
    gap: Seq<char>,
    word: Seq<char>,
    gap2: Seq<char>,
    post: Seq<char>,
    han: bool,
    extend: bool,
)
    requires
        e.doc.text == pre + gap + word + gap2 + post,
        is_white(gap) && is_white(gap2),
        is_word_of(word, han),
        !is_space(word[0]) && !is_space(word.last()),
        (gap2 + post).len() > 0 ==> !in_word_of((gap2 + post)[0], han),
        (pre + gap).len() > 0 ==> !in_word_of((pre + gap).last(), han),
    ensures
        e.cursor == blen(pre) ==> moved_word_right(e, extend).cursor == blen(pre + gap + word),
        e.cursor == blen(pre + gap + word + gap2) ==> moved_word_left(e, extend).cursor == blen(
            pre + gap,
        ),
{
    let t = e.doc.text;
    let run = if han {
        Run::Han
    } else {
        Run::Letters
    };
    let (a, b, c, d) = (
        pre.len() as int,
        (pre + gap).len() as int,
        (pre + gap + word).len() as int,
        (pre + gap + word + gap2).len() as int,
    );
    assert(t.take(a) =~= pre);
    assert(t.take(b) =~= pre + gap);
    assert(t.take(c) =~= pre + gap + word);
    assert(t.take(d) =~= pre + gap + word + gap2);
    assert forall|k: int| a <= k < b implies in_run(#[trigger] t[k], Run::Space) by {
        assert(t[k] == gap[k - a]);
    }
    assert forall|k: int| c <= k < d implies in_run(#[trigger] t[k], Run::Space) by {
        assert(t[k] == gap2[k - c]);
    }
    assert forall|k: int| b <= k < c implies in_run(#[trigger] t[k], run) by {
        assert(t[k] == word[k - b]);
        assert(in_word_of(word[k - b], han));
    }
    assert(t[b] == word[0] && t[c - 1] == word.last());
    assert(in_word_of(word[0], han));
    assert(in_word_of(word[word.len() - 1], han));
    lemma_skip_right(t, a, b, Run::Space);
    lemma_skip_left(t, c, d, Run::Space);
    if c < t.len() {
        assert(t[c] == (gap2 + post)[0]);
    }
    if b > 0 {
        assert(t[b - 1] == (pre + gap).last());
    }
    lemma_skip_right(t, b, c, run);
    lemma_skip_left(t, b, c, run);
    lemma_floor_index_off(t, b);
    lemma_off_ends(t);
    lemma_off_mono(t, b, t.len() as int);
    lemma_off_mono(t, c, t.len() as int);
    assert(char_at_byte(t, off(t, b) as int) == Some(t[b]));
    crate::document::boundaries_step_over_one_character(t, c - 1);
    lemma_floor_index_off(t, c - 1);
    lemma_off_mono(t, c - 1, t.len() as int);
    assert(char_at_byte(t, off(t, c - 1) as int) == Some(t[c - 1]));
}

/// The start of a line is where its text starts, and from there where the line starts; its end
/// is where its text ends.
pub proof fn lines_have_two_starts(e: EditorModel, extend: bool)
    requires
        0 <= e.cursor <= blen(e.doc.text),
    ensures
        ({
            let t = e.doc.text;
            let line = line_col(t, e.cursor).0;
            let l = line_at(t, line);
            let start = byte_of_line(t, line);
            let text_start = clamp_to(start + off(l, lead_spaces(l)), blen(t) as int);
            let f = moved_line_start(e, extend);
            &&& e.cursor != start + off(l, lead_spaces(l)) ==> f.cursor == text_start
            &&& e.cursor == start + off(l, lead_spaces(l)) ==> f.cursor == clamp_to(
                start,
                blen(t) as int,
            )
            &&& moved_line_end(e, extend).cursor == clamp_to(start + blen(l), blen(t) as int)
            &&& f.doc == e.doc
        }),
{
}

} // verus!
