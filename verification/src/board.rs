//! Boards: cards and lines between them, kept in a note as a code block of JSON.
//!
//! The JSON itself is left to the caller: here stand the cards and lines, and the
//! framing of the JSON text in the note.
use crate::text::{
    chars_of, extend, extend_str, find_char, index_of, lemma_index_of, lemma_index_of_is,
    same_chars, slices, starts_with, string_of, trim, trim_chars,
};
use vstd::prelude::*;
use vstd::slice::slice_subrange;

verus! {

/// The language of the code block.
pub const FENCE: &'static str = "board";

// ---------- the framing ----------

/// The lines of a text, each with its break.
pub open spec fn whole_lines(s: Seq<char>) -> Seq<Seq<char>>
    decreases s.len(),
{
    let k = index_of(s, '\n');
    if s.len() == 0 {
        Seq::empty()
    } else if 0 <= k < s.len() {
        seq![s.take(k + 1)] + whole_lines(s.skip(k + 1))
    } else {
        seq![s]
    }
}

/// Lines put together again.
pub open spec fn together(ls: Seq<Seq<char>>) -> Seq<char>
    decreases ls.len(),
{
    if ls.len() == 0 {
        Seq::empty()
    } else {
        together(ls.drop_last()) + ls.last()
    }
}

/// Whether a line opens a board.
pub open spec fn opens_board(l: Seq<char>) -> bool {
    "```"@.is_prefix_of(trim(l)) && trim(trim(l).skip(3)) == FENCE@
}

/// Whether a line closes a board: three backticks or more, and nothing else.
pub open spec fn closes_board(l: Seq<char>) -> bool {
    trim(l).len() >= 3 && forall|k: int| 0 <= k < trim(l).len() ==> #[trigger] trim(l)[k] == '`'
}

/// The first line from `k` on that opens a board; the number of lines if none does.
pub open spec fn opening(ls: Seq<Seq<char>>, k: int) -> int
    decreases ls.len() - k,
{
    if 0 <= k < ls.len() && !opens_board(ls[k]) {
        opening(ls, k + 1)
    } else {
        k
    }
}

/// The first line from `k` on that closes a board; the number of lines if none does.
pub open spec fn closing(ls: Seq<Seq<char>>, k: int) -> int
    decreases ls.len() - k,
{
    if 0 <= k < ls.len() && !closes_board(ls[k]) {
        closing(ls, k + 1)
    } else {
        k
    }
}

/// The lines before the board, the lines inside it, and the lines behind it.
pub open spec fn board_parts(md: Seq<char>) -> Option<(Seq<char>, Seq<char>, Seq<char>)> {
    let ls = whole_lines(md);
    let o = opening(ls, 0);
    let c = closing(ls, o + 1);
    if o >= ls.len() {
        None
    } else if c >= ls.len() {
        Some((together(ls.take(o)), together(ls.skip(o + 1)), Seq::empty()))
    } else {
        Some(
            (
                together(ls.take(o)),
                together(ls.subrange(o + 1, c)),
                together(ls.skip(c + 1)),
            ),
        )
    }
}

/// The code block that holds a board's JSON.
pub open spec fn board_block(json: Seq<char>) -> Seq<char> {
    "```"@ + FENCE@ + seq!['\n'] + json + seq!['\n'] + "```"@ + seq!['\n']
}

/// A note with a board put in: in the place of the board that it holds, or at its end
/// behind a blank line.
pub open spec fn spliced(md: Seq<char>, json: Seq<char>) -> Seq<char> {
    match board_parts(md) {
        Some((before, _, behind)) => before + board_block(json) + behind,
        None => if md.len() == 0 {
            board_block(json)
        } else if md.last() == '\n' {
            md.push('\n') + board_block(json)
        } else {
            md.push('\n').push('\n') + board_block(json)
        },
    }
}

proof fn lemma_opening(ls: Seq<Seq<char>>, k: int)
    requires
        0 <= k <= ls.len(),
    ensures
        k <= opening(ls, k) <= ls.len(),
        forall|j: int| k <= j < opening(ls, k) ==> !opens_board(#[trigger] ls[j]),
        opening(ls, k) < ls.len() ==> opens_board(ls[opening(ls, k)]),
    decreases ls.len() - k,
{
    if k < ls.len() && !opens_board(ls[k]) {
        lemma_opening(ls, k + 1);
    }
}

pub proof fn lemma_opening_is(ls: Seq<Seq<char>>, k: int, n: int)
    requires
        0 <= k <= n <= ls.len(),
        forall|j: int| k <= j < n ==> !opens_board(#[trigger] ls[j]),
        n < ls.len() ==> opens_board(ls[n]),
    ensures
        opening(ls, k) == n,
    decreases n - k,
{
    if k < n {
        assert(!opens_board(ls[k]));
        lemma_opening_is(ls, k + 1, n);
    }
}

proof fn lemma_closing(ls: Seq<Seq<char>>, k: int)
    requires
        0 <= k <= ls.len(),
    ensures
        k <= closing(ls, k) <= ls.len(),
        forall|j: int| k <= j < closing(ls, k) ==> !closes_board(#[trigger] ls[j]),
        closing(ls, k) < ls.len() ==> closes_board(ls[closing(ls, k)]),
    decreases ls.len() - k,
{
    if k < ls.len() && !closes_board(ls[k]) {
        lemma_closing(ls, k + 1);
    }
}

pub proof fn lemma_closing_is(ls: Seq<Seq<char>>, k: int, n: int)
    requires
        0 <= k <= n <= ls.len(),
        forall|j: int| k <= j < n ==> !closes_board(#[trigger] ls[j]),
        n < ls.len() ==> closes_board(ls[n]),
    ensures
        closing(ls, k) == n,
    decreases n - k,
{
    if k < n {
        assert(!closes_board(ls[k]));
        lemma_closing_is(ls, k + 1, n);
    }
}

pub proof fn lemma_together_concat(a: Seq<Seq<char>>, b: Seq<Seq<char>>)
    ensures
        together(a + b) == together(a) + together(b),
    decreases b.len(),
{
    if b.len() == 0 {
        assert(a + b =~= a);
        assert(together(a) + together(b) =~= together(a));
    } else {
        lemma_together_concat(a, b.drop_last());
        assert((a + b).drop_last() =~= a + b.drop_last());
        assert((a + b).last() == b.last());
        assert(together(a + b) =~= together(a) + together(b));
    }
}

proof fn lemma_together_one(l: Seq<char>)
    ensures
        together(seq![l]) == l,
{
    assert(seq![l].drop_last() =~= Seq::<Seq<char>>::empty());
    assert(together(Seq::<Seq<char>>::empty()) == Seq::<char>::empty());
    assert(together(seq![l]) =~= l);
}

/// A text is made of its lines.
pub proof fn lines_make_the_text(s: Seq<char>)
    ensures
        together(whole_lines(s)) == s,
    decreases s.len(),
{
    lemma_index_of(s, '\n');
    let k = index_of(s, '\n');
    if s.len() > 0 {
        if k < s.len() {
            lines_make_the_text(s.skip(k + 1));
            lemma_together_one(s.take(k + 1));
            lemma_together_concat(seq![s.take(k + 1)], whole_lines(s.skip(k + 1)));
            assert(s =~= s.take(k + 1) + s.skip(k + 1));
        } else {
            lemma_together_one(s);
        }
    }
}

/// Where a line ends, the lines of a text part.
pub proof fn lemma_lines_concat(a: Seq<char>, b: Seq<char>)
    requires
        a.len() == 0 || a.last() == '\n',
    ensures
        whole_lines(a + b) == whole_lines(a) + whole_lines(b),
    decreases a.len(),
{
    if a.len() == 0 {
        assert(a + b =~= b);
        assert(whole_lines(a) + whole_lines(b) =~= whole_lines(b));
    } else {
        lemma_index_of(a, '\n');
        let k = index_of(a, '\n');
        if k == a.len() {
            assert(a[a.len() - 1] != '\n');
        }
        assert forall|j: int| 0 <= j < k implies #[trigger] (a + b)[j] != '\n' by {
            assert((a + b)[j] == a[j]);
        }
        lemma_index_of_is(a + b, '\n', k);
        let rest = a.skip(k + 1);
        if rest.len() > 0 {
            assert(rest.last() == a.last());
        }
        lemma_lines_concat(rest, b);
        assert((a + b).take(k + 1) =~= a.take(k + 1));
        assert((a + b).skip(k + 1) =~= rest + b);
        assert(whole_lines(a + b) =~= whole_lines(a) + whole_lines(b));
    }
}

/// All lines but the last end in a break.
proof fn lemma_lines_end(s: Seq<char>, n: int)
    requires
        0 <= n <= whole_lines(s).len(),
    ensures
        ({
            let head = together(whole_lines(s).take(n));
            n < whole_lines(s).len() ==> head.len() == 0 || head.last() == '\n'
        }),
        whole_lines(together(whole_lines(s).take(n))) == whole_lines(s).take(n),
        whole_lines(together(whole_lines(s).skip(n))) == whole_lines(s).skip(n),
    decreases s.len(),
{
    lemma_index_of(s, '\n');
    let k = index_of(s, '\n');
    let ls = whole_lines(s);
    lines_make_the_text(s);
    if n == 0 {
        assert(ls.take(0) =~= Seq::<Seq<char>>::empty());
        assert(ls.skip(0) =~= ls);
        assert(whole_lines(Seq::<char>::empty()) =~= ls.take(0));
    } else if 0 <= k < s.len() {
        let first = s.take(k + 1);
        let rest = s.skip(k + 1);
        let rs = whole_lines(rest);
        lemma_lines_end(rest, n - 1);
        assert(ls.take(n) =~= seq![first] + rs.take(n - 1));
        assert(ls.skip(n) =~= rs.skip(n - 1));
        lemma_together_one(first);
        lemma_together_concat(seq![first], rs.take(n - 1));
        let t = together(rs.take(n - 1));
        lemma_lines_concat(first, t);
        assert forall|j: int| 0 <= j < k implies #[trigger] first[j] != '\n' by {
            assert(first[j] == s[j]);
        }
        lemma_index_of_is(first, '\n', k);
        assert(first.take(k + 1) =~= first);
        assert(first.skip(k + 1) =~= Seq::<char>::empty());
        assert(whole_lines(Seq::<char>::empty()) =~= Seq::<Seq<char>>::empty());
        assert(whole_lines(first) =~= seq![first]);
        assert(whole_lines(together(ls.take(n))) =~= ls.take(n));
        if n < ls.len() {
            let head = together(ls.take(n));
            assert(head =~= first + t);
            if t.len() > 0 {
                assert(head.last() == t.last());
            } else {
                assert(head.last() == first.last());
            }
        }
    } else {
        assert(ls.take(1) =~= ls);
        assert(ls.skip(1) =~= Seq::<Seq<char>>::empty());
        assert(whole_lines(Seq::<char>::empty()) =~= Seq::<Seq<char>>::empty());
    }
}

/// No line of a text would close a board.
pub open spec fn stays_inside(json: Seq<char>) -> bool {
    forall|k: int|
        0 <= k < whole_lines(json.push('\n')).len() ==> !closes_board(
            #[trigger] whole_lines(json.push('\n'))[k],
        )
}

proof fn lemma_trim_break(s: Seq<char>)
    ensures
        trim(s.push('\n')) == trim(s),
{
    let t = s.push('\n');
    let n = crate::text::lead_spaces(s);
    crate::text::lemma_lead_spaces(s);
    assert forall|k: int| 0 <= k < n implies crate::text::is_space(#[trigger] t[k]) by {
        assert(t[k] == s[k]);
    }
    if n < s.len() {
        assert(t[n] == s[n]);
        crate::text::lemma_lead_spaces_is(t, n);
        let u = s.skip(n);
        assert(t.skip(n) =~= u.push('\n'));
        assert(u.push('\n').drop_last() =~= u);
    } else {
        crate::text::lemma_lead_spaces_is(t, n + 1);
        assert(t.skip(n + 1) =~= Seq::<char>::empty());
        assert(s.skip(n) =~= Seq::<char>::empty());
    }
}

/// What a text without white space at its ends trims to.
proof fn lemma_trim_tight(s: Seq<char>)
    requires
        s.len() > 0,
        !crate::text::is_space(s[0]),
        !crate::text::is_space(s.last()),
    ensures
        trim(s) == s,
{
    crate::text::lemma_lead_spaces_is(s, 0);
    assert(s.skip(0) =~= s);
    crate::text::lemma_trim_end_is(s, s.len() as int);
    assert(s.take(s.len() as int) =~= s);
}

/// The line that opens a board.
pub open spec fn open_line() -> Seq<char> {
    "```"@ + FENCE@ + seq!['\n']
}

/// The line that closes a board.
pub open spec fn close_line() -> Seq<char> {
    "```"@ + seq!['\n']
}

proof fn lemma_fence_lines()
    ensures
        opens_board(open_line()),
        closes_board(close_line()),
        whole_lines(open_line()) == seq![open_line()],
        whole_lines(close_line()) == seq![close_line()],
        open_line().last() == '\n',
        close_line().last() == '\n',
{
    reveal_strlit("```");
    reveal_strlit("board");
    let head = "```"@ + FENCE@;
    assert(open_line() =~= head.push('\n'));
    lemma_trim_break(head);
    lemma_trim_tight(head);
    assert(head.skip(3) =~= FENCE@);
    lemma_trim_tight(FENCE@);
    assert("```"@ =~= head.subrange(0, 3));
    let ticks = "```"@;
    assert(close_line() =~= ticks.push('\n'));
    lemma_trim_break(ticks);
    lemma_trim_tight(ticks);
    lemma_one_line(head);
    lemma_one_line(ticks);
}

/// A text without a break and a break behind it are one line.
pub proof fn lemma_one_line(s: Seq<char>)
    requires
        !s.contains('\n'),
    ensures
        whole_lines(s.push('\n')) == seq![s.push('\n')],
{
    let t = s.push('\n');
    assert forall|j: int| 0 <= j < s.len() implies #[trigger] t[j] != '\n' by {
        assert(t[j] == s[j]);
        assert(s.contains(s[j]));
    }
    lemma_index_of_is(t, '\n', s.len() as int);
    assert(t.take(s.len() as int + 1) =~= t);
    assert(t.skip(s.len() as int + 1) =~= Seq::<char>::empty());
    assert(whole_lines(Seq::<char>::empty()) =~= Seq::<Seq<char>>::empty());
    assert(whole_lines(t) =~= seq![t]);
}

/// A break behind a text whose last line is open ends that line.
proof fn lemma_lines_break(s: Seq<char>)
    requires
        s.len() > 0,
        s.last() != '\n',
    ensures
        whole_lines(s).len() > 0,
        whole_lines(s.push('\n')) == whole_lines(s).drop_last().push(
            whole_lines(s).last().push('\n'),
        ),
    decreases s.len(),
{
    lemma_index_of(s, '\n');
    let k = index_of(s, '\n');
    let t = s.push('\n');
    assert forall|j: int| 0 <= j < k implies #[trigger] t[j] != '\n' by {
        assert(t[j] == s[j]);
    }
    if k < s.len() {
        let rest = s.skip(k + 1);
        assert(rest.len() > 0) by {
            if rest.len() == 0 {
                assert(s[k] == s.last());
            }
        }
        assert(rest.last() == s.last());
        lemma_lines_break(rest);
        lemma_index_of_is(t, '\n', k);
        assert(t.take(k + 1) =~= s.take(k + 1));
        assert(t.skip(k + 1) =~= rest.push('\n'));
        let rs = whole_lines(rest);
        assert(whole_lines(s) =~= seq![s.take(k + 1)] + rs);
        assert(whole_lines(t) =~= whole_lines(s).drop_last().push(whole_lines(s).last().push('\n')));
    } else {
        lemma_index_of_is(t, '\n', s.len() as int);
        assert(t.take(s.len() as int + 1) =~= t);
        assert(t.skip(s.len() as int + 1) =~= Seq::<char>::empty());
        assert(whole_lines(s) =~= seq![s]);
        assert(whole_lines(Seq::<char>::empty()) =~= Seq::<Seq<char>>::empty());
        assert(whole_lines(t) =~= seq![t]);
        assert(whole_lines(s).drop_last().push(t) =~= seq![t]);
    }
}

/// What stands before the board of a note into which one was put.
pub open spec fn spliced_before(md: Seq<char>) -> Seq<char> {
    match board_parts(md) {
        Some((before, _, _)) => before,
        None => if md.len() == 0 {
            md
        } else if md.last() == '\n' {
            md.push('\n')
        } else {
            md.push('\n').push('\n')
        },
    }
}

/// What stands behind it.
pub open spec fn spliced_behind(md: Seq<char>) -> Seq<char> {
    match board_parts(md) {
        Some((_, _, behind)) => behind,
        None => Seq::empty(),
    }
}

/// No line before the board opens one, and the board starts a line.
proof fn lemma_before(md: Seq<char>)
    ensures
        ({
            let pre = spliced_before(md);
            &&& pre.len() == 0 || pre.last() == '\n'
            &&& forall|k: int|
                0 <= k < whole_lines(pre).len() ==> !opens_board(#[trigger] whole_lines(pre)[k])
        }),
{
    let ls = whole_lines(md);
    let o = opening(ls, 0);
    lemma_opening(ls, 0);
    let pre = spliced_before(md);
    if o < ls.len() {
        lemma_lines_end(md, o);
        assert forall|k: int| 0 <= k < whole_lines(pre).len() implies !opens_board(
            #[trigger] whole_lines(pre)[k],
        ) by {
            assert(whole_lines(pre)[k] == ls[k]);
        }
    } else if md.len() > 0 {
        let nl = seq!['\n'];
        let ended = if md.last() == '\n' {
            md
        } else {
            md.push('\n')
        };
        assert forall|k: int| 0 <= k < whole_lines(ended).len() implies !opens_board(
            #[trigger] whole_lines(ended)[k],
        ) by {
            if md.last() != '\n' {
                lemma_lines_break(md);
                if k < ls.len() - 1 {
                    assert(whole_lines(ended)[k] == ls[k]);
                } else {
                    assert(whole_lines(ended)[k] == ls[k].push('\n'));
                    lemma_trim_break(ls[k]);
                    assert(!opens_board(ls[k]));
                }
            }
        }
        assert(pre =~= ended + nl);
        lemma_lines_concat(ended, nl);
        let none = Seq::<char>::empty();
        assert(none.push('\n') =~= nl);
        lemma_one_line(none);
        lemma_trim_break(none);
        assert(trim(none).len() == 0) by {
            crate::text::lemma_lead_spaces(none);
            crate::text::lemma_trim_end(crate::text::trim_start(none));
        }
        reveal_strlit("```");
        assert(!opens_board(nl)) by {
            if "```"@.is_prefix_of(trim(nl)) {
                assert("```"@.len() <= trim(nl).len());
            }
        }
        assert forall|k: int| 0 <= k < whole_lines(pre).len() implies !opens_board(
            #[trigger] whole_lines(pre)[k],
        ) by {
            let es = whole_lines(ended);
            if k < es.len() {
                assert(whole_lines(pre)[k] == es[k]);
            } else {
                assert(whole_lines(pre)[k] == nl);
            }
        }
    }
}

/// A board that was put into a note is found there again, as it was, between what was
/// before it and what was behind it.
pub proof fn spliced_board_is_found(md: Seq<char>, json: Seq<char>)
    requires
        stays_inside(json),
    ensures
        board_parts(spliced(md, json)) == Some(
            (spliced_before(md), json.push('\n'), spliced_behind(md)),
        ),
        spliced(md, json) == spliced_before(md) + board_block(json) + spliced_behind(md),
{
    let pre = spliced_before(md);
    let behind = spliced_behind(md);
    let block = board_block(json);
    let whole = pre + block + behind;
    if board_parts(md) is None {
        assert(whole =~= spliced(md, json));
    }
    lemma_before(md);
    lemma_fence_lines();
    let body = json.push('\n');
    assert(block =~= open_line() + (body + close_line()));
    lemma_lines_concat(open_line(), body + close_line());
    lemma_lines_concat(body, close_line());
    let js = whole_lines(body);
    let bs = seq![open_line()] + (js + seq![close_line()]);
    assert(whole_lines(block) == bs);
    assert(block.last() == '\n');
    lemma_lines_concat(pre, block);
    assert((pre + block).last() == '\n');
    lemma_lines_concat(pre + block, behind);
    let ps = whole_lines(pre);
    let rs = whole_lines(behind);
    let ls = whole_lines(whole);
    assert(ls =~= ps + bs + rs);
    let o = ps.len() as int;
    let c = o + 1 + js.len();
    assert(ls[o] == open_line());
    assert forall|j: int| 0 <= j < o implies !opens_board(#[trigger] ls[j]) by {
        assert(ls[j] == ps[j]);
    }
    lemma_opening_is(ls, 0, o);
    assert(ls[c] == close_line());
    assert forall|j: int| o + 1 <= j < c implies !closes_board(#[trigger] ls[j]) by {
        assert(ls[j] == js[j - o - 1]);
    }
    lemma_closing_is(ls, o + 1, c);
    assert(ls.take(o) =~= ps);
    assert(ls.subrange(o + 1, c) =~= js);
    assert(ls.skip(c + 1) =~= rs);
    lines_make_the_text(pre);
    lines_make_the_text(body);
    lines_make_the_text(behind);
}

/// Putting a board in and then another is the same as putting in the other alone; and what
/// is read of a note is the board that was put in last.
pub proof fn the_last_board_counts(md: Seq<char>, first: Seq<char>, json: Seq<char>)
    requires
        stays_inside(first),
    ensures
        spliced(spliced(md, first), json) == spliced(md, json),
        stays_inside(json) ==> extracted(spliced(md, json)) == Some(json.push('\n')),
{
    spliced_board_is_found(md, first);
    if board_parts(md) is None {
        assert(spliced_before(md) + board_block(json) + spliced_behind(md) =~= spliced(md, json));
    }
    if stays_inside(json) {
        spliced_board_is_found(md, json);
    }
}

/// Putting a board in twice is the same as putting it in once.
pub proof fn splicing_twice_changes_nothing(md: Seq<char>, json: Seq<char>)
    requires
        stays_inside(json),
    ensures
        spliced(spliced(md, json), json) == spliced(md, json),
{
    the_last_board_counts(md, json, json);
}

/// Putting a board in keeps the text before and behind it; and where there was none, it keeps
/// all of the text.
pub proof fn splicing_keeps_the_rest(md: Seq<char>, json: Seq<char>)
    ensures
        match board_parts(md) {
            Some((before, _, behind)) => spliced(md, json) == before + board_block(json) + behind,
            None => md.is_prefix_of(spliced(md, json)),
        },
{
    if board_parts(md) is None {
        assert(spliced(md, json).take(md.len() as int) =~= md);
    }
}

/// The lines of a text, each with its break.
fn whole_line_chars<'a>(cs: &'a [char]) -> (r: Vec<&'a [char]>)
    ensures
        slices(r@) == whole_lines(cs@),
{
    let mut v: Vec<&'a [char]> = Vec::new();
    let mut rest = cs;
    proof {
        assert(slices(v@) + whole_lines(rest@) =~= whole_lines(cs@));
    }
    while rest.len() > 0
        invariant
            slices(v@) + whole_lines(rest@) == whole_lines(cs@),
        decreases rest@.len(),
    {
        let ghost old_v = v@;
        let ghost old_rest = rest@;
        let k: usize = find_char(rest, '\n');
        let n: usize = rest.len();
        let end: usize = if k < n {
            k + 1
        } else {
            n
        };
        let head = slice_subrange(rest, 0, end);
        v.push(head);
        rest = slice_subrange(rest, end, n);
        proof {
            assert(head@ =~= old_rest.take(end as int));
            assert(rest@ =~= old_rest.skip(end as int));
            if k >= n {
                assert(head@ =~= old_rest);
                assert(whole_lines(rest@) =~= Seq::<Seq<char>>::empty());
            }
            assert(slices(v@) =~= slices(old_v).push(head@));
            assert(whole_lines(old_rest) =~= seq![head@] + whole_lines(rest@));
            assert(slices(v@) + whole_lines(rest@) =~= slices(old_v) + whole_lines(old_rest));
        }
    }
    proof {
        assert(slices(v@) + whole_lines(rest@) =~= slices(v@));
    }
    v
}

fn opens(l: &[char]) -> (r: bool)
    ensures
        r == opens_board(l@),
{
    let t = trim_chars(l);
    proof {
        reveal_strlit("```");
    }
    if !starts_with(t, "```") {
        return false;
    }
    let rest = slice_subrange(t, 3, t.len());
    proof {
        assert(rest@ =~= t@.skip(3));
    }
    let name: Vec<char> = chars_of(FENCE);
    same_chars(trim_chars(rest), name.as_slice())
}

fn closes(l: &[char]) -> (r: bool)
    ensures
        r == closes_board(l@),
{
    let t = trim_chars(l);
    let n: usize = crate::text::count_run(t, '`');
    proof {
        crate::text::lemma_run_of(t@, '`');
    }
    n == t.len() && n >= 3
}

/// The lines of the board: the one that opens it, the one that closes it.
fn locate(lines: &Vec<&[char]>) -> (r: Option<(usize, usize)>)
    ensures
        ({
            let ls = slices(lines@);
            let o = opening(ls, 0);
            match r {
                Some((a, b)) => a == o && b == closing(ls, o + 1) && a < b <= lines@.len() && a
                    < ls.len(),
                None => o >= ls.len(),
            }
        }),
{
    let ghost ls = slices(lines@);
    let n: usize = lines.len();
    let mut a: usize = 0;
    while a < n && !opens(lines[a])
        invariant
            0 <= a <= n,
            n == lines@.len(),
            ls == slices(lines@),
            opening(ls, 0) == opening(ls, a as int),
        decreases n - a,
    {
        proof {
            assert(ls[a as int] == lines@[a as int]@);
        }
        a = a + 1;
    }
    proof {
        if a < n {
            assert(ls[a as int] == lines@[a as int]@);
        }
    }
    if a >= n {
        return None;
    }
    let mut b: usize = a + 1;
    while b < n && !closes(lines[b])
        invariant
            a < b <= n,
            n == lines@.len(),
            ls == slices(lines@),
            closing(ls, a + 1) == closing(ls, b as int),
        decreases n - b,
    {
        proof {
            assert(ls[b as int] == lines@[b as int]@);
        }
        b = b + 1;
    }
    proof {
        if b < n {
            assert(ls[b as int] == lines@[b as int]@);
        }
    }
    Some((a, b))
}

/// Appends the lines from `a` to `b`.
fn push_lines(out: &mut Vec<char>, lines: &Vec<&[char]>, a: usize, b: usize)
    requires
        a <= b <= lines@.len(),
    ensures
        final(out)@ == old(out)@ + together(slices(lines@).subrange(a as int, b as int)),
{
    let ghost ls = slices(lines@);
    let ghost start = out@;
    let mut k: usize = a;
    proof {
        assert(ls.subrange(a as int, a as int) =~= Seq::<Seq<char>>::empty());
        assert(out@ =~= start + together(ls.subrange(a as int, a as int)));
    }
    while k < b
        invariant
            a <= k <= b <= lines@.len(),
            ls == slices(lines@),
            out@ == start + together(ls.subrange(a as int, k as int)),
        decreases b - k,
    {
        extend(out, lines[k]);
        proof {
            let x = ls.subrange(a as int, k + 1);
            assert(x.drop_last() =~= ls.subrange(a as int, k as int));
            assert(x.last() == lines@[k as int]@);
            assert(out@ =~= start + together(x));
        }
        k = k + 1;
    }
}

/// Puts a board's JSON into a note: in the place of the board that it holds, or at its
/// end.
pub fn splice(md: &str, json: &str) -> (r: String)
    ensures
        r@ == spliced(md@, json@),
{
    let cs: Vec<char> = chars_of(md);
    let lines: Vec<&[char]> = whole_line_chars(cs.as_slice());
    let ghost ls = whole_lines(md@);
    let n: usize = lines.len();
    let mut out: Vec<char> = Vec::new();
    proof {
        assert(slices(lines@).len() == lines@.len());
    }
    match locate(&lines) {
        Some((a, b)) => {
            push_lines(&mut out, &lines, 0, a);
            proof {
                assert(ls.subrange(0, a as int) =~= ls.take(a as int));
                assert(out@ =~= together(ls.take(a as int)));
            }
            push_block(&mut out, json);
            if b < n {
                push_lines(&mut out, &lines, b + 1, n);
                proof {
                    assert(ls.subrange(b + 1, n as int) =~= ls.skip(b + 1));
                }
            } else {
                proof {
                    assert(out@ =~= out@ + Seq::<char>::empty());
                }
            }
        },
        None => {
            let len: usize = cs.len();
            extend(&mut out, cs.as_slice());
            if len > 0 {
                if cs[len - 1] != '\n' {
                    out.push('\n');
                }
                out.push('\n');
            }
            proof {
                assert(out@ =~= spliced_before(md@));
            }
            push_block(&mut out, json);
            proof {
                assert(out@ =~= spliced(md@, json@));
            }
        },
    }
    string_of(out.as_slice())
}

fn push_block(out: &mut Vec<char>, json: &str)
    ensures
        final(out)@ == old(out)@ + board_block(json@),
{
    let ghost start = out@;
    extend_str(out, "```");
    extend_str(out, FENCE);
    out.push('\n');
    extend_str(out, json);
    out.push('\n');
    extend_str(out, "```");
    out.push('\n');
    proof {
        assert(out@ =~= start + board_block(json@));
    }
}

/// The JSON text of the board that a note holds.
pub open spec fn extracted(md: Seq<char>) -> Option<Seq<char>> {
    match board_parts(md) {
        Some((_, json, _)) => Some(json),
        None => None,
    }
}

/// The JSON text of the board that a note holds.
pub fn extract(md: &str) -> (r: Option<String>)
    ensures
        crate::block::opt_text(r) == extracted(md@),
{
    let cs: Vec<char> = chars_of(md);
    let lines: Vec<&[char]> = whole_line_chars(cs.as_slice());
    let ghost ls = whole_lines(md@);
    match locate(&lines) {
        Some((a, b)) => {
            let mut out: Vec<char> = Vec::new();
            push_lines(&mut out, &lines, a + 1, b);
            proof {
                assert(slices(lines@).len() == lines@.len());
                if b == ls.len() {
                    assert(ls.subrange(a + 1, b as int) =~= ls.skip(a + 1));
                }
                assert(out@ =~= together(ls.subrange(a + 1, b as int)));
            }
            Some(string_of(out.as_slice()))
        },
        None => None,
    }
}

// ---------- cards and lines ----------

/// A card. Where it stands is carried along as it is given.
#[derive(Debug, PartialEq, Eq)]
pub struct Node {
    pub id: u32,
    /// The bits of the distance from the left edge.
    pub x: u32,
    /// The bits of the distance from the top edge.
    pub y: u32,
    pub text: String,
    /// The note that the card stands for.
    pub note: Option<String>,
}

pub struct NodeModel {
    pub id: u32,
    pub x: u32,
    pub y: u32,
    pub text: Seq<char>,
    pub note: Option<Seq<char>>,
}

impl View for Node {
    type V = NodeModel;

    open spec fn view(&self) -> NodeModel {
        NodeModel {
            id: self.id,
            x: self.x,
            y: self.y,
            text: self.text@,
            note: crate::block::opt_text(self.note),
        }
    }
}

impl Clone for Node {
    fn clone(&self) -> (r: Node)
        ensures
            r@ == self@,
    {
        Node {
            id: self.id,
            x: self.x,
            y: self.y,
            text: self.text.clone(),
            note: match &self.note {
                Some(n) => Some(n.clone()),
                None => None,
            },
        }
    }
}

/// A line between two cards.
#[derive(Clone, Copy, Debug, PartialEq, Eq, Structural)]
pub struct Edge {
    pub from: u32,
    pub to: u32,
}

pub struct Board {
    pub nodes: Vec<Node>,
    pub edges: Vec<Edge>,
    /// The greatest number that was ever given to a card.
    pub last_id: u32,
}

pub struct BoardModel {
    pub nodes: Seq<NodeModel>,
    pub edges: Seq<Edge>,
    pub last_id: u32,
}

pub open spec fn nodes_model(v: Seq<Node>) -> Seq<NodeModel> {
    v.map_values(|n: Node| n@)
}

impl View for Board {
    type V = BoardModel;

    open spec fn view(&self) -> BoardModel {
        BoardModel {
            nodes: nodes_model(self.nodes@),
            edges: self.edges@,
            last_id: self.last_id,
        }
    }
}

/// The first card from `k` on with this number.
pub open spec fn node_at(nodes: Seq<NodeModel>, id: u32, k: int) -> Option<int>
    decreases nodes.len() - k,
{
    if k < 0 || k >= nodes.len() {
        None
    } else if nodes[k].id == id {
        Some(k)
    } else {
        node_at(nodes, id, k + 1)
    }
}

pub open spec fn has_node(b: BoardModel, id: u32) -> bool {
    node_at(b.nodes, id, 0) is Some
}

/// No card's number is greater than the last one that was given.
pub open spec fn numbered(b: BoardModel) -> bool {
    forall|k: int| 0 <= k < b.nodes.len() ==> (#[trigger] b.nodes[k]).id <= b.last_id
}

/// Whether two cards are joined.
pub open spec fn joined(edges: Seq<Edge>, a: u32, b: u32) -> bool {
    exists|k: int|
        0 <= k < edges.len() && ((#[trigger] edges[k]).from == a && edges[k].to == b
            || edges[k].from == b && edges[k].to == a)
}

/// Every line joins two different cards of the board, and no two lines join the same
/// two.
pub open spec fn consistent(b: BoardModel) -> bool {
    &&& numbered(b)
    &&& forall|k: int|
        0 <= k < b.edges.len() ==> has_node(b, (#[trigger] b.edges[k]).from) && has_node(
            b,
            b.edges[k].to,
        ) && b.edges[k].from != b.edges[k].to
    &&& forall|j: int, k: int|
        0 <= j < k < b.edges.len() ==> !same_ends(#[trigger] b.edges[j], #[trigger] b.edges[k])
}

pub open spec fn same_ends(a: Edge, b: Edge) -> bool {
    (a.from == b.from && a.to == b.to) || (a.from == b.to && a.to == b.from)
}

pub open spec fn empty_board() -> BoardModel {
    BoardModel { nodes: Seq::empty(), edges: Seq::empty(), last_id: 0 }
}

/// The bits of a number in single precision, brought between nought and one. What is no
/// number stays as it is, and so does nought below nought.
pub open spec fn clamped(bits: u32) -> u32 {
    if bits > 0x8000_0000 && bits <= 0xff80_0000 {
        0
    } else if 0x3f80_0000 < bits && bits <= 0x7f80_0000 {
        0x3f80_0000
    } else {
        bits
    }
}

fn clamp(bits: u32) -> (r: u32)
    ensures
        r == clamped(bits),
{
    if bits > 0x8000_0000 && bits <= 0xff80_0000 {
        0
    } else if 0x3f80_0000 < bits && bits <= 0x7f80_0000 {
        0x3f80_0000
    } else {
        bits
    }
}

/// Whether bits are those of a number in single precision.
pub open spec fn is_number(bits: u32) -> bool {
    bits <= 0x7f80_0000 || 0x8000_0000 <= bits <= 0xff80_0000
}

/// A card stands on its board: a number is brought between nought and one, and one that
/// is there stays as it is.
pub proof fn cards_stand_on_the_board(bits: u32)
    requires
        is_number(bits),
    ensures
        clamped(bits) <= 0x3f80_0000 || clamped(bits) == 0x8000_0000,
        bits <= 0x3f80_0000 ==> clamped(bits) == bits,
        clamped(clamped(bits)) == clamped(bits),
{
}


pub open spec fn with_node(b: BoardModel, x: u32, y: u32, text: Seq<char>) -> BoardModel {
    let id = (b.last_id + 1) as u32;
    BoardModel {
        nodes: b.nodes.push(NodeModel { id, x: clamped(x), y: clamped(y), text, note: None }),
        last_id: id,
        ..b
    }
}

/// The cards without those of this number.
pub open spec fn nodes_without(nodes: Seq<NodeModel>, id: u32) -> Seq<NodeModel>
    decreases nodes.len(),
{
    if nodes.len() == 0 {
        Seq::empty()
    } else if nodes.last().id == id {
        nodes_without(nodes.drop_last(), id)
    } else {
        nodes_without(nodes.drop_last(), id).push(nodes.last())
    }
}

/// The lines without those that touch this card.
pub open spec fn edges_without(edges: Seq<Edge>, id: u32) -> Seq<Edge>
    decreases edges.len(),
{
    if edges.len() == 0 {
        Seq::empty()
    } else if edges.last().from == id || edges.last().to == id {
        edges_without(edges.drop_last(), id)
    } else {
        edges_without(edges.drop_last(), id).push(edges.last())
    }
}

pub open spec fn without_node(b: BoardModel, id: u32) -> BoardModel {
    BoardModel {
        nodes: nodes_without(b.nodes, id),
        edges: edges_without(b.edges, id),
        ..b
    }
}

pub open spec fn moved(b: BoardModel, id: u32, x: u32, y: u32) -> BoardModel {
    match node_at(b.nodes, id, 0) {
        Some(k) => BoardModel {
            nodes: b.nodes.update(k, NodeModel { x: clamped(x), y: clamped(y), ..b.nodes[k] }),
            ..b
        },
        None => b,
    }
}

pub open spec fn retexted(b: BoardModel, id: u32, text: Seq<char>) -> BoardModel {
    match node_at(b.nodes, id, 0) {
        Some(k) => BoardModel { nodes: b.nodes.update(k, NodeModel { text, ..b.nodes[k] }), ..b },
        None => b,
    }
}

/// Whether two cards may be joined: they are two, both are there, and they are not
/// joined yet.
pub open spec fn can_connect(b: BoardModel, from: u32, to: u32) -> bool {
    from != to && has_node(b, from) && has_node(b, to) && !joined(b.edges, from, to)
}

/// The greatest number of a card; zero if there is none.
pub open spec fn greatest_id(nodes: Seq<NodeModel>) -> u32
    decreases nodes.len(),
{
    if nodes.len() == 0 {
        0
    } else {
        let m = greatest_id(nodes.drop_last());
        if nodes.last().id > m {
            nodes.last().id
        } else {
            m
        }
    }
}

pub proof fn lemma_node_at(nodes: Seq<NodeModel>, id: u32, k: int)
    requires
        0 <= k <= nodes.len(),
    ensures
        node_at(nodes, id, k) matches Some(i) ==> k <= i < nodes.len() && nodes[i].id == id,
        forall|j: int|
            k <= j < nodes.len() && (#[trigger] nodes[j]).id == id ==> node_at(nodes, id, k) is Some,
    decreases nodes.len() - k,
{
    if k < nodes.len() && nodes[k].id != id {
        lemma_node_at(nodes, id, k + 1);
    }
}

proof fn lemma_greatest_id(nodes: Seq<NodeModel>)
    ensures
        forall|k: int| 0 <= k < nodes.len() ==> (#[trigger] nodes[k]).id <= greatest_id(nodes),
    decreases nodes.len(),
{
    if nodes.len() > 0 {
        lemma_greatest_id(nodes.drop_last());
        assert forall|k: int| 0 <= k < nodes.len() implies (#[trigger] nodes[k]).id <= greatest_id(
            nodes,
        ) by {
            if k < nodes.len() - 1 {
                assert(nodes.drop_last()[k] == nodes[k]);
            }
        }
    }
}

proof fn lemma_nodes_without(nodes: Seq<NodeModel>, id: u32)
    ensures
        forall|k: int|
            0 <= k < nodes_without(nodes, id).len() ==> nodes.contains(
                #[trigger] nodes_without(nodes, id)[k],
            ) && nodes_without(nodes, id)[k].id != id,
        forall|n: NodeModel|
            nodes.contains(n) && n.id != id ==> #[trigger] nodes_without(nodes, id).contains(n),
    decreases nodes.len(),
{
    if nodes.len() > 0 {
        let f = nodes.drop_last();
        let last = nodes.last();
        lemma_nodes_without(f, id);
        let w = nodes_without(nodes, id);
        let g = nodes_without(f, id);
        assert(nodes[nodes.len() - 1] == last);
        assert forall|k: int| 0 <= k < w.len() implies nodes.contains(#[trigger] w[k]) && w[k].id
            != id by {
            if k < g.len() {
                assert(w[k] == g[k]);
                assert(f.contains(g[k]));
                let j = choose|j: int| 0 <= j < f.len() && f[j] == g[k];
                assert(nodes[j] == g[k]);
            }
        }
        assert forall|n: NodeModel| nodes.contains(n) && n.id != id implies #[trigger] w.contains(
            n,
        ) by {
            let j = choose|j: int| 0 <= j < nodes.len() && nodes[j] == n;
            if j < f.len() {
                assert(f[j] == n);
                assert(f.contains(n));
                assert(g.contains(n));
                let m = choose|m: int| 0 <= m < g.len() && g[m] == n;
                assert(w[m] == n);
            } else {
                assert(w[g.len() as int] == n);
            }
        }
    }
}

proof fn lemma_edges_without(edges: Seq<Edge>, id: u32)
    ensures
        forall|k: int|
            0 <= k < edges_without(edges, id).len() ==> edges.contains(
                #[trigger] edges_without(edges, id)[k],
            ) && edges_without(edges, id)[k].from != id && edges_without(edges, id)[k].to != id,
        (forall|j: int, k: int|
            0 <= j < k < edges.len() ==> !same_ends(#[trigger] edges[j], #[trigger] edges[k])) ==> (
        forall|j: int, k: int|
            0 <= j < k < edges_without(edges, id).len() ==> !same_ends(
                #[trigger] edges_without(edges, id)[j],
                #[trigger] edges_without(edges, id)[k],
            )),
    decreases edges.len(),
{
    if edges.len() > 0 {
        let f = edges.drop_last();
        let last = edges.last();
        lemma_edges_without(f, id);
        let w = edges_without(edges, id);
        let g = edges_without(f, id);
        assert(edges[edges.len() - 1] == last);
        assert forall|k: int| 0 <= k < w.len() implies edges.contains(#[trigger] w[k]) && w[k].from
            != id && w[k].to != id by {
            if k < g.len() {
                assert(w[k] == g[k]);
                assert(f.contains(g[k]));
                let j = choose|j: int| 0 <= j < f.len() && f[j] == g[k];
                assert(edges[j] == g[k]);
            }
        }
        if forall|j: int, k: int|
            0 <= j < k < edges.len() ==> !same_ends(#[trigger] edges[j], #[trigger] edges[k]) {
            assert forall|j: int, k: int| 0 <= j < k < f.len() implies !same_ends(
                #[trigger] f[j],
                #[trigger] f[k],
            ) by {
                assert(f[j] == edges[j] && f[k] == edges[k]);
            }
            assert forall|j: int, k: int| 0 <= j < k < w.len() implies !same_ends(
                #[trigger] w[j],
                #[trigger] w[k],
            ) by {
                assert(w[j] == g[j]);
                if k < g.len() {
                    assert(w[k] == g[k]);
                } else {
                    assert(f.contains(g[j]));
                    let i = choose|i: int| 0 <= i < f.len() && f[i] == g[j];
                    assert(edges[i] == g[j]);
                    assert(!same_ends(edges[i], edges[edges.len() - 1]));
                }
            }
        }
    }
}

/// A new card keeps the board consistent, and its number was never given before.
pub proof fn adding_keeps_consistency(b: BoardModel, x: u32, y: u32, text: Seq<char>)
    requires
        consistent(b),
        b.last_id < u32::MAX,
    ensures
        consistent(with_node(b, x, y, text)),
        !has_node(b, with_node(b, x, y, text).last_id),
        has_node(with_node(b, x, y, text), with_node(b, x, y, text).last_id),
        with_node(b, x, y, text).last_id > b.last_id,
{
    let w = with_node(b, x, y, text);
    lemma_node_at(b.nodes, w.last_id, 0);
    lemma_node_at(w.nodes, w.last_id, 0);
    assert(w.nodes[b.nodes.len() as int].id == w.last_id);
    assert forall|k: int| 0 <= k < w.nodes.len() implies (#[trigger] w.nodes[k]).id <= w.last_id by {
        if k < b.nodes.len() {
            assert(w.nodes[k] == b.nodes[k]);
        }
    }
    assert forall|k: int| 0 <= k < w.edges.len() implies has_node(w, (#[trigger] w.edges[k]).from)
        && has_node(w, w.edges[k].to) && w.edges[k].from != w.edges[k].to by {
        let e = b.edges[k];
        lemma_still_there(b, w, e.from);
        lemma_still_there(b, w, e.to);
    }
}

/// Cards that are still in the list are found.
proof fn lemma_still_there(b: BoardModel, w: BoardModel, id: u32)
    requires
        has_node(b, id),
        b.nodes.len() <= w.nodes.len(),
        forall|k: int| 0 <= k < b.nodes.len() ==> (#[trigger] w.nodes[k]).id == b.nodes[k].id,
    ensures
        has_node(w, id),
{
    lemma_node_at(b.nodes, id, 0);
    lemma_node_at(w.nodes, id, 0);
    let k = node_at(b.nodes, id, 0)->0;
    assert(w.nodes[k].id == id);
}

/// Changing what a card shows, or where it stands, keeps the board consistent.
pub proof fn changing_a_card_keeps_consistency(b: BoardModel, w: BoardModel)
    requires
        consistent(b),
        w.edges == b.edges,
        w.last_id == b.last_id,
        w.nodes.len() == b.nodes.len(),
        forall|k: int| 0 <= k < b.nodes.len() ==> (#[trigger] w.nodes[k]).id == b.nodes[k].id,
    ensures
        consistent(w),
{
    assert forall|k: int| 0 <= k < w.nodes.len() implies (#[trigger] w.nodes[k]).id <= w.last_id by {
        assert(b.nodes[k].id <= b.last_id);
    }
    assert forall|k: int| 0 <= k < w.edges.len() implies has_node(w, (#[trigger] w.edges[k]).from)
        && has_node(w, w.edges[k].to) && w.edges[k].from != w.edges[k].to by {
        let e = b.edges[k];
        lemma_still_there(b, w, e.from);
        lemma_still_there(b, w, e.to);
    }
}

/// Taking a card away takes its lines away with it, and keeps the board consistent. Its
/// number is not given again.
pub proof fn removing_keeps_consistency(b: BoardModel, id: u32)
    requires
        consistent(b),
    ensures
        consistent(without_node(b, id)),
        !has_node(without_node(b, id), id),
        without_node(b, id).last_id == b.last_id,
{
    let w = without_node(b, id);
    lemma_nodes_without(b.nodes, id);
    lemma_edges_without(b.edges, id);
    lemma_node_at(w.nodes, id, 0);
    assert forall|k: int| 0 <= k < w.nodes.len() implies (#[trigger] w.nodes[k]).id <= w.last_id by {
        assert(b.nodes.contains(w.nodes[k]));
        let j = choose|j: int| 0 <= j < b.nodes.len() && b.nodes[j] == w.nodes[k];
        assert(b.nodes[j].id <= b.last_id);
    }
    assert forall|k: int| 0 <= k < w.edges.len() implies has_node(w, (#[trigger] w.edges[k]).from)
        && has_node(w, w.edges[k].to) && w.edges[k].from != w.edges[k].to by {
        let e = w.edges[k];
        assert(b.edges.contains(e));
        let j = choose|j: int| 0 <= j < b.edges.len() && b.edges[j] == e;
        assert(has_node(b, b.edges[j].from));
        lemma_kept(b, id, e.from);
        lemma_kept(b, id, e.to);
    }
}

proof fn lemma_kept(b: BoardModel, id: u32, other: u32)
    requires
        has_node(b, other),
        other != id,
    ensures
        has_node(without_node(b, id), other),
{
    let w = without_node(b, id);
    lemma_nodes_without(b.nodes, id);
    lemma_node_at(b.nodes, other, 0);
    lemma_node_at(w.nodes, other, 0);
    let k = node_at(b.nodes, other, 0)->0;
    let n = b.nodes[k];
    assert(b.nodes.contains(n));
    assert(w.nodes.contains(n));
    let j = choose|j: int| 0 <= j < w.nodes.len() && w.nodes[j] == n;
    assert(w.nodes[j].id == other);
}

/// A new line keeps the board consistent.
pub proof fn connecting_keeps_consistency(b: BoardModel, from: u32, to: u32)
    requires
        consistent(b),
        can_connect(b, from, to),
    ensures
        consistent(BoardModel { edges: b.edges.push(Edge { from, to }), ..b }),
{
    let e = Edge { from, to };
    let w = BoardModel { edges: b.edges.push(e), ..b };
    assert forall|k: int| 0 <= k < w.edges.len() implies has_node(w, (#[trigger] w.edges[k]).from)
        && has_node(w, w.edges[k].to) && w.edges[k].from != w.edges[k].to by {
        if k < b.edges.len() {
            assert(w.edges[k] == b.edges[k]);
            assert(has_node(b, b.edges[k].from));
        }
    }
    assert forall|j: int, k: int| 0 <= j < k < w.edges.len() implies !same_ends(
        #[trigger] w.edges[j],
        #[trigger] w.edges[k],
    ) by {
        assert(w.edges[j] == b.edges[j]);
        if k < b.edges.len() {
            assert(w.edges[k] == b.edges[k]);
        } else {
            assert(!(b.edges[j].from == from && b.edges[j].to == to || b.edges[j].from == to
                && b.edges[j].to == from));
        }
    }
}

impl Default for Board {
    fn default() -> (r: Board)
        ensures
            r@ == empty_board(),
    {
        Board::new()
    }
}

impl Board {
    /// A board without cards.
    pub fn new() -> (r: Board)
        ensures
            r@ == empty_board(),
    {
        let r = Board { nodes: Vec::new(), edges: Vec::new(), last_id: 0 };
        proof {
            assert(r@.nodes =~= Seq::<NodeModel>::empty());
            assert(r@.edges =~= Seq::<Edge>::empty());
        }
        r
    }

    /// A board with these cards and lines.
    pub fn from_parts(nodes: Vec<Node>, edges: Vec<Edge>) -> (r: Board)
        ensures
            r@ == (BoardModel {
                nodes: nodes_model(nodes@),
                edges: edges@,
                last_id: greatest_id(nodes_model(nodes@)),
            }),
            numbered(r@),
    {
        let ghost ns = nodes_model(nodes@);
        let mut last_id: u32 = 0;
        let mut k: usize = 0;
        proof {
            assert(ns.take(0) =~= Seq::<NodeModel>::empty());
        }
        while k < nodes.len()
            invariant
                0 <= k <= nodes@.len(),
                ns == nodes_model(nodes@),
                last_id == greatest_id(ns.take(k as int)),
            decreases nodes@.len() - k,
        {
            proof {
                assert(ns.take(k + 1).drop_last() =~= ns.take(k as int));
                assert(ns.take(k + 1).last() == nodes@[k as int]@);
            }
            if nodes[k].id > last_id {
                last_id = nodes[k].id;
            }
            k = k + 1;
        }
        proof {
            assert(ns.take(ns.len() as int) =~= ns);
            lemma_greatest_id(ns);
        }
        Board { nodes, edges, last_id }
    }

    pub fn is_empty(&self) -> (r: bool)
        ensures
            r == (self@.nodes.len() == 0),
    {
        self.nodes.len() == 0
    }

    fn find(&self, id: u32) -> (r: Option<usize>)
        ensures
            match r {
                Some(k) => node_at(self@.nodes, id, 0) == Some(k as int) && k < self.nodes@.len(),
                None => node_at(self@.nodes, id, 0) is None,
            },
    {
        let mut k: usize = 0;
        while k < self.nodes.len()
            invariant
                0 <= k <= self.nodes@.len(),
                node_at(self@.nodes, id, 0) == node_at(self@.nodes, id, k as int),
            decreases self.nodes@.len() - k,
        {
            proof {
                assert(self@.nodes[k as int] == self.nodes@[k as int]@);
            }
            if self.nodes[k].id == id {
                return Some(k);
            }
            k = k + 1;
        }
        None
    }

    /// The card of this number.
    pub fn node(&self, id: u32) -> (r: Option<&Node>)
        ensures
            match r {
                Some(n) => node_at(self@.nodes, id, 0) matches Some(k) && self@.nodes[k] == n@,
                None => !has_node(self@, id),
            },
    {
        match self.find(id) {
            Some(k) => Some(&self.nodes[k]),
            None => None,
        }
    }

    /// The number of the next card. No number is given twice.
    pub fn next_id(&self) -> (r: u32)
        requires
            self@.last_id < u32::MAX,
        ensures
            r == self@.last_id + 1,
    {
        self.last_id + 1
    }

    /// Adds a card and returns its number. The card is put on the board.
    pub fn add_node(&mut self, x: u32, y: u32, text: String) -> (r: u32)
        requires
            old(self)@.last_id < u32::MAX,
        ensures
            final(self)@ == with_node(old(self)@, x, y, text@),
            r == final(self)@.last_id,
    {
        let id: u32 = self.next_id();
        let ghost before = self.nodes@;
        let n = Node { id, x: clamp(x), y: clamp(y), text, note: None };
        let ghost nm = n@;
        self.nodes.push(n);
        self.last_id = id;
        proof {
            assert(nodes_model(self.nodes@) =~= nodes_model(before).push(nm));
        }
        id
    }

    /// Takes a card away, with all its lines.
    pub fn remove_node(&mut self, id: u32)
        ensures
            final(self)@ == without_node(old(self)@, id),
    {
        let ghost b = self@;
        let mut nodes: Vec<Node> = Vec::new();
        let mut k: usize = 0;
        proof {
            assert(b.nodes.take(0) =~= Seq::<NodeModel>::empty());
            assert(nodes_model(nodes@) =~= nodes_without(b.nodes.take(0), id));
        }
        while k < self.nodes.len()
            invariant
                0 <= k <= self.nodes@.len(),
                b == self@,
                *self == *old(self),
                nodes_model(nodes@) == nodes_without(b.nodes.take(k as int), id),
            decreases self.nodes@.len() - k,
        {
            proof {
                assert(b.nodes.take(k + 1).drop_last() =~= b.nodes.take(k as int));
                assert(b.nodes.take(k + 1).last() == self.nodes@[k as int]@);
            }
            if self.nodes[k].id != id {
                let ghost before = nodes@;
                let n: Node = self.nodes[k].clone();
                let ghost nm = n@;
                nodes.push(n);
                proof {
                    assert(nodes_model(nodes@) =~= nodes_model(before).push(nm));
                }
            }
            k = k + 1;
        }
        let mut edges: Vec<Edge> = Vec::new();
        let mut j: usize = 0;
        proof {
            assert(b.nodes.take(b.nodes.len() as int) =~= b.nodes);
            assert(b.edges.take(0) =~= Seq::<Edge>::empty());
        }
        while j < self.edges.len()
            invariant
                0 <= j <= self.edges@.len(),
                b == self@,
                *self == *old(self),
                edges@ == edges_without(b.edges.take(j as int), id),
            decreases self.edges@.len() - j,
        {
            proof {
                assert(b.edges.take(j + 1).drop_last() =~= b.edges.take(j as int));
                assert(b.edges.take(j + 1).last() == self.edges@[j as int]);
            }
            if self.edges[j].from != id && self.edges[j].to != id {
                edges.push(self.edges[j]);
            }
            j = j + 1;
        }
        proof {
            assert(b.edges.take(b.edges.len() as int) =~= b.edges);
        }
        self.nodes = nodes;
        self.edges = edges;
    }

    /// Moves a card.
    pub fn move_node(&mut self, id: u32, x: u32, y: u32)
        ensures
            final(self)@ == moved(old(self)@, id, x, y),
    {
        match self.find(id) {
            Some(k) => {
                let ghost b = self@;
                let mut n: Node = self.nodes[k].clone();
                proof {
                    assert(b.nodes[k as int] == self.nodes@[k as int]@);
                }
                n.x = clamp(x);
                n.y = clamp(y);
                let ghost nm = n@;
                self.nodes.set(k, n);
                proof {
                    assert(self@.nodes =~= b.nodes.update(k as int, nm));
                }
            },
            None => {},
        }
    }

    /// Changes the text of a card.
    pub fn set_text(&mut self, id: u32, text: String)
        ensures
            final(self)@ == retexted(old(self)@, id, text@),
    {
        match self.find(id) {
            Some(k) => {
                let ghost b = self@;
                let mut n: Node = self.nodes[k].clone();
                proof {
                    assert(b.nodes[k as int] == self.nodes@[k as int]@);
                }
                n.text = text;
                let ghost nm = n@;
                self.nodes.set(k, n);
                proof {
                    assert(self@.nodes =~= b.nodes.update(k as int, nm));
                }
            },
            None => {},
        }
    }

    /// Joins two cards. Returns whether they could be joined.
    pub fn connect(&mut self, from: u32, to: u32) -> (r: bool)
        ensures
            r == can_connect(old(self)@, from, to),
            final(self)@ == if r {
                BoardModel { edges: old(self)@.edges.push(Edge { from, to }), ..old(self)@ }
            } else {
                old(self)@
            },
    {
        if from == to || self.node(from).is_none() || self.node(to).is_none() {
            return false;
        }
        let mut k: usize = 0;
        while k < self.edges.len()
            invariant
                0 <= k <= self.edges@.len(),
                *self == *old(self),
                forall|j: int|
                    0 <= j < k ==> !((#[trigger] self.edges@[j]).from == from && self.edges@[j].to
                        == to || self.edges@[j].from == to && self.edges@[j].to == from),
            decreases self.edges@.len() - k,
        {
            let e: Edge = self.edges[k];
            if (e.from == from && e.to == to) || (e.from == to && e.to == from) {
                return false;
            }
            k = k + 1;
        }
        self.edges.push(Edge { from, to });
        true
    }
}

} // verus!
