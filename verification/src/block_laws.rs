//! What lines of Markdown mean: which lines start which blocks, what is read from them, and
//! how far each block reaches.
use crate::block::{
    blocks_from, bracket_end, check_box, code_line, count_of, decimal, digit_run, fence_info,
    heading_level, image_of, is_blank, is_digit, is_fence_close, is_rule, is_rule_of,
    is_table_delim, is_table_row, item_line, lead_bytes, lemma_blocks_skip, lemma_digit_run,
    lemma_shape_at, lemma_upto, list_item, list_marker, plain_line, quote_depth, quote_line, quote_marks,
    row_line, shape_at, unmarked, unquoted, InputModel, ItemModel, KindModel, ListMarker,
};
use crate::date::lemma_decimal_digits;
use crate::text::{
    blen, digits_of, index_of, is_space, lead_spaces, lemma_digits, lemma_index_of_is,
    lemma_lead_spaces, lemma_lead_spaces_is, lemma_run_of_is, lemma_trim_end, lemma_trim_end_is,
    lemma_word_len_is, trim, trim_start,
};
use vstd::prelude::*;

verus! {

// ---------- white space ----------

/// Whether a text is made of white space alone.
pub open spec fn is_white(s: Seq<char>) -> bool {
    forall|k: int| 0 <= k < s.len() ==> is_space(#[trigger] s[k])
}

/// Blanks, tabs and line breaks are white space, the wide blank and the hard one too; what
/// can be seen in ASCII is not, nor are Chinese characters.
pub proof fn white_space_cannot_be_seen(c: char)
    ensures
        is_space(' ') && is_space('\t') && is_space('\n') && is_space('\r'),
        is_space('\u{3000}') && is_space('\u{a0}'),
        '!' <= c <= '~' ==> !is_space(c),
        '\u{4e00}' <= c <= '\u{9fff}' ==> !is_space(c),
        '\u{3001}' <= c ==> !is_space(c),
{
}

/// Leading white space is cut off, and nothing else.
pub proof fn lemma_cut_start(ind: Seq<char>, t: Seq<char>)
    requires
        is_white(ind),
        t.len() == 0 || !is_space(t[0]),
    ensures
        lead_spaces(ind + t) == ind.len(),
        trim_start(ind + t) == t,
{
    let s = ind + t;
    assert forall|k: int| 0 <= k < ind.len() implies is_space(#[trigger] s[k]) by {
        assert(s[k] == ind[k]);
    }
    if t.len() > 0 {
        assert(s[ind.len() as int] == t[0]);
    }
    lemma_lead_spaces_is(s, ind.len() as int);
    assert(s.skip(ind.len() as int) =~= t);
}

/// White space at both ends is cut off, and nothing else.
pub proof fn lemma_cut_ends(ind: Seq<char>, t: Seq<char>, tail: Seq<char>)
    requires
        is_white(ind),
        is_white(tail),
        t.len() > 0,
        !is_space(t[0]),
        !is_space(t.last()),
    ensures
        trim_start(ind + t + tail) == t + tail,
        trim(ind + t + tail) == t,
{
    assert(ind + t + tail =~= ind + (t + tail));
    assert((t + tail)[0] == t[0]);
    lemma_cut_start(ind, t + tail);
    let u = t + tail;
    assert forall|k: int| t.len() <= k < u.len() implies is_space(#[trigger] u[k]) by {
        assert(u[k] == tail[k - t.len()]);
    }
    assert(u[t.len() - 1] == t.last());
    lemma_trim_end_is(u, t.len() as int);
    assert(u.take(t.len() as int) =~= t);
}

/// A text of white space is blank, and no other is.
pub proof fn blank_lines_are_white(s: Seq<char>)
    ensures
        is_blank(s) == is_white(s),
{
    lemma_lead_spaces(s);
    let u = trim_start(s);
    lemma_trim_end(u);
    if is_white(s) {
        if lead_spaces(s) < s.len() {
            assert(is_space(s[lead_spaces(s)]));
        }
        assert(u.len() == 0);
    } else {
        let k = choose|k: int| 0 <= k < s.len() && !is_space(s[k]);
        assert(lead_spaces(s) <= k) by {
            if lead_spaces(s) > k {
                assert(is_space(s[k]));
            }
        }
        assert(u[0] == s[lead_spaces(s)]);
        if is_blank(s) {
            assert(is_space(u[0]));
        }
    }
}

// ---------- headings ----------

pub open spec fn times(c: char, n: nat) -> Seq<char> {
    Seq::new(n, |k: int| c)
}

/// A heading is one to six `#` behind any white space, and then a blank, a tab or the end of
/// the line; their number is its level. More of them, or anything else behind them, make no
/// heading.
pub proof fn headings_are_hashes(ind: Seq<char>, n: nat, rest: Seq<char>)
    requires
        is_white(ind),
        rest.len() > 0 ==> rest[0] != '#',
        n == 0 && rest.len() > 0 ==> !is_space(rest[0]),
    ensures
        heading_level(ind + times('#', n) + rest) == if 1 <= n <= 6 && (rest.len() == 0 || rest[0]
            == ' ' || rest[0] == '\t') {
            Some(n as u8)
        } else {
            None
        },
{
    let t = times('#', n) + rest;
    assert(ind + times('#', n) + rest =~= ind + t);
    if n > 0 {
        assert(t[0] == '#');
    }
    lemma_cut_start(ind, t);
    if rest.len() > 0 {
        assert(t[n as int] == rest[0]);
    }
    assert forall|k: int| 0 <= k < n implies #[trigger] t[k] == '#' by {}
    lemma_run_of_is(t, '#', n as int);
}

/// A heading shows what stands behind its marks and the white space there.
pub proof fn headings_show_their_text(ind: Seq<char>, n: nat, gap: Seq<char>, body: Seq<char>)
    requires
        is_white(ind),
        is_white(gap),
        n > 0,
        gap.len() > 0 || body.len() == 0 || body[0] != '#',
        body.len() == 0 || !is_space(body[0]),
    ensures
        unmarked(ind + times('#', n) + gap + body) == body,
{
    let t = times('#', n) + (gap + body);
    assert(ind + times('#', n) + gap + body =~= ind + t);
    assert(t[0] == '#');
    lemma_cut_start(ind, t);
    let m = n as int;
    if t.len() > m {
        assert(t[m] == (gap + body)[0]);
        if gap.len() > 0 {
            assert(is_space(gap[0]));
        }
    }
    assert forall|k: int| 0 <= k < m implies #[trigger] t[k] == '#' by {}
    lemma_run_of_is(t, '#', m);
    assert(t.skip(m) =~= gap + body);
    lemma_cut_start(gap, body);
}

// ---------- code ----------

/// Three back quotes or three tildes behind any white space open and close code, whatever
/// follows; the first word behind them is the language.
pub proof fn fences_are_three_marks(
    ind: Seq<char>,
    c: char,
    gap: Seq<char>,
    word: Seq<char>,
    after: Seq<char>,
)
    requires
        is_white(ind),
        c == '`' || c == '~',
        is_white(gap),
        forall|k: int| 0 <= k < word.len() ==> !is_space(#[trigger] word[k]),
        after.len() > 0 ==> word.len() > 0 && is_space(after[0]),
    ensures
        is_fence_close(ind + times(c, 3) + gap + word + after),
        fence_info(ind + times(c, 3) + gap + word + after) == Some(if word.len() == 0 {
            None
        } else {
            Some(word)
        }),
{
    reveal_strlit("```");
    reveal_strlit("~~~");
    let info = gap + word + after;
    let t = times(c, 3) + info;
    assert(ind + times(c, 3) + gap + word + after =~= ind + t);
    assert(t[0] == c);
    lemma_cut_start(ind, t);
    assert(t.take(3) =~= times(c, 3));
    if c == '`' {
        assert("```"@ =~= t.take(3));
    } else {
        assert("~~~"@ =~= t.take(3));
    }
    assert(t.skip(3) =~= info);
    let u = word + after;
    assert(info =~= gap + u);
    if word.len() > 0 {
        assert(u[0] == word[0]);
    }
    lemma_cut_start(gap, u);
    assert forall|k: int| 0 <= k < word.len() implies !is_space(#[trigger] u[k]) by {
        assert(u[k] == word[k]);
    }
    if after.len() > 0 {
        assert(u[word.len() as int] == after[0]);
    }
    lemma_word_len_is(u, word.len() as int);
    assert(u.take(word.len() as int) =~= word);
}

/// Nothing else opens or closes code.
pub proof fn other_lines_are_no_fences(ind: Seq<char>, t: Seq<char>)
    requires
        is_white(ind),
        t.len() == 0 || !is_space(t[0]),
        !(t.len() >= 3 && t[0] == t[1] && t[1] == t[2] && (t[0] == '`' || t[0] == '~')),
    ensures
        !is_fence_close(ind + t),
        fence_info(ind + t) is None,
{
    reveal_strlit("```");
    reveal_strlit("~~~");
    lemma_cut_start(ind, t);
    if t.len() >= 3 {
        assert(t.take(3)[0] == t[0] && t.take(3)[1] == t[1] && t.take(3)[2] == t[2]);
    }
}

// ---------- rules ----------

/// Whether `c` stands at three places of `t`.
pub open spec fn three_of(t: Seq<char>, c: char) -> bool {
    exists|i: int, j: int, k: int|
        0 <= i < j < k < t.len() && #[trigger] t[i] == c && #[trigger] t[j] == c && #[trigger] t[k]
            == c
}

proof fn lemma_count_last(s: Seq<char>, c: char) -> (k: int)
    requires
        count_of(s, c) >= 1,
    ensures
        0 <= k < s.len(),
        s[k] == c,
        count_of(s.take(k), c) == count_of(s, c) - 1,
    decreases s.len(),
{
    if s.last() == c {
        assert(s.take(s.len() - 1) =~= s.drop_last());
        s.len() - 1
    } else {
        let k = lemma_count_last(s.drop_last(), c);
        assert(s.drop_last().take(k) =~= s.take(k));
        k
    }
}

proof fn lemma_count_grows(s: Seq<char>, c: char, i: int, j: int)
    requires
        0 <= i <= j <= s.len(),
    ensures
        0 <= count_of(s.take(i), c) <= count_of(s.take(j), c),
        i < j && s[i] == c ==> count_of(s.take(i), c) < count_of(s.take(j), c),
    decreases j,
{
    if i < j {
        lemma_count_grows(s, c, i, j - 1);
        assert(s.take(j).drop_last() =~= s.take(j - 1));
        assert(s.take(j).last() == s[j - 1]);
    } else if j > 0 {
        lemma_count_grows(s, c, j - 1, j - 1);
        assert(s.take(j).drop_last() =~= s.take(j - 1));
    }
}

proof fn lemma_three(t: Seq<char>, c: char)
    ensures
        count_of(t, c) >= 3 <==> three_of(t, c),
{
    if count_of(t, c) >= 3 {
        let k = lemma_count_last(t, c);
        let j = lemma_count_last(t.take(k), c);
        let u = t.take(k).take(j);
        let i = lemma_count_last(u, c);
        assert(t[i] == c && t[j] == c && t[k] == c);
    }
    if three_of(t, c) {
        let (i, j, k) = choose|i: int, j: int, k: int|
            0 <= i < j < k < t.len() && #[trigger] t[i] == c && #[trigger] t[j] == c
                && #[trigger] t[k] == c;
        lemma_count_grows(t, c, i, j);
        lemma_count_grows(t, c, j, k);
        lemma_count_grows(t, c, k, t.len() as int);
        assert(t.take(t.len() as int) =~= t);
    }
}

/// A rule is a line of one of `-`, `*` and `_`, three times or more, and blanks; nothing else
/// is.
pub proof fn rules_are_three_marks(ind: Seq<char>, t: Seq<char>, tail: Seq<char>)
    requires
        is_white(ind),
        is_white(tail),
        t.len() > 0,
        !is_space(t[0]),
        !is_space(t.last()),
    ensures
        is_rule(ind + t + tail) == exists|c: char|
            (c == '-' || c == '*' || c == '_') && #[trigger] three_of(t, c) && forall|k: int|
                0 <= k < t.len() ==> #[trigger] t[k] == c || t[k] == ' ',
{
    lemma_cut_ends(ind, t, tail);
    lemma_three(t, '-');
    lemma_three(t, '*');
    lemma_three(t, '_');
    if is_rule_of(t, '-') {
        assert(three_of(t, '-'));
    }
    if is_rule_of(t, '*') {
        assert(three_of(t, '*'));
    }
    if is_rule_of(t, '_') {
        assert(three_of(t, '_'));
    }
}

// ---------- quotes ----------

/// So many quote marks, with or without a blank behind each.
pub open spec fn quote_prefix(n: nat, spaced: bool) -> Seq<char>
    decreases n,
{
    if n == 0 {
        Seq::empty()
    } else if spaced {
        seq!['>', ' '] + quote_prefix((n - 1) as nat, spaced)
    } else {
        seq!['>'] + quote_prefix((n - 1) as nat, spaced)
    }
}

proof fn lemma_quote_prefix(n: nat, spaced: bool, rest: Seq<char>)
    requires
        rest.len() == 0 || rest[0] != '>',
        !spaced ==> rest.len() == 0 || rest[0] != ' ',
    ensures
        quote_marks(quote_prefix(n, spaced) + rest) == n,
    decreases n,
{
    let t = quote_prefix(n, spaced) + rest;
    if n == 0 {
        assert(t =~= rest);
    } else {
        let u = quote_prefix((n - 1) as nat, spaced) + rest;
        lemma_quote_prefix((n - 1) as nat, spaced, rest);
        assert(t[0] == '>');
        if spaced {
            assert(t[1] == ' ');
            assert(t.skip(2) =~= u);
        } else {
            assert(t.skip(1) =~= u);
            if t.len() > 1 {
                assert(t[1] == u[0]);
                if n > 1 {
                    assert(quote_prefix((n - 1) as nat, spaced)[0] == '>');
                } else {
                    assert(u =~= rest);
                }
            }
        }
    }
}

/// A quoted line starts with `>` behind any white space, and is as deep as it has marks, each
/// with a blank behind it or none; no other line is quoted.
pub proof fn quotes_are_as_deep_as_their_marks(
    ind: Seq<char>,
    n: nat,
    spaced: bool,
    rest: Seq<char>,
)
    requires
        is_white(ind),
        rest.len() == 0 || rest[0] != '>',
        !spaced ==> rest.len() == 0 || rest[0] != ' ',
        n == 0 ==> rest.len() == 0 || !is_space(rest[0]),
    ensures
        quote_depth(ind + quote_prefix(n, spaced) + rest) == if n == 0 {
            None
        } else if n > 255 {
            Some(255u8)
        } else {
            Some(n as u8)
        },
{
    let t = quote_prefix(n, spaced) + rest;
    assert(ind + quote_prefix(n, spaced) + rest =~= ind + t);
    if n > 0 {
        assert(t[0] == '>');
    } else {
        assert(t =~= rest);
    }
    lemma_cut_start(ind, t);
    lemma_quote_prefix(n, spaced, rest);
}

/// A quoted line shows what stands behind its marks and one blank.
pub proof fn quotes_show_their_text(ind: Seq<char>, n: nat, body: Seq<char>)
    requires
        is_white(ind),
        n > 0,
    ensures
        unquoted(ind + times('>', n) + seq![' '] + body) == body,
        (body.len() == 0 || (body[0] != '>' && body[0] != ' ')) ==> unquoted(
            ind + times('>', n) + body,
        ) == body,
{
    let m = n as int;
    let t = times('>', n) + (seq![' '] + body);
    assert(ind + times('>', n) + seq![' '] + body =~= ind + t);
    assert(t[0] == '>');
    lemma_cut_start(ind, t);
    assert(t[m] == ' ');
    assert forall|k: int| 0 <= k < m implies #[trigger] t[k] == '>' by {}
    lemma_run_of_is(t, '>', m);
    assert(t.skip(m) =~= seq![' '] + body);
    assert((seq![' '] + body).skip(1) =~= body);
    if body.len() == 0 || (body[0] != '>' && body[0] != ' ') {
        let u = times('>', n) + body;
        assert(ind + times('>', n) + body =~= ind + u);
        assert(u[0] == '>');
        lemma_cut_start(ind, u);
        if body.len() > 0 {
            assert(u[m] == body[0]);
        }
        assert forall|k: int| 0 <= k < m implies #[trigger] u[k] == '>' by {}
        lemma_run_of_is(u, '>', m);
        assert(u.skip(m) =~= body);
    }
}

// ---------- lists ----------

/// The check box that stands at the start of a text.
pub open spec fn box_read(t: Seq<char>) -> Option<bool> {
    if t.len() >= 4 && t[0] == '[' && t[2] == ']' && t[3] == ' ' {
        if t[1] == ' ' {
            Some(false)
        } else if t[1] == 'x' || t[1] == 'X' {
            Some(true)
        } else {
            None
        }
    } else {
        None
    }
}

pub proof fn lemma_box(t: Seq<char>)
    ensures
        check_box(t) == box_read(t),
{
    reveal_strlit("[ ] ");
    reveal_strlit("[x] ");
    reveal_strlit("[X] ");
    if t.len() >= 4 {
        let u = t.take(4);
        assert(u[0] == t[0] && u[1] == t[1] && u[2] == t[2] && u[3] == t[3]);
        if box_read(t) == Some(false) {
            assert(u =~= "[ ] "@);
        } else if t[1] == 'x' && box_read(t) is Some {
            assert(u =~= "[x] "@);
        } else if box_read(t) is Some {
            assert(u =~= "[X] "@);
        }
    }
}

/// How deep an item stands: by the bytes of white space before it, at most 255.
pub open spec fn indent_of(ind: Seq<char>) -> u8 {
    if blen(ind) > 255 {
        255u8
    } else {
        blen(ind) as u8
    }
}

/// `-`, `*` or `+` with a blank behind it starts an item, and so does a check box behind that
/// one of a task.
pub proof fn bullets_start_items(ind: Seq<char>, c: char, body: Seq<char>)
    requires
        is_white(ind),
        c == '-' || c == '*' || c == '+',
    ensures
        list_item(ind + seq![c, ' '] + body) == Some(
            ItemModel {
                marker: ListMarker::Bullet,
                indent: indent_of(ind),
                task: box_read(body),
                len: 2,
            },
        ),
{
    reveal_strlit("- ");
    reveal_strlit("* ");
    reveal_strlit("+ ");
    let t = seq![c, ' '] + body;
    assert(ind + seq![c, ' '] + body =~= ind + t);
    assert(t[0] == c);
    lemma_cut_start(ind, t);
    assert(t.take(2) =~= seq![c, ' ']);
    assert("- "@ =~= seq!['-', ' ']);
    assert("* "@ =~= seq!['*', ' ']);
    assert("+ "@ =~= seq!['+', ' ']);
    assert(t.skip(2) =~= body);
    lemma_box(body);
    assert((ind + t).take(ind.len() as int) =~= ind);
}

/// A number of up to nine digits with `.` or `)` and a blank behind it starts a numbered item
/// with that number.
pub proof fn numbers_start_items(ind: Seq<char>, n: nat, sep: char, body: Seq<char>)
    requires
        is_white(ind),
        n < 1_000_000_000,
        sep == '.' || sep == ')',
    ensures
        list_item(ind + digits_of(n) + seq![sep, ' '] + body) == Some(
            ItemModel {
                marker: ListMarker::Ordered(n as u64),
                indent: indent_of(ind),
                task: box_read(body),
                len: digits_of(n).len() as int + 2,
            },
        ),
{
    lemma_digits_len(n);
    lemma_digits_item(ind, digits_of(n), sep, body);
    lemma_decimal_digits(n);
}

spec fn power(k: nat) -> nat
    decreases k,
{
    if k == 0 {
        1
    } else {
        10 * power((k - 1) as nat)
    }
}

proof fn lemma_digits_power(n: nat, k: nat)
    requires
        n < power(k),
        k > 0,
    ensures
        digits_of(n).len() <= k,
    decreases k,
{
    if n >= 10 {
        assert(k > 1) by {
            if k == 1 {
                assert(power(1) == 10 * power(0));
            }
        }
        lemma_digits_power(n / 10, (k - 1) as nat);
    }
}

pub proof fn lemma_digits_len(n: nat)
    requires
        n < 1_000_000_000,
    ensures
        1 <= digits_of(n).len() <= 9,
        forall|i: int| 0 <= i < digits_of(n).len() ==> is_digit(#[trigger] digits_of(n)[i]),
{
    lemma_digits(n);
    reveal_with_fuel(power, 11);
    lemma_digits_power(n, 9);
}

/// Up to nine digits, whatever zeros they start with, are read as a number.
pub proof fn lemma_digits_item(ind: Seq<char>, ds: Seq<char>, sep: char, body: Seq<char>)
    requires
        is_white(ind),
        1 <= ds.len() <= 9,
        forall|i: int| 0 <= i < ds.len() ==> is_digit(#[trigger] ds[i]),
        sep == '.' || sep == ')',
    ensures
        list_item(ind + ds + seq![sep, ' '] + body) == Some(
            ItemModel {
                marker: ListMarker::Ordered(decimal(ds) as u64),
                indent: indent_of(ind),
                task: box_read(body),
                len: ds.len() as int + 2,
            },
        ),
{
    let t = ds + (seq![sep, ' '] + body);
    assert(ind + ds + seq![sep, ' '] + body =~= ind + t);
    assert(t[0] == ds[0]);
    lemma_cut_start(ind, t);
    lemma_digits_mark(ds, sep, body);
    assert(t.skip(ds.len() as int + 2) =~= body);
    lemma_box(body);
    assert((ind + t).take(ind.len() as int) =~= ind);
}

proof fn lemma_digits_mark(ds: Seq<char>, sep: char, body: Seq<char>)
    requires
        1 <= ds.len() <= 9,
        forall|i: int| 0 <= i < ds.len() ==> is_digit(#[trigger] ds[i]),
        sep == '.' || sep == ')',
    ensures
        list_marker(ds + (seq![sep, ' '] + body)) == Some(
            (ListMarker::Ordered(decimal(ds) as u64), ds.len() as int + 2),
        ),
{
    reveal_strlit("- ");
    reveal_strlit("* ");
    reveal_strlit("+ ");
    reveal_strlit(". ");
    reveal_strlit(") ");
    let d = ds.len() as int;
    let t = ds + (seq![sep, ' '] + body);
    assert(t[0] == ds[0]);
    assert(t[d] == sep);
    assert(t[d + 1] == ' ');
    lemma_digit_run(t);
    let e = digit_run(t);
    if e < d {
        assert(is_digit(ds[e]));
    } else if e > d {
        assert(is_digit(t[d]));
    }
    assert(t.take(2)[0] == t[0]);
    assert(t.take(d) =~= ds);
    assert(t.skip(d) =~= seq![sep, ' '] + body);
    assert(t.skip(d).take(2) =~= seq![sep, ' ']);
    assert(". "@ =~= seq!['.', ' ']);
    assert(") "@ =~= seq![')', ' ']);
}

/// No other line starts an item: not one with another character, with no blank behind the
/// mark, or with more digits.
pub proof fn other_lines_start_no_items(ind: Seq<char>, ds: Seq<char>, t: Seq<char>)
    requires
        is_white(ind),
        forall|i: int| 0 <= i < ds.len() ==> is_digit(#[trigger] ds[i]),
        t.len() > 0 ==> !is_digit(t[0]),
        ds.len() == 0 ==> t.len() == 0 || !is_space(t[0]),
        ds.len() == 0 ==> !(t.len() >= 2 && (t[0] == '-' || t[0] == '*' || t[0] == '+') && t[1]
            == ' '),
        1 <= ds.len() <= 9 ==> !(t.len() >= 2 && (t[0] == '.' || t[0] == ')') && t[1] == ' '),
    ensures
        list_item(ind + ds + t) is None,
{
    reveal_strlit("- ");
    reveal_strlit("* ");
    reveal_strlit("+ ");
    reveal_strlit(". ");
    reveal_strlit(") ");
    let d = ds.len() as int;
    let u = ds + t;
    assert(ind + ds + t =~= ind + u);
    if d > 0 {
        assert(u[0] == ds[0]);
    } else {
        assert(u =~= t);
    }
    lemma_cut_start(ind, u);
    lemma_digit_run(u);
    let e = digit_run(u);
    if e < d {
        assert(is_digit(ds[e]));
    } else if e > d {
        assert(is_digit(u[d]));
        assert(u[d] == t[0]);
    }
    assert(u.skip(d) =~= t);
    if u.len() >= 2 {
        assert(u.take(2)[0] == u[0] && u.take(2)[1] == u[1]);
    }
    if t.len() >= 2 {
        assert(t.take(2)[0] == t[0] && t.take(2)[1] == t[1]);
    }
}

// ---------- tables and images ----------

/// A row of a table is a line that starts with `|`, and more behind it.
pub proof fn rows_start_with_a_bar(ind: Seq<char>, t: Seq<char>, tail: Seq<char>)
    requires
        is_white(ind),
        is_white(tail),
        t.len() > 0,
        !is_space(t[0]),
        !is_space(t.last()),
    ensures
        is_table_row(ind + t + tail) == (t[0] == '|' && t.len() > 1),
        is_table_delim(ind + t + tail) == (t[0] == '|' && (exists|k: int|
            0 <= k < t.len() && #[trigger] t[k] == '-') && !(exists|k: int|
            0 <= k < t.len() && #[trigger] t[k] != '|' && t[k] != '-' && t[k] != ':' && t[k]
                != ' ')),
{
    lemma_cut_ends(ind, t, tail);
}

proof fn lemma_no_bracket(s: Seq<char>, open: int, i: int)
    requires
        0 <= i <= s.len(),
        0 <= open,
        forall|k: int| i <= k < s.len() - 1 ==> #[trigger] s[k] != '(' && s[k] != ')',
    ensures
        bracket_end(s, open, i) >= s.len() - 1,
    decreases s.len() - i,
{
    if i < s.len() - 1 {
        lemma_no_bracket(s, open, i + 1);
    } else if i == s.len() - 1 {
        assert(bracket_end(s, open + 1, i + 1) == s.len());
        assert(bracket_end(s, open, i + 1) == s.len());
        assert(bracket_end(s, open - 1, i + 1) == s.len());
    }
}

/// A line that is `![..](..)` and nothing else is an image with that address. With text
/// behind it, it is none.
pub proof fn images_take_a_whole_line(
    ind: Seq<char>,
    alt: Seq<char>,
    gap: Seq<char>,
    src: Seq<char>,
    gap2: Seq<char>,
    tail: Seq<char>,
)
    requires
        is_white(ind),
        is_white(gap),
        is_white(gap2),
        is_white(tail),
        !alt.contains(']'),
        src.len() > 0,
        !is_space(src[0]),
        !is_space(src.last()),
        !src.contains('('),
        !src.contains(')'),
    ensures
        image_of(ind + (seq!['!', '['] + alt + seq![']', '('] + gap + src + gap2 + seq![')']) + tail)
            == Some(src),
{
    reveal_strlit("![");
    let inner = gap + src + gap2;
    let t = seq!['!', '['] + alt + seq![']', '('] + gap + src + gap2 + seq![')'];
    assert(t[0] == '!' && t.last() == ')');
    lemma_cut_ends(ind, t, tail);
    assert(t.take(2) =~= "![" @);
    let rest = t.skip(2);
    assert(rest =~= alt + seq![']', '('] + inner + seq![')']);
    let a = alt.len() as int;
    assert forall|k: int| 0 <= k < a implies #[trigger] rest[k] != ']' by {
        assert(rest[k] == alt[k]);
        assert(alt.contains(alt[k]));
    }
    assert(rest[a] == ']');
    lemma_index_of_is(rest, ']', a);
    let after = rest.skip(a + 1);
    assert(after =~= seq!['('] + inner + seq![')']);
    let path = after.skip(1);
    assert(path =~= inner + seq![')']);
    assert(path.drop_last() =~= inner);
    lemma_cut_ends(gap, src, gap2);
    assert forall|k: int| 0 <= k < path.len() - 1 implies #[trigger] path[k] != '(' && path[k]
        != ')' by {
        assert(path[k] == inner[k]);
        let g = gap.len() as int;
        let s = src.len() as int;
        if k < g {
            assert(is_space(gap[k]));
        } else if k < g + s {
            assert(inner[k] == src[k - g]);
            assert(src.contains(src[k - g]));
        } else {
            assert(inner[k] == gap2[k - g - s]);
            assert(is_space(gap2[k - g - s]));
        }
    }
    lemma_no_bracket(path, 0, 0);
}

/// A line that does not start with `![` or does not end with `)` is no image.
pub proof fn other_lines_are_no_images(ind: Seq<char>, t: Seq<char>, tail: Seq<char>)
    requires
        is_white(ind),
        is_white(tail),
        t.len() > 0,
        !is_space(t[0]),
        !is_space(t.last()),
        t.last() != ')' || t[0] != '!' || t.len() < 2 || t[1] != '[',
    ensures
        image_of(ind + t + tail) is None,
{
    reveal_strlit("![");
    lemma_cut_ends(ind, t, tail);
    if t.len() >= 2 {
        assert(t.take(2)[0] == t[0] && t.take(2)[1] == t[1]);
    }
    let rest = t.skip(2);
    let after = rest.skip(index_of(rest, ']') + 1);
    crate::text::lemma_index_of(rest, ']');
    let path = after.skip(1);
    if after.len() > 1 && index_of(rest, ']') < rest.len() && t.len() >= 2 {
        assert(path.last() == t.last());
    }
}

// ---------- how far blocks reach ----------

/// Whether a line cannot go on a paragraph: it is blank or starts something of its own.
pub open spec fn stands_alone(l: Seq<char>) -> bool {
    is_blank(l) || heading_level(l) is Some || is_fence_close(l) || is_rule(l) || quote_depth(l)
        is Some || list_item(l) is Some || image_of(l) is Some
}

/// What the lines of a block from `i` up to `e` have to be, by its kind; and that it reaches
/// as far as they are so.
pub open spec fn reaches(kind: KindModel, lines: Seq<Seq<char>>, i: int, e: int) -> bool {
    let n = lines.len() as int;
    &&& 0 <= i < e <= n
    &&& match kind {
        KindModel::Blank => e == i + 1 && is_blank(lines[i]),
        KindModel::Heading { level } => e == i + 1 && heading_level(lines[i]) == Some(level),
        KindModel::Rule => e == i + 1 && is_rule(lines[i]),
        KindModel::Image { src } => e == i + 1 && image_of(lines[i]) == Some(src),
        KindModel::CodeFence { lang, closed } => {
            &&& fence_info(lines[i]) == Some(lang)
            &&& if closed {
                e > i + 1 && is_fence_close(lines[e - 1])
            } else {
                e == n
            }
            &&& forall|k: int|
                i < k < e && (closed ==> k < e - 1) ==> !is_fence_close(#[trigger] lines[k])
        },
        KindModel::Quote { depth } => {
            &&& quote_depth(lines[i]) == Some(depth)
            &&& forall|k: int| i <= k < e ==> quote_depth(#[trigger] lines[k]) is Some
            &&& e == n || quote_depth(lines[e]) is None
        },
        KindModel::List { marker, indent, task } => {
            &&& list_item(lines[i]) matches Some(it) && it.marker == marker && it.indent == indent
                && it.task == task
            &&& forall|k: int|
                i < k < e ==> !stands_alone(#[trigger] lines[k]) && lead_bytes(lines[k]) > indent
            &&& e == n || stands_alone(lines[e]) || lead_bytes(lines[e]) <= indent
        },
        KindModel::Table => {
            &&& e >= i + 2 && is_table_row(lines[i]) && is_table_delim(lines[i + 1])
            &&& forall|k: int| i + 2 <= k < e ==> is_table_row(#[trigger] lines[k])
            &&& e == n || !is_table_row(lines[e])
        },
        KindModel::Paragraph => {
            &&& forall|k: int| i <= k < e ==> !stands_alone(#[trigger] lines[k])
            &&& e == n || stands_alone(lines[e])
        },
    }
}

/// The first line of a block tells what it is.
pub open spec fn kind_fits(kind: KindModel, lines: Seq<Seq<char>>, i: int) -> bool {
    let l = lines[i];
    let head = i + 1 < lines.len() && is_table_row(l) && is_table_delim(lines[i + 1]);
    &&& kind is Blank == is_blank(l)
    &&& kind is Heading == (heading_level(l) is Some)
    &&& kind is CodeFence == is_fence_close(l)
    &&& kind is Rule == (is_rule(l) && !is_blank(l))
    &&& kind is Quote == (quote_depth(l) is Some)
    &&& kind is List == (list_item(l) is Some && !is_rule(l))
    &&& kind is Table == (head && !stands_alone(l))
    &&& kind is Image == (image_of(l) is Some)
    &&& kind is Paragraph == (!head && !stands_alone(l))
}

/// The first character of a line that is not blank.
proof fn lemma_first(l: Seq<char>)
    ensures
        trim(l).len() > 0 ==> trim_start(l).len() > 0 && trim_start(l)[0] == trim(l)[0],
        trim(l).len() == 0 ==> trim_start(l).len() == 0,
        trim_start(l).len() > 0 ==> !is_space(trim_start(l)[0]),
{
    lemma_lead_spaces(l);
    let u = trim_start(l);
    lemma_trim_end(u);
    if u.len() > 0 {
        assert(u[0] == l[lead_spaces(l)]);
    }
}

/// A line is at most one of the things that its first character can make it, but for a rule,
/// which can look like an item.
proof fn lemma_one_of(l: Seq<char>)
    ensures
        is_blank(l) ==> heading_level(l) is None && !is_fence_close(l) && quote_depth(l) is None
            && list_item(l) is None && image_of(l) is None && !is_table_row(l) && !is_rule(l),
        heading_level(l) is Some ==> !is_fence_close(l) && quote_depth(l) is None && list_item(l)
            is None && image_of(l) is None && !is_table_row(l) && !is_rule(l),
        is_fence_close(l) ==> quote_depth(l) is None && list_item(l) is None && image_of(l) is None
            && !is_table_row(l) && !is_rule(l),
        quote_depth(l) is Some ==> list_item(l) is None && image_of(l) is None && !is_table_row(l)
            && !is_rule(l),
        list_item(l) is Some ==> image_of(l) is None && !is_table_row(l),
        image_of(l) is Some ==> !is_table_row(l) && !is_rule(l),
        is_rule(l) ==> !is_table_row(l),
{
    reveal_strlit("```");
    reveal_strlit("~~~");
    reveal_strlit("- ");
    reveal_strlit("* ");
    reveal_strlit("+ ");
    reveal_strlit("![");
    let t = trim_start(l);
    let u = trim(l);
    lemma_first(l);
    lemma_digit_run(t);
    crate::text::lemma_run_of(t, '#');
    if t.len() >= 3 {
        assert(t.take(3)[0] == t[0]);
    }
    if t.len() >= 2 {
        assert(t.take(2)[0] == t[0]);
    }
    if u.len() >= 2 {
        assert(u.take(2)[0] == u[0]);
    }
    if heading_level(l) is Some {
        assert(t[0] == '#');
    }
    if quote_depth(l) is Some {
        assert(t[0] == '>');
    }
    if list_item(l) is Some && t.len() > 0 && t[0] != '-' && t[0] != '*' && t[0] != '+' {
        assert(is_digit(t[0]));
    }
    if is_rule(l) {
        lemma_three(u, '-');
        lemma_three(u, '*');
        lemma_three(u, '_');
        assert(u.len() >= 3);
        assert(u[0] == '-' || u[0] == '*' || u[0] == '_' || u[0] == ' ');
        assert(!is_space(u[0]));
    }
}

/// Every block of a scan is of the kind that its first line tells, its lines are what that
/// kind asks for, and it reaches to the first line that does not belong to it any more: tables,
/// quotes, code, items and paragraphs are as long as they can be.
pub proof fn blocks_reach_as_far_as_they_can(m: InputModel, j: int)
    requires
        0 <= j < blocks_from(m, 0).len(),
    ensures
        ({
            let b = blocks_from(m, 0)[j];
            let (i, e) = (b.first_line - m.first_line, b.end_line - m.first_line);
            &&& kind_fits(b.kind, m.lines, i)
            &&& reaches(b.kind, m.lines, i, e)
        }),
{
    lemma_blocks_skip(m, 0, j);
    let b = blocks_from(m, 0)[j];
    let i = b.first_line - m.first_line;
    lemma_shape_reaches(m.lines, i);
}

proof fn lemma_shape_reaches(lines: Seq<Seq<char>>, i: int)
    requires
        0 <= i < lines.len(),
    ensures
        kind_fits(shape_at(lines, i).0, lines, i),
        reaches(shape_at(lines, i).0, lines, i, shape_at(lines, i).1),
{
    let l = lines[i];
    let (kind, e) = shape_at(lines, i);
    lemma_shape_at(lines, i);
    lemma_one_of(l);
    lemma_upto(lines, i + 1, code_line());
    lemma_upto(lines, i + 1, quote_line());
    lemma_upto(lines, i + 1, plain_line());
    if let Some(it) = list_item(l) {
        lemma_upto(lines, i + 1, item_line(it.indent));
    }
    if i + 1 < lines.len() {
        lemma_upto(lines, i + 2, row_line());
    }
    match kind {
        KindModel::CodeFence { closed, .. } => {
            assert forall|k: int| i < k < e && (closed ==> k < e - 1) implies !is_fence_close(
                #[trigger] lines[k],
            ) by {
                assert(code_line()(lines[k]));
            }
            if closed {
                assert(!code_line()(lines[e - 1]));
            }
        },
        KindModel::Quote { .. } => {
            assert forall|k: int| i <= k < e implies quote_depth(#[trigger] lines[k]) is Some by {
                if k > i {
                    assert(quote_line()(lines[k]));
                }
            }
            if e < lines.len() {
                assert(!quote_line()(lines[e]));
            }
        },
        KindModel::List { indent, .. } => {
            assert forall|k: int| i < k < e implies !stands_alone(#[trigger] lines[k])
                && lead_bytes(lines[k]) > indent by {
                assert(item_line(indent)(lines[k]));
            }
            if e < lines.len() {
                assert(!item_line(indent)(lines[e]));
            }
        },
        KindModel::Table => {
            assert forall|k: int| i + 2 <= k < e implies is_table_row(#[trigger] lines[k]) by {
                assert(row_line()(lines[k]));
            }
            if e < lines.len() {
                assert(!row_line()(lines[e]));
            }
        },
        KindModel::Paragraph => {
            assert forall|k: int| i <= k < e implies !stands_alone(#[trigger] lines[k]) by {
                if k > i {
                    assert(plain_line()(lines[k]));
                }
            }
            if e < lines.len() {
                assert(!plain_line()(lines[e]));
            }
        },
        _ => {},
    }
}

} // verus!
