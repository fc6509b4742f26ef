//! Block-level Markdown, recognised line by line.
//!
//! Scanning works on any run of lines, so a view can parse just the lines that
//! it shows; and every block knows its lines and bytes, so that a position in
//! the shown text leads back to the source.
use crate::inline::{
    faithful, has_marker, inline_of, inline_ok, offsets_round_trip, parse_inline,
    plain_text_maps_to_itself, rendered_at, source_at, source_offset_stays_in_the_source,
    InlineModel, InlineText,
};
use crate::text::{
    blen, byte_len, chars_len, chars_of, count_lead_spaces, count_run, cut, find_char, first_word,
    first_word_chars, floor_index, index_at, index_of, is_space, join, last_index_of, lead_spaces,
    lemma_blen_bounds, lemma_blen_concat, lemma_blen_push, lemma_blen_split, lemma_floor_index_off,
    lemma_join_push_front, lemma_join_split, lemma_last_index_of, lemma_lead_spaces,
    lemma_lead_spaces_is, lemma_off_ends, lemma_off_step, lemma_run_of, lemma_split_join,
    lemma_split_lengths, lemma_split_nonempty, off, rfind_char, run_of, slices, split_chars,
    split_on, starts_with, string_of, texts, trim, trim_chars, trim_start, trim_start_chars,
};
use std::ops::Range;
use vstd::prelude::*;
use vstd::slice::slice_subrange;

verus! {

// ---------- kinds of lines ----------

#[derive(Clone, Copy, Debug, PartialEq, Eq, Structural)]
pub enum ListMarker {
    Bullet,
    /// A numbered item, with its number.
    Ordered(u64),
}

/// Whether the line holds nothing but white space.
pub open spec fn is_blank(s: Seq<char>) -> bool {
    trim(s).len() == 0
}

/// The level of a heading line: one to six `#`, then white space or the end.
pub open spec fn heading_level(s: Seq<char>) -> Option<u8> {
    let t = trim_start(s);
    let n = run_of(t, '#');
    if 1 <= n <= 6 && (n == t.len() || t[n] == ' ' || t[n] == '\t') {
        Some(n as u8)
    } else {
        None
    }
}

/// Whether a line that starts like this, after white space, opens or closes a code block.
pub open spec fn is_fence(t: Seq<char>) -> bool {
    "```"@.is_prefix_of(t) || "~~~"@.is_prefix_of(t)
}

/// Whether the line opens or closes a code block.
pub open spec fn is_fence_close(s: Seq<char>) -> bool {
    is_fence(trim_start(s))
}

/// The language that a line names which opens a code block: the first word behind the fence.
pub open spec fn fence_info(s: Seq<char>) -> Option<Option<Seq<char>>> {
    if is_fence_close(s) {
        let lang = first_word(trim_start(s).skip(3));
        Some(if lang.len() == 0 {
            None
        } else {
            Some(lang)
        })
    } else {
        None
    }
}

/// How many characters of `s` are `c`.
pub open spec fn count_of(s: Seq<char>, c: char) -> int
    decreases s.len(),
{
    if s.len() == 0 {
        0
    } else {
        count_of(s.drop_last(), c) + if s.last() == c {
            1int
        } else {
            0
        }
    }
}

/// At least three times `c`, and nothing else but blanks.
pub open spec fn is_rule_of(t: Seq<char>, c: char) -> bool {
    (forall|k: int| 0 <= k < t.len() ==> #[trigger] t[k] == c || t[k] == ' ') && count_of(t, c) >= 3
}

/// Whether the line draws a rule.
pub open spec fn is_rule(s: Seq<char>) -> bool {
    is_rule_of(trim(s), '-') || is_rule_of(trim(s), '*') || is_rule_of(trim(s), '_')
}

/// How many quote marks `t` starts with, each with at most one blank behind it.
pub open spec fn quote_marks(t: Seq<char>) -> int
    decreases t.len(),
{
    if t.len() == 0 || t[0] != '>' {
        0
    } else if t.len() > 1 && t[1] == ' ' {
        1 + quote_marks(t.skip(2))
    } else {
        1 + quote_marks(t.skip(1))
    }
}

/// The depth of a quoted line.
pub open spec fn quote_depth(s: Seq<char>) -> Option<u8> {
    let n = quote_marks(trim_start(s));
    if n == 0 {
        None
    } else {
        Some(if n > 255 {
            255u8
        } else {
            n as u8
        })
    }
}

pub open spec fn is_digit(c: char) -> bool {
    '0' <= c <= '9'
}

/// How many digits `t` starts with.
pub open spec fn digit_run(t: Seq<char>) -> int
    decreases t.len(),
{
    if t.len() == 0 || !is_digit(t[0]) {
        0
    } else {
        1 + digit_run(t.drop_first())
    }
}

/// The number that decimal digits stand for.
pub open spec fn decimal(s: Seq<char>) -> nat
    decreases s.len(),
{
    if s.len() == 0 {
        0
    } else {
        decimal(s.drop_last()) * 10 + (s.last() as u32 - '0' as u32) as nat
    }
}

/// The bytes of white space that `s` starts with.
pub open spec fn lead_bytes(s: Seq<char>) -> int {
    off(s, lead_spaces(s)) as int
}

/// A list item: its marker, its indentation (at most 255), the state of its
/// check box, and the length of the marker.
pub struct ItemModel {
    pub marker: ListMarker,
    pub indent: u8,
    pub task: Option<bool>,
    pub len: int,
}

/// The marker that `t` starts with, and its length.
pub open spec fn list_marker(t: Seq<char>) -> Option<(ListMarker, int)> {
    let d = digit_run(t);
    if "- "@.is_prefix_of(t) || "* "@.is_prefix_of(t) || "+ "@.is_prefix_of(t) {
        Some((ListMarker::Bullet, 2))
    } else if 1 <= d <= 9 && (". "@.is_prefix_of(t.skip(d)) || ") "@.is_prefix_of(t.skip(d))) {
        Some((ListMarker::Ordered(decimal(t.take(d)) as u64), d + 2))
    } else {
        None
    }
}

/// The check box that `t` starts with: whether it is ticked.
pub open spec fn check_box(t: Seq<char>) -> Option<bool> {
    if "[ ] "@.is_prefix_of(t) {
        Some(false)
    } else if "[x] "@.is_prefix_of(t) || "[X] "@.is_prefix_of(t) {
        Some(true)
    } else {
        None
    }
}

/// The list item that the line is.
pub open spec fn list_item(s: Seq<char>) -> Option<ItemModel> {
    let t = trim_start(s);
    match list_marker(t) {
        Some((marker, len)) => Some(
            ItemModel {
                marker,
                indent: if lead_bytes(s) > 255 {
                    255u8
                } else {
                    lead_bytes(s) as u8
                },
                task: check_box(t.skip(len)),
                len,
            },
        ),
        None => None,
    }
}

pub open spec fn is_table_row(s: Seq<char>) -> bool {
    trim(s).len() >= 2 && trim(s)[0] == '|'
}

/// The line under a table's head: bars, dashes, colons and blanks, with a dash.
pub open spec fn is_table_delim(s: Seq<char>) -> bool {
    let t = trim(s);
    &&& t.len() > 0 && t[0] == '|'
    &&& forall|k: int|
        0 <= k < t.len() ==> #[trigger] t[k] == '|' || t[k] == '-' || t[k] == ':' || t[k] == ' '
    &&& t.contains('-')
}

/// Where the bracket closes that opened before index `i` of `s`, with `open` brackets more
/// open; the length of `s` if it does not.
pub open spec fn bracket_end(s: Seq<char>, open: int, i: int) -> int
    decreases s.len() - i,
{
    if i < 0 || i >= s.len() {
        s.len() as int
    } else if s[i] == '(' {
        bracket_end(s, open + 1, i + 1)
    } else if s[i] != ')' {
        bracket_end(s, open, i + 1)
    } else if open == 0 {
        i
    } else {
        bracket_end(s, open - 1, i + 1)
    }
}

/// The address of an image that is all of the line: `![..](address)`. The line ends with a
/// bracket, and the one before the address does not close earlier.
pub open spec fn image_of(s: Seq<char>) -> Option<Seq<char>> {
    let t = trim(s);
    let rest = t.skip(2);
    let close = index_of(rest, ']');
    let after = rest.skip(close + 1);
    let path = after.skip(1);
    let src = trim(path.drop_last());
    if "!["@.is_prefix_of(t) && close < rest.len() && after.len() > 0 && after[0] == '(' && path.len()
        > 0 && path.last() == ')' && bracket_end(path, 0, 0) >= path.len() - 1 && src.len() > 0 {
        Some(src)
    } else {
        None
    }
}

/// Whether the line ends a paragraph above it.
pub open spec fn interrupts(s: Seq<char>) -> bool {
    ||| is_blank(s)
    ||| heading_level(s) is Some
    ||| fence_info(s) is Some
    ||| is_rule(s)
    ||| quote_depth(s) is Some
    ||| list_item(s) is Some
    ||| image_of(s) is Some
}

fn blank(cs: &[char]) -> (r: bool)
    ensures
        r == is_blank(cs@),
{
    trim_chars(cs).len() == 0
}

pub(crate) fn level_of(cs: &[char]) -> (r: Option<u8>)
    ensures
        r == heading_level(cs@),
{
    let t = trim_start_chars(cs);
    let n: usize = count_run(t, '#');
    if n >= 1 && n <= 6 && (n == t.len() || t[n] == ' ' || t[n] == '\t') {
        Some(n as u8)
    } else {
        None
    }
}

fn fence_here(cs: &[char]) -> (r: bool)
    ensures
        r == is_fence(cs@),
{
    starts_with(cs, "```") || starts_with(cs, "~~~")
}

fn fence_line(cs: &[char]) -> (r: bool)
    ensures
        r == is_fence_close(cs@),
{
    fence_here(trim_start_chars(cs))
}

proof fn lemma_fence_len(t: Seq<char>)
    requires
        is_fence(t),
    ensures
        t.len() >= 3,
{
    reveal_strlit("```");
    reveal_strlit("~~~");
}

/// The model of an optional string.
pub open spec fn opt_text(o: Option<String>) -> Option<Seq<char>> {
    match o {
        Some(s) => Some(s@),
        None => None,
    }
}

fn fence_lang(cs: &[char]) -> (r: Option<String>)
    requires
        is_fence_close(cs@),
    ensures
        fence_info(cs@) == Some(opt_text(r)),
{
    let t = trim_start_chars(cs);
    proof {
        lemma_fence_len(t@);
        assert(t@.subrange(3, t@.len() as int) =~= t@.skip(3));
    }
    let lang = first_word_chars(slice_subrange(t, 3, t.len()));
    if lang.len() == 0 {
        None
    } else {
        Some(string_of(lang))
    }
}

fn rule_of(t: &[char], c: char) -> (r: bool)
    ensures
        r == is_rule_of(t@, c),
{
    let mut n: usize = 0;
    let mut i: usize = 0;
    proof {
        assert(t@.take(0) =~= Seq::<char>::empty());
    }
    while i < t.len()
        invariant
            0 <= i <= t@.len(),
            n <= i,
            n == count_of(t@.take(i as int), c),
            forall|k: int| 0 <= k < i ==> #[trigger] t@[k] == c || t@[k] == ' ',
        decreases t@.len() - i,
    {
        proof {
            assert(t@.take(i + 1).drop_last() =~= t@.take(i as int));
            assert(t@.take(i + 1).last() == t@[i as int]);
        }
        if t[i] == c {
            n = n + 1;
        } else if t[i] != ' ' {
            return false;
        }
        i = i + 1;
    }
    proof {
        assert(t@.take(t@.len() as int) =~= t@);
    }
    n >= 3
}

fn rule_line(cs: &[char]) -> (r: bool)
    ensures
        r == is_rule(cs@),
{
    let t = trim_chars(cs);
    rule_of(t, '-') || rule_of(t, '*') || rule_of(t, '_')
}

proof fn lemma_quote_marks(t: Seq<char>)
    ensures
        0 <= quote_marks(t) <= t.len(),
    decreases t.len(),
{
    if t.len() > 0 && t[0] == '>' {
        if t.len() > 1 && t[1] == ' ' {
            lemma_quote_marks(t.skip(2));
        } else {
            lemma_quote_marks(t.skip(1));
        }
    }
}

fn depth_of(cs: &[char]) -> (r: Option<u8>)
    ensures
        r == quote_depth(cs@),
{
    let t = trim_start_chars(cs);
    let mut n: usize = 0;
    let mut i: usize = 0;
    proof {
        assert(t@.skip(0) =~= t@);
    }
    while i < t.len() && t[i] == '>'
        invariant
            0 <= n <= i <= t@.len(),
            quote_marks(t@) == n + quote_marks(t@.skip(i as int)),
        decreases t@.len() - i,
    {
        proof {
            assert(t@.skip(i as int)[0] == t@[i as int]);
            if i + 1 < t@.len() {
                assert(t@.skip(i as int)[1] == t@[i + 1]);
            }
            assert(t@.skip(i as int).skip(1) =~= t@.skip(i + 1));
            if i + 1 < t@.len() {
                assert(t@.skip(i as int).skip(2) =~= t@.skip(i + 2));
            }
        }
        n = n + 1;
        if i + 1 < t.len() && t[i + 1] == ' ' {
            i = i + 2;
        } else {
            i = i + 1;
        }
    }
    proof {
        if i < t@.len() {
            assert(t@.skip(i as int)[0] == t@[i as int]);
        }
    }
    if n == 0 {
        None
    } else if n > 255 {
        Some(255)
    } else {
        Some(n as u8)
    }
}

pub proof fn lemma_digit_run(t: Seq<char>)
    ensures
        0 <= digit_run(t) <= t.len(),
        forall|k: int| 0 <= k < digit_run(t) ==> is_digit(#[trigger] t[k]),
        digit_run(t) < t.len() ==> !is_digit(t[digit_run(t)]),
    decreases t.len(),
{
    if t.len() > 0 && is_digit(t[0]) {
        let u = t.drop_first();
        lemma_digit_run(u);
        assert forall|k: int| 0 <= k < digit_run(t) implies is_digit(#[trigger] t[k]) by {
            if k > 0 {
                assert(t[k] == u[k - 1]);
            }
        }
    }
}

spec fn pow10(k: nat) -> nat
    decreases k,
{
    if k == 0 {
        1
    } else {
        10 * pow10((k - 1) as nat)
    }
}

proof fn lemma_pow10(k: nat)
    requires
        k <= 9,
    ensures
        1 <= pow10(k) <= 1_000_000_000,
{
    reveal_with_fuel(pow10, 11);
}

/// How many digits `cs` starts with.
pub(crate) fn count_digits(cs: &[char]) -> (r: usize)
    ensures
        r == digit_run(cs@),
        r <= cs@.len(),
{
    let mut i: usize = 0;
    while i < cs.len() && '0' <= cs[i] && cs[i] <= '9'
        invariant
            0 <= i <= cs@.len(),
            forall|k: int| 0 <= k < i ==> is_digit(#[trigger] cs@[k]),
        decreases cs@.len() - i,
    {
        i = i + 1;
    }
    proof {
        lemma_digit_run(cs@);
        let m = digit_run(cs@);
        if m < i {
            assert(is_digit(cs@[m]));
        } else if i < m {
            assert(is_digit(cs@[i as int]));
        }
    }
    i
}

/// The number that up to nine digits stand for.
pub(crate) fn number_of(cs: &[char]) -> (r: u64)
    requires
        cs@.len() <= 9,
        forall|k: int| 0 <= k < cs@.len() ==> is_digit(#[trigger] cs@[k]),
    ensures
        r == decimal(cs@),
        r < 1_000_000_000,
{
    let mut n: u64 = 0;
    let mut i: usize = 0;
    proof {
        assert(cs@.take(0) =~= Seq::<char>::empty());
    }
    while i < cs.len()
        invariant
            0 <= i <= cs@.len(),
            cs@.len() <= 9,
            n == decimal(cs@.take(i as int)),
            n < pow10(i as nat),
            forall|k: int| 0 <= k < cs@.len() ==> is_digit(#[trigger] cs@[k]),
        decreases cs@.len() - i,
    {
        proof {
            assert(cs@.take(i + 1).drop_last() =~= cs@.take(i as int));
            assert(cs@.take(i + 1).last() == cs@[i as int]);
            assert(is_digit(cs@[i as int]));
            lemma_pow10(i as nat);
            lemma_pow10((i + 1) as nat);
            assert(pow10((i + 1) as nat) == 10 * pow10(i as nat));
        }
        n = n * 10 + (cs[i] as u32 - '0' as u32) as u64;
        i = i + 1;
    }
    proof {
        assert(cs@.take(cs@.len() as int) =~= cs@);
        lemma_pow10(i as nat);
    }
    n
}

/// A recognised list item.
pub(crate) struct Item {
    pub marker: ListMarker,
    pub indent: u8,
    pub task: Option<bool>,
    pub len: usize,
}

impl Item {
    pub(crate) open spec fn model(self) -> ItemModel {
        ItemModel {
            marker: self.marker,
            indent: self.indent,
            task: self.task,
            len: self.len as int,
        }
    }
}

proof fn lemma_marker_len(t: Seq<char>)
    ensures
        list_marker(t) matches Some((_, n)) ==> 2 <= n <= t.len(),
{
    reveal_strlit("- ");
    reveal_strlit("* ");
    reveal_strlit("+ ");
    reveal_strlit(". ");
    reveal_strlit(") ");
    lemma_digit_run(t);
}

pub(crate) fn marker_of(t: &[char]) -> (r: Option<(ListMarker, usize)>)
    ensures
        match r {
            Some((m, n)) => list_marker(t@) == Some((m, n as int)) && 2 <= n <= t@.len(),
            None => list_marker(t@) is None,
        },
{
    proof {
        lemma_marker_len(t@);
        lemma_digit_run(t@);
    }
    if starts_with(t, "- ") || starts_with(t, "* ") || starts_with(t, "+ ") {
        return Some((ListMarker::Bullet, 2));
    }
    let d: usize = count_digits(t);
    if d == 0 || d > 9 {
        return None;
    }
    let after = slice_subrange(t, d, t.len());
    proof {
        assert(after@ =~= t@.skip(d as int));
        assert(t@.subrange(0, d as int) =~= t@.take(d as int));
    }
    if starts_with(after, ". ") || starts_with(after, ") ") {
        let n: u64 = number_of(slice_subrange(t, 0, d));
        Some((ListMarker::Ordered(n), d + 2))
    } else {
        None
    }
}

pub(crate) fn box_of(t: &[char]) -> (r: Option<bool>)
    ensures
        r == check_box(t@),
{
    if starts_with(t, "[ ] ") {
        Some(false)
    } else if starts_with(t, "[x] ") || starts_with(t, "[X] ") {
        Some(true)
    } else {
        None
    }
}

/// The bytes of white space that `cs` starts with.
pub(crate) fn indent_of(cs: &[char]) -> (r: usize)
    requires
        blen(cs@) <= usize::MAX,
    ensures
        r == lead_bytes(cs@),
        r <= blen(cs@),
{
    let n: usize = count_lead_spaces(cs);
    proof {
        lemma_blen_split(cs@, n as int);
        assert(cs@.subrange(0, n as int) =~= cs@.take(n as int));
    }
    chars_len(slice_subrange(cs, 0, n))
}

/// The list item that the line is.
pub(crate) fn item_of(cs: &[char]) -> (r: Option<Item>)
    requires
        blen(cs@) <= usize::MAX,
    ensures
        match r {
            Some(it) => list_item(cs@) == Some(it.model()) && 2 <= it.len <= trim_start(cs@).len(),
            None => list_item(cs@) is None,
        },
{
    let t = trim_start_chars(cs);
    match marker_of(t) {
        Some((marker, len)) => {
            let lead: usize = indent_of(cs);
            let body = slice_subrange(t, len, t.len());
            proof {
                assert(body@ =~= t@.skip(len as int));
            }
            Some(
                Item {
                    marker,
                    indent: if lead > 255 {
                        255
                    } else {
                        lead as u8
                    },
                    task: box_of(body),
                    len,
                },
            )
        },
        None => None,
    }
}

fn table_row(cs: &[char]) -> (r: bool)
    ensures
        r == is_table_row(cs@),
{
    let t = trim_chars(cs);
    t.len() >= 2 && t[0] == '|'
}

fn table_delim(cs: &[char]) -> (r: bool)
    ensures
        r == is_table_delim(cs@),
{
    let t = trim_chars(cs);
    if t.len() == 0 || t[0] != '|' {
        return false;
    }
    let mut dash: bool = false;
    let mut i: usize = 0;
    while i < t.len()
        invariant
            0 <= i <= t@.len(),
            t@ == trim(cs@),
            t@.len() > 0,
            forall|k: int|
                0 <= k < i ==> #[trigger] t@[k] == '|' || t@[k] == '-' || t@[k] == ':' || t@[k]
                    == ' ',
            dash == exists|k: int| 0 <= k < i && #[trigger] t@[k] == '-',
        decreases t@.len() - i,
    {
        let c: char = t[i];
        if c == '-' {
            dash = true;
        } else if c != '|' && c != ':' && c != ' ' {
            return false;
        }
        i = i + 1;
    }
    dash
}

/// The address of an image that is all of the line; none if anything else stands in it.
pub fn image_src(s: &str) -> (r: Option<String>)
    ensures
        opt_text(r) == image_of(s@),
{
    let cs: Vec<char> = chars_of(s);
    image_chars(cs.as_slice())
}

/// Where the bracket closes that opened before `s`.
fn find_bracket(s: &[char]) -> (r: usize)
    ensures
        r == bracket_end(s@, 0, 0),
{
    let mut open: usize = 0;
    let mut i: usize = 0;
    while i < s.len()
        invariant
            0 <= i <= s@.len(),
            open <= i,
            bracket_end(s@, 0, 0) == bracket_end(s@, open as int, i as int),
        decreases s@.len() - i,
    {
        if s[i] == '(' {
            open = open + 1;
        } else if s[i] == ')' {
            if open == 0 {
                return i;
            }
            open = open - 1;
        }
        i = i + 1;
    }
    i
}

fn image_chars(cs: &[char]) -> (r: Option<String>)
    ensures
        opt_text(r) == image_of(cs@),
{
    let t = trim_chars(cs);
    proof {
        reveal_strlit("![");
    }
    if !starts_with(t, "![") {
        return None;
    }
    let rest = slice_subrange(t, 2, t.len());
    let close: usize = find_char(rest, ']');
    proof {
        assert(rest@ =~= t@.skip(2));
    }
    if close >= rest.len() {
        return None;
    }
    let after = slice_subrange(rest, close + 1, rest.len());
    proof {
        assert(after@ =~= rest@.skip(close + 1));
    }
    if after.len() == 0 || after[0] != '(' {
        return None;
    }
    let path = slice_subrange(after, 1, after.len());
    proof {
        assert(path@ =~= after@.skip(1));
    }
    let n: usize = path.len();
    if n == 0 || path[n - 1] != ')' || find_bracket(path) < n - 1 {
        return None;
    }
    let src = trim_chars(slice_subrange(path, 0, n - 1));
    proof {
        assert(path@.subrange(0, n - 1) =~= path@.drop_last());
    }
    if src.len() == 0 {
        None
    } else {
        Some(string_of(src))
    }
}

fn interrupts_paragraph(cs: &[char]) -> (r: bool)
    requires
        blen(cs@) <= usize::MAX,
    ensures
        r == interrupts(cs@),
{
    blank(cs) || level_of(cs).is_some() || fence_line(cs) || rule_line(cs) || depth_of(cs).is_some()
        || item_of(cs).is_some() || image_chars(cs).is_some()
}

// ---------- blocks ----------

#[derive(Debug, PartialEq, Eq)]
pub enum BlockKind {
    /// An empty line, a block of its own.
    Blank,
    Heading { level: u8 },
    Paragraph,
    Quote { depth: u8 },
    List {
        marker: ListMarker,
        indent: u8,
        /// `- [ ]` or `- [x]`
        task: Option<bool>,
    },
    CodeFence {
        lang: Option<String>,
        /// Whether a closing fence was found.
        closed: bool,
    },
    Rule,
    Table,
    /// A line that is an image.
    Image { src: String },
}

pub enum KindModel {
    Blank,
    Heading { level: u8 },
    Paragraph,
    Quote { depth: u8 },
    List { marker: ListMarker, indent: u8, task: Option<bool> },
    CodeFence { lang: Option<Seq<char>>, closed: bool },
    Rule,
    Table,
    Image { src: Seq<char> },
}

impl View for BlockKind {
    type V = KindModel;

    open spec fn view(&self) -> KindModel {
        match *self {
            BlockKind::Blank => KindModel::Blank,
            BlockKind::Heading { level } => KindModel::Heading { level },
            BlockKind::Paragraph => KindModel::Paragraph,
            BlockKind::Quote { depth } => KindModel::Quote { depth },
            BlockKind::List { marker, indent, task } => KindModel::List { marker, indent, task },
            BlockKind::CodeFence { lang, closed } => KindModel::CodeFence {
                lang: opt_text(lang),
                closed,
            },
            BlockKind::Rule => KindModel::Rule,
            BlockKind::Table => KindModel::Table,
            BlockKind::Image { src } => KindModel::Image { src: src@ },
        }
    }
}

impl Clone for BlockKind {
    fn clone(&self) -> (r: BlockKind)
        ensures
            r@ == self@,
    {
        match self {
            BlockKind::Blank => BlockKind::Blank,
            BlockKind::Heading { level } => BlockKind::Heading { level: *level },
            BlockKind::Paragraph => BlockKind::Paragraph,
            BlockKind::Quote { depth } => BlockKind::Quote { depth: *depth },
            BlockKind::List { marker, indent, task } => BlockKind::List {
                marker: *marker,
                indent: *indent,
                task: *task,
            },
            BlockKind::CodeFence { lang, closed } => BlockKind::CodeFence {
                lang: match lang {
                    Some(l) => Some(l.clone()),
                    None => None,
                },
                closed: *closed,
            },
            BlockKind::Rule => BlockKind::Rule,
            BlockKind::Table => BlockKind::Table,
            BlockKind::Image { src } => BlockKind::Image { src: src.clone() },
        }
    }
}

/// Whether the text of such a block is parsed for inline Markdown.
pub open spec fn has_inline(k: KindModel) -> bool {
    !(k is CodeFence || k is Rule || k is Blank || k is Image)
}

impl BlockKind {
    fn needs_inline(&self) -> (r: bool)
        ensures
            r == has_inline(self@),
    {
        match self {
            BlockKind::CodeFence { .. } => false,
            BlockKind::Rule => false,
            BlockKind::Blank => false,
            BlockKind::Image { .. } => false,
            _ => true,
        }
    }
}

/// The first index from `j` on whose line does not meet `p`; the number of lines
/// if there is none.
pub open spec fn upto(lines: Seq<Seq<char>>, j: int, p: spec_fn(Seq<char>) -> bool) -> int
    decreases lines.len() - j,
{
    if 0 <= j < lines.len() && p(lines[j]) {
        upto(lines, j + 1, p)
    } else {
        j
    }
}

pub proof fn lemma_upto(lines: Seq<Seq<char>>, j: int, p: spec_fn(Seq<char>) -> bool)
    requires
        0 <= j <= lines.len(),
    ensures
        j <= upto(lines, j, p) <= lines.len(),
        forall|k: int| j <= k < upto(lines, j, p) ==> p(#[trigger] lines[k]),
        upto(lines, j, p) < lines.len() ==> !p(lines[upto(lines, j, p)]),
    decreases lines.len() - j,
{
    if j < lines.len() && p(lines[j]) {
        lemma_upto(lines, j + 1, p);
    }
}

/// Lines inside a code block.
pub open spec fn code_line() -> spec_fn(Seq<char>) -> bool {
    |l: Seq<char>| !is_fence_close(l)
}

/// Lines that go on a quote.
pub open spec fn quote_line() -> spec_fn(Seq<char>) -> bool {
    |l: Seq<char>| quote_depth(l) is Some
}

/// Lines that go on a list item: plain ones, indented deeper than its marker.
pub open spec fn item_line(indent: u8) -> spec_fn(Seq<char>) -> bool {
    |l: Seq<char>| !interrupts(l) && lead_bytes(l) > indent
}

/// Rows of a table.
pub open spec fn row_line() -> spec_fn(Seq<char>) -> bool {
    |l: Seq<char>| is_table_row(l)
}

/// Lines that go on a paragraph.
pub open spec fn plain_line() -> spec_fn(Seq<char>) -> bool {
    |l: Seq<char>| !interrupts(l)
}

/// The block that starts at line `i`: what it is, and the line behind it.
pub open spec fn shape_at(lines: Seq<Seq<char>>, i: int) -> (KindModel, int) {
    let line = lines[i];
    if is_blank(line) {
        (KindModel::Blank, i + 1)
    } else if let Some(level) = heading_level(line) {
        (KindModel::Heading { level }, i + 1)
    } else if let Some(lang) = fence_info(line) {
        let j = upto(lines, i + 1, code_line());
        if j < lines.len() {
            (KindModel::CodeFence { lang, closed: true }, j + 1)
        } else {
            (KindModel::CodeFence { lang, closed: false }, j)
        }
    } else if is_rule(line) {
        (KindModel::Rule, i + 1)
    } else if let Some(depth) = quote_depth(line) {
        (KindModel::Quote { depth }, upto(lines, i + 1, quote_line()))
    } else if let Some(it) = list_item(line) {
        (
            KindModel::List { marker: it.marker, indent: it.indent, task: it.task },
            upto(lines, i + 1, item_line(it.indent)),
        )
    } else if is_table_row(line) && i + 1 < lines.len() && is_table_delim(lines[i + 1]) {
        (KindModel::Table, upto(lines, i + 2, row_line()))
    } else if let Some(src) = image_of(line) {
        (KindModel::Image { src }, i + 1)
    } else {
        (KindModel::Paragraph, upto(lines, i + 1, plain_line()))
    }
}

/// Every block takes at least one line and ends inside the input.
pub proof fn lemma_shape_at(lines: Seq<Seq<char>>, i: int)
    requires
        0 <= i < lines.len(),
    ensures
        i < shape_at(lines, i).1 <= lines.len(),
{
    lemma_upto(lines, i + 1, code_line());
    lemma_upto(lines, i + 1, quote_line());
    lemma_upto(lines, i + 1, plain_line());
    if let Some(it) = list_item(lines[i]) {
        lemma_upto(lines, i + 1, item_line(it.indent));
    }
    if i + 1 < lines.len() {
        lemma_upto(lines, i + 2, row_line());
    }
}

// ---------- the text of a block, without its markers ----------

/// A quoted line without its marks.
pub open spec fn unquoted(l: Seq<char>) -> Seq<char> {
    let t = trim_start(l);
    let u = t.skip(run_of(t, '>'));
    if u.len() > 0 && u[0] == ' ' {
        u.skip(1)
    } else {
        u
    }
}

/// A heading without its marks.
pub open spec fn unmarked(s: Seq<char>) -> Seq<char> {
    let t = trim_start(s);
    trim_start(t.skip(run_of(t, '#')))
}

/// `s` from byte `b` on, empty if there is no such byte between two characters.
pub open spec fn from_byte(s: Seq<char>, b: int) -> Seq<char> {
    let i = floor_index(s, b);
    if off(s, i) == b {
        s.skip(i)
    } else {
        Seq::empty()
    }
}

/// The length of a list item's marker with its check box.
pub open spec fn item_cut(task: Option<bool>, source: Seq<char>) -> int {
    (match list_item(source) {
        Some(it) => it.len,
        None => 0,
    }) + if task is Some {
        4int
    } else {
        0
    }
}

/// `n` lines from which nothing was cut.
pub open spec fn no_strip(n: int) -> Seq<u32> {
    Seq::new(n as nat, |k: int| 0u32)
}

/// A length, as it is kept for a line.
pub open spec fn strip_len(n: int) -> u32 {
    (n as usize) as u32
}

/// The text of a block that is parsed for inline Markdown, and how many bytes
/// were cut off each line's start to get it.
pub open spec fn inline_source(kind: KindModel, source: Seq<char>) -> (Seq<char>, Seq<u32>) {
    let parts = split_on(source, '\n');
    match kind {
        KindModel::Heading { .. } => (
            unmarked(source),
            seq![strip_len(blen(source) - blen(unmarked(source)))],
        ),
        KindModel::Quote { .. } => (
            join(parts.map_values(|l: Seq<char>| unquoted(l)), '\n'),
            parts.map_values(|l: Seq<char>| strip_len(blen(l) - blen(unquoted(l)))),
        ),
        KindModel::List { task, .. } => {
            let cut = item_cut(task, source);
            (
                from_byte(trim_start(source), cut),
                seq![strip_len(lead_bytes(source) + cut)] + no_strip(parts.len() - 1),
            )
        },
        _ => (source, no_strip(parts.len() as int)),
    }
}

proof fn lemma_trim_start_blen(s: Seq<char>)
    ensures
        blen(s) == lead_bytes(s) + blen(trim_start(s)),
        trim_start(s).len() <= s.len(),
{
    lemma_lead_spaces(s);
    lemma_blen_split(s, lead_spaces(s));
}

proof fn lemma_unquoted_blen(l: Seq<char>)
    ensures
        blen(unquoted(l)) <= blen(l),
{
    let t = trim_start(l);
    lemma_trim_start_blen(l);
    lemma_run_of(t, '>');
    lemma_blen_split(t, run_of(t, '>'));
    let u = t.skip(run_of(t, '>'));
    if u.len() > 0 {
        lemma_blen_split(u, 1);
    }
}

proof fn lemma_unmarked_blen(s: Seq<char>)
    ensures
        blen(unmarked(s)) <= blen(s),
{
    let t = trim_start(s);
    lemma_trim_start_blen(s);
    lemma_run_of(t, '#');
    lemma_blen_split(t, run_of(t, '#'));
    lemma_trim_start_blen(t.skip(run_of(t, '#')));
}

fn unquote<'a>(l: &'a [char]) -> (r: &'a [char])
    ensures
        r@ == unquoted(l@),
{
    let t = trim_start_chars(l);
    let n: usize = count_run(t, '>');
    let u = slice_subrange(t, n, t.len());
    proof {
        assert(u@ =~= t@.skip(n as int));
    }
    if u.len() > 0 && u[0] == ' ' {
        let w = slice_subrange(u, 1, u.len());
        proof {
            assert(w@ =~= u@.skip(1));
        }
        w
    } else {
        u
    }
}

fn unmark<'a>(s: &'a [char]) -> (r: &'a [char])
    ensures
        r@ == unmarked(s@),
{
    let t = trim_start_chars(s);
    let n: usize = count_run(t, '#');
    let u = slice_subrange(t, n, t.len());
    proof {
        assert(u@ =~= t@.skip(n as int));
    }
    trim_start_chars(u)
}

/// A length, as it is kept for a line.
#[verifier::truncate]
fn as_strip(n: usize) -> (r: u32)
    ensures
        r == strip_len(n as int),
{
    n as u32
}

fn zeros(n: usize) -> (r: Vec<u32>)
    ensures
        r@ == no_strip(n as int),
{
    let mut v: Vec<u32> = Vec::new();
    let mut k: usize = 0;
    while k < n
        invariant
            0 <= k <= n,
            v@ == no_strip(k as int),
        decreases n - k,
    {
        v.push(0);
        k = k + 1;
        proof {
            assert(v@ =~= no_strip(k as int));
        }
    }
    v
}

pub proof fn lemma_join_snoc(parts: Seq<Seq<char>>, p: Seq<char>, c: char)
    requires
        parts.len() >= 1,
    ensures
        join(parts.push(p), c) == join(parts, c).push(c) + p,
    decreases parts.len(),
{
    let all = parts.push(p);
    if parts.len() == 1 {
        assert(all.drop_first() =~= seq![p]);
        assert(join(seq![p], c) == p);
        assert(join(all, c) == parts[0].push(c) + join(all.drop_first(), c));
    } else {
        assert(all.drop_first() =~= parts.drop_first().push(p));
        lemma_join_snoc(parts.drop_first(), p, c);
        assert(join(all, c) =~= join(parts, c).push(c) + p);
    }
}

/// The text of a block that is parsed for inline Markdown, with what was cut off.
fn inline_source_of(kind: &BlockKind, source: &[char]) -> (r: (Vec<char>, Vec<u32>))
    requires
        blen(source@) + 13 <= usize::MAX,
    ensures
        (r.0@, r.1@) == inline_source(kind@, source@),
{
    let ghost parts = split_on(source@, '\n');
    match kind {
        BlockKind::Heading { .. } => {
            let t = unmark(source);
            proof {
                lemma_unmarked_blen(source@);
            }
            let mut strip: Vec<u32> = Vec::new();
            strip.push(as_strip(chars_len(source) - chars_len(t)));
            proof {
                assert(strip@ =~= inline_source(kind@, source@).1);
            }
            (vstd::slice::slice_to_vec(t), strip)
        },
        BlockKind::Quote { .. } => {
            let lines: Vec<&[char]> = split_chars(source, '\n');
            let mut text: Vec<char> = Vec::new();
            let mut strip: Vec<u32> = Vec::new();
            let ghost bare = parts.map_values(|l: Seq<char>| unquoted(l));
            let mut k: usize = 0;
            proof {
                lemma_split_lengths(source@, '\n');
            }
            while k < lines.len()
                invariant
                    0 <= k <= lines@.len(),
                    parts == split_on(source@, '\n'),
                    slices(lines@) == parts,
                    bare == parts.map_values(|l: Seq<char>| unquoted(l)),
                    text@ == join(bare.take(k as int), '\n'),
                    strip@ == parts.map_values(
                        |l: Seq<char>| strip_len(blen(l) - blen(unquoted(l))),
                    ).take(k as int),
                    forall|j: int| 0 <= j < parts.len() ==> #[trigger] blen(parts[j]) <= blen(source@),
                    blen(source@) <= usize::MAX,
                decreases lines@.len() - k,
            {
                let l = lines[k];
                proof {
                    assert(l@ == parts[k as int]);
                    assert(blen(parts[k as int]) <= blen(source@));
                    lemma_unquoted_blen(l@);
                }
                let t = unquote(l);
                strip.push(as_strip(chars_len(l) - chars_len(t)));
                if k > 0 {
                    text.push('\n');
                }
                let mut tv: Vec<char> = vstd::slice::slice_to_vec(t);
                let ghost before = text@;
                text.append(&mut tv);
                proof {
                    assert(text@ == before + t@);
                    assert(bare.take(k + 1) =~= bare.take(k as int).push(t@));
                    if k > 0 {
                        lemma_join_snoc(bare.take(k as int), t@, '\n');
                        assert(text@ =~= join(bare.take(k as int), '\n').push('\n') + t@);
                    } else {
                        assert(bare.take(0) =~= Seq::<Seq<char>>::empty());
                        assert(bare.take(1) =~= seq![t@]);
                        assert(text@ =~= t@);
                    }
                    assert(strip@ =~= parts.map_values(
                        |l: Seq<char>| strip_len(blen(l) - blen(unquoted(l))),
                    ).take(k + 1));
                }
                k = k + 1;
            }
            proof {
                assert(bare.take(k as int) =~= bare);
                assert(strip@ =~= inline_source(kind@, source@).1);
            }
            (text, strip)
        },
        BlockKind::List { task, .. } => {
            let t = trim_start_chars(source);
            let lead: usize = indent_of(source);
            proof {
                lemma_trim_start_blen(source@);
            }
            let len: usize = match item_of(source) {
                Some(it) => it.len,
                None => 0,
            };
            proof {
                lemma_blen_bounds(t@);
                lemma_item_len(source@);
            }
            let cut: usize = if task.is_some() {
                len + 4
            } else {
                len
            };
            let i: usize = index_at(t, cut);
            proof {
                lemma_blen_split(t@, i as int);
                assert(t@.subrange(0, i as int) =~= t@.take(i as int));
                assert(t@.subrange(i as int, t@.len() as int) =~= t@.skip(i as int));
            }
            let body: Vec<char> = if chars_len(slice_subrange(t, 0, i)) == cut {
                vstd::slice::slice_to_vec(slice_subrange(t, i, t.len()))
            } else {
                Vec::new()
            };
            let lines: Vec<&[char]> = split_chars(source, '\n');
            let mut strip: Vec<u32> = Vec::new();
            strip.push(as_strip(lead + cut));
            proof {
                lemma_split_nonempty(source@, '\n');
                assert(slices(lines@).len() == lines@.len());
            }
            let mut rest: Vec<u32> = zeros(lines.len() - 1);
            strip.append(&mut rest);
            proof {
                assert(strip@ =~= inline_source(kind@, source@).1);
                assert(body@ =~= inline_source(kind@, source@).0);
            }
            (body, strip)
        },
        _ => {
            let lines: Vec<&[char]> = split_chars(source, '\n');
            proof {
                assert(slices(lines@).len() == lines@.len());
            }
            (vstd::slice::slice_to_vec(source), zeros(lines.len()))
        },
    }
}

proof fn lemma_item_len(s: Seq<char>)
    ensures
        list_item(s) matches Some(it) ==> 2 <= it.len <= 11,
{
    lemma_marker_len(trim_start(s));
}

// ---------- scanning ----------

/// A block of a document.
#[derive(Debug)]
pub struct Block {
    pub kind: BlockKind,
    /// Its lines.
    pub lines: Range<usize>,
    /// Its bytes, without the line break at its end.
    pub bytes: Range<usize>,
    /// Its Markdown text, lines joined by `\n`.
    pub source: String,
    /// What it shows; `None` for code, rules, blank lines and images.
    pub inline: Option<InlineText>,
    /// How many bytes were cut off each line's start before inline parsing.
    pub strip: Vec<u32>,
}

pub struct BlockModel {
    pub kind: KindModel,
    pub first_line: int,
    pub end_line: int,
    pub lo: int,
    pub hi: int,
    pub source: Seq<char>,
    pub inline: Option<InlineModel>,
    pub strip: Seq<u32>,
}

pub open spec fn opt_inline(o: Option<InlineText>) -> Option<InlineModel> {
    match o {
        Some(t) => Some(t@),
        None => None,
    }
}

impl View for Block {
    type V = BlockModel;

    open spec fn view(&self) -> BlockModel {
        BlockModel {
            kind: self.kind@,
            first_line: self.lines.start as int,
            end_line: self.lines.end as int,
            lo: self.bytes.start as int,
            hi: self.bytes.end as int,
            source: self.source@,
            inline: opt_inline(self.inline),
            strip: self.strip@,
        }
    }
}

impl Clone for Block {
    fn clone(&self) -> (r: Block)
        ensures
            r@ == self@,
    {
        let mut strip: Vec<u32> = Vec::new();
        let mut k: usize = 0;
        while k < self.strip.len()
            invariant
                0 <= k <= self.strip@.len(),
                strip@ == self.strip@.take(k as int),
            decreases self.strip@.len() - k,
        {
            strip.push(self.strip[k]);
            proof {
                assert(strip@ =~= self.strip@.take(k + 1));
            }
            k = k + 1;
        }
        proof {
            assert(self.strip@.take(k as int) =~= self.strip@);
        }
        Block {
            kind: self.kind.clone(),
            lines: self.lines.start..self.lines.end,
            bytes: self.bytes.start..self.bytes.end,
            source: self.source.clone(),
            inline: match &self.inline {
                Some(t) => Some(t.clone()),
                None => None,
            },
            strip,
        }
    }
}

pub open spec fn blocks_model(v: Seq<Block>) -> Seq<BlockModel> {
    v.map_values(|b: Block| b@)
}

/// Lines of a document, with where they stand in it.
pub struct LineInput<'a> {
    /// The lines, without their line breaks.
    pub lines: &'a [String],
    /// The line number of the first of them.
    pub first_line: usize,
    /// The byte at which the first of them starts.
    pub first_byte: usize,
    /// The bytes of each line's break; one byte where there is no entry.
    pub eol_widths: &'a [u8],
}

pub struct InputModel {
    pub lines: Seq<Seq<char>>,
    pub first_line: int,
    pub first_byte: int,
    pub eols: Seq<u8>,
}

impl<'a> View for LineInput<'a> {
    type V = InputModel;

    open spec fn view(&self) -> InputModel {
        InputModel {
            lines: texts(self.lines@),
            first_line: self.first_line as int,
            first_byte: self.first_byte as int,
            eols: self.eol_widths@,
        }
    }
}

/// The bytes of the break behind line `i`.
pub open spec fn eol_width(eols: Seq<u8>, i: int) -> int {
    if 0 <= i < eols.len() {
        eols[i] as int
    } else {
        1
    }
}

/// The byte at which line `i` starts.
pub open spec fn line_start(m: InputModel, i: int) -> int
    decreases i,
{
    if i <= 0 {
        m.first_byte
    } else {
        line_start(m, i - 1) + blen(m.lines[i - 1]) + eol_width(m.eols, i - 1)
    }
}

/// The block that starts at line `i` of the input.
pub open spec fn block_at(m: InputModel, i: int) -> BlockModel {
    let (kind, end) = shape_at(m.lines, i);
    let source = join(m.lines.subrange(i, end), '\n');
    BlockModel {
        kind,
        first_line: m.first_line + i,
        end_line: m.first_line + end,
        lo: line_start(m, i),
        hi: line_start(m, end - 1) + blen(m.lines[end - 1]),
        source,
        inline: if has_inline(kind) {
            Some(inline_of(inline_source(kind, source).0))
        } else {
            None
        },
        strip: if has_inline(kind) {
            inline_source(kind, source).1
        } else {
            Seq::empty()
        },
    }
}

/// The blocks of the input from line `i` on.
pub open spec fn blocks_from(m: InputModel, i: int) -> Seq<BlockModel>
    decreases m.lines.len() - i,
{
    if 0 <= i < m.lines.len() {
        proof {
            lemma_shape_at(m.lines, i);
        }
        seq![block_at(m, i)] + blocks_from(m, shape_at(m.lines, i).1)
    } else {
        Seq::empty()
    }
}

pub proof fn lemma_line_start_mono(m: InputModel, i: int, j: int)
    requires
        0 <= i <= j,
    ensures
        line_start(m, i) <= line_start(m, j),
        i < j ==> line_start(m, i) + blen(m.lines[i]) <= line_start(m, j),
    decreases j - i,
{
    if i < j {
        lemma_line_start_mono(m, i, j - 1);
    }
}

/// The length of joined lines: all of them, and one byte between each two.
proof fn lemma_join_blen(m: InputModel, i: int, end: int)
    requires
        0 <= i < end <= m.lines.len(),
    ensures
        blen(join(m.lines.subrange(i, end), '\n')) <= line_start(m, end) - line_start(m, i) + (end
            - i - 1),
    decreases end - i,
{
    let p = m.lines.subrange(i, end);
    if end == i + 1 {
        assert(p[0] == m.lines[i]);
    } else {
        let q = m.lines.subrange(i, end - 1);
        lemma_join_blen(m, i, end - 1);
        assert(p =~= q.push(m.lines[end - 1]));
        lemma_join_snoc(q, m.lines[end - 1], '\n');
        lemma_blen_concat(join(q, '\n').push('\n'), m.lines[end - 1]);
        lemma_blen_push(join(q, '\n'), '\n');
    }
}

/// The characters of each line.
spec fn vec_texts(v: Seq<Vec<char>>) -> Seq<Seq<char>> {
    v.map_values(|l: Vec<char>| l@)
}

/// What every line fits in.
spec fn lines_fit(lines: Seq<Seq<char>>) -> bool {
    forall|k: int| 0 <= k < lines.len() ==> #[trigger] blen(lines[k]) <= usize::MAX
}

/// The block that starts at line `i`, and the line behind it.
fn shape_of(lines: &Vec<Vec<char>>, i: usize) -> (r: (BlockKind, usize))
    requires
        i < lines@.len(),
        lines_fit(vec_texts(lines@)),
    ensures
        (r.0@, r.1 as int) == shape_at(vec_texts(lines@), i as int),
        i < r.1 <= lines@.len(),
{
    let ghost ls = vec_texts(lines@);
    let n: usize = lines.len();
    let line = lines[i].as_slice();
    proof {
        lemma_shape_at(ls, i as int);
        assert(ls[i as int] == line@);
        assert(blen(ls[i as int]) <= usize::MAX);
    }
    if blank(line) {
        return (BlockKind::Blank, i + 1);
    }
    if let Some(level) = level_of(line) {
        return (BlockKind::Heading { level }, i + 1);
    }
    if fence_line(line) {
        let lang: Option<String> = fence_lang(line);
        let mut j: usize = i + 1;
        while j < n && !fence_line(lines[j].as_slice())
            invariant
                n == lines@.len(),
                i < j <= n,
                ls == vec_texts(lines@),
                upto(ls, i + 1, code_line()) == upto(ls, j as int, code_line()),
            decreases n - j,
        {
            proof {
                assert(ls[j as int] == lines@[j as int]@);
            }
            j = j + 1;
        }
        proof {
            if j < n {
                assert(ls[j as int] == lines@[j as int]@);
            }
        }
        if j < n {
            return (BlockKind::CodeFence { lang, closed: true }, j + 1);
        }
        return (BlockKind::CodeFence { lang, closed: false }, j);
    }
    if rule_line(line) {
        return (BlockKind::Rule, i + 1);
    }
    if let Some(depth) = depth_of(line) {
        let mut j: usize = i + 1;
        while j < n && depth_of(lines[j].as_slice()).is_some()
            invariant
                n == lines@.len(),
                i < j <= n,
                ls == vec_texts(lines@),
                upto(ls, i + 1, quote_line()) == upto(ls, j as int, quote_line()),
            decreases n - j,
        {
            proof {
                assert(ls[j as int] == lines@[j as int]@);
            }
            j = j + 1;
        }
        proof {
            if j < n {
                assert(ls[j as int] == lines@[j as int]@);
            }
        }
        return (BlockKind::Quote { depth }, j);
    }
    if let Some(it) = item_of(line) {
        let mut j: usize = i + 1;
        let indent: u8 = it.indent;
        while j < n && goes_on_item(lines[j].as_slice(), indent, Ghost(j as int), Ghost(ls))
            invariant
                n == lines@.len(),
                i < j <= n,
                ls == vec_texts(lines@),
                lines_fit(ls),
                forall|k: int| 0 <= k < n ==> #[trigger] lines@[k]@ == ls[k],
                upto(ls, i + 1, item_line(indent)) == upto(ls, j as int, item_line(indent)),
            decreases n - j,
        {
            proof {
                assert(ls[j as int] == lines@[j as int]@);
            }
            j = j + 1;
        }
        proof {
            if j < n {
                assert(ls[j as int] == lines@[j as int]@);
            }
        }
        return (BlockKind::List { marker: it.marker, indent: it.indent, task: it.task }, j);
    }
    proof {
        if i + 1 < n {
            assert(ls[i + 1] == lines@[i + 1]@);
        }
    }
    if table_row(line) && i + 1 < n && table_delim(lines[i + 1].as_slice()) {
        let mut j: usize = i + 2;
        while j < n && table_row(lines[j].as_slice())
            invariant
                n == lines@.len(),
                i + 1 < j <= n,
                ls == vec_texts(lines@),
                upto(ls, i + 2, row_line()) == upto(ls, j as int, row_line()),
            decreases n - j,
        {
            proof {
                assert(ls[j as int] == lines@[j as int]@);
            }
            j = j + 1;
        }
        proof {
            if j < n {
                assert(ls[j as int] == lines@[j as int]@);
            }
        }
        return (BlockKind::Table, j);
    }
    if let Some(src) = image_chars(line) {
        return (BlockKind::Image { src }, i + 1);
    }
    let mut j: usize = i + 1;
    while j < n && !breaks_paragraph(lines[j].as_slice(), Ghost(j as int), Ghost(ls))
        invariant
            n == lines@.len(),
            i < j <= n,
            ls == vec_texts(lines@),
            lines_fit(ls),
            forall|k: int| 0 <= k < n ==> #[trigger] lines@[k]@ == ls[k],
            upto(ls, i + 1, plain_line()) == upto(ls, j as int, plain_line()),
        decreases n - j,
    {
        proof {
            assert(ls[j as int] == lines@[j as int]@);
        }
        j = j + 1;
    }
    proof {
        if j < n {
            assert(ls[j as int] == lines@[j as int]@);
        }
    }
    (BlockKind::Paragraph, j)
}

fn goes_on_item(cs: &[char], indent: u8, Ghost(j): Ghost<int>, Ghost(ls): Ghost<Seq<Seq<char>>>)
    -> (r: bool)
    requires
        lines_fit(ls),
        0 <= j < ls.len(),
        cs@ == ls[j],
    ensures
        r == (item_line(indent))(cs@),
{
    proof {
        assert(blen(ls[j]) <= usize::MAX);
    }
    !interrupts_paragraph(cs) && indent_of(cs) > indent as usize
}

fn breaks_paragraph(cs: &[char], Ghost(j): Ghost<int>, Ghost(ls): Ghost<Seq<Seq<char>>>) -> (r: bool)
    requires
        lines_fit(ls),
        0 <= j < ls.len(),
        cs@ == ls[j],
    ensures
        r == interrupts(cs@),
{
    proof {
        assert(blen(ls[j]) <= usize::MAX);
    }
    interrupts_paragraph(cs)
}

/// The lines from `i` to `end`, joined by `\n`.
fn join_lines(lines: &[String], i: usize, end: usize) -> (r: Vec<char>)
    requires
        i <= end <= lines@.len(),
    ensures
        r@ == join(texts(lines@).subrange(i as int, end as int), '\n'),
{
    let ghost ls = texts(lines@);
    let mut out: Vec<char> = Vec::new();
    let mut k: usize = i;
    proof {
        assert(ls.subrange(i as int, i as int) =~= Seq::<Seq<char>>::empty());
    }
    while k < end
        invariant
            i <= k <= end <= lines@.len(),
            ls == texts(lines@),
            out@ == join(ls.subrange(i as int, k as int), '\n'),
        decreases end - k,
    {
        if k > i {
            out.push('\n');
        }
        let ghost before = out@;
        let mut l: Vec<char> = chars_of(&lines[k]);
        let ghost lv = l@;
        out.append(&mut l);
        proof {
            assert(lv == ls[k as int]);
            assert(ls.subrange(i as int, k + 1) =~= ls.subrange(i as int, k as int).push(lv));
            if k > i {
                lemma_join_snoc(ls.subrange(i as int, k as int), lv, '\n');
            } else {
                assert(ls.subrange(i as int, k + 1) =~= seq![lv]);
                assert(before + lv =~= lv);
            }
        }
        k = k + 1;
    }
    out
}

/// Cuts lines into blocks.
pub fn scan_blocks(input: &LineInput<'_>) -> (r: Vec<Block>)
    requires
        line_start(input@, input@.lines.len() as int) + input@.lines.len() <= isize::MAX,
        input@.first_line + input@.lines.len() <= usize::MAX,
    ensures
        blocks_model(r@) == blocks_from(input@, 0),
        forall|k: int| 0 <= k < r@.len() ==> inline_fits((#[trigger] r@[k])@),
{
    let ghost m = input@;
    let n: usize = input.lines.len();
    let mut chars: Vec<Vec<char>> = Vec::new();
    let mut offsets: Vec<usize> = Vec::new();
    let mut acc: usize = input.first_byte;
    let mut k: usize = 0;
    proof {
        lemma_line_start_mono(m, 0, n as int);
    }
    while k < n
        invariant
            0 <= k <= n,
            n == input.lines@.len(),
            m == input@,
            line_start(m, n as int) + n <= isize::MAX,
            acc == line_start(m, k as int),
            chars@.len() == k,
            offsets@.len() == k,
            forall|j: int| 0 <= j < k ==> (#[trigger] chars@[j])@ == m.lines[j],
            forall|j: int| 0 <= j < k ==> #[trigger] offsets@[j] == line_start(m, j),
        decreases n - k,
    {
        let w: usize = if k < input.eol_widths.len() {
            input.eol_widths[k] as usize
        } else {
            1
        };
        offsets.push(acc);
        chars.push(chars_of(&input.lines[k]));
        let len: usize = byte_len(&input.lines[k]);
        proof {
            assert(m.lines[k as int] == input.lines@[k as int]@);
            lemma_line_start_mono(m, k + 1, n as int);
        }
        acc = acc + len + w;
        k = k + 1;
    }
    let ghost ls = vec_texts(chars@);
    proof {
        assert(ls =~= m.lines);
        assert forall|j: int| 0 <= j < ls.len() implies #[trigger] blen(ls[j]) <= usize::MAX by {
            lemma_line_start_mono(m, j, n as int);
            lemma_line_start_mono(m, 0, j);
        }
    }
    let mut blocks: Vec<Block> = Vec::new();
    let mut i: usize = 0;
    proof {
        assert(blocks_model(blocks@) + blocks_from(m, 0) =~= blocks_from(m, 0));
    }
    while i < n
        invariant
            0 <= i <= n,
            n == input.lines@.len(),
            m == input@,
            n == chars@.len(),
            n == offsets@.len(),
            m.lines == vec_texts(chars@),
            m.lines.len() == n,
            m.first_byte >= 0,
            lines_fit(m.lines),
            line_start(m, n as int) + n <= isize::MAX,
            m.first_line + n <= usize::MAX,
            forall|j: int| 0 <= j < n ==> (#[trigger] chars@[j])@ == m.lines[j],
            forall|j: int| 0 <= j < n ==> #[trigger] offsets@[j] == line_start(m, j),
            blocks_model(blocks@) + blocks_from(m, i as int) == blocks_from(m, 0),
            forall|k: int| 0 <= k < blocks@.len() ==> inline_fits((#[trigger] blocks@[k])@),
        decreases n - i,
    {
        let (kind, end) = shape_of(&chars, i);
        let source: Vec<char> = join_lines(input.lines, i, end);
        let ghost km = kind@;
        proof {
            lemma_join_blen(m, i as int, end as int);
            lemma_line_start_mono(m, 0, i as int);
            lemma_line_start_mono(m, end as int, n as int);
            lemma_line_start_mono(m, end - 1, n as int);
            assert(m.lines.subrange(i as int, end as int) =~= texts(input.lines@).subrange(
                i as int,
                end as int,
            ));
            assert(source@ == join(m.lines.subrange(i as int, end as int), '\n'));
            assert(chars@[end - 1]@ == m.lines[end - 1]);
        }
        let lo: usize = offsets[i];
        let hi: usize = offsets[end - 1] + byte_len(&input.lines[end - 1]);
        let (inline, strip): (Option<InlineText>, Vec<u32>) = if kind.needs_inline() {
            let (text, strip) = inline_source_of(&kind, source.as_slice());
            (Some(parse_inline(&string_of(text.as_slice()))), strip)
        } else {
            (None, Vec::new())
        };
        let b = Block {
            kind,
            lines: input.first_line + i..input.first_line + end,
            bytes: lo..hi,
            source: string_of(source.as_slice()),
            inline,
            strip,
        };
        let ghost before = blocks@;
        proof {
            assert(b@.strip =~= block_at(m, i as int).strip);
            assert(b@ == block_at(m, i as int));
        }
        blocks.push(b);
        proof {
            assert(blocks_model(blocks@) =~= blocks_model(before).push(b@));
            assert(blocks_from(m, i as int) == seq![block_at(m, i as int)] + blocks_from(
                m,
                end as int,
            ));
            assert(blocks_model(blocks@) + blocks_from(m, end as int) =~= blocks_model(before)
                + blocks_from(m, i as int));
        }
        i = end;
    }
    proof {
        assert(blocks_model(blocks@) =~= blocks_model(blocks@) + blocks_from(m, i as int));
    }
    blocks
}

// ---------- positions in a block ----------

/// What was cut off line `k`.
pub open spec fn strip_at(strip: Seq<u32>, k: int) -> int {
    if 0 <= k < strip.len() {
        strip[k] as int
    } else {
        0
    }
}

/// What is left of line `k`.
pub open spec fn kept(parts: Seq<Seq<char>>, strip: Seq<u32>, k: int) -> int {
    let d = blen(parts[k]) - strip_at(strip, k);
    if d > 0 {
        d
    } else {
        0
    }
}

/// Where line `k` starts in the text that is left, lines joined by one byte.
pub open spec fn kept_start(parts: Seq<Seq<char>>, strip: Seq<u32>, k: int) -> int
    decreases k,
{
    if k <= 0 {
        0
    } else {
        kept_start(parts, strip, k - 1) + kept(parts, strip, k - 1) + 1
    }
}

/// The line, from line `k` on, and the column that byte `b` of the text that is
/// left comes from; the end of the last line if `b` is behind all of them.
pub open spec fn line_col_of(
    parts: Seq<Seq<char>>,
    strip: Seq<u32>,
    b: int,
    k: int,
) -> (int, int)
    decreases parts.len() - k,
{
    if k < 0 || k >= parts.len() {
        (parts.len() - 1, blen(parts.last()) as int)
    } else if b <= kept_start(parts, strip, k) + kept(parts, strip, k) {
        (k, strip_at(strip, k) + b - kept_start(parts, strip, k))
    } else {
        line_col_of(parts, strip, b, k + 1)
    }
}

/// The column `col` of line `k` as a byte of the text that is left.
pub open spec fn kept_offset(parts: Seq<Seq<char>>, strip: Seq<u32>, k: int, col: int) -> int {
    let c = if col > strip_at(strip, k) {
        col - strip_at(strip, k)
    } else {
        0
    };
    kept_start(parts, strip, k) + if c <= kept(parts, strip, k) {
        c
    } else {
        kept(parts, strip, k)
    }
}

/// The line in the block and the column that byte `r` of what it shows comes from.
pub open spec fn shown_to_line_col(b: BlockModel, r: int) -> (int, int) {
    match b.inline {
        None => (0, 0),
        Some(m) => line_col_of(split_on(b.source, '\n'), b.strip, source_at(m.spans, r, 0), 0),
    }
}

/// The byte of what the block shows that column `col` of its line `k` leads to.
pub open spec fn line_col_to_shown(b: BlockModel, k: int, col: int) -> int {
    let parts = split_on(b.source, '\n');
    match b.inline {
        None => 0,
        Some(m) => if 0 <= k < parts.len() {
            rendered_at(m, kept_offset(parts, b.strip, k, col), 0)
        } else {
            blen(m.text) as int
        },
    }
}

/// Where part `k` of a joined text starts.
pub open spec fn part_start(parts: Seq<Seq<char>>, k: int) -> int
    decreases k,
{
    if k <= 0 {
        0
    } else {
        part_start(parts, k - 1) + blen(parts[k - 1]) + 1
    }
}

pub proof fn lemma_part_start(parts: Seq<Seq<char>>, k: int)
    requires
        0 <= k < parts.len(),
    ensures
        0 <= part_start(parts, k),
        part_start(parts, k) + blen(parts[k]) <= blen(join(parts, '\n')),
    decreases parts.len(),
{
    if parts.len() == 1 {
    } else if k == parts.len() - 1 {
        let front = parts.drop_last();
        assert(parts =~= front.push(parts[k]));
        lemma_join_snoc(front, parts[k], '\n');
        lemma_blen_concat(join(front, '\n').push('\n'), parts[k]);
        lemma_blen_push(join(front, '\n'), '\n');
        lemma_part_start(front, k - 1);
        lemma_part_start_prefix(front, parts, k - 1);
        assert(front[k - 1] == parts[k - 1]);
    } else {
        let front = parts.drop_last();
        let last = parts[parts.len() - 1];
        assert(parts =~= front.push(last));
        lemma_join_snoc(front, last, '\n');
        lemma_blen_concat(join(front, '\n').push('\n'), last);
        lemma_blen_push(join(front, '\n'), '\n');
        lemma_part_start(front, k);
        lemma_part_start_prefix(front, parts, k);
        assert(front[k] == parts[k]);
    }
}

proof fn lemma_part_start_prefix(a: Seq<Seq<char>>, b: Seq<Seq<char>>, k: int)
    requires
        0 <= k <= a.len() <= b.len(),
        forall|j: int| 0 <= j < a.len() ==> a[j] == b[j],
    ensures
        part_start(a, k) == part_start(b, k),
    decreases k,
{
    if k > 0 {
        lemma_part_start_prefix(a, b, k - 1);
    }
}

proof fn lemma_kept_start(parts: Seq<Seq<char>>, strip: Seq<u32>, k: int)
    requires
        0 <= k < parts.len(),
    ensures
        0 <= kept_start(parts, strip, k) <= part_start(parts, k),
    decreases k,
{
    if k > 0 {
        lemma_kept_start(parts, strip, k - 1);
    }
}

/// The code inside a code block's text: without the first line, and without the
/// last one if it is a fence.
pub open spec fn code_of(source: Seq<char>) -> Seq<char> {
    let k = index_of(source, '\n');
    let rest = source.skip(if k < source.len() {
        k + 1
    } else {
        source.len() as int
    });
    let nl = last_index_of(rest, '\n');
    if is_fence(trim_start(rest.skip(nl + 1))) {
        rest.take(if nl >= 0 {
            nl
        } else {
            0
        })
    } else {
        rest
    }
}

pub open spec fn ascii_lower(c: char) -> char {
    if 'A' <= c <= 'Z' {
        (c as u32 + 32) as char
    } else {
        c
    }
}

/// Equal but for the case of ASCII letters.
pub open spec fn same_ignoring_case(a: Seq<char>, b: Seq<char>) -> bool {
    a.len() == b.len() && forall|k: int|
        0 <= k < a.len() ==> ascii_lower(#[trigger] a[k]) == ascii_lower(b[k])
}

/// The body of a code block.
pub open spec fn code_body_of(b: BlockModel) -> Option<Seq<char>> {
    if b.kind is CodeFence && b.source.len() > 0 {
        Some(code_of(b.source))
    } else {
        None
    }
}

/// The body of a code block whose language is `query`.
pub open spec fn query_body_of(b: BlockModel) -> Option<Seq<char>> {
    match b.kind {
        KindModel::CodeFence { lang: Some(lang), .. } if same_ignoring_case(lang, "query"@) =>
            code_body_of(b),
        _ => None,
    }
}

pub(crate) fn lower(c: char) -> (r: char)
    ensures
        r == ascii_lower(c),
{
    if 'A' <= c && c <= 'Z' {
        let u: u8 = c as u8;
        (u + 32) as char
    } else {
        c
    }
}

/// Whether the two are equal but for the case of ASCII letters.
pub(crate) fn eq_ignore_case(a: &[char], b: &[char]) -> (r: bool)
    ensures
        r == same_ignoring_case(a@, b@),
{
    if a.len() != b.len() {
        return false;
    }
    let mut i: usize = 0;
    while i < a.len()
        invariant
            a@.len() == b@.len(),
            0 <= i <= a@.len(),
            forall|k: int| 0 <= k < i ==> ascii_lower(#[trigger] a@[k]) == ascii_lower(b@[k]),
        decreases a@.len() - i,
    {
        if lower(a[i]) != lower(b[i]) {
            return false;
        }
        i = i + 1;
    }
    true
}

pub open spec fn opt_str(o: Option<&str>) -> Option<Seq<char>> {
    match o {
        Some(s) => Some(s@),
        None => None,
    }
}

impl Block {
    /// Whether the byte `off` belongs to the block, its end included.
    pub fn contains_byte(&self, off: usize) -> (r: bool)
        ensures
            r == (self@.lo <= off <= self@.hi),
    {
        off >= self.bytes.start && off <= self.bytes.end
    }

    pub fn contains_line(&self, line: usize) -> (r: bool)
        ensures
            r == (self@.first_line <= line < self@.end_line),
    {
        self.lines.start <= line && line < self.lines.end
    }

    pub fn line_count(&self) -> (r: usize)
        requires
            self.lines.start <= self.lines.end,
        ensures
            r == self@.end_line - self@.first_line,
    {
        self.lines.end - self.lines.start
    }

    /// The line in the block and the column in that line that byte `rendered` of
    /// the shown text comes from.
    pub fn inline_to_line_col(&self, rendered: usize) -> (r: (usize, usize))
        ensures
            (r.0 as int, r.1 as int) == shown_to_line_col(self@, rendered as int),
    {
        let inline = match &self.inline {
            Some(t) => t,
            None => {
                return (0, 0);
            },
        };
        let b: usize = inline.source_offset(rendered);
        let cs: Vec<char> = chars_of(&self.source);
        let lines: Vec<&[char]> = split_chars(cs.as_slice(), '\n');
        let ghost parts = split_on(self.source@, '\n');
        let ghost strip = self.strip@;
        let mut acc: usize = 0;
        let mut k: usize = 0;
        proof {
            lemma_split_nonempty(self.source@, '\n');
            lemma_join_split(self.source@, '\n');
            lemma_split_lengths(self.source@, '\n');
            assert(slices(lines@).len() == lines@.len());
        }
        loop
            invariant
                0 <= k < lines@.len(),
                parts == split_on(self.source@, '\n'),
                slices(lines@) == parts,
                parts.len() == lines@.len(),
                strip == self.strip@,
                acc == kept_start(parts, strip, k as int),
                k > 0 ==> b >= acc,
                blen(self.source@) <= usize::MAX,
                join(parts, '\n') == self.source@,
                forall|j: int|
                    0 <= j < parts.len() ==> #[trigger] blen(parts[j]) <= blen(self.source@),
                line_col_of(parts, strip, b as int, 0) == line_col_of(parts, strip, b as int, k as int),
                self@.inline == Some(inline@),
                b == source_at(inline@.spans, rendered as int, 0),
            decreases lines@.len() - k,
        {
            let cut: usize = if k < self.strip.len() {
                self.strip[k] as usize
            } else {
                0
            };
            proof {
                assert(lines@[k as int]@ == parts[k as int]);
                assert(blen(parts[k as int]) <= blen(self.source@));
                lemma_part_start(parts, k as int);
                lemma_kept_start(parts, strip, k as int);
            }
            let len: usize = chars_len(lines[k]);
            let left: usize = if len > cut {
                len - cut
            } else {
                0
            };
            if b <= acc + left {
                return (k, cut + (b - acc));
            }
            if k == lines.len() - 1 {
                proof {
                    assert(parts.last() == parts[k as int]);
                    assert(line_col_of(parts, strip, b as int, k + 1) == (
                        parts.len() - 1,
                        blen(parts.last()) as int,
                    ));
                }
                return (k, len);
            }
            proof {
                lemma_part_start(parts, k + 1);
                lemma_kept_start(parts, strip, k + 1);
            }
            acc = acc + left + 1;
            k = k + 1;
        }
    }

    /// The byte of the shown text that a column of a line of the block leads to.
    pub fn line_col_to_inline(&self, line_in_block: usize, col: usize) -> (r: usize)
        ensures
            r == line_col_to_shown(self@, line_in_block as int, col as int),
    {
        let inline = match &self.inline {
            Some(t) => t,
            None => {
                return 0;
            },
        };
        let cs: Vec<char> = chars_of(&self.source);
        let lines: Vec<&[char]> = split_chars(cs.as_slice(), '\n');
        let ghost parts = split_on(self.source@, '\n');
        let ghost strip = self.strip@;
        let mut acc: usize = 0;
        let mut k: usize = 0;
        proof {
            lemma_split_nonempty(self.source@, '\n');
            lemma_join_split(self.source@, '\n');
            lemma_split_lengths(self.source@, '\n');
            assert(slices(lines@).len() == lines@.len());
        }
        loop
            invariant
                0 <= k < lines@.len(),
                k <= line_in_block,
                parts == split_on(self.source@, '\n'),
                slices(lines@) == parts,
                parts.len() == lines@.len(),
                strip == self.strip@,
                acc == kept_start(parts, strip, k as int),
                blen(self.source@) <= usize::MAX,
                join(parts, '\n') == self.source@,
                forall|j: int|
                    0 <= j < parts.len() ==> #[trigger] blen(parts[j]) <= blen(self.source@),
                self@.inline == Some(inline@),
            decreases lines@.len() - k,
        {
            let cut: usize = if k < self.strip.len() {
                self.strip[k] as usize
            } else {
                0
            };
            proof {
                assert(lines@[k as int]@ == parts[k as int]);
                assert(blen(parts[k as int]) <= blen(self.source@));
                lemma_part_start(parts, k as int);
                lemma_kept_start(parts, strip, k as int);
            }
            let len: usize = chars_len(lines[k]);
            let left: usize = if len > cut {
                len - cut
            } else {
                0
            };
            if k == line_in_block {
                let c: usize = if col > cut {
                    col - cut
                } else {
                    0
                };
                let d: usize = if c <= left {
                    c
                } else {
                    left
                };
                return inline.rendered_offset(acc + d);
            }
            if k == lines.len() - 1 {
                return byte_len(&inline.text);
            }
            proof {
                lemma_part_start(parts, k + 1);
                lemma_kept_start(parts, strip, k + 1);
            }
            acc = acc + left + 1;
            k = k + 1;
        }
    }

    /// The code inside a code block.
    pub fn code_body(&self) -> (r: Option<&str>)
        ensures
            opt_str(r) == code_body_of(self@),
    {
        match &self.kind {
            BlockKind::CodeFence { .. } => {},
            _ => {
                return None;
            },
        }
        let cs: Vec<char> = chars_of(&self.source);
        let all = cs.as_slice();
        if all.len() == 0 {
            return None;
        }
        let k: usize = find_char(all, '\n');
        let start: usize = if k < all.len() {
            k + 1
        } else {
            all.len()
        };
        let rest = slice_subrange(all, start, all.len());
        proof {
            assert(rest@ =~= all@.skip(start as int));
            lemma_last_index_of(rest@, '\n');
        }
        let nl: Option<usize> = rfind_char(rest, '\n');
        let (tail, keep): (usize, usize) = match nl {
            Some(i) => (i + 1, i),
            None => (0, 0),
        };
        let last = slice_subrange(rest, tail, rest.len());
        proof {
            assert(last@ =~= rest@.skip(last_index_of(rest@, '\n') + 1));
        }
        let end: usize = if fence_here(trim_start_chars(last)) {
            start + keep
        } else {
            all.len()
        };
        proof {
            assert(code_of(self.source@) =~= self.source@.subrange(start as int, end as int));
        }
        let lo: usize = crate::text::offset_of(all, start);
        let hi: usize = crate::text::offset_of(all, end);
        Some(cut(&self.source, lo, hi, Ghost(start as int), Ghost(end as int)))
    }

    /// The body of a code block whose language is `query`.
    pub fn query_body(&self) -> (r: Option<&str>)
        ensures
            opt_str(r) == query_body_of(self@),
    {
        match &self.kind {
            BlockKind::CodeFence { lang: Some(lang), .. } => {
                let l: Vec<char> = chars_of(lang);
                let q: Vec<char> = chars_of("query");
                if eq_ignore_case(l.as_slice(), q.as_slice()) {
                    self.code_body()
                } else {
                    None
                }
            },
            _ => None,
        }
    }
}

// ---------- laws ----------

/// The blocks follow each other without gap: each starts at the line where the
/// one before ends, the first at the first line, and the last ends with the input.
pub open spec fn tiled(bs: Seq<BlockModel>, from: int, to: int) -> bool {
    &&& forall|k: int|
        0 <= k < bs.len() ==> (#[trigger] bs[k]).first_line < bs[k].end_line
    &&& forall|k: int|
        0 < k < bs.len() ==> (#[trigger] bs[k]).first_line == bs[k - 1].end_line
    &&& if bs.len() == 0 {
        from == to
    } else {
        bs[0].first_line == from && bs.last().end_line == to
    }
}

/// Every line of the input belongs to exactly one block, in order.
pub proof fn blocks_tile_the_lines(m: InputModel, i: int)
    requires
        0 <= i <= m.lines.len(),
    ensures
        tiled(blocks_from(m, i), m.first_line + i, m.first_line + m.lines.len()),
    decreases m.lines.len() - i,
{
    let bs = blocks_from(m, i);
    if i < m.lines.len() {
        lemma_shape_at(m.lines, i);
        let end = shape_at(m.lines, i).1;
        blocks_tile_the_lines(m, end);
        let rest = blocks_from(m, end);
        assert(bs =~= seq![block_at(m, i)] + rest);
        assert forall|k: int| 0 <= k < bs.len() implies (#[trigger] bs[k]).first_line
            < bs[k].end_line by {
            if k > 0 {
                assert(bs[k] == rest[k - 1]);
            }
        }
        assert forall|k: int| 0 < k < bs.len() implies (#[trigger] bs[k]).first_line == bs[k
            - 1].end_line by {
            assert(bs[k] == rest[k - 1]);
            if k > 1 {
                assert(bs[k - 1] == rest[k - 2]);
            }
        }
        if rest.len() > 0 {
            assert(bs.last() == rest.last());
        }
    }
}

/// Every block of a scan is the block at some line.
pub proof fn lemma_blocks_from_at(m: InputModel, i: int, k: int)
    requires
        0 <= i,
        0 <= k < blocks_from(m, i).len(),
    ensures
        exists|j: int| i <= j < m.lines.len() && blocks_from(m, i)[k] == #[trigger] block_at(m, j),
    decreases m.lines.len() - i,
{
    lemma_shape_at(m.lines, i);
    let end = shape_at(m.lines, i).1;
    if k == 0 {
        assert(blocks_from(m, i)[0] == block_at(m, i));
    } else {
        assert(blocks_from(m, i)[k] == blocks_from(m, end)[k - 1]);
        lemma_blocks_from_at(m, end, k - 1);
        let j = choose|j: int|
            end <= j < m.lines.len() && blocks_from(m, end)[k - 1] == #[trigger] block_at(m, j);
        assert(i <= j < m.lines.len() && blocks_from(m, i)[k] == block_at(m, j));
    }
}

/// A block that is parsed for inline Markdown keeps one number for each of its lines.
pub proof fn one_strip_entry_for_each_line(m: InputModel, i: int)
    requires
        0 <= i < m.lines.len(),
        forall|k: int| 0 <= k < m.lines.len() ==> !(#[trigger] m.lines[k]).contains('\n'),
    ensures
        block_at(m, i).inline is Some ==> block_at(m, i).strip.len() == block_at(m, i).end_line
            - block_at(m, i).first_line,
        block_at(m, i).inline is Some ==> block_at(m, i).strip.len() == split_on(
            block_at(m, i).source,
            '\n',
        ).len(),
{
    lemma_shape_at(m.lines, i);
    let (kind, end) = shape_at(m.lines, i);
    let part = m.lines.subrange(i, end);
    assert forall|k: int| 0 <= k < part.len() implies !(#[trigger] part[k]).contains('\n') by {
        assert(part[k] == m.lines[i + k]);
    }
    lemma_split_join(part, '\n');
}

pub proof fn lemma_join_concat(a: Seq<Seq<char>>, b: Seq<Seq<char>>, c: char)
    requires
        a.len() >= 1,
        b.len() >= 1,
    ensures
        join(a + b, c) == join(a, c).push(c) + join(b, c),
    decreases a.len(),
{
    if a.len() == 1 {
        assert(a =~= seq![a[0]]);
        lemma_join_push_front(a[0], b, c);
    } else {
        let t = a.drop_first();
        lemma_join_concat(t, b, c);
        assert(a + b =~= seq![a[0]] + (t + b));
        lemma_join_push_front(a[0], t + b, c);
        assert(a =~= seq![a[0]] + t);
        lemma_join_push_front(a[0], t, c);
        assert(join(a + b, c) =~= join(a, c).push(c) + join(b, c));
    }
}

/// The text of the lines before line `i`, with the break behind each.
pub open spec fn before_line(lines: Seq<Seq<char>>, i: int) -> Seq<char> {
    if i == 0 {
        Seq::empty()
    } else {
        join(lines.take(i), '\n').push('\n')
    }
}

proof fn lemma_before_line(m: InputModel, i: int)
    requires
        0 <= i <= m.lines.len(),
        forall|k: int| 0 <= k < m.lines.len() ==> eol_width(m.eols, k) == 1,
    ensures
        m.first_byte + blen(before_line(m.lines, i)) == line_start(m, i),
    decreases i,
{
    if i > 0 {
        lemma_before_line(m, i - 1);
        assert(eol_width(m.eols, i - 1) == 1);
        let l = m.lines[i - 1];
        if i == 1 {
            assert(m.lines.take(1) =~= seq![l]);
            lemma_blen_push(l, '\n');
        } else {
            assert(m.lines.take(i) =~= m.lines.take(i - 1).push(l));
            lemma_join_snoc(m.lines.take(i - 1), l, '\n');
            lemma_blen_concat(before_line(m.lines, i - 1), l);
            lemma_blen_push(join(m.lines.take(i), '\n'), '\n');
        }
    }
}

/// In a document whose lines end in one byte, the bytes of a block are its source:
/// the document is what is before, the block's source, and what is behind.
pub proof fn block_bytes_are_its_source(m: InputModel, i: int)
    requires
        0 <= i < m.lines.len(),
        forall|k: int| 0 <= k < m.lines.len() ==> eol_width(m.eols, k) == 1,
    ensures
        ({
            let b = block_at(m, i);
            let doc = join(m.lines, '\n');
            let a = before_line(m.lines, i);
            &&& (a + b.source).is_prefix_of(doc)
            &&& b.lo == m.first_byte + blen(a)
            &&& b.hi == b.lo + blen(b.source)
        }),
{
    lemma_shape_at(m.lines, i);
    let end = shape_at(m.lines, i).1;
    let b = block_at(m, i);
    let doc = join(m.lines, '\n');
    let part = m.lines.subrange(i, end);
    lemma_before_line(m, i);
    lemma_before_line(m, end - 1);
    let head = join(m.lines.take(end), '\n');
    if i == 0 {
        assert(m.lines.take(end) =~= part);
        assert(Seq::<char>::empty() + b.source =~= head);
    } else {
        assert(m.lines.take(end) =~= m.lines.take(i) + part);
        lemma_join_concat(m.lines.take(i), part, '\n');
    }
    assert(before_line(m.lines, i) + b.source == head);
    if end < m.lines.len() {
        lemma_join_concat(m.lines.take(end), m.lines.skip(end), '\n');
        assert(m.lines.take(end) + m.lines.skip(end) =~= m.lines);
        assert(head.is_prefix_of(doc));
    } else {
        assert(m.lines.take(end) =~= m.lines);
    }
    lemma_blen_concat(before_line(m.lines, i), b.source);
    let last = m.lines[end - 1];
    if end == 1 {
        assert(m.lines.take(1) =~= seq![last]);
        assert(blen(head) == blen(last));
    } else {
        assert(m.lines.take(end) =~= m.lines.take(end - 1).push(last));
        lemma_join_snoc(m.lines.take(end - 1), last, '\n');
        lemma_blen_concat(before_line(m.lines, end - 1), last);
    }
}

/// Going from what a block shows to a line and column and back again is the same as
/// going to the inline source and back.
pub proof fn line_col_round_trip(b: BlockModel, r: int)
    requires
        b.inline is Some,
        0 <= source_at(b.inline->0.spans, r, 0),
        ({
            let parts = split_on(b.source, '\n');
            let k = parts.len() - 1;
            source_at(b.inline->0.spans, r, 0) <= kept_start(parts, b.strip, k) + kept(
                parts,
                b.strip,
                k,
            )
        }),
    ensures
        ({
            let (k, col) = shown_to_line_col(b, r);
            line_col_to_shown(b, k, col) == rendered_at(
                b.inline->0,
                source_at(b.inline->0.spans, r, 0),
                0,
            )
        }),
{
    let parts = split_on(b.source, '\n');
    lemma_split_nonempty(b.source, '\n');
    lemma_line_col_of(parts, b.strip, source_at(b.inline->0.spans, r, 0), 0);
}

proof fn lemma_line_col_of(parts: Seq<Seq<char>>, strip: Seq<u32>, b: int, k: int)
    requires
        0 <= k < parts.len(),
        kept_start(parts, strip, k) <= b,
        b <= kept_start(parts, strip, parts.len() - 1) + kept(parts, strip, parts.len() - 1),
    ensures
        ({
            let (j, col) = line_col_of(parts, strip, b, k);
            0 <= j < parts.len() && kept_offset(parts, strip, j, col) == b
        }),
    decreases parts.len() - k,
{
    if b > kept_start(parts, strip, k) + kept(parts, strip, k) {
        lemma_line_col_of(parts, strip, b, k + 1);
    }
}

// ---------- from scanned blocks to their lines and back ----------

proof fn lemma_joined_blen(parts: Seq<Seq<char>>)
    requires
        parts.len() >= 1,
    ensures
        blen(join(parts, '\n')) == part_start(parts, parts.len() - 1) + blen(parts.last()),
    decreases parts.len(),
{
    if parts.len() > 1 {
        let front = parts.drop_last();
        lemma_joined_blen(front);
        assert(parts =~= front.push(parts.last()));
        lemma_join_snoc(front, parts.last(), '\n');
        lemma_blen_concat(join(front, '\n').push('\n'), parts.last());
        lemma_blen_push(join(front, '\n'), '\n');
        lemma_part_start_prefix(front, parts, front.len() - 1);
    }
}

/// The length of what is left of lines, with a byte between each two.
spec fn kept_total(parts: Seq<Seq<char>>, strip: Seq<u32>) -> int {
    let k = parts.len() - 1;
    kept_start(parts, strip, k) + kept(parts, strip, k)
}

proof fn lemma_kept_start_is(
    parts: Seq<Seq<char>>,
    strip: Seq<u32>,
    left: Seq<Seq<char>>,
    k: int,
)
    requires
        left.len() == parts.len(),
        0 <= k < parts.len(),
        forall|j: int| 0 <= j < parts.len() ==> #[trigger] kept(parts, strip, j) == blen(left[j]),
    ensures
        kept_start(parts, strip, k) == part_start(left, k),
    decreases k,
{
    if k > 0 {
        lemma_kept_start_is(parts, strip, left, k - 1);
        assert(kept(parts, strip, k - 1) == blen(left[k - 1]));
    }
}

/// What is left of lines is as long as the lines that are left, joined.
proof fn lemma_kept_total(parts: Seq<Seq<char>>, strip: Seq<u32>, left: Seq<Seq<char>>)
    requires
        parts.len() >= 1,
        left.len() == parts.len(),
        forall|j: int| 0 <= j < parts.len() ==> #[trigger] kept(parts, strip, j) == blen(left[j]),
    ensures
        kept_total(parts, strip) == blen(join(left, '\n')),
{
    let k = parts.len() - 1;
    lemma_kept_start_is(parts, strip, left, k);
    assert(kept(parts, strip, k) == blen(left[k]));
    lemma_joined_blen(left);
}

pub proof fn lemma_ascii_off(s: Seq<char>, n: int)
    requires
        0 <= n <= s.len(),
        forall|k: int| 0 <= k < n ==> (#[trigger] s[k]) as u32 <= 127,
    ensures
        off(s, n) == n,
    decreases n,
{
    if n > 0 {
        lemma_ascii_off(s, n - 1);
        lemma_off_step(s, n - 1);
    } else {
        lemma_off_ends(s);
    }
}

/// A text with a list marker keeps it, whatever stands behind the text.
proof fn lemma_marker_of_longer(a: Seq<char>, t: Seq<char>)
    requires
        a.is_prefix_of(t),
        list_marker(a) is Some,
    ensures
        list_marker(t) == list_marker(a),
        ({
            let len = (list_marker(a)->0).1;
            &&& 0 <= len <= a.len()
            &&& forall|k: int| 0 <= k < len ==> (#[trigger] t[k]) as u32 <= 127
        }),
{
    reveal_strlit("- ");
    reveal_strlit("* ");
    reveal_strlit("+ ");
    reveal_strlit(". ");
    reveal_strlit(") ");
    let d = digit_run(a);
    lemma_digit_run(a);
    lemma_digit_run(t);
    assert forall|k: int| 0 <= k < a.len() implies #[trigger] a[k] == t[k] by {
        assert(t.take(a.len() as int)[k] == t[k]);
    }
    let bullet = "- "@.is_prefix_of(a) || "* "@.is_prefix_of(a) || "+ "@.is_prefix_of(a);
    if bullet {
        assert(a.take(2)[0] == a[0] && a.take(2)[1] == a[1]);
        assert(t.take(2) =~= a.take(2));
    } else {
        assert(d >= 1);
        assert(a.skip(d).take(2)[0] == a[d]);
        assert(a.skip(d).take(2)[1] == a[d + 1]);
        assert(a.len() >= d + 2);
        let e = digit_run(t);
        if e < d {
            assert(!is_digit(t[e]));
            assert(is_digit(a[e]));
        } else if d < e {
            assert(is_digit(t[d]));
        }
        assert(t.take(d) =~= a.take(d));
        assert(t.skip(d).take(2) =~= a.skip(d).take(2));
        assert(is_digit(t[0]));
        if "- "@.is_prefix_of(t) || "* "@.is_prefix_of(t) || "+ "@.is_prefix_of(t) {
            assert(t.take(2)[0] == t[0]);
        }
        assert forall|k: int| 0 <= k < d + 2 implies (#[trigger] t[k]) as u32 <= 127 by {
            if k < d {
                assert(is_digit(a[k]));
            }
        }
    }
}

/// The first line of a list item: what is cut from it lies in it.
proof fn lemma_item_cut(line: Seq<char>, source: Seq<char>)
    requires
        line.is_prefix_of(source),
        list_item(line) is Some,
    ensures
        ({
            let cut = item_cut(list_item(line)->0.task, source);
            let t = trim_start(source);
            &&& lead_spaces(source) == lead_spaces(line)
            &&& 0 <= cut <= trim_start(line).len()
            &&& off(t, cut) == cut
        }),
{
    let (a, t) = (trim_start(line), trim_start(source));
    let n = lead_spaces(line);
    lemma_lead_spaces(line);
    assert(list_marker(a) is Some);
    if a.len() == 0 {
        reveal_strlit("- ");
        reveal_strlit("* ");
        reveal_strlit("+ ");
        lemma_digit_run(a);
    }
    assert forall|k: int| 0 <= k < line.len() implies #[trigger] line[k] == source[k] by {
        assert(source.take(line.len() as int)[k] == source[k]);
    }
    assert forall|k: int| 0 <= k < n implies is_space(#[trigger] source[k]) by {
        assert(is_space(line[k]));
    }
    assert(a[0] == line[n]);
    lemma_lead_spaces_is(source, n);
    assert(t.take(a.len() as int) =~= a);
    lemma_marker_of_longer(a, t);
    let len = (list_marker(a)->0).1;
    let cut = item_cut(list_item(line)->0.task, source);
    if check_box(a.skip(len)) is Some {
        reveal_strlit("[ ] ");
        reveal_strlit("[x] ");
        reveal_strlit("[X] ");
        let u = a.skip(len);
        assert forall|k: int| len <= k < len + 4 implies (#[trigger] t[k]) as u32 <= 127 by {
            assert(u.take(4)[k - len] == u[k - len]);
            assert(u[k - len] == a[k]);
            assert(t.take(a.len() as int)[k] == t[k]);
        }
    }
    lemma_ascii_off(t, cut);
}

/// The text of a list item is as long as what is left of its lines.
proof fn lemma_item_source_kept(parts: Seq<Seq<char>>, source: Seq<char>, kind: KindModel)
    requires
        parts.len() >= 1,
        parts == split_on(source, '\n'),
        source == join(parts, '\n'),
        blen(source) <= u32::MAX,
        list_item(parts[0]) is Some,
        kind matches KindModel::List { task, .. } && task == list_item(parts[0])->0.task,
    ensures
        kept_total(parts, inline_source(kind, source).1) == blen(inline_source(kind, source).0),
{
    let task = kind->List_task;
    let strip = inline_source(kind, source).1;
    let line = parts[0];
    assert(line.is_prefix_of(source)) by {
        if parts.len() > 1 {
            assert(source.take(line.len() as int) =~= line);
        } else {
            assert(source == line);
            assert(line.take(line.len() as int) =~= line);
        }
    }
    lemma_item_cut(line, source);
    let cut = item_cut(task, source);
    let t = trim_start(source);
    let n = lead_spaces(line);
    lemma_trim_start_blen(source);
    lemma_lead_spaces(source);
    lemma_lead_spaces(line);
    lemma_blen_split(t, cut);
    lemma_floor_index_off(t, cut);
    assert(source.take(n) =~= line.take(n)) by {
        assert(source.take(line.len() as int).take(n) =~= source.take(n));
        assert(source.take(line.len() as int) == line);
    }
    let gone = n + cut;
    assert(source.take(gone) =~= line.take(gone)) by {
        assert(source.take(line.len() as int).take(gone) =~= source.take(gone));
        assert(source.take(line.len() as int) == line);
    }
    assert(source.take(gone) =~= source.take(n) + t.take(cut));
    lemma_blen_concat(source.take(n), t.take(cut));
    lemma_blen_split(line, gone);
    lemma_blen_split(source, gone);
    assert(source.skip(gone) =~= t.skip(cut));
    let left = parts.update(0, line.skip(gone));
    assert(strip_at(strip, 0) == lead_bytes(source) + cut);
    assert forall|j: int| 0 <= j < parts.len() implies #[trigger] kept(parts, strip, j)
        == blen(left[j]) by {
        if j > 0 {
            assert(strip_at(strip, j) == 0);
        }
    }
    lemma_kept_total(parts, strip, left);
    assert(join(left, '\n') =~= source.skip(gone)) by {
        if parts.len() > 1 {
            assert(left.drop_first() =~= parts.drop_first());
        } else {
            assert(left =~= seq![line.skip(gone)]);
        }
    }
}

/// The text of a scanned block that is parsed for inline Markdown is as long as what is
/// left of its lines.
proof fn lemma_inline_source_kept(m: InputModel, i: int)
    requires
        0 <= i < m.lines.len(),
        forall|k: int| 0 <= k < m.lines.len() ==> !(#[trigger] m.lines[k]).contains('\n'),
        block_at(m, i).inline is Some,
        blen(block_at(m, i).source) <= u32::MAX,
    ensures
        ({
            let b = block_at(m, i);
            kept_total(split_on(b.source, '\n'), b.strip) == blen(inline_source(b.kind, b.source).0)
        }),
{
    let b = block_at(m, i);
    let (kind, end) = shape_at(m.lines, i);
    lemma_shape_at(m.lines, i);
    let part = m.lines.subrange(i, end);
    assert forall|k: int| 0 <= k < part.len() implies !(#[trigger] part[k]).contains('\n') by {
        assert(part[k] == m.lines[i + k]);
    }
    lemma_split_join(part, '\n');
    let parts = split_on(b.source, '\n');
    assert(parts == part);
    assert forall|k: int| 0 <= k < parts.len() implies #[trigger] blen(parts[k]) <= blen(b.source) by {
        lemma_part_start(parts, k);
    }
    match kind {
        KindModel::Heading { .. } => {
            assert(parts.len() == 1);
            assert(parts[0] == b.source);
            lemma_unmarked_blen(b.source);
            let left = seq![unmarked(b.source)];
            assert forall|j: int| 0 <= j < parts.len() implies #[trigger] kept(parts, b.strip, j)
                == blen(left[j]) by {}
            lemma_kept_total(parts, b.strip, left);
        },
        KindModel::Quote { .. } => {
            let left = parts.map_values(|l: Seq<char>| unquoted(l));
            assert forall|j: int| 0 <= j < parts.len() implies #[trigger] kept(parts, b.strip, j)
                == blen(left[j]) by {
                lemma_unquoted_blen(parts[j]);
                assert(blen(parts[j]) <= blen(b.source));
            }
            lemma_kept_total(parts, b.strip, left);
        },
        KindModel::List { .. } => {
            assert(parts[0] == m.lines[i]);
            lemma_item_source_kept(parts, b.source, kind);
        },
        _ => {
            assert forall|j: int| 0 <= j < parts.len() implies #[trigger] kept(parts, b.strip, j)
                == blen(parts[j]) by {
                assert(strip_at(b.strip, j) == 0);
            }
            lemma_kept_total(parts, b.strip, parts);
        },
    }
}

/// The spans of what a block shows lie in its source.
pub open spec fn inline_fits(b: BlockModel) -> bool {
    b.inline matches Some(t) ==> inline_ok(t, blen(inline_source(b.kind, b.source).0) as int)
}

proof fn lemma_lines_lead_back(m: InputModel, i: int, r: int)
    requires
        0 <= i < m.lines.len(),
        forall|k: int| 0 <= k < m.lines.len() ==> !(#[trigger] m.lines[k]).contains('\n'),
        block_at(m, i).inline is Some,
        blen(block_at(m, i).source) <= u32::MAX,
        inline_fits(block_at(m, i)),
        0 <= r <= blen(block_at(m, i).inline->0.text),
    ensures
        ({
            let b = block_at(m, i);
            let (k, col) = shown_to_line_col(b, r);
            &&& line_col_to_shown(b, k, col) == rendered_at(
                b.inline->0,
                source_at(b.inline->0.spans, r, 0),
                0,
            )
            &&& faithful(b.inline->0.spans) ==> line_col_to_shown(b, k, col) == r
        }),
{
    let b = block_at(m, i);
    let t = inline_source(b.kind, b.source).0;
    let inline = b.inline->0;
    lemma_inline_source_kept(m, i);
    source_offset_stays_in_the_source(inline, blen(t) as int, r, 0);
    line_col_round_trip(b, r);
    if faithful(inline.spans) {
        offsets_round_trip(inline, blen(t) as int, r);
    }
}

proof fn lemma_plain_lines_lead_back(m: InputModel, i: int, r: int)
    requires
        0 <= i < m.lines.len(),
        forall|k: int| 0 <= k < m.lines.len() ==> !(#[trigger] m.lines[k]).contains('\n'),
        block_at(m, i).inline is Some,
        blen(block_at(m, i).source) <= u32::MAX,
        !has_marker(inline_source(block_at(m, i).kind, block_at(m, i).source).0),
        0 <= r <= blen(block_at(m, i).inline->0.text),
    ensures
        ({
            let b = block_at(m, i);
            let (k, col) = shown_to_line_col(b, r);
            line_col_to_shown(b, k, col) == r
        }),
{
    let b = block_at(m, i);
    let t = inline_source(b.kind, b.source).0;
    lemma_inline_source_kept(m, i);
    plain_text_maps_to_itself(t, r);
    line_col_round_trip(b, r);
}

// ---------- scanning from the middle ----------

/// The lines from line `k` on, as an input of their own.
pub open spec fn input_from(m: InputModel, k: int) -> InputModel {
    InputModel {
        lines: m.lines.skip(k),
        first_line: m.first_line + k,
        first_byte: line_start(m, k),
        eols: m.eols.skip(k),
    }
}

proof fn lemma_upto_from(lines: Seq<Seq<char>>, k: int, j: int, p: spec_fn(Seq<char>) -> bool)
    requires
        0 <= k <= lines.len(),
        0 <= j,
    ensures
        upto(lines.skip(k), j, p) == upto(lines, k + j, p) - k,
    decreases lines.len() - k - j,
{
    if k + j < lines.len() {
        assert(lines.skip(k)[j] == lines[k + j]);
        if p(lines[k + j]) {
            lemma_upto_from(lines, k, j + 1, p);
        }
    }
}

/// A block is made of its first line and what follows: not of what stands above.
proof fn lemma_shape_from(lines: Seq<Seq<char>>, k: int, i: int)
    requires
        0 <= k,
        0 <= i,
        k + i < lines.len(),
    ensures
        shape_at(lines.skip(k), i) == (shape_at(lines, k + i).0, shape_at(lines, k + i).1 - k),
{
    let tail = lines.skip(k);
    assert(tail[i] == lines[k + i]);
    lemma_upto_from(lines, k, i + 1, code_line());
    lemma_upto_from(lines, k, i + 1, quote_line());
    lemma_upto_from(lines, k, i + 1, plain_line());
    if let Some(it) = list_item(lines[k + i]) {
        lemma_upto_from(lines, k, i + 1, item_line(it.indent));
    }
    if k + i + 1 < lines.len() {
        assert(tail[i + 1] == lines[k + i + 1]);
        lemma_upto_from(lines, k, i + 2, row_line());
    }
}

proof fn lemma_line_start_from(m: InputModel, k: int, i: int)
    requires
        0 <= k,
        0 <= i,
        k + i <= m.lines.len(),
        m.eols.len() == m.lines.len(),
    ensures
        line_start(input_from(m, k), i) == line_start(m, k + i),
    decreases i,
{
    if i > 0 {
        lemma_line_start_from(m, k, i - 1);
        assert(m.lines.skip(k)[i - 1] == m.lines[k + i - 1]);
        assert(m.eols.skip(k)[i - 1] == m.eols[k + i - 1]);
    }
}

proof fn lemma_blocks_from_line(m: InputModel, k: int, i: int)
    requires
        0 <= k,
        0 <= i,
        k + i <= m.lines.len(),
        m.eols.len() == m.lines.len(),
    ensures
        blocks_from(input_from(m, k), i) == blocks_from(m, k + i),
    decreases m.lines.len() - k - i,
{
    let t = input_from(m, k);
    if k + i < m.lines.len() {
        lemma_shape_at(m.lines, k + i);
        lemma_shape_from(m.lines, k, i);
        let end = shape_at(m.lines, k + i).1;
        lemma_line_start_from(m, k, i);
        lemma_line_start_from(m, k, end - k - 1);
        assert(t.lines[end - k - 1] == m.lines[end - 1]);
        assert(t.lines.subrange(i, end - k) =~= m.lines.subrange(k + i, end));
        assert(block_at(t, i) == block_at(m, k + i));
        lemma_blocks_from_line(m, k, end - k);
    }
}

/// The blocks from the one at index `j` on are those from its first line on.
pub proof fn lemma_blocks_skip(m: InputModel, i: int, j: int)
    requires
        0 <= i <= m.lines.len(),
        0 <= j < blocks_from(m, i).len(),
    ensures
        ({
            let b = blocks_from(m, i)[j];
            let k = b.first_line - m.first_line;
            &&& i <= k < m.lines.len()
            &&& b == block_at(m, k)
            &&& blocks_from(m, i).skip(j) == blocks_from(m, k)
        }),
    decreases j,
{
    let all = blocks_from(m, i);
    lemma_shape_at(m.lines, i);
    let end = shape_at(m.lines, i).1;
    if j == 0 {
        assert(all[0] == block_at(m, i));
        assert(all.skip(0) =~= all);
    } else {
        let rest = blocks_from(m, end);
        assert(all[j] == rest[j - 1]);
        assert(all.skip(j) =~= rest.skip(j - 1));
        lemma_blocks_skip(m, end, j - 1);
    }
}

/// Scanning may start at any block: from its first line on, the same blocks come out as
/// from the start, with the same lines and bytes.
pub proof fn scanning_may_start_at_any_block(m: InputModel, j: int)
    requires
        m.eols.len() == m.lines.len(),
        0 <= j < blocks_from(m, 0).len(),
    ensures
        ({
            let b = blocks_from(m, 0)[j];
            let k = b.first_line - m.first_line;
            &&& 0 <= k < m.lines.len()
            &&& b.lo == input_from(m, k).first_byte
            &&& blocks_from(input_from(m, k), 0) == blocks_from(m, 0).skip(j)
        }),
{
    lemma_blocks_skip(m, 0, j);
    let k = blocks_from(m, 0)[j].first_line - m.first_line;
    lemma_blocks_from_line(m, k, 0);
}

// ---------- from what scanned blocks show to their lines and back ----------

/// In every scanned block, going from what it shows to a line and a column and back is the
/// same as going to the inline source and back; and where no span shows more than its source
/// has, it leads back to where it started.
pub proof fn scanned_lines_lead_back(m: InputModel, j: int, r: int)
    requires
        forall|k: int| 0 <= k < m.lines.len() ==> !(#[trigger] m.lines[k]).contains('\n'),
        0 <= j < blocks_from(m, 0).len(),
        blocks_from(m, 0)[j].inline is Some,
        blen(blocks_from(m, 0)[j].source) <= u32::MAX,
        inline_fits(blocks_from(m, 0)[j]),
        0 <= r <= blen(blocks_from(m, 0)[j].inline->0.text),
    ensures
        ({
            let b = blocks_from(m, 0)[j];
            let (k, col) = shown_to_line_col(b, r);
            &&& line_col_to_shown(b, k, col) == rendered_at(
                b.inline->0,
                source_at(b.inline->0.spans, r, 0),
                0,
            )
            &&& faithful(b.inline->0.spans) ==> line_col_to_shown(b, k, col) == r
        }),
{
    lemma_blocks_skip(m, 0, j);
    lemma_lines_lead_back(m, blocks_from(m, 0)[j].first_line - m.first_line, r);
}

/// In a scanned block without markup, going from what it shows to a line and a column and
/// back leads to where it started.
pub proof fn plain_lines_lead_back(m: InputModel, j: int, r: int)
    requires
        forall|k: int| 0 <= k < m.lines.len() ==> !(#[trigger] m.lines[k]).contains('\n'),
        0 <= j < blocks_from(m, 0).len(),
        blocks_from(m, 0)[j].inline is Some,
        blen(blocks_from(m, 0)[j].source) <= u32::MAX,
        !has_marker(inline_source(blocks_from(m, 0)[j].kind, blocks_from(m, 0)[j].source).0),
        0 <= r <= blen(blocks_from(m, 0)[j].inline->0.text),
    ensures
        ({
            let b = blocks_from(m, 0)[j];
            let (k, col) = shown_to_line_col(b, r);
            line_col_to_shown(b, k, col) == r
        }),
{
    lemma_blocks_skip(m, 0, j);
    lemma_plain_lines_lead_back(m, blocks_from(m, 0)[j].first_line - m.first_line, r);
}

} // verus!
