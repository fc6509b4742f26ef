//! The text buffer of a document, and how a text falls into lines.
//!
//! The buffer is `ropey::Rope`. Its line breaks are those of Unicode: LF, VT,
//! FF, CR, CR LF, NEL, LS and PS. A break belongs to the line that it ends.
use crate::text::{blen, floor_index, lemma_blen_bounds, off};
use ropey::Rope;
use vstd::prelude::*;

verus! {

// ---------- lines of a text ----------

pub open spec fn is_break(c: char) -> bool {
    let u = c as u32;
    0x0A <= u <= 0x0D || u == 0x85 || u == 0x2028 || u == 0x2029
}

/// Whether a line of `s` ends right before index `j`. A CR before a LF does not
/// end a line: the two are one break.
pub open spec fn ends_line(s: Seq<char>, j: int) -> bool {
    0 < j <= s.len() && is_break(s[j - 1]) && !(s[j - 1] == '\r' && j < s.len() && s[j] == '\n')
}

/// How many lines end at or before index `i`: the number of the line at `i`.
pub open spec fn breaks_upto(s: Seq<char>, i: int) -> int
    decreases i,
{
    if i <= 0 {
        0
    } else {
        breaks_upto(s, i - 1) + if ends_line(s, i) {
            1int
        } else {
            0
        }
    }
}

/// How many lines `s` has. Behind a break at its end there is one more, empty, line.
pub open spec fn line_count(s: Seq<char>) -> int {
    breaks_upto(s, s.len() as int) + 1
}

/// The first index from `i` on before which `k` lines end; the length of `s` if
/// there is none.
pub open spec fn line_index_from(s: Seq<char>, k: int, i: int) -> int
    decreases s.len() - i,
{
    if i >= s.len() || breaks_upto(s, i) >= k {
        i
    } else {
        line_index_from(s, k, i + 1)
    }
}

/// The index at which line `k` of `s` starts; the length of `s` for the line
/// behind the last.
pub open spec fn line_index(s: Seq<char>, k: int) -> int {
    line_index_from(s, k, 0)
}

/// Line `k` of `s` with its break.
pub open spec fn full_line(s: Seq<char>, k: int) -> Seq<char> {
    s.subrange(line_index(s, k), line_index(s, k + 1))
}

pub proof fn lemma_breaks_mono(s: Seq<char>, i: int, j: int)
    requires
        0 <= i <= j,
    ensures
        0 <= breaks_upto(s, i) <= breaks_upto(s, j),
        breaks_upto(s, j) - breaks_upto(s, i) <= j - i,
    decreases j,
{
    if i < j {
        lemma_breaks_mono(s, i, j - 1);
    } else if 0 < i {
        lemma_breaks_mono(s, i - 1, i - 1);
    }
}

proof fn lemma_line_index_from(s: Seq<char>, k: int, i: int)
    requires
        0 <= i <= s.len(),
    ensures
        i <= line_index_from(s, k, i) <= s.len(),
        line_index_from(s, k, i) < s.len() ==> breaks_upto(s, line_index_from(s, k, i)) >= k,
        forall|j: int| i <= j < line_index_from(s, k, i) ==> #[trigger] breaks_upto(s, j) < k,
    decreases s.len() - i,
{
    if i < s.len() && breaks_upto(s, i) < k {
        lemma_line_index_from(s, k, i + 1);
    }
}

/// Where a line starts: exactly `k` lines end before it, and fewer before any
/// earlier index.
pub proof fn lemma_line_index(s: Seq<char>, k: int)
    requires
        0 <= k,
    ensures
        0 <= line_index(s, k) <= s.len(),
        k < line_count(s) ==> breaks_upto(s, line_index(s, k)) == k,
        k >= line_count(s) ==> line_index(s, k) == s.len(),
        k == 0 ==> line_index(s, k) == 0,
        forall|j: int| 0 <= j < line_index(s, k) ==> #[trigger] breaks_upto(s, j) < k,
{
    lemma_line_index_from(s, k, 0);
    let n = line_index(s, k);
    lemma_breaks_mono(s, n, s.len() as int);
    if n > 0 {
        assert(breaks_upto(s, n - 1) < k);
    }
}

pub proof fn lemma_line_index_mono(s: Seq<char>, j: int, k: int)
    requires
        0 <= j <= k,
    ensures
        line_index(s, j) <= line_index(s, k),
{
    lemma_line_index(s, j);
    lemma_line_index(s, k);
    let a = line_index(s, j);
    let b = line_index(s, k);
    if b < a {
        assert(breaks_upto(s, b) < j);
        lemma_line_index_from(s, k, 0);
    }
}

/// An index lies in the line whose number is the count of line ends before it.
pub proof fn lemma_index_in_line(s: Seq<char>, i: int)
    requires
        0 <= i <= s.len(),
    ensures
        0 <= breaks_upto(s, i) < line_count(s),
        line_index(s, breaks_upto(s, i)) <= i,
        i < line_index(s, breaks_upto(s, i) + 1) || breaks_upto(s, i) == line_count(s) - 1,
{
    let k = breaks_upto(s, i);
    lemma_breaks_mono(s, 0, i);
    lemma_breaks_mono(s, i, s.len() as int);
    lemma_line_index(s, k);
    lemma_line_index(s, k + 1);
    if i < line_index(s, k) {
        assert(breaks_upto(s, i) < k);
    }
    if k + 1 < line_count(s) && line_index(s, k + 1) <= i {
        lemma_breaks_mono(s, line_index(s, k + 1), i);
    }
}

/// There are at most as many lines as bytes, and one more.
pub proof fn lemma_line_count(s: Seq<char>)
    ensures
        1 <= line_count(s) <= s.len() + 1,
        line_count(s) <= blen(s) + 1,
{
    lemma_breaks_mono(s, 0, s.len() as int);
    lemma_blen_bounds(s);
}

// ---------- UTF-16 ----------

/// How many UTF-16 code units `c` takes.
pub open spec fn units(c: char) -> nat {
    if c as u32 >= 0x10000 {
        2
    } else {
        1
    }
}

/// How many UTF-16 code units `s` takes.
pub open spec fn utf16_len(s: Seq<char>) -> nat
    decreases s.len(),
{
    if s.len() == 0 {
        0
    } else {
        utf16_len(s.drop_last()) + units(s.last())
    }
}

// ---------- the buffer ----------

/// `ropey::Rope`, a text buffer.
#[verifier::external_type_specification]
#[verifier::external_body]
pub struct ExRope(Rope);

/// The text that a rope holds.
pub uninterp spec fn rope_text(r: Rope) -> Seq<char>;

/// `Rope::new`: an empty rope.
pub assume_specification[ Rope::new ]() -> (r: Rope)
    ensures
        rope_text(r) == Seq::<char>::empty(),
;

/// `Rope::from_str`: a rope with this text.
pub assume_specification[ Rope::from_str ](text: &str) -> (r: Rope)
    ensures
        rope_text(r) == text@,
;

/// `Rope::len_bytes`: the length of the text in bytes.
pub assume_specification[ Rope::len_bytes ](rope: &Rope) -> (r: usize)
    ensures
        r == blen(rope_text(*rope)),
;

/// `Rope::len_chars`: the length of the text in characters.
pub assume_specification[ Rope::len_chars ](rope: &Rope) -> (r: usize)
    ensures
        r == rope_text(*rope).len(),
;

/// `Rope::len_lines`: the number of lines.
pub assume_specification[ Rope::len_lines ](rope: &Rope) -> (r: usize)
    ensures
        r == line_count(rope_text(*rope)),
;

/// `Rope::byte_to_char`: the index of the character that a byte belongs to, the
/// number of characters for the byte behind the last. Panics behind that.
pub assume_specification[ Rope::byte_to_char ](rope: &Rope, byte_idx: usize) -> (r: usize)
    requires
        byte_idx <= blen(rope_text(*rope)),
    ensures
        r == floor_index(rope_text(*rope), byte_idx as int),
;

/// `Rope::char_to_byte`: the byte offset of a character, the length in bytes for
/// the character behind the last. Panics behind that.
pub assume_specification[ Rope::char_to_byte ](rope: &Rope, char_idx: usize) -> (r: usize)
    requires
        char_idx <= rope_text(*rope).len(),
    ensures
        r == off(rope_text(*rope), char_idx as int),
;

/// `Rope::byte_to_line`: how many line breaks end before the character of a byte.
/// Panics behind the end of the text.
pub assume_specification[ Rope::byte_to_line ](rope: &Rope, byte_idx: usize) -> (r: usize)
    requires
        byte_idx <= blen(rope_text(*rope)),
    ensures
        r == breaks_upto(rope_text(*rope), floor_index(rope_text(*rope), byte_idx as int)),
;

/// `Rope::line_to_byte`: the byte at which a line starts, the length in bytes for
/// the line behind the last. Panics behind that.
pub assume_specification[ Rope::line_to_byte ](rope: &Rope, line_idx: usize) -> (r: usize)
    requires
        line_idx <= line_count(rope_text(*rope)),
    ensures
        r == off(rope_text(*rope), line_index(rope_text(*rope), line_idx as int)),
;

/// `Rope::insert`: puts text before the character at an index. Panics behind the
/// end of the text.
pub assume_specification[ Rope::insert ](rope: &mut Rope, char_idx: usize, text: &str)
    requires
        char_idx <= rope_text(*old(rope)).len(),
    ensures
        rope_text(*final(rope)) == rope_text(*old(rope)).take(char_idx as int) + text@ + rope_text(
            *old(rope),
        ).skip(char_idx as int),
;

/// `Rope::len_utf16_cu`: the number of UTF-16 code units of the text.
pub assume_specification[ Rope::len_utf16_cu ](rope: &Rope) -> (r: usize)
    ensures
        r == utf16_len(rope_text(*rope)),
;

/// `Rope::char_to_utf16_cu`: the number of UTF-16 code units before a character.
/// Panics behind the end of the text.
pub assume_specification[ Rope::char_to_utf16_cu ](rope: &Rope, char_idx: usize) -> (r: usize)
    requires
        char_idx <= rope_text(*rope).len(),
    ensures
        r == utf16_len(rope_text(*rope).take(char_idx as int)),
;

/// `Rope::utf16_cu_to_char`: the index of the character that a UTF-16 code unit
/// belongs to, the number of characters for the unit behind the last. Panics
/// behind that.
pub assume_specification[ Rope::utf16_cu_to_char ](rope: &Rope, utf16_cu_idx: usize) -> (r: usize)
    requires
        utf16_cu_idx <= utf16_len(rope_text(*rope)),
    ensures
        r <= rope_text(*rope).len(),
        utf16_len(rope_text(*rope).take(r as int)) <= utf16_cu_idx,
        r < rope_text(*rope).len() ==> utf16_cu_idx < utf16_len(rope_text(*rope).take(r + 1)),
;

/// `Rope::remove` on the characters from `from` to `to`. Panics where they are
/// out of order or behind the end of the text.
#[verifier::external_body]
pub(crate) fn rope_remove(rope: &mut Rope, from: usize, to: usize)
    requires
        from <= to <= rope_text(*old(rope)).len(),
    ensures
        rope_text(*final(rope)) == rope_text(*old(rope)).take(from as int) + rope_text(
            *old(rope),
        ).skip(to as int),
{
    rope.remove(from..to)
}

/// `Rope::slice` on the characters from `from` to `to`, as a string. Panics where
/// they are out of order or behind the end of the text.
#[verifier::external_body]
pub(crate) fn rope_slice(rope: &Rope, from: usize, to: usize) -> (r: String)
    requires
        from <= to <= rope_text(*rope).len(),
    ensures
        r@ == rope_text(*rope).subrange(from as int, to as int),
{
    rope.slice(from..to).to_string()
}

/// `Rope::line`: a line with its break, as a string. Panics behind the last line.
#[verifier::external_body]
pub(crate) fn rope_line(rope: &Rope, line: usize) -> (r: String)
    requires
        line < line_count(rope_text(*rope)),
    ensures
        r@ == full_line(rope_text(*rope), line as int),
{
    rope.line(line).to_string()
}

} // verus!
