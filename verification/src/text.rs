//! Text as a sequence of characters, and byte offsets into its UTF-8 form.
use vstd::prelude::*;
use vstd::slice::slice_subrange;
use vstd::utf8::{
    char_is_scalar, encode_utf8, encode_utf8_decode_utf8,
    encode_utf8_first_scalar, encode_utf8_valid_utf8, is_char_boundary, pop_first_scalar,
};

verus! {

// ---------- the model: widths and offsets ----------

/// The number of bytes that `c` takes in UTF-8.
pub open spec fn width(c: char) -> nat {
    if c as u32 <= 0x7F {
        1
    } else if c as u32 <= 0x7FF {
        2
    } else if c as u32 <= 0xFFFF {
        3
    } else {
        4
    }
}

/// The number of bytes that `s` takes in UTF-8.
pub open spec fn blen(s: Seq<char>) -> nat
    decreases s.len(),
{
    if s.len() == 0 {
        0
    } else {
        width(s[0]) + blen(s.drop_first())
    }
}

/// The byte offset of the character at index `i` of `s`.
pub open spec fn off(s: Seq<char>, i: int) -> nat {
    blen(s.take(i))
}

/// Whether the byte offset `b` falls between two characters of `s` (or at an end).
pub open spec fn on_boundary(s: Seq<char>, b: int) -> bool {
    exists|i: int| 0 <= i <= s.len() && #[trigger] off(s, i) == b
}

/// The index of the last character of `s` that starts at or before byte `b`;
/// the length of `s` if `b` is at or past its end.
pub open spec fn floor_index(s: Seq<char>, b: int) -> int
    decreases s.len(),
{
    if s.len() == 0 || width(s[0]) > b {
        0
    } else {
        1 + floor_index(s.drop_first(), b - width(s[0]))
    }
}

pub proof fn lemma_blen_encode(s: Seq<char>)
    ensures
        blen(s) == encode_utf8(s).len(),
    decreases s.len(),
{
    if s.len() > 0 {
        lemma_blen_encode(s.drop_first());
        char_is_scalar(s[0]);
    }
}

pub proof fn lemma_blen_bounds(s: Seq<char>)
    ensures
        s.len() <= blen(s) <= 4 * s.len(),
    decreases s.len(),
{
    if s.len() > 0 {
        lemma_blen_bounds(s.drop_first());
    }
}

pub proof fn lemma_blen_concat(a: Seq<char>, b: Seq<char>)
    ensures
        blen(a + b) == blen(a) + blen(b),
    decreases a.len(),
{
    if a.len() == 0 {
        assert(a + b =~= b);
    } else {
        lemma_blen_concat(a.drop_first(), b);
        assert((a + b).drop_first() =~= a.drop_first() + b);
    }
}

pub proof fn lemma_blen_push(a: Seq<char>, c: char)
    ensures
        blen(a.push(c)) == blen(a) + width(c),
{
    lemma_blen_concat(a, seq![c]);
    assert(a.push(c) =~= a + seq![c]);
    assert(seq![c].drop_first() =~= Seq::<char>::empty());
    assert(blen(seq![c]) == width(c)) by {
        reveal_with_fuel(blen, 2);
    }
}

/// A text splits into a part and the rest; so do its bytes.
pub proof fn lemma_blen_split(s: Seq<char>, i: int)
    requires
        0 <= i <= s.len(),
    ensures
        blen(s) == off(s, i) + blen(s.skip(i)),
        off(s, i) <= blen(s),
{
    lemma_blen_concat(s.take(i), s.skip(i));
    assert(s =~= s.take(i) + s.skip(i));
}

pub proof fn lemma_off_ends(s: Seq<char>)
    ensures
        off(s, 0) == 0,
        off(s, s.len() as int) == blen(s),
{
    assert(s.take(0) =~= Seq::<char>::empty());
    assert(s.take(s.len() as int) =~= s);
}

pub proof fn lemma_off_step(s: Seq<char>, i: int)
    requires
        0 <= i < s.len(),
    ensures
        off(s, i + 1) == off(s, i) + width(s[i]),
{
    assert(s.take(i + 1) =~= s.take(i).push(s[i]));
    lemma_blen_push(s.take(i), s[i]);
}

/// Offsets grow with indices.
pub proof fn lemma_off_mono(s: Seq<char>, i: int, j: int)
    requires
        0 <= i <= j <= s.len(),
    ensures
        off(s, i) + (j - i) <= off(s, j),
        off(s, j) - off(s, i) == blen(s.subrange(i, j)),
        off(s, j) <= blen(s),
{
    lemma_blen_concat(s.take(i), s.subrange(i, j));
    assert(s.take(j) =~= s.take(i) + s.subrange(i, j));
    lemma_blen_bounds(s.subrange(i, j));
    lemma_blen_split(s, j);
}


/// Offsets inside a part of a text.
pub proof fn lemma_off_subrange(s: Seq<char>, i: int, j: int, k: int)
    requires
        0 <= i <= j <= s.len(),
        0 <= k <= j - i,
    ensures
        off(s.subrange(i, j), k) == off(s, i + k) - off(s, i),
{
    lemma_off_mono(s, i, i + k);
    assert(s.subrange(i, j).take(k) =~= s.subrange(i, i + k));
}

pub proof fn lemma_floor_index(s: Seq<char>, b: int)
    requires
        0 <= b,
    ensures
        0 <= floor_index(s, b) <= s.len(),
        off(s, floor_index(s, b)) <= b,
        floor_index(s, b) < s.len() ==> b < off(s, floor_index(s, b) + 1),
    decreases s.len(),
{
    if s.len() == 0 || width(s[0]) > b {
        lemma_off_ends(s);
        if s.len() > 0 {
            lemma_off_step(s, 0);
        }
    } else {
        let t = s.drop_first();
        let k = floor_index(t, b - width(s[0]));
        lemma_floor_index(t, b - width(s[0]));
        assert(s.take(1) =~= seq![s[0]]);
        lemma_off_ends(s);
        lemma_off_step(s, 0);
        assert(t =~= s.subrange(1, s.len() as int));
        lemma_off_subrange(s, 1, s.len() as int, k);
        if k < t.len() {
            lemma_off_subrange(s, 1, s.len() as int, k + 1);
        }
    }
}

/// The character at a boundary is found again.
pub proof fn lemma_floor_index_off(s: Seq<char>, i: int)
    requires
        0 <= i <= s.len(),
    ensures
        floor_index(s, off(s, i) as int) == i,
{
    let b = off(s, i) as int;
    lemma_floor_index(s, b);
    let k = floor_index(s, b);
    if k < i {
        lemma_off_mono(s, k + 1, i);
    } else if i < k {
        lemma_off_mono(s, i, k);
    }
}

// ---------- from strings to characters and back ----------

/// `String::push` appends one character.
pub assume_specification[ String::push ](s: &mut String, c: char)
    ensures
        final(s)@ == old(s)@.push(c),
;

/// The number of bytes that `c` takes in UTF-8.
pub fn char_width(c: char) -> (r: usize)
    ensures
        r == width(c),
{
    let u: u32 = c as u32;
    if u <= 0x7F {
        1
    } else if u <= 0x7FF {
        2
    } else if u <= 0xFFFF {
        3
    } else {
        4
    }
}

/// The length of `s` in bytes.
pub fn byte_len(s: &str) -> (r: usize)
    ensures
        r == blen(s@),
{
    proof {
        lemma_blen_encode(s@);
    }
    s.as_bytes().len()
}

/// The characters of `s`.
pub fn chars_of(s: &str) -> (r: Vec<char>)
    ensures
        r@ == s@,
        blen(r@) <= usize::MAX,
{
    let n: usize = byte_len(s);
    let mut v: Vec<char> = Vec::new();
    for c in it: s.chars()
        invariant
            it.seq() == s@,
            v@ == s@.take(it.index()),
    {
        v.push(c);
        proof {
            assert(v@ =~= s@.take(it.index() + 1));
        }
    }
    proof {
        assert(s@.take(s@.len() as int) =~= s@);
    }
    v
}

/// Appends the characters `cs` to `s`.
pub fn push_chars(s: &mut String, cs: &[char])
    ensures
        final(s)@ == old(s)@ + cs@,
{
    let mut i: usize = 0;
    proof {
        assert(s@ =~= s@ + cs@.take(0));
    }
    while i < cs.len()
        invariant
            0 <= i <= cs@.len(),
            s@ == old(s)@ + cs@.take(i as int),
        decreases cs@.len() - i,
    {
        s.push(cs[i]);
        proof {
            assert(cs@.take(i + 1) =~= cs@.take(i as int).push(cs@[i as int]));
            assert(s@ =~= old(s)@ + cs@.take(i + 1));
        }
        i = i + 1;
    }
    proof {
        assert(cs@.take(cs@.len() as int) =~= cs@);
    }
}

/// The string made of the characters `cs`.
pub fn string_of(cs: &[char]) -> (r: String)
    ensures
        r@ == cs@,
{
    let mut s: String = String::new();
    push_chars(&mut s, cs);
    proof {
        assert(Seq::<char>::empty() + cs@ =~= cs@);
    }
    s
}

/// The number of bytes that the characters `cs` take.
pub fn chars_len(cs: &[char]) -> (r: usize)
    requires
        blen(cs@) <= usize::MAX,
    ensures
        r == blen(cs@),
{
    let mut n: usize = 0;
    let mut i: usize = 0;
    proof {
        lemma_off_ends(cs@);
    }
    while i < cs.len()
        invariant
            0 <= i <= cs@.len(),
            n == off(cs@, i as int),
            blen(cs@) <= usize::MAX,
        decreases cs@.len() - i,
    {
        proof {
            lemma_off_step(cs@, i as int);
            lemma_off_mono(cs@, i + 1, cs@.len() as int);
            lemma_off_ends(cs@);
        }
        n = n + char_width(cs[i]);
        i = i + 1;
    }
    n
}

// ---------- white space ----------

/// The characters with the Unicode property White_Space.
pub open spec fn is_space(c: char) -> bool {
    let u = c as u32;
    ||| 0x09 <= u <= 0x0D
    ||| u == 0x20
    ||| u == 0x85
    ||| u == 0xA0
    ||| u == 0x1680
    ||| 0x2000 <= u <= 0x200A
    ||| u == 0x2028
    ||| u == 0x2029
    ||| u == 0x202F
    ||| u == 0x205F
    ||| u == 0x3000
}

/// How many white space characters `s` starts with.
pub open spec fn lead_spaces(s: Seq<char>) -> int
    decreases s.len(),
{
    if s.len() == 0 || !is_space(s[0]) {
        0
    } else {
        1 + lead_spaces(s.drop_first())
    }
}

/// `s` without the white space it starts with.
pub open spec fn trim_start(s: Seq<char>) -> Seq<char> {
    s.skip(lead_spaces(s))
}

/// `s` without the white space it ends with.
pub open spec fn trim_end(s: Seq<char>) -> Seq<char>
    decreases s.len(),
{
    if s.len() == 0 || !is_space(s.last()) {
        s
    } else {
        trim_end(s.drop_last())
    }
}

/// `s` without the white space at either end.
pub open spec fn trim(s: Seq<char>) -> Seq<char> {
    trim_end(trim_start(s))
}

/// How many characters before the first white space `s` starts with.
pub open spec fn word_len(s: Seq<char>) -> int
    decreases s.len(),
{
    if s.len() == 0 || is_space(s[0]) {
        0
    } else {
        1 + word_len(s.drop_first())
    }
}

/// The first word of `s`, empty if `s` is blank.
pub open spec fn first_word(s: Seq<char>) -> Seq<char> {
    trim_start(s).take(word_len(trim_start(s)))
}

/// How many times in a row `s` starts with `c`.
pub open spec fn run_of(s: Seq<char>, c: char) -> int
    decreases s.len(),
{
    if s.len() == 0 || s[0] != c {
        0
    } else {
        1 + run_of(s.drop_first(), c)
    }
}

pub proof fn lemma_lead_spaces(s: Seq<char>)
    ensures
        0 <= lead_spaces(s) <= s.len(),
        forall|k: int| 0 <= k < lead_spaces(s) ==> is_space(#[trigger] s[k]),
        lead_spaces(s) < s.len() ==> !is_space(s[lead_spaces(s)]),
    decreases s.len(),
{
    if s.len() > 0 && is_space(s[0]) {
        let t = s.drop_first();
        lemma_lead_spaces(t);
        assert forall|k: int| 0 <= k < lead_spaces(s) implies is_space(#[trigger] s[k]) by {
            if k > 0 {
                assert(s[k] == t[k - 1]);
            }
        }
    }
}

/// The first position that is not white space determines the count.
pub proof fn lemma_lead_spaces_is(s: Seq<char>, n: int)
    requires
        0 <= n <= s.len(),
        forall|k: int| 0 <= k < n ==> is_space(#[trigger] s[k]),
        n < s.len() ==> !is_space(s[n]),
    ensures
        lead_spaces(s) == n,
{
    lemma_lead_spaces(s);
    let m = lead_spaces(s);
    if m < n {
        assert(is_space(s[m]));
    } else if n < m {
        assert(is_space(s[n]));
    }
}

pub proof fn lemma_trim_end(s: Seq<char>)
    ensures
        trim_end(s).len() <= s.len(),
        trim_end(s) == s.take(trim_end(s).len() as int),
        trim_end(s).len() > 0 ==> !is_space(trim_end(s).last()),
        forall|k: int| trim_end(s).len() <= k < s.len() ==> is_space(#[trigger] s[k]),
    decreases s.len(),
{
    if s.len() == 0 || !is_space(s.last()) {
        assert(s.take(s.len() as int) =~= s);
    } else {
        let t = s.drop_last();
        lemma_trim_end(t);
        assert(s.take(trim_end(s).len() as int) =~= t.take(trim_end(s).len() as int));
        assert forall|k: int| trim_end(s).len() <= k < s.len() implies is_space(#[trigger] s[k]) by {
            if k < t.len() {
                assert(s[k] == t[k]);
            }
        }
    }
}

pub proof fn lemma_trim_end_is(s: Seq<char>, n: int)
    requires
        0 <= n <= s.len(),
        forall|k: int| n <= k < s.len() ==> is_space(#[trigger] s[k]),
        n > 0 ==> !is_space(s[n - 1]),
    ensures
        trim_end(s) == s.take(n),
    decreases s.len(),
{
    if s.len() == n {
        assert(s.take(n) =~= s);
    } else {
        assert(is_space(s[s.len() - 1]));
        lemma_trim_end_is(s.drop_last(), n);
        assert(s.drop_last().take(n) =~= s.take(n));
    }
}

pub proof fn lemma_word_len(s: Seq<char>)
    ensures
        0 <= word_len(s) <= s.len(),
        forall|k: int| 0 <= k < word_len(s) ==> !is_space(#[trigger] s[k]),
        word_len(s) < s.len() ==> is_space(s[word_len(s)]),
    decreases s.len(),
{
    if s.len() > 0 && !is_space(s[0]) {
        let t = s.drop_first();
        lemma_word_len(t);
        assert forall|k: int| 0 <= k < word_len(s) implies !is_space(#[trigger] s[k]) by {
            if k > 0 {
                assert(s[k] == t[k - 1]);
            }
        }
    }
}

pub proof fn lemma_word_len_is(s: Seq<char>, n: int)
    requires
        0 <= n <= s.len(),
        forall|k: int| 0 <= k < n ==> !is_space(#[trigger] s[k]),
        n < s.len() ==> is_space(s[n]),
    ensures
        word_len(s) == n,
{
    lemma_word_len(s);
    let m = word_len(s);
    if m < n {
        assert(!is_space(s[m]));
    } else if n < m {
        assert(!is_space(s[n]));
    }
}

pub proof fn lemma_run_of(s: Seq<char>, c: char)
    ensures
        0 <= run_of(s, c) <= s.len(),
        forall|k: int| 0 <= k < run_of(s, c) ==> #[trigger] s[k] == c,
        run_of(s, c) < s.len() ==> s[run_of(s, c)] != c,
    decreases s.len(),
{
    if s.len() > 0 && s[0] == c {
        let t = s.drop_first();
        lemma_run_of(t, c);
        assert forall|k: int| 0 <= k < run_of(s, c) implies #[trigger] s[k] == c by {
            if k > 0 {
                assert(s[k] == t[k - 1]);
            }
        }
    }
}

pub proof fn lemma_run_of_is(s: Seq<char>, c: char, n: int)
    requires
        0 <= n <= s.len(),
        forall|k: int| 0 <= k < n ==> #[trigger] s[k] == c,
        n < s.len() ==> s[n] != c,
    ensures
        run_of(s, c) == n,
{
    lemma_run_of(s, c);
    let m = run_of(s, c);
    if m < n {
        assert(s[m] == c);
    } else if n < m {
        assert(s[n] == c);
    }
}

/// Whether `c` has the Unicode property White_Space.
pub fn is_space_char(c: char) -> (r: bool)
    ensures
        r == is_space(c),
{
    let u: u32 = c as u32;
    (0x09 <= u && u <= 0x0D) || u == 0x20 || u == 0x85 || u == 0xA0 || u == 0x1680 || (0x2000 <= u
        && u <= 0x200A) || u == 0x2028 || u == 0x2029 || u == 0x202F || u == 0x205F || u == 0x3000
}

/// How many white space characters `cs` starts with.
pub fn count_lead_spaces(cs: &[char]) -> (r: usize)
    ensures
        r == lead_spaces(cs@),
        r <= cs@.len(),
{
    let mut i: usize = 0;
    while i < cs.len() && is_space_char(cs[i])
        invariant
            0 <= i <= cs@.len(),
            forall|k: int| 0 <= k < i ==> is_space(#[trigger] cs@[k]),
        decreases cs@.len() - i,
    {
        i = i + 1;
    }
    proof {
        lemma_lead_spaces_is(cs@, i as int);
    }
    i
}

/// `cs` without the white space it starts with.
pub fn trim_start_chars<'a>(cs: &'a [char]) -> (r: &'a [char])
    ensures
        r@ == trim_start(cs@),
{
    let n: usize = count_lead_spaces(cs);
    slice_subrange(cs, n, cs.len())
}

/// `cs` without the white space it ends with.
pub fn trim_end_chars<'a>(cs: &'a [char]) -> (r: &'a [char])
    ensures
        r@ == trim_end(cs@),
{
    let mut n: usize = cs.len();
    while n > 0 && is_space_char(cs[n - 1])
        invariant
            0 <= n <= cs@.len(),
            forall|k: int| n <= k < cs@.len() ==> is_space(#[trigger] cs@[k]),
        decreases n,
    {
        n = n - 1;
    }
    proof {
        lemma_trim_end_is(cs@, n as int);
        assert(cs@.subrange(0, n as int) =~= cs@.take(n as int));
    }
    slice_subrange(cs, 0, n)
}

/// `cs` without the white space at either end.
pub fn trim_chars<'a>(cs: &'a [char]) -> (r: &'a [char])
    ensures
        r@ == trim(cs@),
{
    trim_end_chars(trim_start_chars(cs))
}

/// The first word of `cs`, empty if `cs` is blank.
pub fn first_word_chars<'a>(cs: &'a [char]) -> (r: &'a [char])
    ensures
        r@ == first_word(cs@),
{
    let t = trim_start_chars(cs);
    let mut i: usize = 0;
    while i < t.len() && !is_space_char(t[i])
        invariant
            0 <= i <= t@.len(),
            forall|k: int| 0 <= k < i ==> !is_space(#[trigger] t@[k]),
        decreases t@.len() - i,
    {
        i = i + 1;
    }
    proof {
        lemma_word_len_is(t@, i as int);
        assert(t@.subrange(0, i as int) =~= t@.take(i as int));
    }
    slice_subrange(t, 0, i)
}

/// How many times in a row `cs` starts with `c`.
pub fn count_run(cs: &[char], c: char) -> (r: usize)
    ensures
        r == run_of(cs@, c),
        r <= cs@.len(),
{
    let mut i: usize = 0;
    while i < cs.len() && cs[i] == c
        invariant
            0 <= i <= cs@.len(),
            forall|k: int| 0 <= k < i ==> #[trigger] cs@[k] == c,
        decreases cs@.len() - i,
    {
        i = i + 1;
    }
    proof {
        lemma_run_of_is(cs@, c, i as int);
    }
    i
}

// ---------- comparing and finding ----------

/// The index of the first `c` in `s`; the length of `s` if there is none.
pub open spec fn index_of(s: Seq<char>, c: char) -> int
    decreases s.len(),
{
    if s.len() == 0 || s[0] == c {
        0
    } else {
        1 + index_of(s.drop_first(), c)
    }
}

/// The index of the last `c` in `s`; -1 if there is none.
pub open spec fn last_index_of(s: Seq<char>, c: char) -> int
    decreases s.len(),
{
    if s.len() == 0 {
        -1
    } else if s.last() == c {
        s.len() - 1
    } else {
        last_index_of(s.drop_last(), c)
    }
}

/// The index at which `pat` first occurs in `s`, looking from index `i` on.
pub open spec fn find_from(s: Seq<char>, pat: Seq<char>, i: int) -> Option<int>
    decreases s.len() + 1 - i,
{
    if i < 0 || i + pat.len() > s.len() {
        None
    } else if s.subrange(i, i + pat.len()) == pat {
        Some(i)
    } else {
        find_from(s, pat, i + 1)
    }
}

pub proof fn lemma_index_of(s: Seq<char>, c: char)
    ensures
        0 <= index_of(s, c) <= s.len(),
        forall|k: int| 0 <= k < index_of(s, c) ==> #[trigger] s[k] != c,
        index_of(s, c) < s.len() ==> s[index_of(s, c)] == c,
    decreases s.len(),
{
    if s.len() > 0 && s[0] != c {
        let t = s.drop_first();
        lemma_index_of(t, c);
        assert forall|k: int| 0 <= k < index_of(s, c) implies #[trigger] s[k] != c by {
            if k > 0 {
                assert(s[k] == t[k - 1]);
            }
        }
    }
}

pub proof fn lemma_index_of_is(s: Seq<char>, c: char, n: int)
    requires
        0 <= n <= s.len(),
        forall|k: int| 0 <= k < n ==> #[trigger] s[k] != c,
        n < s.len() ==> s[n] == c,
    ensures
        index_of(s, c) == n,
{
    lemma_index_of(s, c);
    let m = index_of(s, c);
    if m < n {
        assert(s[m] != c);
    } else if n < m {
        assert(s[n] != c);
    }
}

pub proof fn lemma_last_index_of(s: Seq<char>, c: char)
    ensures
        -1 <= last_index_of(s, c) < s.len(),
        forall|k: int| last_index_of(s, c) < k < s.len() ==> #[trigger] s[k] != c,
        last_index_of(s, c) >= 0 ==> s[last_index_of(s, c)] == c,
    decreases s.len(),
{
    if s.len() > 0 && s.last() != c {
        let t = s.drop_last();
        lemma_last_index_of(t, c);
        assert forall|k: int| last_index_of(s, c) < k < s.len() implies #[trigger] s[k] != c by {
            if k < t.len() {
                assert(s[k] == t[k]);
            }
        }
    }
}

pub proof fn lemma_last_index_of_is(s: Seq<char>, c: char, n: int)
    requires
        -1 <= n < s.len(),
        forall|k: int| n < k < s.len() ==> #[trigger] s[k] != c,
        n >= 0 ==> s[n] == c,
    ensures
        last_index_of(s, c) == n,
{
    lemma_last_index_of(s, c);
    let m = last_index_of(s, c);
    if m < n {
        assert(s[n] != c);
    } else if n < m {
        assert(s[m] != c);
    }
}

pub proof fn lemma_find_from(s: Seq<char>, pat: Seq<char>, i: int)
    ensures
        find_from(s, pat, i) matches Some(k) ==> i <= k && k + pat.len() <= s.len() && s.subrange(
            k,
            k + pat.len(),
        ) == pat,
    decreases s.len() + 1 - i,
{
    if 0 <= i && i + pat.len() <= s.len() && s.subrange(i, i + pat.len()) != pat {
        lemma_find_from(s, pat, i + 1);
    }
}

/// Whether two character slices hold the same text.
pub fn same_chars(a: &[char], b: &[char]) -> (r: bool)
    ensures
        r == (a@ == b@),
{
    if a.len() != b.len() {
        return false;
    }
    let mut i: usize = 0;
    while i < a.len()
        invariant
            a@.len() == b@.len(),
            0 <= i <= a@.len(),
            forall|k: int| 0 <= k < i ==> #[trigger] a@[k] == b@[k],
        decreases a@.len() - i,
    {
        if a[i] != b[i] {
            return false;
        }
        i = i + 1;
    }
    proof {
        assert(a@ =~= b@);
    }
    true
}

/// Whether two strings hold the same text.
pub fn same_text(a: &str, b: &str) -> (r: bool)
    ensures
        r == (a@ == b@),
{
    let x: Vec<char> = chars_of(a);
    let y: Vec<char> = chars_of(b);
    same_chars(x.as_slice(), y.as_slice())
}

/// Whether `cs` starts with `pat`.
pub fn starts_with(cs: &[char], pat: &str) -> (r: bool)
    ensures
        r == pat@.is_prefix_of(cs@),
{
    let p: Vec<char> = chars_of(pat);
    if p.len() > cs.len() {
        return false;
    }
    let head = slice_subrange(cs, 0, p.len());
    proof {
        assert(head@ =~= cs@.take(p@.len() as int));
        if p@.is_prefix_of(cs@) {
            assert(head@ =~= p@);
        }
    }
    same_chars(head, p.as_slice())
}

/// The index of the first `c` in `cs`; the length of `cs` if there is none.
pub fn find_char(cs: &[char], c: char) -> (r: usize)
    ensures
        r == index_of(cs@, c),
        r <= cs@.len(),
{
    let mut i: usize = 0;
    while i < cs.len() && cs[i] != c
        invariant
            0 <= i <= cs@.len(),
            forall|k: int| 0 <= k < i ==> #[trigger] cs@[k] != c,
        decreases cs@.len() - i,
    {
        i = i + 1;
    }
    proof {
        lemma_index_of_is(cs@, c, i as int);
    }
    i
}

/// The index of the last `c` in `cs`.
pub fn rfind_char(cs: &[char], c: char) -> (r: Option<usize>)
    ensures
        match r {
            Some(k) => k == last_index_of(cs@, c) && k < cs@.len(),
            None => last_index_of(cs@, c) == -1,
        },
{
    let mut i: usize = cs.len();
    while i > 0 && cs[i - 1] != c
        invariant
            0 <= i <= cs@.len(),
            forall|k: int| i <= k < cs@.len() ==> #[trigger] cs@[k] != c,
        decreases i,
    {
        i = i - 1;
    }
    proof {
        lemma_last_index_of_is(cs@, c, i - 1);
    }
    if i > 0 {
        Some(i - 1)
    } else {
        None
    }
}

/// The index at which `pat` first occurs in `cs`, looking from index `from` on.
pub fn find_chars(cs: &[char], pat: &[char], from: usize) -> (r: Option<usize>)
    ensures
        match r {
            Some(k) => find_from(cs@, pat@, from as int) == Some(k as int) && from <= k && k
                + pat@.len() <= cs@.len(),
            None => find_from(cs@, pat@, from as int) is None,
        },
{
    if pat.len() > cs.len() {
        return None;
    }
    let last: usize = cs.len() - pat.len();
    let mut i: usize = from;
    while i <= last
        invariant
            from <= i,
            last == cs@.len() - pat@.len(),
            cs@.len() <= usize::MAX,
            find_from(cs@, pat@, from as int) == find_from(cs@, pat@, i as int),
        decreases cs@.len() + 1 - i,
    {
        if same_chars(slice_subrange(cs, i, i + pat.len()), pat) {
            return Some(i);
        }
        proof {
            if pat@.len() == 0 {
                assert(cs@.subrange(i as int, i as int) =~= pat@);
            }
        }
        i = i + 1;
    }
    None
}

/// The index of the last character of `cs` that starts at or before byte `b`.
pub fn index_at(cs: &[char], b: usize) -> (r: usize)
    ensures
        r == floor_index(cs@, b as int),
        r <= cs@.len(),
        off(cs@, r as int) <= b,
{
    let mut i: usize = 0;
    let mut left: usize = b;
    proof {
        lemma_off_ends(cs@);
        lemma_floor_index(cs@, b as int);
        assert(cs@.skip(0) =~= cs@);
    }
    while i < cs.len()
        invariant
            0 <= i <= cs@.len(),
            left <= b,
            floor_index(cs@, b as int) == i + floor_index(cs@.skip(i as int), left as int),
        decreases cs@.len() - i,
    {
        let w: usize = char_width(cs[i]);
        if w > left {
            proof {
                lemma_floor_index(cs@, b as int);
            }
            return i;
        }
        proof {
            assert(cs@.skip(i as int).drop_first() =~= cs@.skip(i + 1));
        }
        left = left - w;
        i = i + 1;
    }
    proof {
        lemma_floor_index(cs@, b as int);
    }
    i
}

/// The byte offset of the character at index `i` of `cs`.
pub fn offset_of(cs: &[char], i: usize) -> (r: usize)
    requires
        i <= cs@.len(),
        blen(cs@) <= usize::MAX,
    ensures
        r == off(cs@, i as int),
        r <= blen(cs@),
{
    proof {
        lemma_blen_split(cs@, i as int);
        assert(cs@.subrange(0, i as int) =~= cs@.take(i as int));
    }
    chars_len(slice_subrange(cs, 0, i))
}

// ---------- parts of a string ----------

proof fn lemma_encode_concat(a: Seq<char>, b: Seq<char>)
    ensures
        encode_utf8(a + b) == encode_utf8(a) + encode_utf8(b),
    decreases a.len(),
{
    if a.len() == 0 {
        assert(a + b =~= b);
        assert(encode_utf8(a) + encode_utf8(b) =~= encode_utf8(b));
    } else {
        lemma_encode_concat(a.drop_first(), b);
        assert((a + b).drop_first() =~= a.drop_first() + b);
        assert(encode_utf8(a + b) =~= encode_utf8(a) + encode_utf8(b));
    }
}

proof fn lemma_off_char_boundary(s: Seq<char>, i: int)
    requires
        0 <= i <= s.len(),
    ensures
        is_char_boundary(encode_utf8(s), off(s, i) as int),
    decreases i,
{
    encode_utf8_valid_utf8(s);
    if i == 0 {
        lemma_off_ends(s);
    } else {
        let t = s.drop_first();
        lemma_off_char_boundary(t, i - 1);
        encode_utf8_first_scalar(s);
        char_is_scalar(s[0]);
        assert(pop_first_scalar(encode_utf8(s)) =~= encode_utf8(t));
        assert(s.take(i).drop_first() =~= t.take(i - 1));
        lemma_blen_split(s, i);
        lemma_blen_encode(s);
    }
}

proof fn lemma_encode_injective(a: Seq<char>, b: Seq<char>)
    requires
        encode_utf8(a) == encode_utf8(b),
    ensures
        a == b,
{
    encode_utf8_decode_utf8(a);
    encode_utf8_decode_utf8(b);
}

/// The text of `s` from the character at byte `a`, index `i`, up to the one at
/// byte `b`, index `j`.
pub fn cut<'a>(s: &'a str, a: usize, b: usize, Ghost(i): Ghost<int>, Ghost(j): Ghost<int>) -> (r:
    &'a str)
    requires
        0 <= i <= j <= s@.len(),
        off(s@, i) == a,
        off(s@, j) == b,
    ensures
        r@ == s@.subrange(i, j),
{
    proof {
        lemma_off_mono(s@, i, j);
        lemma_off_char_boundary(s@, i);
    }
    let (head, t) = s.split_at(a);
    proof {
        let whole = encode_utf8(s@);
        lemma_blen_encode(s@);
        lemma_blen_encode(s@.take(i));
        lemma_encode_concat(s@.take(i), s@.skip(i));
        assert(s@ =~= s@.take(i) + s@.skip(i));
        assert(encode_utf8(t@) =~= encode_utf8(s@.skip(i)));
        lemma_encode_injective(t@, s@.skip(i));
        assert(t@ =~= s@.subrange(i, s@.len() as int));
        lemma_off_subrange(s@, i, s@.len() as int, j - i);
        lemma_off_char_boundary(t@, j - i);
    }
    let (u, rest) = t.split_at(b - a);
    proof {
        lemma_blen_encode(t@);
        lemma_blen_encode(t@.take(j - i));
        lemma_encode_concat(t@.take(j - i), t@.skip(j - i));
        assert(t@ =~= t@.take(j - i) + t@.skip(j - i));
        assert(encode_utf8(u@) =~= encode_utf8(t@.take(j - i)));
        lemma_encode_injective(u@, t@.take(j - i));
        assert(u@ =~= s@.subrange(i, j));
    }
    u
}

// ---------- splitting and joining ----------

/// The parts of `s` between the occurrences of `c`.
pub open spec fn split_on(s: Seq<char>, c: char) -> Seq<Seq<char>>
    decreases s.len(),
{
    let k = index_of(s, c);
    if 0 <= k < s.len() {
        seq![s.take(k)] + split_on(s.skip(k + 1), c)
    } else {
        seq![s]
    }
}

/// The texts `parts` with `c` between each two.
pub open spec fn join(parts: Seq<Seq<char>>, c: char) -> Seq<char>
    decreases parts.len(),
{
    if parts.len() == 0 {
        Seq::empty()
    } else if parts.len() == 1 {
        parts[0]
    } else {
        parts[0].push(c) + join(parts.drop_first(), c)
    }
}

/// The texts that a sequence of strings holds.
pub open spec fn texts(v: Seq<String>) -> Seq<Seq<char>> {
    v.map_values(|s: String| s@)
}

/// The texts that a sequence of character slices holds.
pub open spec fn slices(v: Seq<&[char]>) -> Seq<Seq<char>> {
    v.map_values(|s: &[char]| s@)
}

pub proof fn lemma_split_nonempty(s: Seq<char>, c: char)
    ensures
        split_on(s, c).len() >= 1,
    decreases s.len(),
{
    let k = index_of(s, c);
    if 0 <= k < s.len() {
        lemma_split_nonempty(s.skip(k + 1), c);
    }
}

pub proof fn lemma_join_push_front(a: Seq<char>, rest: Seq<Seq<char>>, c: char)
    requires
        rest.len() >= 1,
    ensures
        join(seq![a] + rest, c) == a.push(c) + join(rest, c),
{
    assert((seq![a] + rest).drop_first() =~= rest);
}

/// Joining what was split gives the text back.
pub proof fn lemma_join_split(s: Seq<char>, c: char)
    ensures
        join(split_on(s, c), c) == s,
    decreases s.len(),
{
    lemma_index_of(s, c);
    let k = index_of(s, c);
    if 0 <= k < s.len() {
        let t = s.skip(k + 1);
        lemma_join_split(t, c);
        lemma_split_nonempty(t, c);
        lemma_join_push_front(s.take(k), split_on(t, c), c);
        assert(s =~= s.take(k).push(c) + t);
    }
}

/// Splitting what was joined gives the parts back, if none of them holds the separator.
pub proof fn lemma_split_join(parts: Seq<Seq<char>>, c: char)
    requires
        parts.len() >= 1,
        forall|k: int| 0 <= k < parts.len() ==> !(#[trigger] parts[k]).contains(c),
    ensures
        split_on(join(parts, c), c) == parts,
    decreases parts.len(),
{
    let s = join(parts, c);
    let a = parts[0];
    assert(!parts[0].contains(c));
    if parts.len() == 1 {
        assert forall|k: int| 0 <= k < a.len() implies #[trigger] a[k] != c by {
            assert(a.contains(a[k]));
        }
        lemma_index_of_is(s, c, s.len() as int);
        assert(parts =~= seq![s]);
    } else {
        let rest = parts.drop_first();
        lemma_split_join(rest, c);
        assert forall|k: int| 0 <= k < a.len() implies #[trigger] s[k] != c by {
            assert(s[k] == a[k]);
            assert(a.contains(a[k]));
        }
        lemma_index_of_is(s, c, a.len() as int);
        assert(s.take(a.len() as int) =~= a);
        assert(s.skip(a.len() as int + 1) =~= join(rest, c));
        assert(parts =~= seq![a] + rest);
    }
}

/// No part holds the separator.
pub proof fn lemma_split_parts(s: Seq<char>, c: char)
    ensures
        forall|k: int| 0 <= k < split_on(s, c).len() ==> !(#[trigger] split_on(s, c)[k]).contains(c),
    decreases s.len(),
{
    lemma_index_of(s, c);
    let n = index_of(s, c);
    if 0 <= n < s.len() {
        let t = s.skip(n + 1);
        lemma_split_parts(t, c);
        assert forall|k: int| 0 <= k < split_on(s, c).len() implies !(#[trigger] split_on(
            s,
            c,
        )[k]).contains(c) by {
            if k == 0 {
                assert(split_on(s, c)[0] == s.take(n));
            } else {
                assert(split_on(s, c)[k] == split_on(t, c)[k - 1]);
            }
        }
    }
}

/// Where the parts of a split lie: part by part, one separator between each two.
pub proof fn lemma_split_lengths(s: Seq<char>, c: char)
    ensures
        forall|k: int| 0 <= k < split_on(s, c).len() ==> #[trigger] blen(split_on(s, c)[k]) <= blen(s),
    decreases s.len(),
{
    lemma_index_of(s, c);
    let n = index_of(s, c);
    if 0 <= n < s.len() {
        let t = s.skip(n + 1);
        lemma_split_lengths(t, c);
        lemma_blen_split(s, n);
        lemma_blen_split(s, n + 1);
        assert forall|k: int| 0 <= k < split_on(s, c).len() implies #[trigger] blen(
            split_on(s, c)[k],
        ) <= blen(s) by {
            if k == 0 {
                assert(split_on(s, c)[0] == s.take(n));
            } else {
                assert(split_on(s, c)[k] == split_on(t, c)[k - 1]);
                assert(blen(split_on(t, c)[k - 1]) <= blen(t));
            }
        }
    }
}

/// The parts of `cs` between the occurrences of `c`.
pub fn split_chars<'a>(cs: &'a [char], c: char) -> (r: Vec<&'a [char]>)
    ensures
        slices(r@) == split_on(cs@, c),
{
    let mut v: Vec<&'a [char]> = Vec::new();
    let mut rest = cs;
    let mut k: usize = find_char(rest, c);
    proof {
        assert(slices(v@) + split_on(rest@, c) =~= split_on(cs@, c));
    }
    while k < rest.len()
        invariant
            k == index_of(rest@, c),
            k <= rest@.len(),
            slices(v@) + split_on(rest@, c) == split_on(cs@, c),
        decreases rest@.len(),
    {
        let ghost old_v = v@;
        let ghost old_rest = rest@;
        let head = slice_subrange(rest, 0, k);
        v.push(head);
        rest = slice_subrange(rest, k + 1, rest.len());
        proof {
            assert(head@ =~= old_rest.take(k as int));
            assert(rest@ =~= old_rest.skip(k + 1));
            assert(slices(v@) =~= slices(old_v).push(head@));
            assert(split_on(old_rest, c) == seq![old_rest.take(k as int)] + split_on(rest@, c));
            assert(slices(v@) + split_on(rest@, c) =~= slices(old_v) + split_on(old_rest, c));
        }
        k = find_char(rest, c);
    }
    let ghost before = v@;
    v.push(rest);
    proof {
        assert(slices(v@) =~= slices(before).push(rest@));
        assert(split_on(rest@, c) == seq![rest@]);
        assert(slices(v@) =~= slices(before) + split_on(rest@, c));
    }
    v
}

/// A later byte belongs to the same or a later character.
pub proof fn lemma_floor_mono(s: Seq<char>, a: int, b: int)
    requires
        0 <= a <= b,
    ensures
        floor_index(s, a) <= floor_index(s, b),
{
    lemma_floor_index(s, a);
    lemma_floor_index(s, b);
    let i = floor_index(s, a);
    let j = floor_index(s, b);
    if j < i {
        lemma_off_mono(s, j + 1, i);
    }
}

/// Behind the end of a text there is no further character.
pub proof fn lemma_floor_end(s: Seq<char>, b: int)
    requires
        blen(s) <= b,
    ensures
        floor_index(s, b) == s.len(),
{
    lemma_floor_index(s, b);
    let i = floor_index(s, b);
    if i < s.len() {
        lemma_off_mono(s, i + 1, s.len() as int);
    }
}

// ---------- numbers ----------

/// The character of a decimal digit.
pub open spec fn digit_char(d: nat) -> char {
    ('0' as u32 + d) as char
}

/// A number in decimal.
pub open spec fn digits_of(n: nat) -> Seq<char>
    decreases n,
{
    if n < 10 {
        seq![digit_char(n)]
    } else {
        digits_of(n / 10).push(digit_char(n % 10))
    }
}

fn digit(d: u128) -> (r: char)
    requires
        d < 10,
    ensures
        r == digit_char(d as nat),
{
    ('0' as u8 + d as u8) as char
}

/// A number in decimal.
pub fn wide_number_chars(n: u128) -> (r: Vec<char>)
    ensures
        r@ == digits_of(n as nat),
    decreases n,
{
    if n < 10 {
        let mut v: Vec<char> = Vec::new();
        v.push(digit(n));
        proof {
            assert(v@ =~= digits_of(n as nat));
        }
        v
    } else {
        let mut v: Vec<char> = wide_number_chars(n / 10);
        v.push(digit(n % 10));
        v
    }
}

/// A number in decimal.
pub fn number_chars(n: u64) -> (r: Vec<char>)
    ensures
        r@ == digits_of(n as nat),
{
    wide_number_chars(n as u128)
}

/// Appends the characters `cs` to `v`.
pub fn extend(v: &mut Vec<char>, cs: &[char])
    ensures
        final(v)@ == old(v)@ + cs@,
{
    let mut i: usize = 0;
    proof {
        assert(v@ =~= v@ + cs@.take(0));
    }
    while i < cs.len()
        invariant
            0 <= i <= cs@.len(),
            v@ == old(v)@ + cs@.take(i as int),
        decreases cs@.len() - i,
    {
        v.push(cs[i]);
        proof {
            assert(v@ =~= old(v)@ + cs@.take(i + 1));
        }
        i = i + 1;
    }
    proof {
        assert(cs@.take(cs@.len() as int) =~= cs@);
    }
}

/// Appends the characters of `s` to `v`.
pub fn extend_str(v: &mut Vec<char>, s: &str)
    ensures
        final(v)@ == old(v)@ + s@,
{
    let cs: Vec<char> = chars_of(s);
    extend(v, cs.as_slice());
}

// ---------- lines ----------

/// A line without the CR that it ends with.
pub open spec fn without_cr(s: Seq<char>) -> Seq<char> {
    if s.len() > 0 && s.last() == '\r' {
        s.drop_last()
    } else {
        s
    }
}

/// The lines of a text: what stands before each LF or CR LF, and what stands behind
/// the last, if anything does.
pub open spec fn lines_of(s: Seq<char>) -> Seq<Seq<char>>
    decreases s.len(),
{
    let k = index_of(s, '\n');
    if s.len() == 0 {
        Seq::empty()
    } else if 0 <= k < s.len() {
        seq![without_cr(s.take(k))] + lines_of(s.skip(k + 1))
    } else {
        seq![s]
    }
}

/// The lines of a text.
pub fn lines_chars<'a>(cs: &'a [char]) -> (r: Vec<&'a [char]>)
    ensures
        slices(r@) == lines_of(cs@),
{
    let mut v: Vec<&'a [char]> = Vec::new();
    let mut rest = cs;
    proof {
        assert(slices(v@) + lines_of(rest@) =~= lines_of(cs@));
    }
    while rest.len() > 0
        invariant
            slices(v@) + lines_of(rest@) == lines_of(cs@),
        decreases rest@.len(),
    {
        let ghost old_v = v@;
        let ghost old_rest = rest@;
        let k: usize = find_char(rest, '\n');
        if k < rest.len() {
            let end: usize = if k > 0 && rest[k - 1] == '\r' {
                k - 1
            } else {
                k
            };
            let head = slice_subrange(rest, 0, end);
            v.push(head);
            rest = slice_subrange(rest, k + 1, rest.len());
            proof {
                assert(head@ =~= without_cr(old_rest.take(k as int)));
                assert(rest@ =~= old_rest.skip(k + 1));
                assert(slices(v@) =~= slices(old_v).push(head@));
                assert(lines_of(old_rest) == seq![head@] + lines_of(rest@));
                assert(slices(v@) + lines_of(rest@) =~= slices(old_v) + lines_of(old_rest));
            }
        } else {
            v.push(rest);
            rest = slice_subrange(rest, k, rest.len());
            proof {
                assert(slices(v@) =~= slices(old_v).push(old_rest));
                assert(lines_of(old_rest) == seq![old_rest]);
                assert(slices(v@) + lines_of(rest@) =~= slices(old_v) + lines_of(old_rest));
            }
        }
    }
    proof {
        assert(slices(v@) + lines_of(rest@) =~= slices(v@));
    }
    v
}

// ---------- order ----------

/// Whether `a` comes before `b`: at the first difference by code point, a text
/// before those that go on where it ends.
pub open spec fn text_before(a: Seq<char>, b: Seq<char>) -> bool
    decreases a.len(),
{
    if b.len() == 0 {
        false
    } else if a.len() == 0 {
        true
    } else if a[0] == b[0] {
        text_before(a.drop_first(), b.drop_first())
    } else {
        (a[0] as u32) < (b[0] as u32)
    }
}

/// Of two different texts one comes before the other.
pub proof fn lemma_text_order_total(a: Seq<char>, b: Seq<char>)
    ensures
        a == b || text_before(a, b) || text_before(b, a),
        !(text_before(a, b) && text_before(b, a)),
        a == b ==> !text_before(a, b),
    decreases a.len(),
{
    if a.len() > 0 && b.len() > 0 {
        if a[0] == b[0] {
            lemma_text_order_total(a.drop_first(), b.drop_first());
            if a.drop_first() == b.drop_first() {
                assert(a =~= seq![a[0]] + a.drop_first());
                assert(b =~= seq![b[0]] + b.drop_first());
            }
        } else if a[0] as u32 == b[0] as u32 {
            vstd::utf8::char_u32_cast(a[0], b[0] as u32);
            vstd::utf8::char_u32_cast(b[0], b[0] as u32);
        }
    } else {
        if a.len() == 0 && b.len() == 0 {
            assert(a =~= b);
        }
    }
}

pub proof fn lemma_text_order_transitive(a: Seq<char>, b: Seq<char>, c: Seq<char>)
    requires
        text_before(a, b),
        text_before(b, c),
    ensures
        text_before(a, c),
    decreases a.len(),
{
    if a.len() > 0 && a[0] == b[0] && b[0] == c[0] {
        lemma_text_order_transitive(a.drop_first(), b.drop_first(), c.drop_first());
    }
}

/// Whether `a` comes before `b`.
pub fn comes_before(a: &[char], b: &[char]) -> (r: bool)
    ensures
        r == text_before(a@, b@),
{
    let mut i: usize = 0;
    proof {
        assert(a@.skip(0) =~= a@);
        assert(b@.skip(0) =~= b@);
    }
    while i < a.len() && i < b.len()
        invariant
            0 <= i <= a@.len(),
            i <= b@.len(),
            text_before(a@, b@) == text_before(a@.skip(i as int), b@.skip(i as int)),
        decreases a@.len() - i,
    {
        proof {
            assert(a@.skip(i as int)[0] == a@[i as int]);
            assert(b@.skip(i as int)[0] == b@[i as int]);
            assert(a@.skip(i as int).drop_first() =~= a@.skip(i + 1));
            assert(b@.skip(i as int).drop_first() =~= b@.skip(i + 1));
        }
        if a[i] != b[i] {
            return (a[i] as u32) < (b[i] as u32);
        }
        i = i + 1;
    }
    i < b.len()
}

// ---------- case ----------

/// A text in lower case, by the Unicode tables.
pub uninterp spec fn lowercase(s: Seq<char>) -> Seq<char>;

/// `str::to_lowercase`: a function of the text alone. Each character becomes one or more,
/// so that only an empty text becomes empty.
pub assume_specification[ str::to_lowercase ](s: &str) -> (r: String)
    ensures
        r@ == lowercase(s@),
        r@.len() == 0 <==> s@.len() == 0,
;

/// Whether `pat` occurs in `s`.
pub open spec fn has_text(s: Seq<char>, pat: Seq<char>) -> bool {
    find_from(s, pat, 0) is Some
}

/// Whether `pat` occurs in `cs`.
pub fn contains_text(cs: &[char], pat: &[char]) -> (r: bool)
    ensures
        r == has_text(cs@, pat@),
{
    find_chars(cs, pat, 0).is_some()
}

/// Whether `cs` ends with `pat`.
pub fn ends_with(cs: &[char], pat: &[char]) -> (r: bool)
    ensures
        r == pat@.is_suffix_of(cs@),
{
    if pat.len() > cs.len() {
        return false;
    }
    let tail = slice_subrange(cs, cs.len() - pat.len(), cs.len());
    proof {
        assert(tail@ =~= cs@.skip(cs@.len() - pat@.len()));
        if pat@.is_suffix_of(cs@) {
            assert(tail@ =~= pat@);
        }
    }
    same_chars(tail, pat)
}

/// `s` without the run of `c` at either end.
pub open spec fn trim_run(s: Seq<char>, c: char) -> Seq<char> {
    trim_run_end(s.skip(run_of(s, c)), c)
}

/// `s` without the run of `c` that it ends with.
pub open spec fn trim_run_end(s: Seq<char>, c: char) -> Seq<char>
    decreases s.len(),
{
    if s.len() == 0 || s.last() != c {
        s
    } else {
        trim_run_end(s.drop_last(), c)
    }
}

/// `cs` without the run of `c` that it ends with.
pub fn trim_run_end_chars<'a>(cs: &'a [char], c: char) -> (r: &'a [char])
    ensures
        r@ == trim_run_end(cs@, c),
{
    let mut n: usize = cs.len();
    proof {
        assert(cs@.take(n as int) =~= cs@);
    }
    while n > 0 && cs[n - 1] == c
        invariant
            0 <= n <= cs@.len(),
            trim_run_end(cs@, c) == trim_run_end(cs@.take(n as int), c),
        decreases n,
    {
        proof {
            assert(cs@.take(n as int).drop_last() =~= cs@.take(n - 1));
        }
        n = n - 1;
    }
    proof {
        assert(cs@.subrange(0, n as int) =~= cs@.take(n as int));
    }
    slice_subrange(cs, 0, n)
}

/// `cs` without the run of `c` at either end.
pub fn trim_run_chars<'a>(cs: &'a [char], c: char) -> (r: &'a [char])
    ensures
        r@ == trim_run(cs@, c),
{
    let n: usize = count_run(cs, c);
    let t = slice_subrange(cs, n, cs.len());
    proof {
        assert(t@ =~= cs@.skip(n as int));
    }
    trim_run_end_chars(t, c)
}

/// `a` and then `b`.
pub fn glue(a: &str, b: &str) -> (r: String)
    ensures
        r@ == a@ + b@,
{
    let mut v: Vec<char> = chars_of(a);
    extend_str(&mut v, b);
    string_of(v.as_slice())
}

/// `a`, then `b`, then `c`.
pub fn glue3(a: &str, b: &str, c: &str) -> (r: String)
    ensures
        r@ == a@ + b@ + c@,
{
    let mut v: Vec<char> = chars_of(a);
    extend_str(&mut v, b);
    extend_str(&mut v, c);
    string_of(v.as_slice())
}

/// Whether a text is blank.
pub fn is_blank(s: &str) -> (r: bool)
    ensures
        r == (trim(s@).len() == 0),
{
    let cs: Vec<char> = chars_of(s);
    trim_chars(cs.as_slice()).len() == 0
}

/// What two texts start with in common does not count for their order.
pub proof fn lemma_same_start(p: Seq<char>, a: Seq<char>, b: Seq<char>)
    ensures
        text_before(p + a, p + b) == text_before(a, b),
    decreases p.len(),
{
    if p.len() == 0 {
        assert(p + a =~= a);
        assert(p + b =~= b);
    } else {
        lemma_same_start(p.drop_first(), a, b);
        assert((p + a).drop_first() =~= p.drop_first() + a);
        assert((p + b).drop_first() =~= p.drop_first() + b);
    }
}

proof fn lemma_longer(a: Seq<char>, b: Seq<char>, x: char, y: char)
    requires
        a.len() == b.len(),
        text_before(a, b),
    ensures
        text_before(a.push(x), b.push(y)),
    decreases a.len(),
{
    assert(a.push(x)[0] == a[0]);
    assert(b.push(y)[0] == b[0]);
    if a[0] == b[0] {
        lemma_longer(a.drop_first(), b.drop_first(), x, y);
        assert(a.push(x).drop_first() =~= a.drop_first().push(x));
        assert(b.push(y).drop_first() =~= b.drop_first().push(y));
    }
}

/// A number has digits, and nothing else.
pub proof fn lemma_digits(n: nat)
    ensures
        digits_of(n).len() > 0,
        forall|i: int| 0 <= i < digits_of(n).len() ==> '0' <= #[trigger] digits_of(n)[i] <= '9',
    decreases n,
{
    if n >= 10 {
        lemma_digits(n / 10);
    }
}

/// A greater number has more digits, or comes behind.
pub proof fn lemma_digits_order(n: nat, m: nat)
    requires
        n < m,
    ensures
        digits_of(n).len() < digits_of(m).len() || (digits_of(n).len() == digits_of(m).len()
            && text_before(digits_of(n), digits_of(m))),
    decreases m,
{
    lemma_digits(n / 10);
    lemma_digits(m / 10);
    if n < 10 {
        if m < 10 {
            assert(digits_of(n)[0] == digit_char(n));
        }
    } else if n / 10 < m / 10 {
        lemma_digits_order(n / 10, m / 10);
        if digits_of(n / 10).len() == digits_of(m / 10).len() {
            lemma_longer(
                digits_of(n / 10),
                digits_of(m / 10),
                digit_char(n % 10),
                digit_char(m % 10),
            );
        }
    } else {
        let p = digits_of(n / 10);
        let (x, y) = (seq![digit_char(n % 10)], seq![digit_char(m % 10)]);
        assert(digits_of(n) =~= p + x);
        assert(digits_of(m) =~= p + y);
        assert(text_before(x, y)) by {
            assert(x[0] == digit_char(n % 10));
        }
        lemma_same_start(p, x, y);
    }
}


/// Different numbers have different digits.
pub proof fn lemma_digits_differ(n: nat, m: nat)
    requires
        n != m,
    ensures
        digits_of(n) != digits_of(m),
{
    if n < m {
        lemma_digits_order(n, m);
    } else {
        lemma_digits_order(m, n);
    }
    lemma_text_order_total(digits_of(n), digits_of(m));
}

} // verus!
