//! Paths of notes: texts with `/` between their parts.
use crate::text::{
    chars_of, index_of, last_index_of, lemma_index_of, lemma_index_of_is, lemma_last_index_of_is,
    lemma_split_nonempty, rfind_char, slices, split_chars, split_on, string_of,
};
use vstd::prelude::*;
use vstd::slice::slice_subrange;

verus! {

/// The last part of a path, from part `k` down: empty parts and `.` are passed
/// over; the root, `..` and a leading `.` have no name.
pub open spec fn name_from(parts: Seq<Seq<char>>, k: int) -> Option<Seq<char>>
    decreases k + 1,
{
    if k < 0 || k >= parts.len() {
        None
    } else if parts[k].len() == 0 || (parts[k] == seq!['.'] && k > 0) {
        name_from(parts, k - 1)
    } else if parts[k] == seq!['.'] || parts[k] == seq!['.', '.'] {
        None
    } else {
        Some(parts[k])
    }
}

/// The file name that a path ends with.
pub open spec fn file_name(p: Seq<char>) -> Option<Seq<char>> {
    let parts = split_on(p, '/');
    name_from(parts, parts.len() - 1)
}

/// A file name without its extension. A name that starts with its only dot has none.
pub open spec fn stem_of(name: Seq<char>) -> Seq<char> {
    let k = last_index_of(name, '.');
    if k <= 0 {
        name
    } else {
        name.take(k)
    }
}

pub open spec fn extension_of(name: Seq<char>) -> Option<Seq<char>> {
    let k = last_index_of(name, '.');
    if k <= 0 {
        None
    } else {
        Some(name.skip(k + 1))
    }
}

pub open spec fn file_stem(p: Seq<char>) -> Option<Seq<char>> {
    match file_name(p) {
        Some(n) => Some(stem_of(n)),
        None => None,
    }
}

pub open spec fn extension(p: Seq<char>) -> Option<Seq<char>> {
    match file_name(p) {
        Some(n) => extension_of(n),
        None => None,
    }
}

/// How many of the first `k` parts count: not the empty ones, and a `.` only in front.
pub open spec fn count_parts(parts: Seq<Seq<char>>, k: int) -> int
    decreases k,
{
    if k <= 0 {
        0
    } else {
        count_parts(parts, k - 1) + if parts[k - 1].len() == 0 || (parts[k - 1] == seq!['.'] && k
            > 1) {
            0int
        } else {
            1
        }
    }
}

/// How many parts a path has, the root being one.
pub open spec fn depth(p: Seq<char>) -> int {
    let parts = split_on(p, '/');
    count_parts(parts, parts.len() as int) + if p.len() > 0 && p[0] == '/' {
        1int
    } else {
        0
    }
}

/// A path below a directory.
pub open spec fn joined(dir: Seq<char>, rel: Seq<char>) -> Seq<char> {
    if rel.len() > 0 && rel[0] == '/' {
        rel
    } else if dir.len() == 0 || dir.last() == '/' {
        dir + rel
    } else {
        dir.push('/') + rel
    }
}

proof fn lemma_count_parts(parts: Seq<Seq<char>>, k: int)
    requires
        0 <= k <= parts.len(),
    ensures
        0 <= count_parts(parts, k) <= k,
    decreases k,
{
    if k > 0 {
        lemma_count_parts(parts, k - 1);
    }
}

pub open spec fn opt_chars(o: Option<Vec<char>>) -> Option<Seq<char>> {
    match o {
        Some(v) => Some(v@),
        None => None,
    }
}

fn is_dot(cs: &[char]) -> (r: bool)
    ensures
        r == (cs@ == seq!['.']),
{
    let r: bool = cs.len() == 1 && cs[0] == '.';
    proof {
        if r {
            assert(cs@ =~= seq!['.']);
        }
    }
    r
}

fn is_dot_dot(cs: &[char]) -> (r: bool)
    ensures
        r == (cs@ == seq!['.', '.']),
{
    let r: bool = cs.len() == 2 && cs[0] == '.' && cs[1] == '.';
    proof {
        if r {
            assert(cs@ =~= seq!['.', '.']);
        }
    }
    r
}

/// The file name that a path ends with.
pub fn file_name_of(p: &str) -> (r: Option<Vec<char>>)
    ensures
        opt_chars(r) == file_name(p@),
{
    let cs: Vec<char> = chars_of(p);
    let parts: Vec<&[char]> = split_chars(cs.as_slice(), '/');
    let ghost ps = split_on(p@, '/');
    let mut k: usize = parts.len();
    proof {
        assert(slices(parts@).len() == parts@.len());
    }
    while k > 0
        invariant
            0 <= k <= parts@.len(),
            slices(parts@) == ps,
            ps.len() == parts@.len(),
            file_name(p@) == name_from(ps, k - 1),
        decreases k,
    {
        let part = parts[k - 1];
        proof {
            assert(part@ == ps[k - 1]);
        }
        if part.len() == 0 || (is_dot(part) && k > 1) {
            k = k - 1;
        } else if is_dot(part) || is_dot_dot(part) {
            return None;
        } else {
            return Some(vstd::slice::slice_to_vec(part));
        }
    }
    None
}

/// The file name that a path ends with, without its extension.
pub fn file_stem_of(p: &str) -> (r: Option<Vec<char>>)
    ensures
        opt_chars(r) == file_stem(p@),
{
    match file_name_of(p) {
        Some(n) => {
            let s = n.as_slice();
            match rfind_char(s, '.') {
                Some(k) => {
                    if k == 0 {
                        Some(n)
                    } else {
                        proof {
                            assert(s@.subrange(0, k as int) =~= s@.take(k as int));
                        }
                        Some(vstd::slice::slice_to_vec(slice_subrange(s, 0, k)))
                    }
                },
                None => Some(n),
            }
        },
        None => None,
    }
}

/// The extension of the file name that a path ends with.
pub fn extension_of_path(p: &str) -> (r: Option<Vec<char>>)
    ensures
        opt_chars(r) == extension(p@),
{
    match file_name_of(p) {
        Some(n) => {
            let s = n.as_slice();
            let len: usize = s.len();
            match rfind_char(s, '.') {
                Some(k) => {
                    if k == 0 {
                        None
                    } else {
                        proof {
                            assert(s@.subrange(k + 1, s@.len() as int) =~= s@.skip(k + 1));
                        }
                        Some(vstd::slice::slice_to_vec(slice_subrange(s, k + 1, len)))
                    }
                },
                None => None,
            }
        },
        None => None,
    }
}

/// How many parts a path has.
pub fn depth_of(p: &str) -> (r: usize)
    ensures
        r == depth(p@),
{
    let cs: Vec<char> = chars_of(p);
    let parts: Vec<&[char]> = split_chars(cs.as_slice(), '/');
    let ghost ps = split_on(p@, '/');
    let mut n: usize = 0;
    let mut k: usize = 0;
    proof {
        assert(slices(parts@).len() == parts@.len());
        crate::text::lemma_split_nonempty(p@, '/');
    }
    let total: usize = parts.len();
    while k < parts.len()
        invariant
            0 <= k <= parts@.len(),
            slices(parts@) == ps,
            ps.len() == parts@.len(),
            n <= k,
            n == count_parts(ps, k as int),
        decreases parts@.len() - k,
    {
        let part = parts[k];
        proof {
            assert(part@ == ps[k as int]);
        }
        if !(part.len() == 0 || (is_dot(part) && k > 0)) {
            n = n + 1;
        }
        k = k + 1;
    }
    if cs.len() > 0 && cs[0] == '/' {
        proof {
            lemma_root_part(p@);
            lemma_count_parts_root(ps, ps.len() as int);
        }
        n + 1
    } else {
        n
    }
}

proof fn lemma_root_part(s: Seq<char>)
    requires
        s.len() > 0,
        s[0] == '/',
    ensures
        split_on(s, '/')[0].len() == 0,
{
    assert(index_of(s, '/') == 0);
}

proof fn lemma_count_parts_root(parts: Seq<Seq<char>>, k: int)
    requires
        1 <= k <= parts.len(),
        parts[0].len() == 0,
    ensures
        count_parts(parts, k) <= k - 1,
    decreases k,
{
    if k > 1 {
        lemma_count_parts_root(parts, k - 1);
    } else {
        assert(count_parts(parts, 0) == 0);
    }
}

/// A path below a directory.
pub fn join_path(dir: &str, rel: &str) -> (r: String)
    ensures
        r@ == joined(dir@, rel@),
{
    let d: Vec<char> = chars_of(dir);
    let l: Vec<char> = chars_of(rel);
    if l.len() > 0 && l[0] == '/' {
        return rel.to_owned();
    }
    let mut out: Vec<char> = d;
    if out.len() > 0 && out[out.len() - 1] != '/' {
        out.push('/');
    }
    crate::text::extend(&mut out, l.as_slice());
    string_of(out.as_slice())
}

/// A path without the separators at its end, and without the parts `.` there, but for one
/// that is all of it.
pub open spec fn bare(p: Seq<char>) -> Seq<char>
    decreases p.len(),
{
    let n = p.len() as int;
    if n > 1 && (p[n - 1] == '/' || (p[n - 1] == '.' && p[n - 2] == '/')) {
        bare(p.drop_last())
    } else {
        p
    }
}

/// The directory of a file: what stands before its name. The root has none, and no path
/// has none.
pub open spec fn parent(p: Seq<char>) -> Option<Seq<char>> {
    let b = bare(p);
    let k = last_index_of(b, '/');
    if b.len() == 0 || b == seq!['/'] {
        None
    } else if k < 0 {
        Some(Seq::empty())
    } else {
        Some(bare(b.take(k + 1)))
    }
}

/// A path without what does not count at its end.
pub fn bare_chars<'a>(p: &'a [char]) -> (r: &'a [char])
    ensures
        r@ == bare(p@),
{
    let mut n: usize = p.len();
    proof {
        assert(p@.take(n as int) =~= p@);
    }
    while n > 1 && (p[n - 1] == '/' || (p[n - 1] == '.' && p[n - 2] == '/'))
        invariant
            0 <= n <= p@.len(),
            bare(p@) == bare(p@.take(n as int)),
        decreases n,
    {
        proof {
            assert(p@.take(n as int).drop_last() =~= p@.take(n - 1));
        }
        n = n - 1;
    }
    let r = slice_subrange(p, 0, n);
    proof {
        assert(r@ =~= p@.take(n as int));
    }
    r
}

/// The directory of a file; none of the root.
pub fn parent_of(p: &str) -> (r: Option<String>)
    ensures
        crate::block::opt_text(r) == parent(p@),
{
    let cs: Vec<char> = chars_of(p);
    let b = bare_chars(cs.as_slice());
    let is_root: bool = b.len() == 1 && b[0] == '/';
    proof {
        if is_root {
            assert(b@ =~= seq!['/']);
        }
    }
    if b.len() == 0 || is_root {
        return None;
    }
    match rfind_char(b, '/') {
        Some(k) => {
            let d = slice_subrange(b, 0, k + 1);
            proof {
                assert(d@ =~= b@.take(k + 1));
            }
            Some(string_of(bare_chars(d)))
        },
        None => {
            let r: String = String::new();
            proof {
                assert(r@ =~= Seq::<char>::empty());
            }
            Some(r)
        },
    }
}

// ---------- the names of longer paths ----------

/// The parts of two texts with a separator between them are those of the one and those of
/// the other.
pub proof fn lemma_split_add(a: Seq<char>, b: Seq<char>, c: char)
    ensures
        split_on(a.push(c) + b, c) == split_on(a, c) + split_on(b, c),
    decreases a.len(),
{
    let s = a.push(c) + b;
    let k = index_of(a, c);
    lemma_index_of(a, c);
    assert forall|j: int| 0 <= j < k implies #[trigger] s[j] != c by {
        assert(s[j] == a[j]);
    }
    lemma_index_of_is(s, c, k);
    assert(s.take(k) =~= a.take(k));
    if k < a.len() {
        lemma_split_add(a.skip(k + 1), b, c);
        assert(s.skip(k + 1) =~= a.skip(k + 1).push(c) + b);
        assert(split_on(s, c) =~= split_on(a, c) + split_on(b, c));
    } else {
        assert(a.take(k) =~= a);
        assert(s.skip(k + 1) =~= b);
        assert(split_on(s, c) =~= split_on(a, c) + split_on(b, c));
    }
}

/// What is put behind a text without a separator in it belongs to the last part.
proof fn lemma_split_tail(a: Seq<char>, b: Seq<char>, c: char)
    requires
        !b.contains(c),
    ensures
        split_on(a, c).len() >= 1,
        split_on(a + b, c).len() >= 1,
        split_on(a + b, c).last() == split_on(a, c).last() + b,
        a.len() > 0 && a.last() != c ==> split_on(a, c).last().len() > 0,
    decreases a.len(),
{
    let s = a + b;
    let k = index_of(a, c);
    lemma_index_of(a, c);
    lemma_split_nonempty(a, c);
    lemma_split_nonempty(s, c);
    if k < a.len() {
        assert forall|j: int| 0 <= j < k implies #[trigger] s[j] != c by {
            assert(s[j] == a[j]);
        }
        lemma_index_of_is(s, c, k);
        let t = a.skip(k + 1);
        lemma_split_tail(t, b, c);
        assert(s.skip(k + 1) =~= t + b);
        if a.last() != c {
            assert(t.len() > 0);
            assert(t.last() == a.last());
        }
    } else {
        assert forall|j: int| 0 <= j < s.len() implies #[trigger] s[j] != c by {
            if j < a.len() {
                assert(s[j] == a[j]);
            } else {
                assert(s[j] == b[j - a.len()]);
                assert(b.contains(s[j]));
            }
        }
        lemma_index_of_is(s, c, s.len() as int);
    }
}

proof fn lemma_name_behind(front: Seq<Seq<char>>, parts: Seq<Seq<char>>, k: int)
    requires
        name_from(parts, k) is Some,
    ensures
        name_from(front + parts, front.len() + k) == name_from(parts, k),
    decreases k + 1,
{
    if 0 <= k < parts.len() {
        assert((front + parts)[front.len() + k] == parts[k]);
        if parts[k].len() == 0 || (parts[k] == seq!['.'] && k > 0) {
            lemma_name_behind(front, parts, k - 1);
        }
    }
}

/// A path below a directory ends with the same file name.
pub proof fn lemma_joined_name(dir: Seq<char>, rel: Seq<char>)
    requires
        file_name(rel) is Some,
    ensures
        file_name(joined(dir, rel)) == file_name(rel),
{
    let parts = split_on(rel, '/');
    if !(rel.len() > 0 && rel[0] == '/') {
        if dir.len() == 0 {
            assert(dir + rel =~= rel);
        } else if dir.last() == '/' {
            let d = dir.drop_last();
            assert(dir =~= d.push('/'));
            lemma_split_add(d, rel, '/');
            lemma_name_behind(split_on(d, '/'), parts, parts.len() - 1);
        } else {
            lemma_split_add(dir, rel, '/');
            lemma_name_behind(split_on(dir, '/'), parts, parts.len() - 1);
        }
    }
}

/// A text that does not end with `/` has the extension that is put behind it.
pub proof fn lemma_extension_put(base: Seq<char>, ext: Seq<char>)
    requires
        base.len() > 0,
        base.last() != '/',
        ext.len() > 0,
        !ext.contains('/'),
        !ext.contains('.'),
    ensures
        file_name(base + seq!['.'] + ext) is Some,
        extension(base + seq!['.'] + ext) == Some(ext),
{
    let b = seq!['.'] + ext;
    assert forall|j: int| 0 <= j < b.len() implies #[trigger] b[j] != '/' by {
        if j > 0 {
            assert(b[j] == ext[j - 1]);
            assert(ext.contains(b[j]));
        }
    }
    lemma_split_tail(base, b, '/');
    let s = base + seq!['.'] + ext;
    assert(s =~= base + b);
    let parts = split_on(s, '/');
    let q = split_on(base, '/').last();
    let name = parts.last();
    assert(name == q + b);
    assert(name.len() >= 2);
    assert(name.len() > 2);
    assert forall|j: int| q.len() < j < name.len() implies #[trigger] name[j] != '.' by {
        assert(name[j] == ext[j - q.len() - 1]);
        assert(ext.contains(name[j]));
    }
    assert(name[q.len() as int] == '.');
    lemma_last_index_of_is(name, '.', q.len() as int);
    assert(name.skip(q.len() as int + 1) =~= ext);
}

} // verus!
