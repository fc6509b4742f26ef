//! Snapshots of notes, kept below the vault in `.fastnote/history/`.
//!
//! Files are read and written by the caller. Here stands what is kept, under which
//! name, and which snapshots are dropped.
use crate::block::opt_text;
use crate::date::{
    date_text, dates_have_different_numbers, datetime_from_unix, day_number, is_date,
    is_datetime_at, later_dates_have_greater_numbers, padded, time_text, DEFAULT_OFFSET_MINUTES,
};
use crate::index::push_text;
use crate::paths::{extension, extension_of_path, file_stem, file_stem_of, join_path, joined};
use crate::sorting::{
    int_indices, sort_order, stable_order, stable_order_sorts, stands_before, vec_keys,
};
use crate::text::{
    blen, chars_of, digits_of, extend, extend_str, find_char, floor_index, index_at,
    index_of, join, lemma_digits, lemma_floor_index_off, lemma_index_of_is, lemma_off_ends,
    lemma_off_step, lemma_digits_order, lemma_join_split, lemma_same_start, lemma_split_join, lemma_split_parts, number_chars, off,
    offset_of, same_chars, same_text, slices, split_chars, split_on, string_of, text_before, texts,
    trim, trim_chars,
};
use vstd::prelude::*;
use vstd::slice::slice_subrange;

verus! {

/// The store of snapshots below a vault's root.
pub const STORE_DIR: &'static str = ".fastnote/history";

/// How many snapshots of a note are kept.
pub const MAX_PER_FILE: usize = 40;

/// A snapshot of a note.
#[derive(Clone, Debug, PartialEq, Eq)]
pub struct Snapshot {
    pub path: String,
    /// When it was taken, to be shown.
    pub stamp: String,
    pub bytes: u64,
}

pub struct SnapshotModel {
    pub path: Seq<char>,
    pub stamp: Seq<char>,
    pub bytes: u64,
}

impl View for Snapshot {
    type V = SnapshotModel;

    open spec fn view(&self) -> SnapshotModel {
        SnapshotModel { path: self.path@, stamp: self.stamp@, bytes: self.bytes }
    }
}

// ---------- where snapshots are kept ----------

/// The path of a file below a directory, if it is below it.
pub open spec fn below(root: Seq<char>, file: Seq<char>) -> Option<Seq<char>> {
    let dir = if root.len() == 0 || root.last() == '/' {
        root
    } else {
        root.push('/')
    };
    if file == root {
        Some(Seq::empty())
    } else if dir.is_prefix_of(file) {
        Some(file.skip(dir.len() as int))
    } else {
        None
    }
}

/// `s` with `/` in the place of every backslash.
pub open spec fn slashed(s: Seq<char>) -> Seq<char> {
    s.map_values(|c: char| if c == '\\' {
        '/'
    } else {
        c
    })
}

/// The directory of a note's snapshots: below the store, like the note below the root.
pub open spec fn snap_dir_of(root: Seq<char>, file: Seq<char>) -> Option<Seq<char>> {
    match below(root, file) {
        Some(rel) => Some(joined(joined(root, STORE_DIR@), slashed(rel) + ".snap"@)),
        None => None,
    }
}

/// The directory of a note's snapshots; none if the note is not below the root.
pub fn snap_dir(root: &str, file: &str) -> (r: Option<String>)
    ensures
        crate::block::opt_text(r) == snap_dir_of(root@, file@),
{
    let f: Vec<char> = chars_of(file);
    let mut dir: Vec<char> = chars_of(root);
    let rel: &[char] = if same_text(file, root) {
        let e = slice_subrange(f.as_slice(), 0, 0);
        proof {
            assert(e@ =~= Seq::<char>::empty());
        }
        e
    } else {
        if dir.len() > 0 && dir[dir.len() - 1] != '/' {
            dir.push('/');
        }
        let n: usize = dir.len();
        if n > f.len() {
            return None;
        }
        let head = slice_subrange(f.as_slice(), 0, n);
        proof {
            if dir@.is_prefix_of(f@) {
                assert(head@ =~= dir@);
            }
        }
        if !same_chars(head, dir.as_slice()) {
            return None;
        }
        let t = slice_subrange(f.as_slice(), n, f.len());
        proof {
            assert(t@ =~= f@.skip(n as int));
        }
        t
    };
    let mut name: Vec<char> = Vec::new();
    let mut i: usize = 0;
    while i < rel.len()
        invariant
            0 <= i <= rel@.len(),
            name@ == slashed(rel@.take(i as int)),
        decreases rel@.len() - i,
    {
        if rel[i] == '\\' {
            name.push('/');
        } else {
            name.push(rel[i]);
        }
        proof {
            assert(name@ =~= slashed(rel@.take(i + 1)));
        }
        i = i + 1;
    }
    proof {
        assert(rel@.take(rel@.len() as int) =~= rel@);
    }
    extend_str(&mut name, ".snap");
    let store: String = join_path(root, STORE_DIR);
    Some(join_path(&store, &string_of(name.as_slice())))
}

// ---------- names ----------

/// `s` without the characters that `p` names.
pub open spec fn dropping(s: Seq<char>, p: spec_fn(char) -> bool) -> Seq<char>
    decreases s.len(),
{
    if s.len() == 0 {
        Seq::empty()
    } else if p(s.last()) {
        dropping(s.drop_last(), p)
    } else {
        dropping(s.drop_last(), p).push(s.last())
    }
}

pub open spec fn is_time_mark() -> spec_fn(char) -> bool {
    |c: char| c == '-' || c == ':'
}

pub open spec fn is_blank_mark() -> spec_fn(char) -> bool {
    |c: char| c == ' '
}

/// Date and time in a form for file names: digits, with one dash between.
pub open spec fn compact_of(show: Seq<char>) -> Seq<char> {
    let t = dropping(show, is_time_mark());
    let k = index_of(t, ' ');
    if k < t.len() {
        t.take(k).push('-') + dropping(t.skip(k + 1), is_blank_mark())
    } else {
        t
    }
}

fn drop_chars(cs: &[char], blanks: bool) -> (r: Vec<char>)
    ensures
        r@ == dropping(cs@, if blanks {
            is_blank_mark()
        } else {
            is_time_mark()
        }),
{
    let ghost p = if blanks {
        is_blank_mark()
    } else {
        is_time_mark()
    };
    let mut out: Vec<char> = Vec::new();
    let mut i: usize = 0;
    proof {
        assert(cs@.take(0) =~= Seq::<char>::empty());
    }
    while i < cs.len()
        invariant
            0 <= i <= cs@.len(),
            p == if blanks {
                is_blank_mark()
            } else {
                is_time_mark()
            },
            out@ == dropping(cs@.take(i as int), p),
        decreases cs@.len() - i,
    {
        let c: char = cs[i];
        proof {
            assert(cs@.take(i + 1).drop_last() =~= cs@.take(i as int));
            assert(cs@.take(i + 1).last() == c);
        }
        let gone: bool = if blanks {
            c == ' '
        } else {
            c == '-' || c == ':'
        };
        if !gone {
            out.push(c);
        }
        i = i + 1;
    }
    proof {
        assert(cs@.take(cs@.len() as int) =~= cs@);
    }
    out
}

/// A time for file names, and the same time to be shown.
pub fn stamps(secs: i64) -> (r: (String, String))
    requires
        secs <= i64::MAX - 28_800,
    ensures
        is_datetime_at(secs + DEFAULT_OFFSET_MINUTES * 60, r.1@),
        r.0@ == compact_of(r.1@),
{
    let show: String = datetime_from_unix(secs);
    let sc: Vec<char> = chars_of(&show);
    let t: Vec<char> = drop_chars(sc.as_slice(), false);
    let n: usize = t.len();
    let k: usize = find_char(t.as_slice(), ' ');
    if k >= n {
        return (string_of(t.as_slice()), show);
    }
    let mut out: Vec<char> = Vec::new();
    extend(&mut out, slice_subrange(t.as_slice(), 0, k));
    out.push('-');
    let tail = slice_subrange(t.as_slice(), k + 1, n);
    let rest: Vec<char> = drop_chars(tail, true);
    extend(&mut out, rest.as_slice());
    proof {
        assert(t@.subrange(0, k as int) =~= t@.take(k as int));
        assert(tail@ =~= t@.skip(k + 1));
        assert(out@ =~= compact_of(show@));
    }
    (string_of(out.as_slice()), show)
}

/// The `n`th name to try for a snapshot taken at a time.
pub open spec fn snap_name(compact: Seq<char>, n: nat) -> Seq<char> {
    if n <= 1 {
        compact + ".md"@
    } else {
        compact.push('-') + digits_of(n) + ".md"@
    }
}

/// The `n`th name to try for a snapshot taken at a time.
pub fn snapshot_name(compact: &str, n: u64) -> (r: String)
    ensures
        r@ == snap_name(compact@, n as nat),
{
    let mut out: Vec<char> = chars_of(compact);
    if n > 1 {
        out.push('-');
        let d: Vec<char> = number_chars(n);
        extend(&mut out, d.as_slice());
    }
    extend_str(&mut out, ".md");
    string_of(out.as_slice())
}

// ---------- what is kept ----------

/// Whether a text is worth a snapshot: it is not blank, and it is not the text of the
/// newest snapshot.
pub fn worth_keeping(content: &str, newest: Option<&str>) -> (r: bool)
    ensures
        r == (trim(content@).len() > 0 && crate::block::opt_str(newest) != Some(content@)),
{
    let cs: Vec<char> = chars_of(content);
    if trim_chars(cs.as_slice()).len() == 0 {
        return false;
    }
    match newest {
        Some(t) => !same_text(t, content),
        None => true,
    }
}

/// What to do with a name for a snapshot.
#[derive(Clone, Copy, Debug, PartialEq, Eq, Structural)]
pub enum Attempt {
    /// Write the snapshot there.
    Write,
    /// The text is kept there already.
    Skip,
    /// Try the next name.
    Next,
}

/// What to do with a name, where `taken` says whether there is a file of that name, and
/// `text` is what could be read of it.
pub fn try_name(content: &str, taken: bool, text: Option<&str>) -> (r: Attempt)
    ensures
        r == if !taken {
            Attempt::Write
        } else if crate::block::opt_str(text) == Some(content@) {
            Attempt::Skip
        } else {
            Attempt::Next
        },
{
    if !taken {
        return Attempt::Write;
    }
    match text {
        Some(t) => if same_text(t, content) {
            Attempt::Skip
        } else {
            Attempt::Next
        },
        None => Attempt::Next,
    }
}

/// Whether a path is that of a snapshot.
pub open spec fn is_snap(p: Seq<char>) -> bool {
    extension(p) == Some("md"@)
}

/// The snapshots among the first `n` paths.
pub open spec fn snaps_upto(paths: Seq<Seq<char>>, n: int) -> Seq<Seq<char>>
    decreases n,
{
    if n <= 0 {
        Seq::empty()
    } else if is_snap(paths[n - 1]) {
        snaps_upto(paths, n - 1).push(paths[n - 1])
    } else {
        snaps_upto(paths, n - 1)
    }
}

/// What snapshots are ordered by: the time in the name, and then the number behind it. A
/// longer number comes behind a shorter one.
pub open spec fn stem_key(stem: Seq<char>) -> Seq<char> {
    let parts = split_on(stem, '-');
    if parts.len() == 3 {
        parts[0].push('-') + parts[1] + Seq::new(parts[2].len(), |i: int| ':') + parts[2]
    } else {
        stem
    }
}

pub open spec fn stem_text(path: Seq<char>) -> Seq<char> {
    match file_stem(path) {
        Some(s) => s,
        None => Seq::empty(),
    }
}

pub open spec fn snap_keys(paths: Seq<Seq<char>>) -> Seq<Seq<char>> {
    paths.map_values(|p: Seq<char>| stem_key(stem_text(p)))
}

fn stem_chars(path: &str) -> (r: Vec<char>)
    ensures
        r@ == stem_text(path@),
{
    match file_stem_of(path) {
        Some(s) => s,
        None => Vec::new(),
    }
}

fn key_of(stem: &[char]) -> (r: Vec<char>)
    ensures
        r@ == stem_key(stem@),
{
    let parts: Vec<&[char]> = split_chars(stem, '-');
    let mut out: Vec<char> = Vec::new();
    proof {
        assert(slices(parts@).len() == parts@.len());
    }
    if parts.len() != 3 {
        extend(&mut out, stem);
        proof {
            assert(out@ =~= stem@);
        }
        return out;
    }
    let (d, t, n) = (parts[0], parts[1], parts[2]);
    proof {
        assert(slices(parts@)[0] == d@);
        assert(slices(parts@)[1] == t@);
        assert(slices(parts@)[2] == n@);
    }
    extend(&mut out, d);
    out.push('-');
    extend(&mut out, t);
    let ghost head = out@;
    let mut k: usize = 0;
    while k < n.len()
        invariant
            0 <= k <= n@.len(),
            out@ =~= head + Seq::new(k as nat, |i: int| ':'),
        decreases n@.len() - k,
    {
        out.push(':');
        k = k + 1;
    }
    extend(&mut out, n);
    proof {
        assert(head =~= d@.push('-') + t@);
        assert(out@ =~= stem_key(stem@));
    }
    out
}

/// The snapshots of a directory, the oldest first.
pub open spec fn snaps_of(paths: Seq<Seq<char>>) -> Seq<Seq<char>> {
    let v = snaps_upto(paths, paths.len() as int);
    stable_order(snap_keys(v)).map_values(|i: int| v[i])
}

/// The snapshots of a directory that holds these paths, the oldest first.
pub fn list_files(paths: &Vec<String>) -> (r: Vec<String>)
    ensures
        texts(r@) == snaps_of(texts(paths@)),
{
    let ghost ps = texts(paths@);
    let mut v: Vec<String> = Vec::new();
    let mut keys: Vec<Vec<char>> = Vec::new();
    let mut k: usize = 0;
    proof {
        reveal_strlit("md");
        assert(texts(v@) =~= snaps_upto(ps, 0));
        assert(vec_keys(keys@) =~= snap_keys(texts(v@)));
    }
    while k < paths.len()
        invariant
            0 <= k <= paths@.len(),
            ps == texts(paths@),
            texts(v@) == snaps_upto(ps, k as int),
            vec_keys(keys@) == snap_keys(texts(v@)),
        decreases paths@.len() - k,
    {
        proof {
            assert(ps[k as int] == paths@[k as int]@);
        }
        let keep: bool = match extension_of_path(&paths[k]) {
            Some(e) => {
                let md: Vec<char> = chars_of("md");
                same_chars(e.as_slice(), md.as_slice())
            },
            None => false,
        };
        if keep {
            let ghost keys0 = keys@;
            let ghost v0 = v@;
            let stem: Vec<char> = stem_chars(&paths[k]);
            let key: Vec<char> = key_of(stem.as_slice());
            let ghost km = key@;
            push_text(&mut v, paths[k].clone());
            keys.push(key);
            proof {
                assert(vec_keys(keys@) =~= vec_keys(keys0).push(km));
                assert(snap_keys(texts(v@)) =~= snap_keys(texts(v0)).push(km));
            }
        }
        k = k + 1;
    }
    let order: Vec<usize> = sort_order(&keys);
    let ghost vm = texts(v@);
    let ghost os = stable_order(snap_keys(vm));
    let ghost sorted = snaps_of(ps);
    let mut out: Vec<String> = Vec::new();
    let mut j: usize = 0;
    proof {
        assert(vec_keys(keys@).len() == keys@.len());
        assert(int_indices(order@).len() == order@.len());
        assert(texts(out@) =~= sorted.take(0));
    }
    while j < order.len()
        invariant
            0 <= j <= order@.len(),
            vm == texts(v@),
            os == stable_order(snap_keys(vm)),
            int_indices(order@) == os,
            sorted == os.map_values(|i: int| vm[i]),
            sorted.len() == order@.len(),
            keys@.len() == v@.len(),
            forall|k: int| 0 <= k < order@.len() ==> #[trigger] order@[k] < keys@.len(),
            texts(out@) == sorted.take(j as int),
        decreases order@.len() - j,
    {
        let i: usize = order[j];
        proof {
            assert(os[j as int] == i as int);
            assert(sorted[j as int] == vm[i as int]);
            assert(vm[i as int] == v@[i as int]@);
        }
        push_text(&mut out, v[i].clone());
        proof {
            assert(texts(out@) =~= sorted.take(j + 1));
        }
        j = j + 1;
    }
    proof {
        assert(sorted.take(j as int) =~= sorted);
    }
    out
}

/// The oldest snapshots, as many as there are too many.
pub open spec fn pruned_of(paths: Seq<Seq<char>>) -> Seq<Seq<char>> {
    let v = snaps_of(paths);
    v.take(if v.len() > MAX_PER_FILE {
        v.len() - MAX_PER_FILE
    } else {
        0
    })
}

/// The snapshots to drop from a directory that holds these paths: the oldest ones.
pub fn prune(paths: &Vec<String>) -> (r: Vec<String>)
    ensures
        texts(r@) == pruned_of(texts(paths@)),
{
    let mut files: Vec<String> = list_files(paths);
    let n: usize = files.len();
    let ghost all = texts(files@);
    if n <= MAX_PER_FILE {
        files.truncate(0);
        proof {
            assert(texts(files@) =~= all.take(0));
        }
    } else {
        files.truncate(n - MAX_PER_FILE);
        proof {
            assert(texts(files@) =~= all.take(n - MAX_PER_FILE));
        }
    }
    files
}

/// Of the snapshots of a note at most so many are left, and those that are left are
/// newer than those that are dropped.
pub proof fn pruning_keeps_the_newest(paths: Seq<Seq<char>>)
    ensures
        snaps_of(paths).len() - pruned_of(paths).len() <= MAX_PER_FILE,
        pruned_of(paths).is_prefix_of(snaps_of(paths)),
        forall|j: int, k: int|
            0 <= j < k < snaps_of(paths).len() ==> {
                let a = stem_key(stem_text(#[trigger] snaps_of(paths)[j]));
                let b = stem_key(stem_text(#[trigger] snaps_of(paths)[k]));
                text_before(a, b) || a == b
            },
{
    let v = snaps_upto(paths, paths.len() as int);
    let keys = snap_keys(v);
    stable_order_sorts(keys);
    let s = snaps_of(paths);
    assert forall|j: int, k: int| 0 <= j < k < s.len() implies {
        let a = stem_key(stem_text(#[trigger] s[j]));
        let b = stem_key(stem_text(#[trigger] s[k]));
        text_before(a, b) || a == b
    } by {
        let os = stable_order(keys);
        assert(stands_before(keys, os[j], os[k]));
        assert(os.contains(os[j]) && os.contains(os[k]));
        assert(s[j] == v[os[j]] && s[k] == v[os[k]]);
    }
}

/// The name without its extension of the `n`th snapshot of a time.
pub open spec fn snap_stem(compact: Seq<char>, n: nat) -> Seq<char> {
    if n <= 1 {
        compact
    } else {
        compact.push('-') + digits_of(n)
    }
}

proof fn lemma_numbered_key(compact: Seq<char>, n: nat)
    requires
        split_on(compact, '-').len() == 2,
        n > 1,
    ensures
        stem_key(snap_stem(compact, n)) == compact + Seq::new(
            digits_of(n).len(),
            |i: int| ':',
        ) + digits_of(n),
{
    let parts = split_on(compact, '-');
    let d = digits_of(n);
    lemma_digits(n);
    lemma_split_parts(compact, '-');
    lemma_join_split(compact, '-');
    let three = parts.push(d);
    assert(three.drop_first() =~= seq![parts[1], d]);
    assert(three.drop_first().drop_first() =~= seq![d]);
    assert(parts.drop_first() =~= seq![parts[1]]);
    assert(join(seq![d], '-') == d);
    assert(join(seq![parts[1]], '-') == parts[1]);
    assert(join(seq![parts[1], d], '-') == parts[1].push('-') + d) by {
        assert(seq![parts[1], d].drop_first() =~= seq![d]);
    }
    assert(join(parts, '-') == parts[0].push('-') + parts[1]);
    assert(join(three, '-') == parts[0].push('-') + (parts[1].push('-') + d));
    assert(join(three, '-') =~= compact.push('-') + d);
    assert(compact =~= parts[0].push('-') + parts[1]);
    assert forall|k: int| 0 <= k < three.len() implies !(#[trigger] three[k]).contains('-') by {
        if k < 2 {
            assert(three[k] == parts[k]);
        }
    }
    lemma_split_join(three, '-');
}

/// Of two snapshots of one time the one that was taken later comes behind the other.
pub proof fn later_snapshots_come_behind(compact: Seq<char>, n: nat, m: nat)
    requires
        split_on(compact, '-').len() == 2,
        1 <= n < m,
    ensures
        text_before(stem_key(snap_stem(compact, n)), stem_key(snap_stem(compact, m))),
        snap_name(compact, n) == snap_stem(compact, n) + ".md"@,
{
    lemma_numbered_key(compact, m);
    lemma_digits(m);
    let (a, b) = (digits_of(n), digits_of(m));
    let colons = |k: nat| Seq::new(k, |i: int| ':');
    if n == 1 {
        let e = Seq::<char>::empty();
        let tail = colons(b.len()) + b;
        assert(compact =~= compact + e);
        assert(stem_key(snap_stem(compact, m)) =~= compact + tail);
        lemma_same_start(compact, e, tail);
    } else {
        lemma_numbered_key(compact, n);
        lemma_digits(n);
        lemma_digits_order(n, m);
        let p = compact + colons(a.len());
        let tail = colons((b.len() - a.len()) as nat) + b;
        assert(stem_key(snap_stem(compact, n)) =~= p + a);
        assert(stem_key(snap_stem(compact, m)) =~= p + tail);
        if a.len() < b.len() {
            assert(tail[0] == ':');
        } else {
            assert(tail =~= b);
        }
        lemma_same_start(p, a, tail);
    }
}

// ---------- showing snapshots ----------

/// The bytes from `a` to `b` of `s`, if they start and end between characters.
pub open spec fn sub_bytes(s: Seq<char>, a: int, b: int) -> Option<Seq<char>> {
    let i = floor_index(s, a);
    let j = floor_index(s, b);
    if off(s, i) == a && off(s, j) == b && i <= j {
        Some(s.subrange(i, j))
    } else {
        None
    }
}

/// A snapshot's name to be shown: `20260917-140533` as `2026-09-17 14:05:33`. A third
/// part is passed over. What has another form is shown as it is.
pub open spec fn shown_stem(stem: Seq<char>) -> Seq<char> {
    let parts = split_on(stem, '-');
    if parts.len() < 2 {
        stem
    } else {
        let (d, t) = (parts[0], parts[1]);
        match (
            sub_bytes(d, 0, 4),
            sub_bytes(d, 4, 6),
            sub_bytes(d, 6, 8),
            sub_bytes(t, 0, 2),
            sub_bytes(t, 2, 4),
            sub_bytes(t, 4, 6),
        ) {
            (Some(y), Some(m), Some(day), Some(h), Some(min), Some(s)) if blen(d) == 8 => y.push(
                '-',
            ) + m.push('-') + day.push(' ') + h.push(':') + min.push(':') + s,
            _ => stem,
        }
    }
}

fn sub_of(cs: &[char], a: usize, b: usize) -> (r: Option<Vec<char>>)
    requires
        blen(cs@) <= usize::MAX,
    ensures
        crate::paths::opt_chars(r) == sub_bytes(cs@, a as int, b as int),
{
    let i: usize = index_at(cs, a);
    let j: usize = index_at(cs, b);
    if i <= j && offset_of(cs, i) == a && offset_of(cs, j) == b {
        Some(vstd::slice::slice_to_vec(slice_subrange(cs, i, j)))
    } else {
        None
    }
}

/// A snapshot's name to be shown.
pub fn format_stem(stem: &str) -> (r: String)
    ensures
        r@ == shown_stem(stem@),
{
    let cs: Vec<char> = chars_of(stem);
    let parts: Vec<&[char]> = split_chars(cs.as_slice(), '-');
    let ghost ps = split_on(stem@, '-');
    proof {
        assert(slices(parts@).len() == parts@.len());
        crate::text::lemma_split_lengths(stem@, '-');
    }
    if parts.len() < 2 {
        return stem.to_owned();
    }
    let d = parts[0];
    let t = parts[1];
    proof {
        assert(ps[0] == d@);
        assert(ps[1] == t@);
        assert(blen(ps[0]) <= blen(stem@));
        assert(blen(ps[1]) <= blen(stem@));
    }
    let mut out: Vec<char> = Vec::new();
    if crate::text::chars_len(d) == 8 {
        match sub_of(d, 0, 4) {
            Some(y) => match sub_of(d, 4, 6) {
                Some(m) => match sub_of(d, 6, 8) {
                    Some(day) => match sub_of(t, 0, 2) {
                        Some(h) => match sub_of(t, 2, 4) {
                            Some(min) => match sub_of(t, 4, 6) {
                                Some(s) => {
                                    extend(&mut out, y.as_slice());
                                    out.push('-');
                                    extend(&mut out, m.as_slice());
                                    out.push('-');
                                    extend(&mut out, day.as_slice());
                                    out.push(' ');
                                    extend(&mut out, h.as_slice());
                                    out.push(':');
                                    extend(&mut out, min.as_slice());
                                    out.push(':');
                                    extend(&mut out, s.as_slice());
                                    proof {
                                        assert(out@ =~= shown_stem(stem@));
                                    }
                                    return string_of(out.as_slice());
                                },
                                None => {},
                            },
                            None => {},
                        },
                        None => {},
                    },
                    None => {},
                },
                None => {},
            },
            None => {},
        }
    }
    stem.to_owned()
}

/// The snapshot at a path.
pub open spec fn snapshot_at(path: Seq<char>, bytes: u64) -> SnapshotModel {
    SnapshotModel {
        path,
        stamp: shown_stem(stem_text(path)),
        bytes,
    }
}

pub open spec fn snapshots_model(v: Seq<Snapshot>) -> Seq<SnapshotModel> {
    v.map_values(|s: Snapshot| s@)
}

/// How many bytes the file at place `k` has; none if that is not known.
pub open spec fn size_at(sizes: Seq<u64>, k: int) -> u64 {
    if 0 <= k < sizes.len() {
        sizes[k]
    } else {
        0
    }
}

/// The snapshots at these paths, the last of them first.
pub open spec fn listed(files: Seq<Seq<char>>, sizes: Seq<u64>) -> Seq<SnapshotModel> {
    Seq::new(
        files.len(),
        |k: int| snapshot_at(files[files.len() - 1 - k], size_at(sizes, files.len() - 1 - k)),
    )
}

/// The snapshots at these paths, the oldest first, to be shown with the newest first.
pub fn list(files: &Vec<String>, sizes: &Vec<u64>) -> (r: Vec<Snapshot>)
    ensures
        snapshots_model(r@) == listed(texts(files@), sizes@),
{
    let ghost fs = texts(files@);
    let ghost all = listed(fs, sizes@);
    let n: usize = files.len();
    let mut out: Vec<Snapshot> = Vec::new();
    let mut k: usize = n;
    proof {
        assert(snapshots_model(out@) =~= all.take(0));
    }
    while k > 0
        invariant
            0 <= k <= n,
            n == files@.len(),
            fs == texts(files@),
            all == listed(fs, sizes@),
            snapshots_model(out@) == all.take(n - k),
        decreases k,
    {
        k = k - 1;
        let ghost before = out@;
        let stem: String = string_of(stem_chars(&files[k]).as_slice());
        let s = Snapshot {
            path: files[k].clone(),
            stamp: format_stem(&stem),
            bytes: if k < sizes.len() {
                sizes[k]
            } else {
                0
            },
        };
        let ghost sm = s@;
        out.push(s);
        proof {
            assert(fs[k as int] == files@[k as int]@);
            assert(all[n - k - 1] == sm);
            assert(snapshots_model(out@) =~= snapshots_model(before).push(sm));
            assert(snapshots_model(out@) =~= all.take(n - k));
        }
    }
    proof {
        assert(all.take(n as int) =~= all);
    }
    out
}

// ---------- looking at snapshots ----------

/// How many characters of a snapshot are shown.
pub const PREVIEW_MAX: usize = 3000;

/// What is shown of a snapshot.
pub open spec fn preview_of(s: Seq<char>) -> Seq<char> {
    if s.len() > PREVIEW_MAX {
        s.take(PREVIEW_MAX as int) + "\n…（已截断）"@
    } else {
        s
    }
}

/// The list of a note's snapshots, with one of them selected.
pub struct HistoryView {
    pub root: String,
    pub note: String,
    pub snaps: Vec<Snapshot>,
    pub selected: usize,
    pub preview: String,
    pub notice: Option<String>,
}

impl HistoryView {
    /// The list before it was read.
    pub fn open(root: String, note: String) -> (r: HistoryView)
        ensures
            r.root@ == root@,
            r.note@ == note@,
            r.snaps@.len() == 0,
            r.selected == 0,
            r.preview@.len() == 0,
            r.notice is None,
    {
        HistoryView {
            root,
            note,
            snaps: Vec::new(),
            selected: 0,
            preview: String::new(),
            notice: None,
        }
    }

    /// Takes in the list as it was read. What was selected stays so, at most the last one.
    pub fn reload(&mut self, snaps: Vec<Snapshot>)
        ensures
            final(self).snaps@ == snaps@,
            final(self).selected == if old(self).selected < snaps@.len() {
                old(self).selected as int
            } else if snaps@.len() > 0 {
                snaps@.len() - 1
            } else {
                0
            },
            final(self).root == old(self).root,
            final(self).note == old(self).note,
            final(self).preview == old(self).preview,
            final(self).notice == old(self).notice,
    {
        let n: usize = snaps.len();
        if self.selected >= n {
            self.selected = if n > 0 {
                n - 1
            } else {
                0
            };
        }
        self.snaps = snaps;
    }

    /// Shows the text of the selected snapshot, if it could be read.
    pub fn load_preview(&mut self, text: Option<String>)
        ensures
            final(self).preview@ == match text {
                Some(t) => preview_of(t@),
                None => Seq::empty(),
            },
            final(self).snaps == old(self).snaps,
            final(self).selected == old(self).selected,
            final(self).root == old(self).root,
            final(self).note == old(self).note,
            final(self).notice == old(self).notice,
    {
        self.preview = match text {
            Some(t) => {
                let cs: Vec<char> = chars_of(&t);
                if cs.len() > PREVIEW_MAX {
                    let head = slice_subrange(cs.as_slice(), 0, PREVIEW_MAX);
                    proof {
                        assert(head@ =~= cs@.take(PREVIEW_MAX as int));
                    }
                    crate::text::glue(&string_of(head), "\n…（已截断）")
                } else {
                    t
                }
            },
            None => {
                let none: String = String::new();
                proof {
                    assert(none@ =~= Seq::<char>::empty());
                }
                none
            },
        };
    }

    /// Selects a snapshot.
    pub fn pick(&mut self, i: usize)
        ensures
            *final(self) == (HistoryView { selected: i, notice: None, ..*old(self) }),
    {
        self.selected = i;
        self.notice = None;
    }

    /// The selected snapshot.
    pub fn current(&self) -> (r: Option<&Snapshot>)
        ensures
            match r {
                Some(s) => self.selected < self.snaps@.len() && *s
                    == self.snaps@[self.selected as int],
                None => self.selected >= self.snaps@.len(),
            },
    {
        if self.selected < self.snaps.len() {
            Some(&self.snaps[self.selected])
        } else {
            None
        }
    }

    /// A snapshot was brought back: takes in the list as it is then, and says so.
    pub fn after_restore(&mut self, snaps: Vec<Snapshot>, msg: String)
        ensures
            final(self).snaps@ == snaps@,
            final(self).selected == if old(self).selected < snaps@.len() {
                old(self).selected as int
            } else if snaps@.len() > 0 {
                snaps@.len() - 1
            } else {
                0
            },
            final(self).root == old(self).root,
            final(self).note == old(self).note,
            final(self).preview == old(self).preview,
            opt_text(final(self).notice) == Some(msg@),
    {
        self.reload(snaps);
        self.notice = Some(msg);
    }
}

// ---------- names and times ----------

/// Whether a text is digits alone.
pub open spec fn all_digits(s: Seq<char>) -> bool {
    forall|k: int| 0 <= k < s.len() ==> '0' <= #[trigger] s[k] <= '9'
}

proof fn lemma_padded(n: nat, w: nat)
    requires
        (w == 2 && n < 100) || (w == 4 && n < 10000),
    ensures
        padded(n, w).len() == w,
        all_digits(padded(n, w)),
{
    lemma_digits(n);
    assert(digits_of(n % 10).len() == 1);
    if n >= 10 {
        assert(digits_of(n).len() == digits_of(n / 10).len() + 1);
        if n >= 100 {
            assert(digits_of(n / 10).len() == digits_of(n / 10 / 10).len() + 1);
            if n >= 1000 {
                assert(digits_of(n / 10 / 10).len() == digits_of(n / 10 / 10 / 10).len() + 1);
            }
        }
    }
}

proof fn lemma_dropping_concat(a: Seq<char>, b: Seq<char>, p: spec_fn(char) -> bool)
    ensures
        dropping(a + b, p) == dropping(a, p) + dropping(b, p),
    decreases b.len(),
{
    if b.len() == 0 {
        assert(a + b =~= a);
        assert(dropping(a, p) + dropping(b, p) =~= dropping(a, p));
    } else {
        assert((a + b).drop_last() =~= a + b.drop_last());
        lemma_dropping_concat(a, b.drop_last(), p);
        assert(dropping(a + b, p) =~= dropping(a, p) + dropping(b, p));
    }
}

proof fn lemma_dropping_digits(s: Seq<char>, p: spec_fn(char) -> bool)
    requires
        all_digits(s),
        p == is_time_mark() || p == is_blank_mark(),
    ensures
        dropping(s, p) == s,
    decreases s.len(),
{
    if s.len() > 0 {
        assert('0' <= s[s.len() - 1] <= '9');
        assert forall|k: int| 0 <= k < s.drop_last().len() implies '0' <= #[trigger] s.drop_last()[k]
            <= '9' by {
            assert('0' <= s[k] <= '9');
        }
        lemma_dropping_digits(s.drop_last(), p);
        assert(dropping(s, p) =~= s);
    }
}

proof fn lemma_dropping_one(c: char, p: spec_fn(char) -> bool)
    ensures
        dropping(seq![c], p) == if p(c) {
            Seq::empty()
        } else {
            seq![c]
        },
{
    let s = seq![c];
    assert(s.drop_last() =~= Seq::empty());
    assert(dropping(s.drop_last(), p) =~= Seq::empty());
    assert(dropping(s, p) =~= if p(c) {
        Seq::empty()
    } else {
        seq![c]
    });
}

proof fn lemma_digit_offsets(s: Seq<char>, i: int)
    requires
        all_digits(s),
        0 <= i <= s.len(),
    ensures
        off(s, i) == i,
        floor_index(s, i) == i,
    decreases i,
{
    if i > 0 {
        lemma_digit_offsets(s, i - 1);
        assert('0' <= s[i - 1] <= '9');
        lemma_off_step(s, i - 1);
    } else {
        lemma_off_ends(s);
    }
    lemma_floor_index_off(s, i);
}

proof fn lemma_compact(
    y: Seq<char>,
    m: Seq<char>,
    d: Seq<char>,
    h: Seq<char>,
    min: Seq<char>,
    s: Seq<char>,
)
    requires
        all_digits(y) && all_digits(m) && all_digits(d),
        all_digits(h) && all_digits(min) && all_digits(s),
    ensures
        compact_of(
            y + seq!['-'] + m + seq!['-'] + d + seq![' '] + (h + seq![':'] + min + seq![':'] + s),
        ) == y + m + d + seq!['-'] + (h + min + s),
{
    let p = is_time_mark();
    let q = is_blank_mark();
    let clock = h + seq![':'] + min + seq![':'] + s;
    let show = y + seq!['-'] + m + seq!['-'] + d + seq![' '] + clock;
    lemma_dropping_digits(y, p);
    lemma_dropping_digits(m, p);
    lemma_dropping_digits(d, p);
    lemma_dropping_digits(h, p);
    lemma_dropping_digits(min, p);
    lemma_dropping_digits(s, p);
    lemma_dropping_one('-', p);
    lemma_dropping_one(':', p);
    lemma_dropping_one(' ', p);
    lemma_dropping_concat(y, seq!['-'], p);
    lemma_dropping_concat(y + seq!['-'], m, p);
    lemma_dropping_concat(y + seq!['-'] + m, seq!['-'], p);
    lemma_dropping_concat(y + seq!['-'] + m + seq!['-'], d, p);
    lemma_dropping_concat(y + seq!['-'] + m + seq!['-'] + d, seq![' '], p);
    lemma_dropping_concat(y + seq!['-'] + m + seq!['-'] + d + seq![' '], clock, p);
    lemma_dropping_concat(h, seq![':'], p);
    lemma_dropping_concat(h + seq![':'], min, p);
    lemma_dropping_concat(h + seq![':'] + min, seq![':'], p);
    lemma_dropping_concat(h + seq![':'] + min + seq![':'], s, p);
    let date = y + m + d;
    let time = h + min + s;
    let t = dropping(show, p);
    assert(t =~= date + seq![' '] + time);
    let k = date.len() as int;
    assert forall|j: int| 0 <= j < k implies #[trigger] t[j] != ' ' by {
        assert(t[j] == date[j]);
    }
    assert(t[k] == ' ');
    lemma_index_of_is(t, ' ', k);
    assert(t.take(k) =~= date);
    assert(t.skip(k + 1) =~= time);
    assert(all_digits(time));
    lemma_dropping_digits(time, q);
    assert(date.push('-') + time =~= date + seq!['-'] + time);
}

proof fn lemma_stem_parts(date: Seq<char>, time: Seq<char>, n: nat)
    requires
        all_digits(date),
        all_digits(time),
    ensures
        split_on(snap_stem(date + seq!['-'] + time, n), '-') == if n <= 1 {
            seq![date, time]
        } else {
            seq![date, time, digits_of(n)]
        },
{
    let compact = date + seq!['-'] + time;
    let stem = snap_stem(compact, n);
    lemma_digits(n);
    let parts = if n <= 1 {
        seq![date, time]
    } else {
        seq![date, time, digits_of(n)]
    };
    assert forall|k: int| 0 <= k < parts.len() implies !(#[trigger] parts[k]).contains('-') by {
        if parts[k].contains('-') {
            let j = choose|j: int| 0 <= j < parts[k].len() && parts[k][j] == '-';
            assert('0' <= parts[k][j] <= '9');
        }
    }
    let last = parts.drop_first();
    assert(parts[0] == date);
    assert(last[0] == time);
    if n <= 1 {
        assert(last =~= seq![time]);
        assert(join(last, '-') == time);
    } else {
        let end = last.drop_first();
        assert(end =~= seq![digits_of(n)]);
        assert(join(end, '-') == digits_of(n));
        assert(join(last, '-') =~= time.push('-') + digits_of(n));
    }
    assert(join(parts, '-') =~= date.push('-') + join(last, '-'));
    assert(stem =~= join(parts, '-'));
    lemma_split_join(parts, '-');
}

/// The name of a snapshot shows the time that it was taken at, whichever of that time's
/// snapshots it is.
pub proof fn names_show_their_time(y: int, m: int, d: int, t: int, n: nat)
    requires
        0 <= y < 10000,
        0 <= m < 100,
        0 <= d < 100,
        0 <= t < 86_400,
    ensures
        ({
            let show = date_text(y, m, d) + seq![' '] + time_text(t);
            shown_stem(snap_stem(compact_of(show), n)) == show
        }),
{
    let (ys, ms, ds) = (padded(y as nat, 4), padded(m as nat, 2), padded(d as nat, 2));
    let (hs, mins, ss) = (
        padded((t / 3600) as nat, 2),
        padded((t % 3600 / 60) as nat, 2),
        padded((t % 60) as nat, 2),
    );
    lemma_padded(y as nat, 4);
    lemma_padded(m as nat, 2);
    lemma_padded(d as nat, 2);
    lemma_padded((t / 3600) as nat, 2);
    lemma_padded((t % 3600 / 60) as nat, 2);
    lemma_padded((t % 60) as nat, 2);
    lemma_compact(ys, ms, ds, hs, mins, ss);
    let show = date_text(y, m, d) + seq![' '] + time_text(t);
    let compact = compact_of(show);
    let date = ys + ms + ds;
    let time = hs + mins + ss;
    assert(compact == date + seq!['-'] + time);
    assert(all_digits(date));
    assert(all_digits(time));
    let stem = snap_stem(compact, n);
    let parts = if n <= 1 {
        seq![date, time]
    } else {
        seq![date, time, digits_of(n)]
    };
    lemma_stem_parts(date, time, n);
    assert(split_on(stem, '-') == parts);
    lemma_digit_offsets(date, 0);
    lemma_digit_offsets(date, 4);
    lemma_digit_offsets(date, 6);
    lemma_digit_offsets(date, 8);
    lemma_digit_offsets(time, 0);
    lemma_digit_offsets(time, 2);
    lemma_digit_offsets(time, 4);
    lemma_digit_offsets(time, 6);
    lemma_off_ends(date);
    assert(date.subrange(0, 4) =~= ys);
    assert(date.subrange(4, 6) =~= ms);
    assert(date.subrange(6, 8) =~= ds);
    assert(time.subrange(0, 2) =~= hs);
    assert(time.subrange(2, 4) =~= mins);
    assert(time.subrange(4, 6) =~= ss);
    assert(shown_stem(stem) =~= show);
}

proof fn lemma_padded_order(n: nat, m: nat, w: nat)
    requires
        (w == 2 && m < 100) || (w == 4 && m < 10000),
        n < m,
    ensures
        text_before(padded(n, w), padded(m, w)),
{
    lemma_padded(n, w);
    lemma_padded(m, w);
    lemma_digits_order(n, m);
    lemma_digits(n);
    lemma_digits(m);
    let (a, b) = (digits_of(n), digits_of(m));
    let zeros = |k: int| Seq::new(k as nat, |i: int| '0');
    let p = zeros(w - b.len());
    assert(padded(m, w) =~= p + b);
    if a.len() == b.len() {
        assert(padded(n, w) =~= p + a);
        lemma_same_start(p, a, b);
    } else {
        let tail = zeros(b.len() - a.len()) + a;
        assert(padded(n, w) =~= p + tail);
        lemma_first_digit(m);
        assert(tail[0] == '0');
        assert(b[0] != '0');
        assert(text_before(tail, b));
        lemma_same_start(p, tail, b);
    }
}

proof fn lemma_first_digit(n: nat)
    requires
        n > 0,
    ensures
        digits_of(n)[0] != '0',
    decreases n,
{
    if n >= 10 {
        lemma_first_digit(n / 10);
        lemma_digits(n / 10);
    }
}

/// What follows does not count for the order of texts that differ before.
proof fn lemma_order_stays(a: Seq<char>, b: Seq<char>, x: Seq<char>, y: Seq<char>)
    requires
        a.len() == b.len(),
        text_before(a, b),
    ensures
        text_before(a + x, b + y),
    decreases a.len(),
{
    assert((a + x)[0] == a[0]);
    assert((b + y)[0] == b[0]);
    if a[0] == b[0] {
        lemma_order_stays(a.drop_first(), b.drop_first(), x, y);
        assert((a + x).drop_first() =~= a.drop_first() + x);
        assert((b + y).drop_first() =~= b.drop_first() + y);
    }
}

/// Two numbers with as many digits, and what follows them.
proof fn lemma_field_order(n: nat, m: nat, w: nat, x: Seq<char>, y: Seq<char>)
    requires
        (w == 2 && n < 100 && m < 100) || (w == 4 && n < 10000 && m < 10000),
        n < m || (n == m && text_before(x, y)),
    ensures
        text_before(padded(n, w) + x, padded(m, w) + y),
{
    lemma_padded(n, w);
    lemma_padded(m, w);
    if n < m {
        lemma_padded_order(n, m, w);
        lemma_order_stays(padded(n, w), padded(m, w), x, y);
    } else {
        lemma_same_start(padded(n, w), x, y);
    }
}

/// The name of a snapshot without its number, for a date and a time of day.
pub open spec fn stem_at(y: int, m: int, d: int, t: int) -> Seq<char> {
    compact_of(date_text(y, m, d) + seq![' '] + time_text(t))
}

proof fn lemma_stem_fields(y: int, m: int, d: int, t: int)
    requires
        0 <= y < 10000,
        0 <= m < 100,
        0 <= d < 100,
        0 <= t < 86_400,
    ensures
        stem_at(y, m, d, t) == padded(y as nat, 4) + (padded(m as nat, 2) + (padded(d as nat, 2) + (
        seq!['-'] + (padded((t / 3600) as nat, 2) + (padded((t % 3600 / 60) as nat, 2) + padded(
            (t % 60) as nat,
            2,
        )))))),
{
    let (ys, ms, ds) = (padded(y as nat, 4), padded(m as nat, 2), padded(d as nat, 2));
    let (hs, mins, ss) = (
        padded((t / 3600) as nat, 2),
        padded((t % 3600 / 60) as nat, 2),
        padded((t % 60) as nat, 2),
    );
    lemma_padded(y as nat, 4);
    lemma_padded(m as nat, 2);
    lemma_padded(d as nat, 2);
    lemma_padded((t / 3600) as nat, 2);
    lemma_padded((t % 3600 / 60) as nat, 2);
    lemma_padded((t % 60) as nat, 2);
    lemma_compact(ys, ms, ds, hs, mins, ss);
    assert(stem_at(y, m, d, t) =~= ys + (ms + (ds + (seq!['-'] + (hs + (mins + ss))))));
}

/// A snapshot that was taken at a later time has a name that comes behind, and so stands
/// behind in the order that snapshots are listed and dropped in.
pub proof fn later_times_come_behind(
    y: int,
    m: int,
    d: int,
    t: int,
    y2: int,
    m2: int,
    d2: int,
    t2: int,
)
    requires
        is_date(y, m, d),
        is_date(y2, m2, d2),
        0 <= y,
        y2 < 10000,
        0 <= t < 86_400,
        0 <= t2 < 86_400,
        day_number(y, m, d) * 86_400 + t < day_number(y2, m2, d2) * 86_400 + t2,
    ensures
        text_before(stem_at(y, m, d, t), stem_at(y2, m2, d2, t2)),
{
    if day_number(y, m, d) == day_number(y2, m2, d2) {
        dates_have_different_numbers(y, m, d, y2, m2, d2);
    } else if y2 < y || (y2 == y && (m2 < m || (m2 == m && d2 < d))) {
        later_dates_have_greater_numbers(y2, m2, d2, y, m, d);
    }
    assert(y <= y2);
    assert(d <= 31 && d2 <= 31);
    lemma_stem_fields(y, m, d, t);
    lemma_stem_fields(y2, m2, d2, t2);
    let f = |t: int|
        (
            padded((t / 3600) as nat, 2),
            padded((t % 3600 / 60) as nat, 2),
            padded((t % 60) as nat, 2),
        );
    let (h, mi, s) = f(t);
    let (h2, mi2, s2) = f(t2);
    let c = h + (mi + s);
    let c2 = h2 + (mi2 + s2);
    if day_number(y, m, d) == day_number(y2, m2, d2) {
        assert(t < t2);
        assert(text_before(c, c2)) by {
            if t / 3600 == t2 / 3600 && t % 3600 / 60 == t2 % 3600 / 60 {
                lemma_padded_order((t % 60) as nat, (t2 % 60) as nat, 2);
            }
            if t / 3600 == t2 / 3600 {
                lemma_field_order((t % 3600 / 60) as nat, (t2 % 3600 / 60) as nat, 2, s, s2);
            }
            lemma_field_order((t / 3600) as nat, (t2 / 3600) as nat, 2, mi + s, mi2 + s2);
        }
        lemma_same_start(seq!['-'], c, c2);
    }
    let x = seq!['-'] + c;
    let x2 = seq!['-'] + c2;
    let (ds, ds2) = (padded(d as nat, 2), padded(d2 as nat, 2));
    let (ms, ms2) = (padded(m as nat, 2), padded(m2 as nat, 2));
    if y == y2 && m == m2 {
        lemma_field_order(d as nat, d2 as nat, 2, x, x2);
    }
    if y == y2 {
        lemma_field_order(m as nat, m2 as nat, 2, ds + x, ds2 + x2);
    }
    lemma_field_order(y as nat, y2 as nat, 4, ms + (ds + x), ms2 + (ds2 + x2));
}

} // verus!
