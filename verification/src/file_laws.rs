//! What the names of files, the levels of a vault and the history of a note promise.
use crate::history::{
    below, is_snap, pruned_of, slashed, snap_dir_of, snap_keys, snaps_of, snaps_upto,
};
use crate::history::{listed as snapshots_listed, preview_of};
use crate::block::same_ignoring_case;
use crate::paths::{
    bare, count_parts, depth, extension, file_name, file_stem, joined, lemma_joined_name,
    lemma_split_add, parent,
};
use crate::sorting::{stable_order, stable_order_sorts, stands_before};
use crate::text::{
    digits_of, is_space, lemma_index_of_is, lemma_last_index_of_is, lemma_same_start,
    lemma_text_order_total, lowercase, split_on, text_before, trim,
};
use crate::vault::{
    by_name, candidate, is_hidden, is_note, level_of, listed, name_keys, DirItem, EntryModel,
};
use crate::block_laws::{is_white, lemma_cut_ends};
use vstd::prelude::*;

verus! {

// ---------- names ----------

/// Whether a text names a file: not empty, in no directory, and neither `.` nor `..`.
pub open spec fn is_file_name(name: Seq<char>) -> bool {
    name.len() > 0 && !name.contains('/') && name != seq!['.'] && name != seq!['.', '.']
}

proof fn lemma_name_alone(name: Seq<char>)
    requires
        is_file_name(name),
    ensures
        file_name(name) == Some(name),
{
    assert forall|k: int| 0 <= k < name.len() implies #[trigger] name[k] != '/' by {
        assert(name.contains(name[k]));
    }
    lemma_index_of_is(name, '/', name.len() as int);
    assert(split_on(name, '/') =~= seq![name]);
}

/// The name of a file is what follows its directory.
pub proof fn names_follow_the_directory(dir: Seq<char>, name: Seq<char>)
    requires
        is_file_name(name),
    ensures
        file_name(name) == Some(name),
        file_name(joined(dir, name)) == Some(name),
        dir.len() > 0 && dir.last() != '/' ==> joined(dir, name) == dir + seq!['/'] + name,
{
    lemma_name_alone(name);
    lemma_joined_name(dir, name);
    if name[0] == '/' {
        assert(name.contains(name[0]));
    }
    assert(dir.push('/') + name =~= dir + seq!['/'] + name);
}

/// A file's name parts at its last dot, unless that dot is its first character.
pub proof fn names_part_at_the_last_dot(dir: Seq<char>, stem: Seq<char>, ext: Seq<char>)
    requires
        stem.len() > 0,
        !stem.contains('/'),
        !ext.contains('/'),
        !ext.contains('.'),
        stem + seq!['.'] + ext != seq!['.', '.'],
    ensures
        file_stem(joined(dir, stem + seq!['.'] + ext)) == Some(stem),
        extension(joined(dir, stem + seq!['.'] + ext)) == Some(ext),
{
    let name = stem + seq!['.'] + ext;
    let n = stem.len() as int;
    assert forall|k: int| 0 <= k < name.len() implies #[trigger] name[k] != '/' by {
        if k < n {
            assert(stem.contains(stem[k]));
        } else if k > n {
            assert(ext.contains(ext[k - n - 1]));
        }
    }
    names_follow_the_directory(dir, name);
    assert forall|k: int| n < k < name.len() implies #[trigger] name[k] != '.' by {
        assert(name[k] == ext[k - n - 1]);
        assert(ext.contains(ext[k - n - 1]));
    }
    lemma_last_index_of_is(name, '.', n);
    assert(name.take(n) =~= stem);
    assert(name.skip(n + 1) =~= ext);
}

/// A name without a dot behind its first character has no ending.
pub proof fn names_without_a_dot_have_no_ending(dir: Seq<char>, name: Seq<char>)
    requires
        is_file_name(name),
        !name.skip(1).contains('.'),
    ensures
        file_stem(joined(dir, name)) == Some(name),
        extension(joined(dir, name)) is None,
        !is_note(joined(dir, name)),
{
    names_follow_the_directory(dir, name);
    assert forall|k: int| 1 <= k < name.len() implies #[trigger] name[k] != '.' by {
        assert(name.skip(1)[k - 1] == name[k]);
        assert(name.skip(1).contains(name[k]));
    }
    lemma_last_index_of_is(
        name,
        '.',
        if name[0] == '.' {
            0
        } else {
            -1
        },
    );
}

/// Notes are the files that end with `md`, `markdown`, `mdx` or `txt`, in upper or lower case.
pub proof fn notes_go_by_their_ending(dir: Seq<char>, stem: Seq<char>, ext: Seq<char>)
    requires
        stem.len() > 0,
        !stem.contains('/'),
        !ext.contains('/'),
        !ext.contains('.'),
        stem + seq!['.'] + ext != seq!['.', '.'],
    ensures
        is_note(joined(dir, stem + seq!['.'] + ext)) <==> {
            ||| same_ignoring_case(ext, seq!['m', 'd'])
            ||| same_ignoring_case(ext, seq!['m', 'a', 'r', 'k', 'd', 'o', 'w', 'n'])
            ||| same_ignoring_case(ext, seq!['m', 'd', 'x'])
            ||| same_ignoring_case(ext, seq!['t', 'x', 't'])
        },
{
    names_part_at_the_last_dot(dir, stem, ext);
    reveal_strlit("md");
    reveal_strlit("markdown");
    reveal_strlit("mdx");
    reveal_strlit("txt");
    assert("md"@ =~= seq!['m', 'd']);
    assert("markdown"@ =~= seq!['m', 'a', 'r', 'k', 'd', 'o', 'w', 'n']);
    assert("mdx"@ =~= seq!['m', 'd', 'x']);
    assert("txt"@ =~= seq!['t', 'x', 't']);
}

/// A file lies in the directory that it was put in.
pub proof fn files_lie_in_their_directory(dir: Seq<char>, name: Seq<char>)
    requires
        dir.len() > 0,
        dir.last() != '/',
        dir.last() != '.',
        is_file_name(name),
        name.last() != '.',
    ensures
        parent(joined(dir, name)) == Some(dir),
{
    names_follow_the_directory(dir, name);
    let p = dir + seq!['/'] + name;
    assert(joined(dir, name) =~= p);
    let n = dir.len() as int;
    assert forall|k: int| 0 <= k < name.len() implies #[trigger] name[k] != '/' by {
        assert(name.contains(name[k]));
    }
    assert(p.last() == name.last());
    assert(bare(p) == p);
    assert forall|k: int| n < k < p.len() implies #[trigger] p[k] != '/' by {
        assert(p[k] == name[k - n - 1]);
    }
    lemma_last_index_of_is(p, '/', n);
    assert(p != seq!['/']) by {
        assert(p.len() >= 3);
    }
    let d = p.take(n + 1);
    assert(d =~= dir.push('/'));
    assert(bare(d) == bare(d.drop_last()));
    assert(d.drop_last() =~= dir);
    assert(bare(dir) == dir);
}

/// A file lies one directory deeper than its directory.
pub proof fn files_lie_one_deeper(dir: Seq<char>, name: Seq<char>)
    requires
        dir.len() > 0,
        dir.last() != '/',
        is_file_name(name),
    ensures
        depth(joined(dir, name)) == depth(dir) + 1,
{
    names_follow_the_directory(dir, name);
    let p = joined(dir, name);
    assert(p =~= dir.push('/') + name);
    lemma_split_add(dir, name, '/');
    assert forall|k: int| 0 <= k < name.len() implies #[trigger] name[k] != '/' by {
        assert(name.contains(name[k]));
    }
    lemma_index_of_is(name, '/', name.len() as int);
    assert(split_on(name, '/') =~= seq![name]);
    let a = split_on(dir, '/');
    let b = split_on(p, '/');
    assert(b =~= a.push(name));
    lemma_same_count(a, b, a.len() as int);
    assert(p[0] == dir[0]);
}

proof fn lemma_same_count(a: Seq<Seq<char>>, b: Seq<Seq<char>>, n: int)
    requires
        n <= a.len() <= b.len(),
        forall|k: int| 0 <= k < a.len() ==> #[trigger] a[k] == b[k],
    ensures
        count_parts(a, n) == count_parts(b, n),
    decreases n,
{
    if n > 0 {
        lemma_same_count(a, b, n - 1);
        assert(a[n - 1] == b[n - 1]);
    }
}

/// A new note gets the name that was asked for, with an ending if it has none; further ones of
/// that name are numbered.
pub proof fn new_notes_are_named(root: Seq<char>, name: Seq<char>, n: nat)
    requires
        is_file_name(trim(name)),
        !trim(name).contains('.'),
        n > 1,
    ensures
        candidate(root, name, 1) == joined(root, trim(name) + seq!['.', 'm', 'd']),
        candidate(root, name, n) == joined(
            root,
            trim(name) + seq![' '] + digits_of(n) + seq!['.', 'm', 'd'],
        ),
{
    let t = trim(name);
    reveal_strlit(".md");
    reveal_strlit("md");
    assert(".md"@ =~= seq!['.', 'm', 'd']);
    let none = Seq::<char>::empty();
    assert(joined(none, t) =~= t) by {
        if t[0] == '/' {
            assert(t.contains(t[0]));
        }
        assert(none + t =~= t);
    }
    assert(!t.skip(1).contains('.')) by {
        if t.skip(1).contains('.') {
            let k = choose|k: int| 0 <= k < t.skip(1).len() && t.skip(1)[k] == '.';
            assert(t[k + 1] == '.');
            assert(t.contains('.'));
        }
    }
    names_without_a_dot_have_no_ending(none, t);
    let f = t + ".md"@;
    let md = seq!['m', 'd'];
    assert(f =~= t + seq!['.'] + md);
    assert(f[t.len() as int] == '.' && f.len() == t.len() + 3);
    assert(f != seq!['.', '.']);
    names_part_at_the_last_dot(none, t, md);
    assert(joined(none, f) =~= f) by {
        assert(f[0] == t[0]);
        if t[0] == '/' {
            assert(t.contains(t[0]));
        }
        assert(none + f =~= f);
    }
    assert(t.push(' ') =~= t + seq![' ']);
}

/// A new note whose name has the ending of one keeps it, and one without a name is given one.
pub proof fn new_notes_keep_their_ending(root: Seq<char>, stem: Seq<char>, ext: Seq<char>, a: Seq<char>)
    requires
        stem.len() > 0,
        !stem.contains('/'),
        !is_space(stem[0]),
        same_ignoring_case(ext, seq!['m', 'd']) || same_ignoring_case(ext, seq!['t', 'x', 't']),
        is_white(a),
    ensures
        candidate(root, a + (stem + seq!['.'] + ext) + a, 1) == joined(root, stem + seq!['.'] + ext),
        candidate(root, a, 1) == joined(root, seq!['未', '命', '名', '.', 'm', 'd']),
{
    let f = stem + seq!['.'] + ext;
    crate::query_laws::case_is_that_of_letters(ext, seq!['m', 'd']);
    crate::query_laws::case_is_that_of_letters(ext, seq!['t', 'x', 't']);
    let w = if same_ignoring_case(ext, seq!['m', 'd']) {
        seq!['m', 'd']
    } else {
        seq!['t', 'x', 't']
    };
    assert forall|k: int| 0 <= k < ext.len() implies (#[trigger] ext[k]) != '/' && ext[k] != '.'
        && !is_space(ext[k]) by {
        assert(crate::query_laws::same_letter(ext[k], w[k]));
        assert(w[k] == 'm' || w[k] == 'd' || w[k] == 't' || w[k] == 'x');
    }
    assert(f != seq!['.', '.']) by {
        assert(f.len() >= 4);
    }
    let none = Seq::<char>::empty();
    notes_go_by_their_ending(none, stem, ext);
    assert(f.last() == ext.last());
    assert(f[0] == stem[0]);
    lemma_cut_ends(a, f, a);
    assert(joined(none, f) =~= f) by {
        if stem[0] == '/' {
            assert(stem.contains(stem[0]));
        }
        assert(none + f =~= f);
    }
    crate::talk_laws::lemma_white(a);
    reveal_strlit("未命名");
    reveal_strlit(".md");
    let u = seq!['未', '命', '名'];
    assert("未命名"@ =~= u);
    assert("未命名"@ + ".md"@ =~= seq!['未', '命', '名', '.', 'm', 'd']);
    assert(!u.skip(1).contains('.'));
    assert(u.len() == 3);
    names_without_a_dot_have_no_ending(none, u);
    assert(joined(none, u) =~= u) by {
        assert(none + u =~= u);
    }
}

/// Texts are ordered by the first character that differs, and before a longer one that starts
/// with it stands the shorter.
pub proof fn texts_are_ordered_by_characters(p: Seq<char>, x: char, y: char, a: Seq<char>, b: Seq<char>)
    ensures
        x != y ==> (text_before(p + (seq![x] + a), p + (seq![y] + b)) <==> (x as u32) < (y as u32)),
        text_before(p, p + (seq![x] + a)),
        !text_before(p + (seq![x] + a), p),
        !text_before(p, p),
{
    let (u, v) = (seq![x] + a, seq![y] + b);
    let none = Seq::<char>::empty();
    lemma_same_start(p, u, v);
    lemma_same_start(p, none, u);
    lemma_same_start(p, u, none);
    lemma_same_start(p, none, none);
    assert(p + none =~= p);
    assert(u[0] == x && v[0] == y);
}

// ---------- levels ----------

/// What is hidden: names that start with a dot, and two directories of build tools.
pub proof fn hidden_names_start_with_a_dot(name: Seq<char>)
    ensures
        name.len() > 0 && name[0] == '.' ==> is_hidden(name),
        is_hidden(seq!['t', 'a', 'r', 'g', 'e', 't']),
        is_hidden(seq!['n', 'o', 'd', 'e', '_', 'm', 'o', 'd', 'u', 'l', 'e', 's']),
        is_hidden(name) ==> {
            ||| name.len() > 0 && name[0] == '.'
            ||| name == seq!['t', 'a', 'r', 'g', 'e', 't']
            ||| name == seq!['n', 'o', 'd', 'e', '_', 'm', 'o', 'd', 'u', 'l', 'e', 's']
        },
{
    reveal_strlit("target");
    reveal_strlit("node_modules");
    assert("target"@ =~= seq!['t', 'a', 'r', 'g', 'e', 't']);
    assert("node_modules"@ =~= seq!['n', 'o', 'd', 'e', '_', 'm', 'o', 'd', 'u', 'l', 'e', 's']);
}

/// Whether an entry shows this item: a directory or a note that is not hidden, folded, at the
/// depth of its level.
pub open spec fn shows_item(item: DirItem, depth: int, e: EntryModel) -> bool {
    &&& !is_hidden(item.name@)
    &&& item.is_dir || is_note(item.path@)
    &&& e.path == item.path@
    &&& e.name == item.name@
    &&& e.is_dir == item.is_dir
    &&& !e.expanded
    &&& e.depth == depth
}

proof fn lemma_listed_from(items: Seq<DirItem>, dirs: bool, depth: int, n: int, k: int) -> (i: int)
    requires
        0 <= n <= items.len(),
        0 <= k < listed(items, dirs, depth, n).len(),
    ensures
        0 <= i < n,
        items[i].is_dir == dirs,
        shows_item(items[i], depth, listed(items, dirs, depth, n)[k]),
    decreases n,
{
    let rest = listed(items, dirs, depth, n - 1);
    if k < rest.len() {
        assert(listed(items, dirs, depth, n)[k] == rest[k]);
        lemma_listed_from(items, dirs, depth, n - 1, k)
    } else {
        n - 1
    }
}

proof fn lemma_listed_made(
    items: Seq<DirItem>,
    dirs: bool,
    depth: int,
    n: int,
    i: int,
    e: EntryModel,
) -> (k: int)
    requires
        0 <= i < n <= items.len(),
        items[i].is_dir == dirs,
        shows_item(items[i], depth, e),
    ensures
        0 <= k < listed(items, dirs, depth, n).len(),
        listed(items, dirs, depth, n)[k] == e,
    decreases n,
{
    let rest = listed(items, dirs, depth, n - 1);
    if i == n - 1 {
        rest.len() as int
    } else {
        let k = lemma_listed_made(items, dirs, depth, n - 1, i, e);
        assert(listed(items, dirs, depth, n)[k] == rest[k]);
        k
    }
}

proof fn lemma_by_name(v: Seq<EntryModel>)
    ensures
        by_name(v).len() == v.len(),
        forall|k: int| 0 <= k < v.len() ==> v.contains(#[trigger] by_name(v)[k]),
        forall|k: int| 0 <= k < v.len() ==> by_name(v).contains(#[trigger] v[k]),
        forall|j: int, k: int|
            0 <= j < k < v.len() ==> !text_before(
                lowercase((#[trigger] by_name(v)[k]).name),
                lowercase((#[trigger] by_name(v)[j]).name),
            ),
{
    let keys = name_keys(v);
    let o = stable_order(keys);
    let r = by_name(v);
    stable_order_sorts(keys);
    assert forall|k: int| 0 <= k < v.len() implies v.contains(#[trigger] r[k]) by {
        assert(r[k] == v[o[k]]);
    }
    assert forall|k: int| 0 <= k < v.len() implies r.contains(#[trigger] v[k]) by {
        assert(o.contains(k));
        let j = choose|j: int| 0 <= j < o.len() && o[j] == k;
        assert(r[j] == v[k]);
    }
    assert forall|j: int, k: int| 0 <= j < k < v.len() implies !text_before(
        lowercase((#[trigger] r[k]).name),
        lowercase((#[trigger] r[j]).name),
    ) by {
        assert(stands_before(keys, o[j], o[k]));
        assert(keys[o[j]] == lowercase(r[j].name) && keys[o[k]] == lowercase(r[k].name));
        lemma_text_order_total(keys[o[j]], keys[o[k]]);
    }
}

/// A level shows the directories and notes that are not hidden, all of them and no others:
/// first the directories, then the notes, each in the order of their names.
pub proof fn levels_show_what_is_not_hidden(items: Seq<DirItem>, depth: int)
    ensures
        ({
            let r = level_of(items, depth);
            &&& forall|k: int|
                0 <= k < r.len() ==> exists|i: int|
                    0 <= i < items.len() && shows_item(#[trigger] items[i], depth, #[trigger] r[k])
            &&& forall|i: int, e: EntryModel|
                0 <= i < items.len() && #[trigger] shows_item(items[i], depth, e) ==> r.contains(e)
            &&& forall|j: int, k: int|
                0 <= j < k < r.len() ==> ((#[trigger] r[k]).is_dir ==> (#[trigger] r[j]).is_dir)
            &&& forall|j: int, k: int|
                0 <= j < k < r.len() && (#[trigger] r[j]).is_dir == (#[trigger] r[k]).is_dir
                    ==> !text_before(lowercase(r[k].name), lowercase(r[j].name))
        }),
{
    let n = items.len() as int;
    let (a, b) = (listed(items, true, depth, n), listed(items, false, depth, n));
    let r = level_of(items, depth);
    lemma_by_name(a);
    lemma_by_name(b);
    let m = a.len() as int;
    assert forall|k: int| 0 <= k < r.len() implies exists|i: int|
        0 <= i < items.len() && items[i].is_dir == (k < m) && shows_item(
            #[trigger] items[i],
            depth,
            #[trigger] r[k],
        ) by {
        if k < m {
            assert(r[k] == by_name(a)[k]);
            let q = choose|q: int| 0 <= q < a.len() && a[q] == r[k];
            let i = lemma_listed_from(items, true, depth, n, q);
            assert(shows_item(items[i], depth, r[k]));
        } else {
            assert(r[k] == by_name(b)[k - m]);
            let q = choose|q: int| 0 <= q < b.len() && b[q] == r[k];
            let i = lemma_listed_from(items, false, depth, n, q);
            assert(shows_item(items[i], depth, r[k]));
        }
    }
    assert forall|k: int| 0 <= k < r.len() implies (#[trigger] r[k]).is_dir == (k < m) by {}
    assert forall|i: int, e: EntryModel|
        0 <= i < items.len() && #[trigger] shows_item(items[i], depth, e) implies r.contains(e) by {
        if items[i].is_dir {
            let k = lemma_listed_made(items, true, depth, n, i, e);
            assert(by_name(a).contains(a[k]));
            let j = choose|j: int| 0 <= j < by_name(a).len() && by_name(a)[j] == e;
            assert(r[j] == e);
        } else {
            let k = lemma_listed_made(items, false, depth, n, i, e);
            assert(by_name(b).contains(b[k]));
            let j = choose|j: int| 0 <= j < by_name(b).len() && by_name(b)[j] == e;
            assert(r[m + j] == e);
        }
    }
    assert forall|j: int, k: int|
        0 <= j < k < r.len() && (#[trigger] r[j]).is_dir == (#[trigger] r[k]).is_dir implies !text_before(
        lowercase(r[k].name),
        lowercase(r[j].name),
    ) by {
        if k < m {
            assert(r[j] == by_name(a)[j] && r[k] == by_name(a)[k]);
        } else {
            assert(r[j] == by_name(b)[j - m] && r[k] == by_name(b)[k - m]);
        }
    }
}

// ---------- history ----------

/// Every file has a place of its own for its snapshots, and one outside the vault has none.
pub proof fn snapshots_lie_apart(root: Seq<char>, a: Seq<char>, b: Seq<char>)
    requires
        root.len() > 0,
        root.last() != '/',
    ensures
        snap_dir_of(root, root + seq!['/'] + a) == Some(
            joined(
                root + seq!['/', '.', 'f', 'a', 's', 't', 'n', 'o', 't', 'e', '/', 'h', 'i', 's', 't', 'o', 'r', 'y'],
                slashed(a) + seq!['.', 's', 'n', 'a', 'p'],
            ),
        ),
        !a.contains('\\') && !b.contains('\\') && a != b && !(a.len() > 0 && a[0] == '/') && !(b.len()
            > 0 && b[0] == '/') ==> snap_dir_of(root, root + seq!['/'] + a) != snap_dir_of(
            root,
            root + seq!['/'] + b,
        ),
        b != root && !(root + seq!['/']).is_prefix_of(b) ==> snap_dir_of(root, b) is None,
        snap_dir_of(root, root) is Some,
{
    let dir = root + seq!['/'];
    assert(root.push('/') =~= dir);
    let store = root + seq![
        '/',
        '.',
        'f',
        'a',
        's',
        't',
        'n',
        'o',
        't',
        'e',
        '/',
        'h',
        'i',
        's',
        't',
        'o',
        'r',
        'y',
    ];
    reveal_strlit(".fastnote/history");
    reveal_strlit(".snap");
    let snap = seq!['.', 's', 'n', 'a', 'p'];
    assert(".snap"@ =~= snap);
    assert(joined(root, ".fastnote/history"@) =~= store);
    assert forall|f: Seq<char>| below(root, #[trigger] (dir + f)) == Some(f) by {
        assert(dir.is_prefix_of(dir + f));
        assert((dir + f).skip(dir.len() as int) =~= f);
        assert((dir + f).len() > root.len());
    }
    if !a.contains('\\') && !b.contains('\\') && a != b && !(a.len() > 0 && a[0] == '/') && !(
    b.len() > 0 && b[0] == '/') {
        lemma_slashed(a);
        lemma_slashed(b);
        let (x, y) = (joined(store, a + snap), joined(store, b + snap));
        assert(store.last() == 'y');
        if a.len() > 0 {
            assert((a + snap)[0] == a[0]);
        }
        if b.len() > 0 {
            assert((b + snap)[0] == b[0]);
        }
        let s = store.push('/');
        assert(x == s + (a + snap));
        assert(y == s + (b + snap));
        if x == y {
            assert(x.len() == y.len());
            assert(a =~= x.subrange(s.len() as int, x.len() - 5));
            assert(b =~= y.subrange(s.len() as int, y.len() - 5));
        }
    }
}

proof fn lemma_slashed(s: Seq<char>)
    requires
        !s.contains('\\'),
    ensures
        slashed(s) == s,
{
    assert forall|k: int| 0 <= k < s.len() implies #[trigger] slashed(s)[k] == s[k] by {
        assert(s.contains(s[k]));
    }
    assert(slashed(s) =~= s);
}

proof fn lemma_snaps(paths: Seq<Seq<char>>, n: int)
    requires
        0 <= n <= paths.len(),
    ensures
        forall|p: Seq<char>| #[trigger]
            snaps_upto(paths, n).contains(p) <==> paths.take(n).contains(p) && extension(p) == Some(
                seq!['m', 'd'],
            ),
    decreases n,
{
    reveal_strlit("md");
    assert("md"@ =~= seq!['m', 'd']);
    let v = snaps_upto(paths, n);
    if n > 0 {
        lemma_snaps(paths, n - 1);
        let rest = snaps_upto(paths, n - 1);
        let t = paths.take(n);
        let u = paths.take(n - 1);
        assert(t =~= u.push(paths[n - 1]));
        assert forall|p: Seq<char>| #[trigger] v.contains(p) <==> t.contains(p) && extension(p)
            == Some(seq!['m', 'd']) by {
            if u.contains(p) {
                let k = choose|k: int| 0 <= k < u.len() && u[k] == p;
                assert(t[k] == p);
            }
            if rest.contains(p) {
                let k = choose|k: int| 0 <= k < rest.len() && rest[k] == p;
                assert(v[k] == p);
            }
            if p == paths[n - 1] {
                assert(t[n - 1] == p);
                if is_snap(p) {
                    assert(v[v.len() - 1] == p);
                }
            }
            if t.contains(p) && p != paths[n - 1] {
                let k = choose|k: int| 0 <= k < t.len() && t[k] == p;
                assert(u[k] == p);
            }
            if v.contains(p) && p != paths[n - 1] {
                let k = choose|k: int| 0 <= k < v.len() && v[k] == p;
                assert(rest[k] == p);
            }
        }
    }
}

/// The snapshots of a note are the files that end with `md`; the forty newest are kept, and
/// what is thrown away is older than all that is kept.
pub proof fn forty_snapshots_are_kept(paths: Seq<Seq<char>>)
    ensures
        forall|p: Seq<char>| #[trigger]
            snaps_of(paths).contains(p) <==> paths.contains(p) && extension(p) == Some(
                seq!['m', 'd'],
            ),
        snaps_of(paths).len() <= 40 ==> pruned_of(paths).len() == 0,
        snaps_of(paths).len() > 40 ==> pruned_of(paths) == snaps_of(paths).take(
            snaps_of(paths).len() - 40,
        ),
{
    let v = snaps_upto(paths, paths.len() as int);
    let keys = snap_keys(v);
    let o = stable_order(keys);
    let r = snaps_of(paths);
    stable_order_sorts(keys);
    lemma_snaps(paths, paths.len() as int);
    assert(paths.take(paths.len() as int) =~= paths);
    assert forall|p: Seq<char>| #[trigger] r.contains(p) <==> paths.contains(p) && extension(p)
        == Some(seq!['m', 'd']) by {
        if r.contains(p) {
            let k = choose|k: int| 0 <= k < r.len() && r[k] == p;
            assert(r[k] == v[o[k]]);
            assert(v.contains(p));
        }
        if v.contains(p) {
            let k = choose|k: int| 0 <= k < v.len() && v[k] == p;
            assert(o.contains(k));
            let j = choose|j: int| 0 <= j < o.len() && o[j] == k;
            assert(r[j] == p);
        }
        assert(v.contains(p) <==> paths.contains(p) && extension(p) == Some(seq!['m', 'd']));
    }
}

/// The list of snapshots shows the newest first, each with its size.
pub proof fn the_newest_is_listed_first(files: Seq<Seq<char>>, sizes: Seq<u64>, k: int)
    requires
        0 <= k < files.len(),
        files.len() == sizes.len(),
    ensures
        snapshots_listed(files, sizes).len() == files.len(),
        snapshots_listed(files, sizes)[files.len() - 1 - k].path == files[k],
        snapshots_listed(files, sizes)[files.len() - 1 - k].bytes == sizes[k],
{
}

/// A preview is the text itself, or its first three thousand characters and a mark.
pub proof fn previews_start_as_the_text(s: Seq<char>)
    ensures
        s.len() <= 3000 ==> preview_of(s) == s,
        s.len() > 3000 ==> preview_of(s).take(3000) == s.take(3000) && 3000 < preview_of(s).len()
            <= 3010 && preview_of(s)[3000] == '\n',
{
    reveal_strlit("\n…（已截断）");
    if s.len() > 3000 {
        assert(preview_of(s).take(3000) =~= s.take(3000));
    }
}

} // verus!
