//! What the tree of a vault promises over directories as they are on a disk: each item lies
//! at the path of its directory and its name, and no two items of a directory have the same
//! name.
use crate::paths::joined;
use crate::sorting::{stable_order, stable_order_sorts, stands_before};
use crate::text::lemma_text_order_total;
use crate::vault::{
    by_name, entry_at, entry_of, is_listed, is_open, is_tree, lemma_level_tree, level_at, level_of,
    listed, name_keys, open_dirs, tree_step, unfolded_all, unfolding_keeps_the_tree, DirItem,
    EntryModel,
};
use crate::vault_laws::{
    closed, kids, lemma_entry_at, lemma_entry_at_is, lists_not, opening_shows_the_tree,
    paths_differ, reloading_changes_nothing, reloading_keeps_unfolded,
    reloading_unfolds_nothing_new, shows_dir, shows_tree, unfolding_shows_the_tree,
};
use vstd::prelude::*;

verus! {

// ---------- directories ----------

/// Whether an item lies in the directory at `p`.
pub open spec fn lies_in(item: DirItem, p: Seq<char>) -> bool {
    item.name@.len() > 0 && !item.name@.contains('/') && item.path@ == joined(p, item.name@)
}

/// Whether `held` tells what directories hold, as on a disk.
pub open spec fn is_disk(held: spec_fn(Seq<char>) -> Seq<DirItem>) -> bool {
    &&& forall|p: Seq<char>, t: int|
        0 <= t < held(p).len() ==> lies_in(#[trigger] held(p)[t], p)
    &&& forall|p: Seq<char>, i: int, j: int|
        0 <= i < j < held(p).len() ==> (#[trigger] held(p)[i]).name@ != (#[trigger] held(
            p,
        )[j]).name@
}

proof fn lemma_joined_differ(p: Seq<char>, a: Seq<char>, b: Seq<char>)
    requires
        a.len() > 0,
        b.len() > 0,
        !a.contains('/'),
        !b.contains('/'),
        joined(p, a) == joined(p, b),
    ensures
        a == b,
{
    assert(a.contains(a[0]) && b.contains(b[0]));
    let n = if p.len() == 0 || p.last() == '/' {
        p.len() as int
    } else {
        p.len() as int + 1
    };
    assert(joined(p, a).skip(n) =~= a);
    assert(joined(p, b).skip(n) =~= b);
}

/// The items of a directory lie at different paths.
proof fn lemma_items_differ(held: spec_fn(Seq<char>) -> Seq<DirItem>, p: Seq<char>, i: int, j: int)
    requires
        is_disk(held),
        0 <= i < held(p).len(),
        0 <= j < held(p).len(),
        held(p)[i].path@ == held(p)[j].path@,
    ensures
        i == j,
{
    assert(lies_in(held(p)[i], p) && lies_in(held(p)[j], p));
    lemma_joined_differ(p, held(p)[i].name@, held(p)[j].name@);
    if i < j {
        assert(held(p)[i].name@ != held(p)[j].name@);
    } else if j < i {
        assert(held(p)[j].name@ != held(p)[i].name@);
    }
}

// ---------- a level ----------

/// The item that an entry of a list is made from.
proof fn lemma_listed_from(items: Seq<DirItem>, dirs: bool, depth: int, n: int, k: int) -> (t: int)
    requires
        0 <= n <= items.len(),
        0 <= k < listed(items, dirs, depth, n).len(),
    ensures
        0 <= t < n,
        is_listed(items[t], dirs),
        listed(items, dirs, depth, n)[k] == entry_of(items[t], depth),
    decreases n,
{
    let rest = listed(items, dirs, depth, n - 1);
    if k < rest.len() {
        let t = lemma_listed_from(items, dirs, depth, n - 1, k);
        assert(listed(items, dirs, depth, n)[k] == rest[k]);
        t
    } else {
        n - 1
    }
}

proof fn lemma_listed_differ(
    held: spec_fn(Seq<char>) -> Seq<DirItem>,
    p: Seq<char>,
    dirs: bool,
    depth: int,
    n: int,
)
    requires
        is_disk(held),
        0 <= n <= held(p).len(),
    ensures
        paths_differ(listed(held(p), dirs, depth, n)),
    decreases n,
{
    if n > 0 {
        let items = held(p);
        lemma_listed_differ(held, p, dirs, depth, n - 1);
        let rest = listed(items, dirs, depth, n - 1);
        let all = listed(items, dirs, depth, n);
        assert forall|i: int, j: int| 0 <= i < j < all.len() implies (#[trigger] all[i]).path != (
        #[trigger] all[j]).path by {
            assert(all[i] == rest[i]);
            if j < rest.len() {
                assert(all[j] == rest[j]);
            } else {
                let t = lemma_listed_from(items, dirs, depth, n - 1, i);
                if all[i].path == all[j].path {
                    lemma_items_differ(held, p, t, n - 1);
                }
            }
        }
    }
}

proof fn lemma_by_name_differ(v: Seq<EntryModel>)
    requires
        paths_differ(v),
    ensures
        by_name(v).len() == v.len(),
        paths_differ(by_name(v)),
{
    let keys = name_keys(v);
    let o = stable_order(keys);
    stable_order_sorts(keys);
    let w = by_name(v);
    assert forall|i: int, j: int| 0 <= i < j < w.len() implies (#[trigger] w[i]).path != (
    #[trigger] w[j]).path by {
        assert(stands_before(keys, o[i], o[j]));
        lemma_text_order_total(keys[o[i]], keys[o[j]]);
        assert(w[i] == v[o[i]] && w[j] == v[o[j]]);
        if o[i] < o[j] {
            assert(v[o[i]].path != v[o[j]].path);
        } else {
            assert(o[j] < o[i]);
            assert(v[o[j]].path != v[o[i]].path);
        }
    }
}

/// The item that an entry of a sorted list is made from.
proof fn lemma_by_name_from(items: Seq<DirItem>, dirs: bool, depth: int, k: int) -> (t: int)
    requires
        0 <= k < by_name(listed(items, dirs, depth, items.len() as int)).len(),
    ensures
        0 <= t < items.len(),
        is_listed(items[t], dirs),
        by_name(listed(items, dirs, depth, items.len() as int))[k] == entry_of(items[t], depth),
{
    let v = listed(items, dirs, depth, items.len() as int);
    stable_order_sorts(name_keys(v));
    let o = stable_order(name_keys(v));
    assert(by_name(v)[k] == v[o[k]]);
    lemma_listed_from(items, dirs, depth, items.len() as int, o[k])
}

/// The item that an entry of a level is made from.
proof fn lemma_level_from(items: Seq<DirItem>, depth: int, k: int) -> (t: int)
    requires
        0 <= k < level_of(items, depth).len(),
    ensures
        0 <= t < items.len(),
        level_of(items, depth)[k] == entry_of(items[t], depth),
        is_listed(items[t], k < by_name(listed(items, true, depth, items.len() as int)).len()),
{
    let a = by_name(listed(items, true, depth, items.len() as int));
    if k < a.len() {
        lemma_by_name_from(items, true, depth, k)
    } else {
        lemma_by_name_from(items, false, depth, k - a.len())
    }
}

/// The entries of a level lie at different paths.
proof fn lemma_level_differ(held: spec_fn(Seq<char>) -> Seq<DirItem>, p: Seq<char>, depth: int)
    requires
        is_disk(held),
    ensures
        paths_differ(level_of(held(p), depth)),
{
    let items = held(p);
    let n = items.len() as int;
    let all = level_of(items, depth);
    let a = by_name(listed(items, true, depth, n));
    let b = by_name(listed(items, false, depth, n));
    lemma_listed_differ(held, p, true, depth, n);
    lemma_listed_differ(held, p, false, depth, n);
    lemma_by_name_differ(listed(items, true, depth, n));
    lemma_by_name_differ(listed(items, false, depth, n));
    assert forall|i: int, j: int| 0 <= i < j < all.len() implies (#[trigger] all[i]).path != (
    #[trigger] all[j]).path by {
        if j < a.len() {
            assert(all[i] == a[i] && all[j] == a[j]);
        } else if i >= a.len() {
            assert(all[i] == b[i - a.len()] && all[j] == b[j - a.len()]);
        } else {
            let s = lemma_level_from(items, depth, i);
            let t = lemma_level_from(items, depth, j);
            if all[i].path == all[j].path {
                lemma_items_differ(held, p, s, t);
            }
        }
    }
}

// ---------- where entries lie ----------

/// How many separators `s` holds.
pub open spec fn slashes(s: Seq<char>) -> nat
    decreases s.len(),
{
    if s.len() == 0 {
        0
    } else {
        slashes(s.drop_last()) + if s.last() == '/' {
            1nat
        } else {
            0
        }
    }
}

proof fn lemma_slashes_add(a: Seq<char>, b: Seq<char>)
    requires
        !b.contains('/'),
    ensures
        slashes(a + b) == slashes(a),
    decreases b.len(),
{
    if b.len() == 0 {
        assert(a + b =~= a);
    } else {
        assert(b.contains(b[b.len() - 1]));
        assert forall|k: int| 0 <= k < b.drop_last().len() implies #[trigger] b.drop_last()[k]
            != '/' by {
            assert(b.contains(b[k]));
        }
        lemma_slashes_add(a, b.drop_last());
        assert((a + b).drop_last() =~= a + b.drop_last());
    }
}

/// What stands before the last separator.
proof fn lemma_joined_parts(p: Seq<char>, name: Seq<char>)
    requires
        name.len() > 0,
        !name.contains('/'),
    ensures
        joined(p, name).len() > 0,
        joined(p, name).last() != '/',
        p.len() > 0 && p.last() != '/' ==> joined(p, name) == p.push('/') + name && slashes(
            joined(p, name),
        ) == slashes(p) + 1,
        !(p.len() > 0 && p.last() != '/') ==> slashes(joined(p, name)) == slashes(p),
{
    assert(name.contains(name[0]) && name.contains(name[name.len() - 1]));
    if p.len() > 0 && p.last() != '/' {
        lemma_slashes_add(p.push('/'), name);
        assert(p.push('/').drop_last() =~= p);
    } else {
        lemma_slashes_add(p, name);
    }
}

/// Two paths that are the same lie in the same directory.
proof fn lemma_same_dir(p: Seq<char>, a: Seq<char>, q: Seq<char>, b: Seq<char>)
    requires
        !a.contains('/'),
        !b.contains('/'),
        p.push('/') + a == q.push('/') + b,
    ensures
        p == q,
{
    let s = p.push('/') + a;
    assert(s.len() == (q.push('/') + b).len());
    assert(s[p.len() as int] == '/');
    assert(s[q.len() as int] == '/') by {
        assert((q.push('/') + b)[q.len() as int] == '/');
    }
    if p.len() < q.len() {
        assert(q.len() - p.len() - 1 < a.len());
        assert(s[q.len() as int] == a[q.len() - p.len() - 1]);
        assert(a.contains('/'));
    } else if q.len() < p.len() {
        assert(s[p.len() as int] == b[p.len() - q.len() - 1]);
        assert(b.contains('/'));
    }
    assert(s.take(p.len() as int) =~= p);
    assert(s.take(q.len() as int) =~= q);
}

/// The unfolded directory at depth `d` that an entry stands in.
proof fn lemma_above(v: Seq<EntryModel>, k: int, d: int) -> (j: int)
    requires
        is_tree(v),
        0 <= k < v.len(),
        0 <= d < v[k].depth,
    ensures
        0 <= j < k,
        v[j].depth == d,
        is_open(v[j]),
        forall|i: int| j < i <= k ==> (#[trigger] v[i]).depth > d,
    decreases k,
{
    assert(tree_step(v, k));
    assert(k > 0);
    if v[k - 1].depth == d {
        k - 1
    } else {
        lemma_above(v, k - 1, d)
    }
}

proof fn lemma_in_kids(v: Seq<EntryModel>, d: int, s: int, k: int)
    requires
        0 <= s <= k < v.len(),
        forall|i: int| s <= i <= k ==> (#[trigger] v[i]).depth > d,
        v[k].depth == d + 1,
    ensures
        kids(v, d, s).contains(closed(v[k])),
    decreases k - s,
{
    assert(v[s].depth > d);
    let rest = kids(v, d, s + 1);
    if s == k {
        assert(kids(v, d, s)[0] == closed(v[k]));
    } else {
        lemma_in_kids(v, d, s + 1, k);
        let m = choose|m: int| 0 <= m < rest.len() && rest[m] == closed(v[k]);
        if v[s].depth == d + 1 {
            assert(kids(v, d, s)[m + 1] == rest[m]);
        } else {
            assert(kids(v, d, s)[m] == rest[m]);
        }
    }
}

proof fn lemma_kids_differ(v: Seq<EntryModel>, d: int, s: int, i: int, k: int)
    requires
        0 <= s <= i < k < v.len(),
        forall|j: int| s <= j <= k ==> (#[trigger] v[j]).depth > d,
        v[i].depth == d + 1,
        v[k].depth == d + 1,
        paths_differ(kids(v, d, s)),
    ensures
        v[i].path != v[k].path,
    decreases i - s,
{
    assert(v[s].depth > d);
    let all = kids(v, d, s);
    let rest = kids(v, d, s + 1);
    if s == i {
        lemma_in_kids(v, d, s + 1, k);
        let m = choose|m: int| 0 <= m < rest.len() && rest[m] == closed(v[k]);
        assert(all[0] == closed(v[i]));
        assert(all[m + 1] == rest[m]);
        assert(all[0].path != all[m + 1].path);
    } else {
        if v[s].depth == d + 1 {
            assert forall|a: int, b: int| 0 <= a < b < rest.len() implies (#[trigger] rest[a]).path
                != (#[trigger] rest[b]).path by {
                assert(all[a + 1] == rest[a] && all[b + 1] == rest[b]);
            }
        } else {
            assert(all == rest);
        }
        lemma_kids_differ(v, d, s + 1, i, k);
    }
}

/// The directory that an entry stands in: that of the entry above it at the next depth, or
/// the root.
proof fn lemma_dir_of(
    held: spec_fn(Seq<char>) -> Seq<DirItem>,
    root: Seq<char>,
    v: Seq<EntryModel>,
    k: int,
) -> (r: (int, Seq<char>))
    requires
        is_disk(held),
        is_tree(v),
        shows_tree(held, root, v),
        0 <= k < v.len(),
    ensures
        -1 <= r.0 < k,
        r.0 == -1 <==> v[k].depth == 0,
        r.1.len() > 0,
        !r.1.contains('/'),
        forall|i: int| r.0 < i <= k ==> (#[trigger] v[i]).depth > v[k].depth - 1,
        r.0 >= 0 ==> v[r.0].depth == v[k].depth - 1 && is_open(v[r.0]) && v[k].path == joined(
            v[r.0].path,
            r.1,
        ),
        r.0 == -1 ==> v[k].path == joined(root, r.1),
{
    let d = v[k].depth;
    assert(tree_step(v, k));
    let j = if d == 0 {
        -1
    } else {
        lemma_above(v, k, d - 1)
    };
    let p = if d == 0 {
        root
    } else {
        v[j].path
    };
    assert forall|i: int| j < i <= k implies (#[trigger] v[i]).depth > d - 1 by {
        if d == 0 {
            assert(tree_step(v, i));
        }
    }
    lemma_in_kids(v, d - 1, j + 1, k);
    let level = level_of(held(p), d);
    if d > 0 {
        assert(shows_dir(held, v, j));
    }
    assert(kids(v, d - 1, j + 1) == level);
    let m = choose|m: int| 0 <= m < level.len() && level[m] == closed(v[k]);
    let t = lemma_level_from(held(p), d, m);
    assert(lies_in(held(p)[t], p));
    (j, held(p)[t].name@)
}

/// Deeper entries have more separators in their paths.
proof fn lemma_path_depth(
    held: spec_fn(Seq<char>) -> Seq<DirItem>,
    root: Seq<char>,
    v: Seq<EntryModel>,
    k: int,
)
    requires
        is_disk(held),
        is_tree(v),
        shows_tree(held, root, v),
        0 <= k < v.len(),
    ensures
        v[k].path.len() > 0,
        v[k].path.last() != '/',
        slashes(v[k].path) == slashes(joined(root, seq!['x'])) + v[k].depth,
    decreases k,
{
    let (j, name) = lemma_dir_of(held, root, v, k);
    lemma_joined_parts(root, name);
    assert(!seq!['x'].contains('/'));
    lemma_joined_parts(root, seq!['x']);
    if j >= 0 {
        lemma_path_depth(held, root, v, j);
        lemma_joined_parts(v[j].path, name);
    }
}

/// No two entries that show a disk lie at the same path.
pub proof fn entries_lie_at_different_paths(
    held: spec_fn(Seq<char>) -> Seq<DirItem>,
    root: Seq<char>,
    v: Seq<EntryModel>,
)
    requires
        is_disk(held),
        is_tree(v),
        shows_tree(held, root, v),
    ensures
        paths_differ(v),
{
    assert forall|i: int, k: int| 0 <= i < k < v.len() implies (#[trigger] v[i]).path != (
    #[trigger] v[k]).path by {
        lemma_two_paths(held, root, v, i, k);
    }
}

proof fn lemma_two_paths(
    held: spec_fn(Seq<char>) -> Seq<DirItem>,
    root: Seq<char>,
    v: Seq<EntryModel>,
    i: int,
    k: int,
)
    requires
        is_disk(held),
        is_tree(v),
        shows_tree(held, root, v),
        0 <= i < k < v.len(),
    ensures
        v[i].path != v[k].path,
    decreases k,
{
    if v[i].path == v[k].path {
        lemma_path_depth(held, root, v, i);
        lemma_path_depth(held, root, v, k);
        let d = v[k].depth;
        assert(tree_step(v, k));
        let (a, x) = lemma_dir_of(held, root, v, i);
        let (b, y) = lemma_dir_of(held, root, v, k);
        if d > 0 && a != b {
            lemma_path_depth(held, root, v, a);
            lemma_path_depth(held, root, v, b);
            lemma_joined_parts(v[a].path, x);
            lemma_joined_parts(v[b].path, y);
            lemma_same_dir(v[a].path, x, v[b].path, y);
            if a < b {
                lemma_two_paths(held, root, v, a, b);
            } else {
                lemma_two_paths(held, root, v, b, a);
            }
        } else {
            let p = if d == 0 {
                root
            } else {
                v[b].path
            };
            if d > 0 {
                assert(shows_dir(held, v, b));
            }
            assert(kids(v, d - 1, b + 1) == level_of(held(p), d));
            lemma_level_differ(held, p, d);
            lemma_kids_differ(v, d - 1, b + 1, i, k);
        }
    }
}

// ---------- reading everything anew ----------

proof fn lemma_open_count(v: Seq<EntryModel>, a: int, b: int)
    requires
        0 <= a <= b,
    ensures
        open_dirs(v, a).len() <= open_dirs(v, b).len(),
    decreases b - a,
{
    if a < b {
        lemma_open_count(v, a, b - 1);
    }
}

/// The entry of the `m`th unfolded directory.
proof fn lemma_open_at(v: Seq<EntryModel>, n: int, m: int) -> (k: int)
    requires
        0 <= m < open_dirs(v, n).len(),
    ensures
        0 <= k < n,
        is_open(v[k]),
        open_dirs(v, n)[m] == v[k].path,
        open_dirs(v, k).len() == m,
    decreases n,
{
    let rest = open_dirs(v, n - 1);
    if m < rest.len() {
        let k = lemma_open_at(v, n - 1, m);
        k
    } else {
        n - 1
    }
}

/// A directory does not stand in one that is read after it.
proof fn lemma_read_in_order(
    held: spec_fn(Seq<char>) -> Seq<DirItem>,
    now: spec_fn(Seq<char>) -> Seq<DirItem>,
    root: Seq<char>,
    v: Seq<EntryModel>,
    m: int,
    j: int,
)
    requires
        is_disk(held),
        is_disk(now),
        is_tree(v),
        shows_tree(held, root, v),
        0 <= m <= j < open_dirs(v, v.len() as int).len(),
    ensures
        lists_not(
            now(open_dirs(v, v.len() as int)[j]),
            open_dirs(v, v.len() as int)[m],
        ),
{
    let n = v.len() as int;
    let a = lemma_open_at(v, n, m);
    let b = lemma_open_at(v, n, j);
    let (p, q) = (v[a].path, v[b].path);
    if b < a {
        lemma_open_count(v, b + 1, a);
    }
    assert(a <= b);
    lemma_path_depth(held, root, v, a);
    lemma_path_depth(held, root, v, b);
    entries_lie_at_different_paths(held, root, v);
    assert forall|t: int| 0 <= t < now(q).len() implies (#[trigger] now(q)[t]).path@ != p by {
        assert(lies_in(now(q)[t], q));
        let name = now(q)[t].name@;
        lemma_joined_parts(q, name);
        if now(q)[t].path@ == p {
            let (c, x) = lemma_dir_of(held, root, v, a);
            assert(c >= 0) by {
                assert(tree_step(v, b));
            }
            lemma_path_depth(held, root, v, c);
            lemma_joined_parts(v[c].path, x);
            lemma_same_dir(q, name, v[c].path, x);
            assert(v[c].path == v[b].path);
        }
    }
}

proof fn lemma_reloaded(
    now: spec_fn(Seq<char>) -> Seq<DirItem>,
    root: Seq<char>,
    dirs: Seq<Seq<char>>,
    levels: Seq<Vec<DirItem>>,
    n: int,
)
    requires
        0 <= n <= dirs.len(),
        forall|k: int| 0 <= k < n ==> #[trigger] level_at(levels, k) == now(dirs[k]),
    ensures
        is_tree(unfolded_all(level_of(now(root), 0), dirs, levels, n)),
        shows_tree(now, root, unfolded_all(level_of(now(root), 0), dirs, levels, n)),
    decreases n,
{
    let v0 = level_of(now(root), 0);
    if n == 0 {
        lemma_level_tree(now(root));
        opening_shows_the_tree(now, root);
    } else {
        lemma_reloaded(now, root, dirs, levels, n - 1);
        let w = unfolded_all(v0, dirs, levels, n - 1);
        assert(level_at(levels, n - 1) == now(dirs[n - 1]));
        lemma_entry_at(w, dirs[n - 1], 0);
        match entry_at(w, dirs[n - 1], 0) {
            Some(i) => {
                unfolding_keeps_the_tree(w, i, now(dirs[n - 1]));
                unfolding_shows_the_tree(now, root, w, i);
            },
            None => {},
        }
    }
}

/// Reading everything anew shows the directories as they are now, and keeps what is
/// unfolded: a directory that is still listed is unfolded just if it was before. Where
/// nothing has changed, the entries are the same.
pub proof fn reloading_keeps_what_is_unfolded(
    held: spec_fn(Seq<char>) -> Seq<DirItem>,
    now: spec_fn(Seq<char>) -> Seq<DirItem>,
    root: Seq<char>,
    v: Seq<EntryModel>,
    levels: Seq<Vec<DirItem>>,
)
    requires
        is_disk(held),
        is_disk(now),
        is_tree(v),
        shows_tree(held, root, v),
        forall|k: int|
            0 <= k < open_dirs(v, v.len() as int).len() ==> #[trigger] level_at(levels, k) == now(
                open_dirs(v, v.len() as int)[k],
            ),
    ensures
        ({
            let dirs = open_dirs(v, v.len() as int);
            let r = unfolded_all(level_of(now(root), 0), dirs, levels, dirs.len() as int);
            &&& is_tree(r)
            &&& shows_tree(now, root, r)
            &&& forall|k: int|
                0 <= k < r.len() && (#[trigger] r[k]).is_dir ==> r[k].expanded == dirs.contains(
                    r[k].path,
                )
            &&& (forall|p: Seq<char>| #[trigger] now(p) == held(p)) ==> r == v
        }),
{
    let dirs = open_dirs(v, v.len() as int);
    let n = dirs.len() as int;
    let r = unfolded_all(level_of(now(root), 0), dirs, levels, n);
    lemma_reloaded(now, root, dirs, levels, n);
    entries_lie_at_different_paths(now, root, r);
    reloading_unfolds_nothing_new(now(root), dirs, levels, n);
    assert forall|k: int| 0 <= k < r.len() && (#[trigger] r[k]).is_dir implies r[k].expanded
        == dirs.contains(r[k].path) by {
        if dirs.contains(r[k].path) {
            let m = choose|m: int| 0 <= m < dirs.len() && dirs[m] == r[k].path;
            assert forall|j: int| m <= j < n implies lists_not(
                #[trigger] level_at(levels, j),
                dirs[m],
            ) by {
                lemma_read_in_order(held, now, root, v, m, j);
            }
            reloading_keeps_unfolded(now(root), dirs, levels, m, n);
            lemma_entry_at_is(r, dirs[m], 0, k);
        } else if r[k].expanded {
            assert(is_open(r[k]));
        }
    }
    if forall|p: Seq<char>| #[trigger] now(p) == held(p) {
        entries_lie_at_different_paths(held, root, v);
        assert(now(root) == held(root));
        assert forall|k: int| 0 <= k < n implies #[trigger] level_at(levels, k) == held(dirs[k]) by {
            assert(now(dirs[k]) == held(dirs[k]));
        }
        reloading_changes_nothing(held, root, v, levels);
    }
}

} // verus!
