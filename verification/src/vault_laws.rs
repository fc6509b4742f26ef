//! What the tree of a vault promises.
//!
//! The entries show the directories as they are: whatever is unfolded and folded, behind
//! each unfolded directory stands what it holds. Reading everything anew while nothing has
//! changed changes nothing.
use crate::sorting::{stable_order, stable_order_sorts};
use crate::vault::{
    by_name, closed_at, dir_taken, entry_at, folded, folding_keeps_the_tree,
    folding_undoes_unfolding, is_listed, is_open, is_tree, lemma_level_depth, lemma_subtree_end,
    level_at, level_of, listed, name_keys, notes_taken, open_dirs, stop_of, stops_from,
    subtree_end, toggled, tree_step, unfolded, unfolded_all, walk_start, DirItem, EntryModel,
    StopModel, WalkModel, WALK_DEPTH,
};
use vstd::prelude::*;

verus! {

// ---------- folding and unfolding ----------

/// Clicking a folded directory twice gives the tree back, whatever it holds.
pub proof fn toggling_twice_gives_the_tree_back(
    v: Seq<EntryModel>,
    i: int,
    items: Seq<DirItem>,
    later: Seq<DirItem>,
)
    requires
        is_tree(v),
        0 <= i < v.len(),
        v[i].is_dir,
        !v[i].expanded,
    ensures
        toggled(v, i, items) == v.take(i).push(EntryModel { expanded: true, ..v[i] }) + level_of(
            items,
            v[i].depth + 1,
        ) + v.skip(i + 1),
        toggled(toggled(v, i, items), i, later) == v,
{
    folding_undoes_unfolding(v, i, items);
    assert(toggled(v, i, items)[i] == (EntryModel { expanded: true, ..v[i] }));
}

/// A click on anything but a directory changes nothing.
pub proof fn toggling_a_note_changes_nothing(v: Seq<EntryModel>, i: int, items: Seq<DirItem>)
    requires
        i >= v.len() || !v[i].is_dir,
    ensures
        toggled(v, i, items) == v,
{
}

// ---------- what the entries show ----------

/// An entry, folded.
pub open spec fn closed(e: EntryModel) -> EntryModel {
    EntryModel { expanded: false, ..e }
}

/// The entries from `k` on that stand one deeper than `d`, up to the first that stands no
/// deeper than `d`. All are taken as folded.
pub open spec fn kids(v: Seq<EntryModel>, d: int, k: int) -> Seq<EntryModel>
    decreases v.len() - k,
{
    if k < 0 || k >= v.len() || v[k].depth <= d {
        Seq::empty()
    } else if v[k].depth == d + 1 {
        seq![closed(v[k])] + kids(v, d, k + 1)
    } else {
        kids(v, d, k + 1)
    }
}

/// Whether the entries show what the directories hold: the root, and each unfolded one.
pub open spec fn shows_tree(
    held: spec_fn(Seq<char>) -> Seq<DirItem>,
    root: Seq<char>,
    v: Seq<EntryModel>,
) -> bool {
    &&& kids(v, -1, 0) == level_of(held(root), 0)
    &&& forall|i: int| 0 <= i < v.len() && is_open(#[trigger] v[i]) ==> shows_dir(held, v, i)
}

pub open spec fn shows_dir(
    held: spec_fn(Seq<char>) -> Seq<DirItem>,
    v: Seq<EntryModel>,
    i: int,
) -> bool {
    kids(v, v[i].depth, i + 1) == level_of(held(v[i].path), v[i].depth + 1)
}

/// Two lists that are the same from some place on have the same entries one deeper.
proof fn lemma_kids_shifted(v: Seq<EntryModel>, w: Seq<EntryModel>, d: int, k: int, by: int)
    requires
        0 <= k <= v.len(),
        0 <= k + by,
        v.len() + by == w.len(),
        forall|j: int| k <= j < v.len() ==> #[trigger] v[j] == w[j + by],
    ensures
        kids(w, d, k + by) == kids(v, d, k),
    decreases v.len() - k,
{
    if k < v.len() {
        assert(v[k] == w[k + by]);
        lemma_kids_shifted(v, w, d, k + 1, by);
    }
}

/// Entries that stand deeper than one below `d` do not count.
proof fn lemma_kids_deeper(v: Seq<EntryModel>, d: int, k: int, to: int)
    requires
        0 <= k <= to <= v.len(),
        forall|j: int| k <= j < to ==> (#[trigger] v[j]).depth > d + 1,
    ensures
        kids(v, d, k) == kids(v, d, to),
    decreases to - k,
{
    if k < to {
        assert(v[k].depth > d + 1);
        lemma_kids_deeper(v, d, k + 1, to);
    }
}

/// Entries that all stand one below `d`, none unfolded, count as they are.
proof fn lemma_kids_all(v: Seq<EntryModel>, d: int, k: int, to: int)
    requires
        0 <= k <= to <= v.len(),
        forall|j: int| k <= j < to ==> closed_at(#[trigger] v[j], d + 1),
        to < v.len() ==> v[to].depth <= d,
    ensures
        kids(v, d, k) == v.subrange(k, to),
    decreases to - k,
{
    if k < to {
        lemma_kids_all(v, d, k + 1, to);
        assert(closed(v[k]) == v[k]);
        assert(v.subrange(k, to) =~= seq![v[k]] + v.subrange(k + 1, to));
    } else {
        assert(v.subrange(k, to) =~= Seq::empty());
    }
}

/// Whether two trees differ in nothing but what stands below entry `i`, up to `a` in the
/// one and up to `b` in the other, and in whether it is unfolded.
spec fn alike(v: Seq<EntryModel>, w: Seq<EntryModel>, i: int, a: int, b: int) -> bool {
    &&& 0 <= i < a <= v.len()
    &&& i < b <= w.len()
    &&& v.len() - a == w.len() - b
    &&& closed(v[i]) == closed(w[i])
    &&& forall|j: int| 0 <= j < i ==> #[trigger] v[j] == w[j]
    &&& forall|j: int| i < j < a ==> (#[trigger] v[j]).depth > v[i].depth
    &&& forall|j: int| i < j < b ==> (#[trigger] w[j]).depth > v[i].depth
    &&& forall|j: int| a <= j < v.len() ==> #[trigger] v[j] == w[j + (b - a)]
}

/// The same entries stand below each directory above entry `i`.
proof fn lemma_kids_above(
    v: Seq<EntryModel>,
    w: Seq<EntryModel>,
    i: int,
    a: int,
    b: int,
    d: int,
    k: int,
)
    requires
        alike(v, w, i, a, b),
        0 <= k <= i,
    ensures
        kids(v, d, k) == kids(w, d, k),
    decreases i - k,
{
    if k < i {
        assert(v[k] == w[k]);
        lemma_kids_above(v, w, i, a, b, d, k + 1);
    } else if v[i].depth > d {
        lemma_kids_deeper(v, d, i + 1, a);
        lemma_kids_deeper(w, d, i + 1, b);
        lemma_kids_shifted(v, w, d, a, b - a);
    }
}

/// What the other directories show stays the same.
proof fn lemma_shows_elsewhere(
    held: spec_fn(Seq<char>) -> Seq<DirItem>,
    root: Seq<char>,
    v: Seq<EntryModel>,
    w: Seq<EntryModel>,
    i: int,
    a: int,
    b: int,
    j: int,
)
    requires
        alike(v, w, i, a, b),
        shows_tree(held, root, v),
        0 <= j < i || b <= j < w.len(),
        is_open(w[j]),
    ensures
        shows_dir(held, w, j),
{
    if j < i {
        assert(w[j] == v[j]);
        assert(shows_dir(held, v, j));
        lemma_kids_above(v, w, i, a, b, v[j].depth, j + 1);
    } else {
        let k = j - (b - a);
        assert(v[k] == w[k + (b - a)]);
        assert(shows_dir(held, v, k));
        lemma_kids_shifted(v, w, v[k].depth, k + 1, b - a);
    }
}

/// Unfolding a directory by what it holds keeps the entries showing the directories.
pub proof fn unfolding_shows_the_tree(
    held: spec_fn(Seq<char>) -> Seq<DirItem>,
    root: Seq<char>,
    v: Seq<EntryModel>,
    i: int,
)
    requires
        is_tree(v),
        shows_tree(held, root, v),
        0 <= i < v.len(),
    ensures
        shows_tree(held, root, unfolded(v, i, held(v[i].path))),
{
    if v[i].is_dir && !v[i].expanded {
        let d = v[i].depth;
        let c = level_of(held(v[i].path), d + 1);
        let w = unfolded(v, i, held(v[i].path));
        let (a, b) = (i + 1, i + 1 + c.len());
        lemma_level_depth(held(v[i].path), d + 1);
        assert forall|j: int| i < j < b implies closed_at(#[trigger] w[j], d + 1) by {
            assert(w[j] == c[j - i - 1]);
        }
        assert(alike(v, w, i, a, b));
        assert(tree_step(v, i));
        lemma_kids_above(v, w, i, a, b, -1, 0);
        assert forall|j: int| 0 <= j < w.len() && is_open(#[trigger] w[j]) implies shows_dir(
            held,
            w,
            j,
        ) by {
            if j < i || b <= j {
                lemma_shows_elsewhere(held, root, v, w, i, a, b, j);
            } else if j == i {
                if a < v.len() {
                    assert(tree_step(v, a));
                    assert(v[a] == w[a + (b - a)]);
                }
                lemma_kids_all(w, d, i + 1, b);
                assert(w.subrange(i + 1, b) =~= c);
            } else {
                assert(closed_at(w[j], d + 1));
            }
        }
    }
}

proof fn lemma_folded_alike(v: Seq<EntryModel>, i: int)
    requires
        0 <= i < v.len(),
    ensures
        alike(v, folded(v, i), i, subtree_end(v, v[i].depth, i + 1), i + 1),
{
    lemma_subtree_end(v, v[i].depth, i + 1);
}

/// Folding a directory keeps the entries showing the directories.
pub proof fn folding_shows_the_tree(
    held: spec_fn(Seq<char>) -> Seq<DirItem>,
    root: Seq<char>,
    v: Seq<EntryModel>,
    i: int,
)
    requires
        is_tree(v),
        shows_tree(held, root, v),
        0 <= i < v.len(),
    ensures
        shows_tree(held, root, folded(v, i)),
{
    let a = subtree_end(v, v[i].depth, i + 1);
    let w = folded(v, i);
    let b = i + 1;
    lemma_folded_alike(v, i);
    assert(tree_step(v, i));
    lemma_kids_above(v, w, i, a, b, -1, 0);
    assert forall|j: int| 0 <= j < w.len() && is_open(#[trigger] w[j]) implies shows_dir(
        held,
        w,
        j,
    ) by {
        assert(j != i);
        lemma_shows_elsewhere(held, root, v, w, i, a, b, j);
    }
}

/// A vault that was just opened shows its root.
pub proof fn opening_shows_the_tree(
    held: spec_fn(Seq<char>) -> Seq<DirItem>,
    root: Seq<char>,
)
    ensures
        shows_tree(held, root, level_of(held(root), 0)),
{
    let v = level_of(held(root), 0);
    lemma_level_depth(held(root), 0);
    lemma_kids_all(v, -1, 0, v.len() as int);
    assert(v.subrange(0, v.len() as int) =~= v);
    assert forall|i: int| 0 <= i < v.len() && is_open(#[trigger] v[i]) implies shows_dir(
        held,
        v,
        i,
    ) by {
        assert(closed_at(v[i], 0));
    }
}

// ---------- reading everything anew ----------

/// No two entries have the same path.
pub open spec fn paths_differ(v: Seq<EntryModel>) -> bool {
    forall|i: int, j: int|
        0 <= i < j < v.len() ==> (#[trigger] v[i]).path != (#[trigger] v[j]).path
}

proof fn lemma_open_dirs_same(v: Seq<EntryModel>, w: Seq<EntryModel>, n: int)
    requires
        forall|j: int| 0 <= j < n ==> #[trigger] v[j] == w[j],
    ensures
        open_dirs(v, n) == open_dirs(w, n),
    decreases n,
{
    if n > 0 {
        assert(v[n - 1] == w[n - 1]);
        lemma_open_dirs_same(v, w, n - 1);
    }
}

proof fn lemma_open_dirs_none(v: Seq<EntryModel>, k: int, n: int)
    requires
        0 <= k <= n,
        forall|j: int| k <= j < n ==> !is_open(#[trigger] v[j]),
    ensures
        open_dirs(v, n) == open_dirs(v, k),
    decreases n - k,
{
    if k < n {
        assert(!is_open(v[n - 1]));
        lemma_open_dirs_none(v, k, n - 1);
    }
}

/// The last unfolded directory among the first `n` entries.
proof fn lemma_last_open(v: Seq<EntryModel>, n: int) -> (i: int)
    requires
        open_dirs(v, n).len() > 0,
    ensures
        0 <= i < n,
        is_open(v[i]),
        forall|j: int| i < j < n ==> !is_open(#[trigger] v[j]),
        open_dirs(v, n) == open_dirs(v, i).push(v[i].path),
    decreases n,
{
    if is_open(v[n - 1]) {
        n - 1
    } else {
        lemma_last_open(v, n - 1)
    }
}

proof fn lemma_no_open_dirs(v: Seq<EntryModel>, n: int, k: int)
    requires
        open_dirs(v, n).len() == 0,
        0 <= k < n,
    ensures
        !is_open(v[k]),
    decreases n,
{
    if k < n - 1 {
        lemma_no_open_dirs(v, n - 1, k);
    }
}

proof fn lemma_unfolded_all_same(
    v: Seq<EntryModel>,
    a: Seq<Seq<char>>,
    b: Seq<Seq<char>>,
    levels: Seq<Vec<DirItem>>,
    n: int,
)
    requires
        forall|k: int| 0 <= k < n ==> #[trigger] a[k] == b[k],
    ensures
        unfolded_all(v, a, levels, n) == unfolded_all(v, b, levels, n),
    decreases n,
{
    if n > 0 {
        assert(a[n - 1] == b[n - 1]);
        lemma_unfolded_all_same(v, a, b, levels, n - 1);
    }
}

pub proof fn lemma_entry_at_is(v: Seq<EntryModel>, path: Seq<char>, k: int, i: int)
    requires
        0 <= k <= i < v.len(),
        v[i].path == path,
        forall|j: int| k <= j < i ==> (#[trigger] v[j]).path != path,
    ensures
        entry_at(v, path, k) == Some(i),
    decreases i - k,
{
    if k < i {
        assert(v[k].path != path);
        lemma_entry_at_is(v, path, k + 1, i);
    }
}

/// Behind the last unfolded directory stands what it holds, and nothing deeper.
proof fn lemma_last_level(v: Seq<EntryModel>, i: int, k: int)
    requires
        is_tree(v),
        0 <= i < k < subtree_end(v, v[i].depth, i + 1),
        forall|j: int| i < j < v.len() ==> !is_open(#[trigger] v[j]),
    ensures
        k < v.len(),
        closed_at(v[k], v[i].depth + 1),
    decreases k - i,
{
    lemma_subtree_end(v, v[i].depth, i + 1);
    assert(tree_step(v, k));
    assert(!is_open(v[k]));
    assert(v[k].depth > v[i].depth);
    if k > i + 1 {
        lemma_last_level(v, i, k - 1);
        assert(!is_open(v[k - 1]));
    }
}

proof fn lemma_folded_paths(v: Seq<EntryModel>, i: int)
    requires
        paths_differ(v),
        0 <= i < v.len(),
    ensures
        paths_differ(folded(v, i)),
{
    let w = folded(v, i);
    let a = subtree_end(v, v[i].depth, i + 1);
    lemma_folded_alike(v, i);
    assert forall|j: int, k: int| 0 <= j < k < w.len() implies (#[trigger] w[j]).path != (
    #[trigger] w[k]).path by {
        let jj = if j <= i {
            j
        } else {
            j + (a - (i + 1))
        };
        let kk = if k <= i {
            k
        } else {
            k + (a - (i + 1))
        };
        assert(v[jj].path == w[j].path);
        assert(v[kk].path == w[k].path);
    }
}

/// Reading everything anew while nothing has changed keeps the entries, with whatever is
/// unfolded. The directories are read in the order in which they stand there.
pub proof fn reloading_changes_nothing(
    held: spec_fn(Seq<char>) -> Seq<DirItem>,
    root: Seq<char>,
    v: Seq<EntryModel>,
    levels: Seq<Vec<DirItem>>,
)
    requires
        is_tree(v),
        shows_tree(held, root, v),
        paths_differ(v),
        forall|k: int|
            0 <= k < open_dirs(v, v.len() as int).len() ==> #[trigger] level_at(levels, k) == held(
                open_dirs(v, v.len() as int)[k],
            ),
    ensures
        unfolded_all(
            level_of(held(root), 0),
            open_dirs(v, v.len() as int),
            levels,
            open_dirs(v, v.len() as int).len() as int,
        ) == v,
    decreases open_dirs(v, v.len() as int).len(),
{
    let n = v.len() as int;
    let dirs = open_dirs(v, n);
    let v0 = level_of(held(root), 0);
    if dirs.len() == 0 {
        assert forall|k: int| 0 <= k < n implies closed_at(#[trigger] v[k], 0) by {
            lemma_flat(v, k);
        }
        lemma_kids_all(v, -1, 0, n);
        assert(v.subrange(0, n) =~= v);
    } else {
        let i = lemma_last_open(v, n);
        let d = v[i].depth;
        let a = subtree_end(v, d, i + 1);
        let w = folded(v, i);
        lemma_subtree_end(v, d, i + 1);
        lemma_folded_alike(v, i);
        folding_keeps_the_tree(v, i);
        folding_shows_the_tree(held, root, v, i);
        lemma_folded_paths(v, i);
        assert forall|j: int| i <= j < w.len() implies !is_open(#[trigger] w[j]) by {
            if j > i {
                let jj = j + (a - (i + 1));
                assert(v[jj] == w[jj + ((i + 1) - a)]);
            }
        }
        lemma_open_dirs_none(w, i, w.len() as int);
        lemma_open_dirs_same(v, w, i);
        let front = open_dirs(w, w.len() as int);
        assert(dirs == front.push(v[i].path));
        assert forall|k: int| 0 <= k < front.len() implies #[trigger] level_at(levels, k) == held(
            front[k],
        ) by {
            assert(front[k] == dirs[k]);
        }
        reloading_changes_nothing(held, root, w, levels);
        lemma_unfolded_all_same(v0, dirs, front, levels, front.len() as int);
        assert forall|j: int| 0 <= j < i implies (#[trigger] w[j]).path != v[i].path by {
            assert(v[j].path != v[i].path);
        }
        lemma_entry_at_is(w, v[i].path, 0, i);
        assert forall|k: int| i + 1 <= k < a implies closed_at(#[trigger] v[k], d + 1) by {
            lemma_last_level(v, i, k);
        }
        lemma_kids_all(v, d, i + 1, a);
        assert(shows_dir(held, v, i));
        assert(level_at(levels, front.len() as int) == held(dirs[front.len() as int]));
        let c = level_of(held(v[i].path), d + 1);
        assert(v.subrange(i + 1, a) == c);
        assert(unfolded(w, i, held(v[i].path)) =~= v);
    }
}

proof fn lemma_flat(v: Seq<EntryModel>, k: int)
    requires
        is_tree(v),
        open_dirs(v, v.len() as int).len() == 0,
        0 <= k < v.len(),
    ensures
        closed_at(v[k], 0),
    decreases k,
{
    assert(tree_step(v, k));
    lemma_no_open_dirs(v, v.len() as int, k);
    if k > 0 {
        lemma_flat(v, k - 1);
        lemma_no_open_dirs(v, v.len() as int, k - 1);
    }
}

/// Unfolding adds folded entries, and unfolds no other than the one that it is told to.
proof fn lemma_unfolded_opens(v: Seq<EntryModel>, i: int, items: Seq<DirItem>, k: int)
    requires
        0 <= i < v.len(),
        0 <= k < unfolded(v, i, items).len(),
        is_open(unfolded(v, i, items)[k]),
    ensures
        unfolded(v, i, items)[k].path == v[i].path || v.contains(unfolded(v, i, items)[k]),
{
    let w = unfolded(v, i, items);
    if v[i].is_dir && !v[i].expanded {
        let c = level_of(items, v[i].depth + 1);
        lemma_level_depth(items, v[i].depth + 1);
        if k < i {
            assert(w[k] == v[k]);
        } else if i < k <= i + c.len() {
            assert(w[k] == c[k - i - 1]);
        } else if k > i {
            assert(w[k] == v[k - c.len()]);
        }
    }
}

/// Whatever is unfolded when everything was read anew was unfolded before: what is new, and
/// what was folded, is folded.
pub proof fn reloading_unfolds_nothing_new(
    items: Seq<DirItem>,
    dirs: Seq<Seq<char>>,
    levels: Seq<Vec<DirItem>>,
    n: int,
)
    requires
        0 <= n <= dirs.len(),
    ensures
        forall|k: int|
            0 <= k < unfolded_all(level_of(items, 0), dirs, levels, n).len() && is_open(
                #[trigger] unfolded_all(level_of(items, 0), dirs, levels, n)[k],
            ) ==> dirs.contains(unfolded_all(level_of(items, 0), dirs, levels, n)[k].path),
    decreases n,
{
    let v0 = level_of(items, 0);
    let r = unfolded_all(v0, dirs, levels, n);
    if n == 0 {
        lemma_level_depth(items, 0);
    } else {
        reloading_unfolds_nothing_new(items, dirs, levels, n - 1);
        let w = unfolded_all(v0, dirs, levels, n - 1);
        lemma_entry_at(w, dirs[n - 1], 0);
        match entry_at(w, dirs[n - 1], 0) {
            Some(i) => {
                assert forall|k: int| 0 <= k < r.len() && is_open(
                    #[trigger] r[k],
                ) implies dirs.contains(r[k].path) by {
                    lemma_unfolded_opens(w, i, level_at(levels, n - 1), k);
                    if r[k].path == w[i].path {
                        assert(dirs[n - 1] == r[k].path);
                    } else {
                        let j = choose|j: int| 0 <= j < w.len() && w[j] == r[k];
                        assert(is_open(w[j]));
                    }
                }
            },
            None => {},
        }
    }
}

pub proof fn lemma_entry_at(v: Seq<EntryModel>, path: Seq<char>, k: int)
    requires
        0 <= k <= v.len(),
    ensures
        match entry_at(v, path, k) {
            Some(i) => k <= i < v.len() && v[i].path == path && forall|j: int|
                k <= j < i ==> (#[trigger] v[j]).path != path,
            None => forall|j: int| k <= j < v.len() ==> (#[trigger] v[j]).path != path,
        },
    decreases v.len() - k,
{
    if k < v.len() && v[k].path != path {
        lemma_entry_at(v, path, k + 1);
    }
}

/// Whether none of these items stands at the path.
pub open spec fn lists_not(items: Seq<DirItem>, path: Seq<char>) -> bool {
    forall|t: int| 0 <= t < items.len() ==> (#[trigger] items[t]).path@ != path
}

proof fn lemma_listed_not(items: Seq<DirItem>, dirs: bool, depth: int, n: int, path: Seq<char>)
    requires
        0 <= n <= items.len(),
        lists_not(items, path),
    ensures
        forall|k: int|
            0 <= k < listed(items, dirs, depth, n).len() ==> (#[trigger] listed(
                items,
                dirs,
                depth,
                n,
            )[k]).path != path,
    decreases n,
{
    if n > 0 {
        lemma_listed_not(items, dirs, depth, n - 1, path);
        assert(items[n - 1].path@ != path);
        let rest = listed(items, dirs, depth, n - 1);
        assert forall|k: int| 0 <= k < listed(items, dirs, depth, n).len() implies (
        #[trigger] listed(items, dirs, depth, n)[k]).path != path by {
            if k < rest.len() {
                assert(listed(items, dirs, depth, n)[k] == rest[k]);
            }
        }
    }
}

proof fn lemma_by_name_not(v: Seq<EntryModel>, path: Seq<char>)
    requires
        forall|k: int| 0 <= k < v.len() ==> (#[trigger] v[k]).path != path,
    ensures
        forall|k: int| 0 <= k < by_name(v).len() ==> (#[trigger] by_name(v)[k]).path != path,
{
    stable_order_sorts(name_keys(v));
    assert forall|k: int| 0 <= k < by_name(v).len() implies (#[trigger] by_name(v)[k]).path
        != path by {
        assert(by_name(v)[k] == v[stable_order(name_keys(v))[k]]);
    }
}

proof fn lemma_level_not(items: Seq<DirItem>, depth: int, path: Seq<char>)
    requires
        lists_not(items, path),
    ensures
        forall|k: int|
            0 <= k < level_of(items, depth).len() ==> (#[trigger] level_of(items, depth)[k]).path
                != path,
{
    let n = items.len() as int;
    lemma_listed_not(items, true, depth, n, path);
    lemma_listed_not(items, false, depth, n, path);
    lemma_by_name_not(listed(items, true, depth, n), path);
    lemma_by_name_not(listed(items, false, depth, n), path);
    let a = by_name(listed(items, true, depth, n));
    let b = by_name(listed(items, false, depth, n));
    assert forall|k: int| 0 <= k < (a + b).len() implies (#[trigger] (a + b)[k]).path != path by {
        if k < a.len() {
            assert((a + b)[k] == a[k]);
        } else {
            assert((a + b)[k] == b[k - a.len()]);
        }
    }
}

/// Whether the first entry at a path, if it is a directory, is unfolded.
pub open spec fn unfolded_at(v: Seq<EntryModel>, path: Seq<char>) -> bool {
    match entry_at(v, path, 0) {
        Some(i) => v[i].is_dir ==> v[i].expanded,
        None => true,
    }
}

/// Unfolding another directory, which does not hold this one, changes nothing about it.
proof fn lemma_stays_unfolded(v: Seq<EntryModel>, i: int, items: Seq<DirItem>, path: Seq<char>)
    requires
        0 <= i < v.len(),
        lists_not(items, path),
        unfolded_at(v, path),
    ensures
        unfolded_at(unfolded(v, i, items), path),
{
    let w = unfolded(v, i, items);
    if v[i].is_dir && !v[i].expanded {
        let c = level_of(items, v[i].depth + 1);
        lemma_level_not(items, v[i].depth + 1, path);
        lemma_entry_at(v, path, 0);
        lemma_entry_at(w, path, 0);
        match entry_at(w, path, 0) {
            Some(k) => {
                if k < i {
                    assert(w[k] == v[k]);
                    lemma_entry_before(v, w, path, k, k);
                    lemma_entry_at_is(v, path, 0, k);
                } else if i < k <= i + c.len() {
                    assert(w[k] == c[k - i - 1]);
                } else if k > i {
                    let j = k - c.len();
                    assert(w[k] == v[j]);
                    assert forall|t: int| 0 <= t < j implies (#[trigger] v[t]).path != path by {
                        if t <= i {
                            assert(w[t].path != path);
                        } else {
                            assert(w[t + c.len()].path != path);
                        }
                    }
                    lemma_entry_at_is(v, path, 0, j);
                }
            },
            None => {},
        }
    }
}

proof fn lemma_entry_before(
    v: Seq<EntryModel>,
    w: Seq<EntryModel>,
    path: Seq<char>,
    k: int,
    n: int,
)
    requires
        0 <= n <= k < v.len(),
        k < w.len(),
        forall|j: int| 0 <= j < k ==> #[trigger] v[j] == w[j],
        forall|j: int| 0 <= j < k ==> (#[trigger] w[j]).path != path,
    ensures
        forall|j: int| 0 <= j < n ==> (#[trigger] v[j]).path != path,
{
    assert forall|j: int| 0 <= j < n implies (#[trigger] v[j]).path != path by {
        assert(w[j].path != path);
    }
}

/// A directory that was unfolded and is still listed is unfolded when everything was read
/// anew, if none that is read after it lists it.
pub proof fn reloading_keeps_unfolded(
    items: Seq<DirItem>,
    dirs: Seq<Seq<char>>,
    levels: Seq<Vec<DirItem>>,
    m: int,
    n: int,
)
    requires
        0 <= m < n <= dirs.len(),
        forall|j: int| m <= j < n ==> lists_not(#[trigger] level_at(levels, j), dirs[m]),
    ensures
        unfolded_at(unfolded_all(level_of(items, 0), dirs, levels, n), dirs[m]),
    decreases n,
{
    let v0 = level_of(items, 0);
    let w = unfolded_all(v0, dirs, levels, n - 1);
    let read = level_at(levels, n - 1);
    lemma_entry_at(w, dirs[n - 1], 0);
    match entry_at(w, dirs[n - 1], 0) {
        Some(i) => {
            if n - 1 == m {
                let r = unfolded(w, i, read);
                assert forall|j: int| 0 <= j < i implies (#[trigger] r[j]).path != dirs[m] by {
                    assert(w[j].path != dirs[m]);
                }
                lemma_entry_at_is(r, dirs[m], 0, i);
            } else {
                reloading_keeps_unfolded(items, dirs, levels, m, n - 1);
                lemma_stays_unfolded(w, i, read, dirs[m]);
            }
        },
        None => {
            if n - 1 > m {
                reloading_keeps_unfolded(items, dirs, levels, m, n - 1);
            }
        },
    }
}

// ---------- walking through all notes ----------

/// The notes among the items from `k` on of a directory, which lies `depth` levels below
/// the root, and of the directories below, in order.
pub open spec fn notes_below(
    held: spec_fn(Seq<char>) -> Seq<DirItem>,
    items: Seq<DirItem>,
    depth: int,
    k: int,
) -> Seq<Seq<char>>
    decreases WALK_DEPTH - depth, items.len() - k,
{
    if k < 0 || k >= items.len() {
        Seq::empty()
    } else if is_listed(items[k], false) {
        seq![items[k].path@] + notes_below(held, items, depth, k + 1)
    } else if is_listed(items[k], true) && depth < WALK_DEPTH {
        notes_below(held, held(items[k].path@), depth + 1, 0) + notes_below(
            held,
            items,
            depth,
            k + 1,
        )
    } else {
        notes_below(held, items, depth, k + 1)
    }
}

/// The notes that a stop leads to.
pub open spec fn stop_notes(held: spec_fn(Seq<char>) -> Seq<DirItem>, s: StopModel) -> Seq<
    Seq<char>,
> {
    match s {
        StopModel::Dir(p, d) => notes_below(held, held(p), d, 0),
        StopModel::Note(p) => seq![p],
    }
}

/// The notes that the stops lead to, the last one first.
pub open spec fn notes_ahead(
    held: spec_fn(Seq<char>) -> Seq<DirItem>,
    todo: Seq<StopModel>,
) -> Seq<Seq<char>>
    decreases todo.len(),
{
    if todo.len() == 0 {
        Seq::empty()
    } else {
        stop_notes(held, todo.last()) + notes_ahead(held, todo.drop_last())
    }
}

/// The notes that a walk has found and those that it will find.
pub open spec fn walk_total(held: spec_fn(Seq<char>) -> Seq<DirItem>, w: WalkModel) -> Seq<
    Seq<char>,
> {
    w.notes + notes_ahead(held, w.todo)
}

/// One round of a walk: the notes on the way, and a directory, if there is one left.
pub open spec fn walk_step(held: spec_fn(Seq<char>) -> Seq<DirItem>, w: WalkModel) -> WalkModel {
    let s = notes_taken(w);
    if s.todo.len() == 0 {
        s
    } else {
        match s.todo.last() {
            StopModel::Dir(p, d) => dir_taken(
                WalkModel { todo: s.todo.drop_last(), ..s },
                d,
                held(p),
            ),
            StopModel::Note(_) => s,
        }
    }
}

/// A walk after so many rounds.
pub open spec fn walk_after(
    held: spec_fn(Seq<char>) -> Seq<DirItem>,
    root: Seq<char>,
    n: nat,
) -> WalkModel
    decreases n,
{
    if n == 0 {
        walk_start(root)
    } else {
        walk_step(held, walk_after(held, root, (n - 1) as nat))
    }
}

proof fn lemma_notes_taken_total(held: spec_fn(Seq<char>) -> Seq<DirItem>, w: WalkModel)
    ensures
        walk_total(held, notes_taken(w)) == walk_total(held, w),
    decreases w.todo.len(),
{
    if w.todo.len() > 0 {
        match w.todo.last() {
            StopModel::Note(p) => {
                let u = WalkModel { todo: w.todo.drop_last(), notes: w.notes.push(p) };
                lemma_notes_taken_total(held, u);
                let rest = notes_ahead(held, u.todo);
                assert(w.notes.push(p) + rest =~= w.notes + (seq![p] + rest));
            },
            StopModel::Dir(_, _) => {},
        }
    }
}

proof fn lemma_ahead_put(
    held: spec_fn(Seq<char>) -> Seq<DirItem>,
    todo: Seq<StopModel>,
    items: Seq<DirItem>,
    depth: int,
    k: int,
)
    requires
        0 <= k <= items.len(),
    ensures
        notes_ahead(held, todo + stops_from(items, depth, k)) == notes_below(
            held,
            items,
            depth,
            k,
        ) + notes_ahead(held, todo),
    decreases items.len() - k,
{
    let all = todo + stops_from(items, depth, k);
    if k == items.len() {
        assert(all =~= todo);
        assert(notes_below(held, items, depth, k) + notes_ahead(held, todo) =~= notes_ahead(
            held,
            todo,
        ));
    } else {
        lemma_ahead_put(held, todo, items, depth, k + 1);
        let later = todo + stops_from(items, depth, k + 1);
        let stop = stop_of(items[k], depth);
        assert(all =~= later + stop);
        if stop.len() == 0 {
            assert(all =~= later);
        } else {
            assert(all.drop_last() =~= later);
            assert(all.last() == stop[0]);
            let a = stop_notes(held, stop[0]);
            let b = notes_below(held, items, depth, k + 1);
            let c = notes_ahead(held, todo);
            assert(a + (b + c) =~= (a + b) + c);
        }
    }
}

proof fn lemma_walk_step_total(held: spec_fn(Seq<char>) -> Seq<DirItem>, w: WalkModel)
    ensures
        walk_total(held, walk_step(held, w)) == walk_total(held, w),
{
    lemma_notes_taken_total(held, w);
    let s = notes_taken(w);
    if s.todo.len() > 0 {
        match s.todo.last() {
            StopModel::Dir(p, d) => {
                lemma_ahead_put(held, s.todo.drop_last(), held(p), d, 0);
            },
            StopModel::Note(_) => {},
        }
    }
}

/// However many rounds a walk has made, what it has found and what is ahead are all notes
/// below the root, in order. At its end it has found them all.
pub proof fn walks_find_all_notes(
    held: spec_fn(Seq<char>) -> Seq<DirItem>,
    root: Seq<char>,
    n: nat,
)
    ensures
        walk_total(held, walk_after(held, root, n)) == notes_below(held, held(root), 0, 0),
        walk_after(held, root, n).todo.len() == 0 ==> walk_after(held, root, n).notes
            == notes_below(held, held(root), 0, 0),
    decreases n,
{
    let w = walk_after(held, root, n);
    let all = notes_below(held, held(root), 0, 0);
    if n == 0 {
        assert(w.todo.drop_last() =~= Seq::<StopModel>::empty());
        assert(notes_ahead(held, w.todo.drop_last()) =~= Seq::empty());
        assert(w.notes + (all + Seq::empty()) =~= all);
        assert(notes_ahead(held, w.todo) =~= all);
    } else {
        walks_find_all_notes(held, root, (n - 1) as nat);
        lemma_walk_step_total(held, walk_after(held, root, (n - 1) as nat));
    }
    if w.todo.len() == 0 {
        assert(w.notes + notes_ahead(held, w.todo) =~= w.notes);
    }
}

/// How many directories are to be read below the items from `k` on.
pub open spec fn dirs_below(
    held: spec_fn(Seq<char>) -> Seq<DirItem>,
    items: Seq<DirItem>,
    depth: int,
    k: int,
) -> nat
    decreases WALK_DEPTH - depth, items.len() - k,
{
    if k < 0 || k >= items.len() {
        0
    } else if !is_listed(items[k], false) && is_listed(items[k], true) && depth < WALK_DEPTH {
        1 + dirs_below(held, held(items[k].path@), depth + 1, 0) + dirs_below(
            held,
            items,
            depth,
            k + 1,
        )
    } else {
        dirs_below(held, items, depth, k + 1)
    }
}

/// How many directories a walk still has to read.
pub open spec fn dirs_ahead(
    held: spec_fn(Seq<char>) -> Seq<DirItem>,
    todo: Seq<StopModel>,
) -> nat
    decreases todo.len(),
{
    if todo.len() == 0 {
        0
    } else {
        dirs_ahead(held, todo.drop_last()) + match todo.last() {
            StopModel::Dir(p, d) => 1 + dirs_below(held, held(p), d, 0),
            StopModel::Note(_) => 0,
        }
    }
}

proof fn lemma_dirs_put(
    held: spec_fn(Seq<char>) -> Seq<DirItem>,
    todo: Seq<StopModel>,
    items: Seq<DirItem>,
    depth: int,
    k: int,
)
    requires
        0 <= k <= items.len(),
    ensures
        dirs_ahead(held, todo + stops_from(items, depth, k)) == dirs_below(held, items, depth, k)
            + dirs_ahead(held, todo),
    decreases items.len() - k,
{
    let all = todo + stops_from(items, depth, k);
    if k == items.len() {
        assert(all =~= todo);
    } else {
        lemma_dirs_put(held, todo, items, depth, k + 1);
        let later = todo + stops_from(items, depth, k + 1);
        let stop = stop_of(items[k], depth);
        assert(all =~= later + stop);
        if stop.len() == 0 {
            assert(all =~= later);
        } else {
            assert(all.drop_last() =~= later);
            assert(all.last() == stop[0]);
        }
    }
}

proof fn lemma_notes_taken_dirs(held: spec_fn(Seq<char>) -> Seq<DirItem>, w: WalkModel)
    ensures
        dirs_ahead(held, notes_taken(w).todo) == dirs_ahead(held, w.todo),
        dirs_ahead(held, w.todo) == 0 ==> notes_taken(w).todo.len() == 0,
        notes_taken(w).todo.len() > 0 ==> notes_taken(w).todo.last() is Dir,
    decreases w.todo.len(),
{
    if w.todo.len() > 0 {
        match w.todo.last() {
            StopModel::Note(p) => {
                let u = WalkModel { todo: w.todo.drop_last(), notes: w.notes.push(p) };
                lemma_notes_taken_dirs(held, u);
            },
            StopModel::Dir(_, _) => {},
        }
    }
}

proof fn lemma_walk_step_dirs(held: spec_fn(Seq<char>) -> Seq<DirItem>, w: WalkModel)
    ensures
        dirs_ahead(held, w.todo) > 0 ==> dirs_ahead(held, walk_step(held, w).todo) == dirs_ahead(
            held,
            w.todo,
        ) - 1,
        dirs_ahead(held, w.todo) == 0 ==> walk_step(held, w).todo.len() == 0,
{
    lemma_notes_taken_dirs(held, w);
    let s = notes_taken(w);
    if s.todo.len() > 0 {
        match s.todo.last() {
            StopModel::Dir(p, d) => {
                lemma_dirs_put(held, s.todo.drop_last(), held(p), d, 0);
            },
            StopModel::Note(_) => {},
        }
    }
}

proof fn lemma_walk_shrinks(held: spec_fn(Seq<char>) -> Seq<DirItem>, root: Seq<char>, n: nat)
    requires
        n <= dirs_ahead(held, walk_start(root).todo),
    ensures
        dirs_ahead(held, walk_after(held, root, n).todo) == dirs_ahead(
            held,
            walk_start(root).todo,
        ) - n,
    decreases n,
{
    if n > 0 {
        lemma_walk_shrinks(held, root, (n - 1) as nat);
        lemma_walk_step_dirs(held, walk_after(held, root, (n - 1) as nat));
    }
}

/// Every walk ends, after one round for each directory and one more; and then it has found
/// all notes.
pub proof fn walks_end(held: spec_fn(Seq<char>) -> Seq<DirItem>, root: Seq<char>)
    ensures
        ({
            let n = dirs_ahead(held, walk_start(root).todo) + 1;
            let w = walk_after(held, root, n);
            &&& w.todo.len() == 0
            &&& w.notes == notes_below(held, held(root), 0, 0)
        }),
{
    let n = dirs_ahead(held, walk_start(root).todo);
    lemma_walk_shrinks(held, root, n);
    lemma_walk_step_dirs(held, walk_after(held, root, n));
    walks_find_all_notes(held, root, n + 1);
}

} // verus!
