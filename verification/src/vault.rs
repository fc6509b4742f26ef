//! A vault: the tree of notes below a directory, as far as it is unfolded.
//!
//! Directories are read by the caller, one level at a time, when they unfold.
use crate::index::{holds_text, is_note_extension};
use crate::paths::{
    extension, extension_of_path, file_stem, file_stem_of, join_path, joined, lemma_extension_put,
    lemma_joined_name,
};
use crate::sorting::{int_indices, sort_order, stable_order, stable_order_sorts, vec_keys};
use crate::template::{
    load_all, templates_model, templates_of, Template, TemplateFile,
};
use crate::text::{
    chars_of, digits_of, extend, extend_str, lemma_digits, lemma_digits_differ, lowercase, same_text, string_of,
    texts, trim, trim_chars, wide_number_chars,
};
use vstd::prelude::*;

verus! {

/// Whether a path has the extension of a note file.
pub open spec fn is_note(path: Seq<char>) -> bool {
    match extension(path) {
        Some(e) => is_note_extension(e),
        None => false,
    }
}

pub fn is_note_path(path: &str) -> (r: bool)
    ensures
        r == is_note(path@),
{
    match extension_of_path(path) {
        Some(e) => crate::index::note_extension(e.as_slice()),
        None => false,
    }
}

/// A line of the tree.
#[derive(Clone, Debug, PartialEq, Eq)]
pub struct Entry {
    pub path: String,
    pub name: String,
    pub is_dir: bool,
    /// Whether a directory is unfolded.
    pub expanded: bool,
    /// How deep it stands; zero right below the root.
    pub depth: usize,
}

pub struct EntryModel {
    pub path: Seq<char>,
    pub name: Seq<char>,
    pub is_dir: bool,
    pub expanded: bool,
    pub depth: int,
}

impl View for Entry {
    type V = EntryModel;

    open spec fn view(&self) -> EntryModel {
        EntryModel {
            path: self.path@,
            name: self.name@,
            is_dir: self.is_dir,
            expanded: self.expanded,
            depth: self.depth as int,
        }
    }
}

impl Entry {
    pub fn is_note(&self) -> (r: bool)
        ensures
            r == (!self@.is_dir && is_note(self@.path)),
    {
        !self.is_dir && is_note_path(&self.path)
    }
}

pub open spec fn entries_model(v: Seq<Entry>) -> Seq<EntryModel> {
    v.map_values(|e: Entry| e@)
}

/// What a directory holds, as it was read.
#[derive(Clone, Debug)]
pub struct DirItem {
    pub path: String,
    pub name: String,
    pub is_dir: bool,
}

/// Names that are passed over: hidden ones, and those of build directories.
pub open spec fn is_hidden(name: Seq<char>) -> bool {
    (name.len() > 0 && name[0] == '.') || name == "node_modules"@ || name == "target"@
}

fn hidden(name: &str) -> (r: bool)
    ensures
        r == is_hidden(name@),
{
    let cs: Vec<char> = chars_of(name);
    (cs.len() > 0 && cs[0] == '.') || same_text(name, "node_modules") || same_text(name, "target")
}

/// What is listed of a directory: its directories, or its notes.
pub open spec fn is_listed(item: DirItem, dirs: bool) -> bool {
    !is_hidden(item.name@) && item.is_dir == dirs && (dirs || is_note(item.path@))
}

pub open spec fn entry_of(item: DirItem, depth: int) -> EntryModel {
    EntryModel {
        path: item.path@,
        name: item.name@,
        is_dir: item.is_dir,
        expanded: false,
        depth,
    }
}

/// The directories, or the notes, among the first `n` items.
pub open spec fn listed(items: Seq<DirItem>, dirs: bool, depth: int, n: int) -> Seq<EntryModel>
    decreases n,
{
    if n <= 0 {
        Seq::empty()
    } else {
        let rest = listed(items, dirs, depth, n - 1);
        if is_listed(items[n - 1], dirs) {
            rest.push(entry_of(items[n - 1], depth))
        } else {
            rest
        }
    }
}

/// The names that entries are sorted by.
pub open spec fn name_keys(v: Seq<EntryModel>) -> Seq<Seq<char>> {
    v.map_values(|e: EntryModel| lowercase(e.name))
}

/// Entries in the order of their names, whatever the case of the letters.
pub open spec fn by_name(v: Seq<EntryModel>) -> Seq<EntryModel> {
    stable_order(name_keys(v)).map_values(|i: int| v[i])
}

/// The entries of a directory: directories first, then notes, each by name.
pub open spec fn level_of(items: Seq<DirItem>, depth: int) -> Seq<EntryModel> {
    by_name(listed(items, true, depth, items.len() as int)) + by_name(
        listed(items, false, depth, items.len() as int),
    )
}

/// The directories, or the notes, among the items.
fn list_items(items: &Vec<DirItem>, dirs: bool, depth: usize) -> (r: Vec<Entry>)
    ensures
        entries_model(r@) == listed(items@, dirs, depth as int, items@.len() as int),
{
    let mut out: Vec<Entry> = Vec::new();
    let mut k: usize = 0;
    proof {
        assert(entries_model(out@) =~= listed(items@, dirs, depth as int, 0));
    }
    while k < items.len()
        invariant
            0 <= k <= items@.len(),
            entries_model(out@) == listed(items@, dirs, depth as int, k as int),
        decreases items@.len() - k,
    {
        let it: &DirItem = &items[k];
        if !hidden(&it.name) && it.is_dir == dirs && (dirs || is_note_path(&it.path)) {
            let ghost before = out@;
            let e = Entry {
                path: it.path.clone(),
                name: it.name.clone(),
                is_dir: it.is_dir,
                expanded: false,
                depth,
            };
            let ghost em = e@;
            out.push(e);
            proof {
                assert(entries_model(out@) =~= entries_model(before).push(em));
            }
        }
        k = k + 1;
    }
    out
}

fn copy_entry(e: &Entry) -> (r: Entry)
    ensures
        r@ == e@,
{
    Entry {
        path: e.path.clone(),
        name: e.name.clone(),
        is_dir: e.is_dir,
        expanded: e.expanded,
        depth: e.depth,
    }
}

/// Appends entries in the order of their names.
fn push_by_name(out: &mut Vec<Entry>, v: &Vec<Entry>)
    ensures
        entries_model(final(out)@) == entries_model(old(out)@) + by_name(entries_model(v@)),
{
    let ghost em = entries_model(v@);
    let mut keys: Vec<Vec<char>> = Vec::new();
    let mut k: usize = 0;
    while k < v.len()
        invariant
            0 <= k <= v@.len(),
            em == entries_model(v@),
            vec_keys(keys@) == name_keys(em).take(k as int),
        decreases v@.len() - k,
    {
        let ghost before = keys@;
        let key: Vec<char> = chars_of(&v[k].name.to_lowercase());
        let ghost km = key@;
        keys.push(key);
        proof {
            assert(em[k as int] == v@[k as int]@);
            assert(vec_keys(keys@) =~= vec_keys(before).push(km));
            assert(name_keys(em).take(k + 1) =~= name_keys(em).take(k as int).push(km));
        }
        k = k + 1;
    }
    proof {
        assert(name_keys(em).take(k as int) =~= name_keys(em));
    }
    let order: Vec<usize> = sort_order(&keys);
    let ghost os = stable_order(name_keys(em));
    let ghost sorted = by_name(em);
    let mut j: usize = 0;
    proof {
        assert(vec_keys(keys@).len() == keys@.len());
        assert(entries_model(out@) =~= entries_model(out@) + sorted.take(0));
        assert(int_indices(order@).len() == order@.len());
    }
    while j < order.len()
        invariant
            0 <= j <= order@.len(),
            em == entries_model(v@),
            os == stable_order(name_keys(em)),
            int_indices(order@) == os,
            sorted == by_name(em),
            sorted.len() == order@.len(),
            keys@.len() == v@.len(),
            forall|k: int| 0 <= k < order@.len() ==> #[trigger] order@[k] < keys@.len(),
            entries_model(out@) == entries_model(old(out)@) + sorted.take(j as int),
        decreases order@.len() - j,
    {
        let i: usize = order[j];
        let ghost before = out@;
        let e: Entry = copy_entry(&v[i]);
        let ghost x = e@;
        out.push(e);
        proof {
            assert(os[j as int] == i as int);
            assert(sorted[j as int] == em[i as int]);
            assert(em[i as int] == v@[i as int]@);
            assert(entries_model(out@) =~= entries_model(before).push(x));
            assert(entries_model(out@) =~= entries_model(old(out)@) + sorted.take(j + 1));
        }
        j = j + 1;
    }
    proof {
        assert(sorted.take(j as int) =~= sorted);
    }
}

/// The entries of a directory: directories first, then notes, each by name.
pub fn read_level(items: &Vec<DirItem>, depth: usize) -> (r: Vec<Entry>)
    ensures
        entries_model(r@) == level_of(items@, depth as int),
{
    let dirs: Vec<Entry> = list_items(items, true, depth);
    let files: Vec<Entry> = list_items(items, false, depth);
    let mut out: Vec<Entry> = Vec::new();
    push_by_name(&mut out, &dirs);
    proof {
        let d = by_name(entries_model(dirs@));
        assert(Seq::<EntryModel>::empty() + d =~= d);
    }
    push_by_name(&mut out, &files);
    out
}

// ---------- the tree ----------

/// Whether an entry is an unfolded directory.
pub open spec fn is_open(e: EntryModel) -> bool {
    e.is_dir && e.expanded
}

/// Entry `k` stands at most one deeper than the one above it, and no deeper unless that is
/// an unfolded directory; the first stands at depth zero. Only directories are unfolded.
pub open spec fn tree_step(v: Seq<EntryModel>, k: int) -> bool {
    &&& 0 <= v[k].depth <= if k == 0 {
        0
    } else if is_open(v[k - 1]) {
        v[k - 1].depth + 1
    } else {
        v[k - 1].depth
    }
    &&& v[k].expanded ==> v[k].is_dir
}

/// The tree starts at depth zero, and what stands deeper stands behind an unfolded
/// directory.
pub open spec fn is_tree(v: Seq<EntryModel>) -> bool {
    forall|k: int| 0 <= k < v.len() ==> #[trigger] tree_step(v, k)
}

/// The first entry from `i` on that stands no deeper than `depth`.
pub open spec fn subtree_end(v: Seq<EntryModel>, depth: int, i: int) -> int
    decreases v.len() - i,
{
    if 0 <= i < v.len() && v[i].depth > depth {
        subtree_end(v, depth, i + 1)
    } else {
        i
    }
}

/// The tree with the directory at `i` unfolded.
pub open spec fn unfolded(v: Seq<EntryModel>, i: int, items: Seq<DirItem>) -> Seq<EntryModel> {
    if 0 <= i < v.len() && v[i].is_dir && !v[i].expanded {
        v.take(i).push(EntryModel { expanded: true, ..v[i] }) + level_of(items, v[i].depth + 1)
            + v.skip(i + 1)
    } else {
        v
    }
}

/// The tree with the directory at `i` folded.
pub open spec fn folded(v: Seq<EntryModel>, i: int) -> Seq<EntryModel> {
    v.take(i).push(EntryModel { expanded: false, ..v[i] }) + v.skip(
        subtree_end(v, v[i].depth, i + 1),
    )
}

/// The tree after a click on entry `i`; `items` is what the directory there holds.
pub open spec fn toggled(v: Seq<EntryModel>, i: int, items: Seq<DirItem>) -> Seq<EntryModel> {
    if 0 <= i < v.len() && v[i].is_dir {
        if v[i].expanded {
            folded(v, i)
        } else {
            unfolded(v, i, items)
        }
    } else {
        v
    }
}

/// The paths of the unfolded directories among the first `n` entries.
pub open spec fn open_dirs(v: Seq<EntryModel>, n: int) -> Seq<Seq<char>>
    decreases n,
{
    if n <= 0 {
        Seq::empty()
    } else if v[n - 1].is_dir && v[n - 1].expanded {
        open_dirs(v, n - 1).push(v[n - 1].path)
    } else {
        open_dirs(v, n - 1)
    }
}

/// The first entry from `i` on with this path.
pub open spec fn entry_at(v: Seq<EntryModel>, path: Seq<char>, i: int) -> Option<int>
    decreases v.len() - i,
{
    if i < 0 || i >= v.len() {
        None
    } else if v[i].path == path {
        Some(i)
    } else {
        entry_at(v, path, i + 1)
    }
}

/// What was read of the `k`th directory; nothing if it was not read.
pub open spec fn level_at(levels: Seq<Vec<DirItem>>, k: int) -> Seq<DirItem> {
    if 0 <= k < levels.len() {
        levels[k]@
    } else {
        Seq::empty()
    }
}

/// The tree with the first `n` of the directories `dirs` unfolded, where they are in it.
pub open spec fn unfolded_all(
    v: Seq<EntryModel>,
    dirs: Seq<Seq<char>>,
    levels: Seq<Vec<DirItem>>,
    n: int,
) -> Seq<EntryModel>
    decreases n,
{
    if n <= 0 {
        v
    } else {
        let w = unfolded_all(v, dirs, levels, n - 1);
        match entry_at(w, dirs[n - 1], 0) {
            Some(i) => unfolded(w, i, level_at(levels, n - 1)),
            None => w,
        }
    }
}

/// Whether an entry stands at this depth and is not unfolded.
pub open spec fn closed_at(e: EntryModel, depth: int) -> bool {
    e.depth == depth && !e.expanded
}

proof fn lemma_listed_depth(items: Seq<DirItem>, dirs: bool, depth: int, n: int)
    requires
        0 <= n <= items.len(),
    ensures
        forall|k: int|
            0 <= k < listed(items, dirs, depth, n).len() ==> closed_at(
                #[trigger] listed(items, dirs, depth, n)[k],
                depth,
            ),
    decreases n,
{
    if n > 0 {
        lemma_listed_depth(items, dirs, depth, n - 1);
        let rest = listed(items, dirs, depth, n - 1);
        assert forall|k: int| 0 <= k < listed(items, dirs, depth, n).len() implies closed_at(
            #[trigger] listed(items, dirs, depth, n)[k],
            depth,
        ) by {
            if k < rest.len() {
                assert(listed(items, dirs, depth, n)[k] == rest[k]);
            }
        }
    }
}

proof fn lemma_by_name_depth(v: Seq<EntryModel>, depth: int)
    requires
        forall|k: int| 0 <= k < v.len() ==> closed_at(#[trigger] v[k], depth),
    ensures
        forall|k: int| 0 <= k < by_name(v).len() ==> closed_at(#[trigger] by_name(v)[k], depth),
{
    stable_order_sorts(name_keys(v));
    assert forall|k: int| 0 <= k < by_name(v).len() implies closed_at(
        #[trigger] by_name(v)[k],
        depth,
    ) by {
        assert(by_name(v)[k] == v[stable_order(name_keys(v))[k]]);
    }
}

/// A level stands at one depth, and nothing in it is unfolded.
pub proof fn lemma_level_depth(items: Seq<DirItem>, depth: int)
    ensures
        forall|k: int|
            0 <= k < level_of(items, depth).len() ==> closed_at(
                #[trigger] level_of(items, depth)[k],
                depth,
            ),
{
    let n = items.len() as int;
    lemma_listed_depth(items, true, depth, n);
    lemma_listed_depth(items, false, depth, n);
    lemma_by_name_depth(listed(items, true, depth, n), depth);
    lemma_by_name_depth(listed(items, false, depth, n), depth);
    let a = by_name(listed(items, true, depth, n));
    let b = by_name(listed(items, false, depth, n));
    assert forall|k: int| 0 <= k < (a + b).len() implies closed_at(
        #[trigger] (a + b)[k],
        depth,
    ) by {
        if k < a.len() {
            assert((a + b)[k] == a[k]);
        } else {
            assert((a + b)[k] == b[k - a.len()]);
        }
    }
}

proof fn lemma_tree_depth(v: Seq<EntryModel>, i: int)
    requires
        is_tree(v),
        0 <= i < v.len(),
    ensures
        v[i].depth <= i,
    decreases i,
{
    assert(tree_step(v, i));
    if i > 0 {
        lemma_tree_depth(v, i - 1);
    }
}

/// Unfolding a directory keeps the tree a tree.
pub proof fn unfolding_keeps_the_tree(v: Seq<EntryModel>, i: int, items: Seq<DirItem>)
    requires
        is_tree(v),
    ensures
        is_tree(unfolded(v, i, items)),
{
    if 0 <= i < v.len() && v[i].is_dir && !v[i].expanded {
        let w = unfolded(v, i, items);
        let d = v[i].depth + 1;
        let c = level_of(items, d);
        lemma_level_depth(items, d);
        assert forall|k: int| 0 <= k < w.len() implies #[trigger] tree_step(w, k) by {
            if k <= i {
                assert(tree_step(v, k));
                assert(w[k].depth == v[k].depth);
                if k > 0 {
                    assert(w[k - 1].depth == v[k - 1].depth);
                }
            } else if k <= i + c.len() {
                assert(tree_step(v, i));
                assert(w[k] == c[k - i - 1]);
                if k > i + 1 {
                    assert(w[k - 1] == c[k - i - 2]);
                } else {
                    assert(w[k - 1].depth == v[i].depth);
                }
            } else {
                let j = k - c.len();
                assert(tree_step(v, j));
                assert(tree_step(v, i));
                assert(w[k] == v[j]);
                if k > i + c.len() + 1 {
                    assert(w[k - 1] == v[j - 1]);
                } else if c.len() > 0 {
                    assert(w[k - 1] == c[c.len() - 1]);
                } else {
                    assert(w[k - 1].depth == v[i].depth);
                }
            }
        }
    }
}

pub proof fn lemma_subtree_end(v: Seq<EntryModel>, depth: int, i: int)
    requires
        0 <= i <= v.len(),
    ensures
        i <= subtree_end(v, depth, i) <= v.len(),
        subtree_end(v, depth, i) < v.len() ==> v[subtree_end(v, depth, i)].depth <= depth,
        forall|k: int| i <= k < subtree_end(v, depth, i) ==> (#[trigger] v[k]).depth > depth,
    decreases v.len() - i,
{
    if i < v.len() && v[i].depth > depth {
        lemma_subtree_end(v, depth, i + 1);
    }
}

/// Folding a directory keeps the tree a tree.
pub proof fn folding_keeps_the_tree(v: Seq<EntryModel>, i: int)
    requires
        is_tree(v),
        0 <= i < v.len(),
    ensures
        is_tree(folded(v, i)),
{
    let end = subtree_end(v, v[i].depth, i + 1);
    lemma_subtree_end(v, v[i].depth, i + 1);
    let w = folded(v, i);
    assert forall|k: int| 0 <= k < w.len() implies #[trigger] tree_step(w, k) by {
        if k <= i {
            assert(tree_step(v, k));
            assert(w[k].depth == v[k].depth);
            if k > 0 {
                assert(w[k - 1].depth == v[k - 1].depth);
            }
        } else {
            let j = k - i - 1 + end;
            assert(tree_step(v, j));
            assert(w[k] == v[j]);
            if k > i + 1 {
                assert(w[k - 1] == v[j - 1]);
            } else {
                assert(w[k - 1].depth == v[i].depth);
            }
        }
    }
}

/// Folding what was just unfolded gives the tree back.
pub proof fn folding_undoes_unfolding(v: Seq<EntryModel>, i: int, items: Seq<DirItem>)
    requires
        is_tree(v),
        0 <= i < v.len(),
        v[i].is_dir,
        !v[i].expanded,
    ensures
        folded(unfolded(v, i, items), i) == v,
{
    if i + 1 < v.len() {
        assert(tree_step(v, i + 1));
    }
    let d = v[i].depth;
    let c = level_of(items, d + 1);
    let w = unfolded(v, i, items);
    lemma_level_depth(items, d + 1);
    lemma_subtree_end(w, d, i + 1);
    let end = subtree_end(w, d, i + 1);
    if end < i + 1 + c.len() {
        assert(w[end] == c[end - i - 1]);
    }
    if end > i + 1 + c.len() {
        assert(w[i + 1 + c.len()] == v[i + 1]);
    }
    assert(folded(w, i) =~= v);
}

pub struct Vault {
    root: String,
    entries: Vec<Entry>,
}

pub struct VaultModel {
    pub root: Seq<char>,
    pub entries: Seq<EntryModel>,
}

impl View for Vault {
    type V = VaultModel;

    closed spec fn view(&self) -> VaultModel {
        VaultModel { root: self.root@, entries: entries_model(self.entries@) }
    }
}

impl Vault {
    /// The visible entries form a tree.
    pub open spec fn wf(&self) -> bool {
        is_tree(self@.entries)
    }

    /// The vault at `root`; `items` is what that directory holds.
    pub fn open(root: &str, items: &Vec<DirItem>) -> (r: Vault)
        ensures
            r.wf(),
            r@ == (VaultModel { root: root@, entries: level_of(items@, 0) }),
    {
        proof {
            lemma_level_tree(items@);
        }
        Vault { root: root.to_owned(), entries: read_level(items, 0) }
    }

    pub fn root(&self) -> (r: &str)
        ensures
            r@ == self@.root,
    {
        self.root.as_str()
    }

    /// The visible entries, in order.
    pub fn entries(&self) -> (r: &[Entry])
        ensures
            entries_model(r@) == self@.entries,
    {
        self.entries.as_slice()
    }

    /// The paths of the unfolded directories, in order.
    pub fn expanded_paths(&self) -> (r: Vec<String>)
        ensures
            crate::text::texts(r@) == open_dirs(self@.entries, self@.entries.len() as int),
    {
        let mut out: Vec<String> = Vec::new();
        let mut k: usize = 0;
        proof {
            assert(crate::text::texts(out@) =~= open_dirs(self@.entries, 0));
        }
        while k < self.entries.len()
            invariant
                0 <= k <= self.entries@.len(),
                self@.entries == entries_model(self.entries@),
                crate::text::texts(out@) == open_dirs(self@.entries, k as int),
            decreases self.entries@.len() - k,
        {
            proof {
                assert(self@.entries[k as int] == self.entries@[k as int]@);
            }
            if self.entries[k].is_dir && self.entries[k].expanded {
                crate::index::push_text(&mut out, self.entries[k].path.clone());
            }
            k = k + 1;
        }
        out
    }

    /// The directory that a click on entry `index` unfolds.
    pub fn wants_children(&self, index: usize) -> (r: Option<&str>)
        ensures
            crate::block::opt_str(r) == if index < self@.entries.len()
                && self@.entries[index as int].is_dir && !self@.entries[index as int].expanded {
                Some(self@.entries[index as int].path)
            } else {
                None
            },
    {
        if index < self.entries.len() {
            proof {
                assert(self@.entries[index as int] == self.entries@[index as int]@);
            }
            let e: &Entry = &self.entries[index];
            if e.is_dir && !e.expanded {
                return Some(e.path.as_str());
            }
        }
        None
    }

    /// Unfolds or folds the directory at `index`; `items` is what it holds.
    pub fn toggle(&mut self, index: usize, items: &Vec<DirItem>)
        requires
            old(self).wf(),
        ensures
            final(self).wf(),
            final(self)@ == (VaultModel {
                entries: toggled(old(self)@.entries, index as int, items@),
                ..old(self)@
            }),
    {
        if index >= self.entries.len() {
            return ;
        }
        proof {
            assert(self@.entries[index as int] == self.entries@[index as int]@);
        }
        if !self.entries[index].is_dir {
            return ;
        }
        if self.entries[index].expanded {
            self.collapse_at(index);
        } else {
            self.expand_at(index, items);
        }
    }

    fn expand_at(&mut self, index: usize, items: &Vec<DirItem>)
        requires
            old(self).wf(),
        ensures
            final(self).wf(),
            final(self)@ == (VaultModel {
                entries: unfolded(old(self)@.entries, index as int, items@),
                ..old(self)@
            }),
    {
        let ghost v = self@.entries;
        proof {
            unfolding_keeps_the_tree(v, index as int, items@);
        }
        let n: usize = self.entries.len();
        if index >= n {
            return ;
        }
        proof {
            assert(v[index as int] == self.entries@[index as int]@);
            lemma_tree_depth(v, index as int);
        }
        if !self.entries[index].is_dir || self.entries[index].expanded {
            return ;
        }
        let depth: usize = self.entries[index].depth;
        let mut children: Vec<Entry> = read_level(items, depth + 1);
        let mut tail: Vec<Entry> = self.entries.split_off(index + 1);
        let mut e: Entry = self.entries.pop().unwrap();
        e.expanded = true;
        let ghost c = children@;
        let ghost t = tail@;
        let ghost h = self.entries@;
        self.entries.push(e);
        self.entries.append(&mut children);
        self.entries.append(&mut tail);
        proof {
            assert(self.entries@ =~= h.push(e) + c + t);
            let w = unfolded(v, index as int, items@);
            assert(entries_model(self.entries@) =~= w) by {
                assert(entries_model(c) == level_of(items@, v[index as int].depth + 1));
                assert forall|k: int| 0 <= k < self.entries@.len() implies entries_model(
                    self.entries@,
                )[k] == w[k] by {
                    if k < index {
                        assert(self.entries@[k] == h[k]);
                        assert(v[k] == h[k]@);
                    } else if k == index {
                        assert(self.entries@[k] == e);
                    } else if k <= index + c.len() {
                        assert(self.entries@[k] == c[k - index - 1]);
                        assert(entries_model(c)[k - index - 1] == c[k - index - 1]@);
                    } else {
                        assert(self.entries@[k] == t[k - index - 1 - c.len()]);
                        assert(v[k - c.len()] == t[k - index - 1 - c.len()]@);
                    }
                }
                assert(entries_model(c).len() == c.len());
            }
        }
    }

    fn collapse_at(&mut self, index: usize)
        requires
            old(self).wf(),
            index < old(self)@.entries.len(),
        ensures
            final(self).wf(),
            final(self)@ == (VaultModel {
                entries: folded(old(self)@.entries, index as int),
                ..old(self)@
            }),
    {
        let ghost v = self@.entries;
        let n: usize = self.entries.len();
        let depth: usize = self.entries[index].depth;
        let mut end: usize = index + 1;
        proof {
            folding_keeps_the_tree(v, index as int);
            assert(v[index as int] == self.entries@[index as int]@);
        }
        while end < n && self.entries[end].depth > depth
            invariant
                index < end <= n,
                n == self.entries@.len(),
                v == entries_model(self.entries@),
                depth == v[index as int].depth,
                subtree_end(v, depth as int, index + 1) == subtree_end(v, depth as int, end as int),
            decreases n - end,
        {
            proof {
                assert(v[end as int] == self.entries@[end as int]@);
            }
            end = end + 1;
        }
        proof {
            if end < n {
                assert(v[end as int] == self.entries@[end as int]@);
            }
        }
        let mut tail: Vec<Entry> = self.entries.split_off(end);
        let ghost t = tail@;
        self.entries.truncate(index + 1);
        let mut e: Entry = self.entries.pop().unwrap();
        e.expanded = false;
        let ghost h = self.entries@;
        self.entries.push(e);
        self.entries.append(&mut tail);
        proof {
            assert(self.entries@ =~= h.push(e) + t);
            let w = folded(v, index as int);
            assert forall|k: int| 0 <= k < self.entries@.len() implies entries_model(
                self.entries@,
            )[k] == w[k] by {
                if k < index {
                    assert(self.entries@[k] == h[k]);
                    assert(v[k] == h[k]@);
                } else if k == index {
                    assert(self.entries@[k] == e);
                } else {
                    assert(self.entries@[k] == t[k - index - 1]);
                    assert(v[end + k - index - 1] == t[k - index - 1]@);
                }
            }
            assert(entries_model(self.entries@) =~= w);
        }
    }

    /// Takes in what was read anew of the root, and, in the order of
    /// `expanded_paths`, of the unfolded directories. They stay unfolded.
    pub fn reload(&mut self, items: &Vec<DirItem>, levels: &Vec<Vec<DirItem>>)
        requires
            old(self).wf(),
        ensures
            final(self).wf(),
            ({
                let v = old(self)@.entries;
                let dirs = open_dirs(v, v.len() as int);
                final(self)@ == (VaultModel {
                    entries: unfolded_all(
                        level_of(items@, 0),
                        dirs,
                        levels@,
                        dirs.len() as int,
                    ),
                    ..old(self)@
                })
            }),
    {
        let dirs: Vec<String> = self.expanded_paths();
        let ghost ds = crate::text::texts(dirs@);
        self.entries = read_level(items, 0);
        let none: Vec<DirItem> = Vec::new();
        let mut k: usize = 0;
        proof {
            lemma_level_tree(items@);
            assert(none@ =~= Seq::<DirItem>::empty());
            assert(ds.len() == dirs@.len());
        }
        while k < dirs.len()
            invariant
                0 <= k <= dirs@.len(),
                ds == crate::text::texts(dirs@),
                none@ == Seq::<DirItem>::empty(),
                self.wf(),
                self@ == (VaultModel {
                    entries: unfolded_all(level_of(items@, 0), ds, levels@, k as int),
                    ..old(self)@
                }),
            decreases dirs@.len() - k,
        {
            proof {
                assert(ds[k as int] == dirs@[k as int]@);
            }
            match self.position(&dirs[k]) {
                Some(i) => {
                    if k < levels.len() {
                        self.expand_at(i, &levels[k]);
                    } else {
                        self.expand_at(i, &none);
                    }
                },
                None => {},
            }
            k = k + 1;
        }
    }

    fn position(&self, path: &str) -> (r: Option<usize>)
        ensures
            match r {
                Some(i) => entry_at(self@.entries, path@, 0) == Some(i as int) && i
                    < self@.entries.len(),
                None => entry_at(self@.entries, path@, 0) is None,
            },
    {
        let mut k: usize = 0;
        while k < self.entries.len()
            invariant
                0 <= k <= self.entries@.len(),
                self@.entries == entries_model(self.entries@),
                entry_at(self@.entries, path@, 0) == entry_at(self@.entries, path@, k as int),
            decreases self.entries@.len() - k,
        {
            proof {
                assert(self@.entries[k as int] == self.entries@[k as int]@);
            }
            if same_text(&self.entries[k].path, path) {
                return Some(k);
            }
            k = k + 1;
        }
        None
    }
}

pub proof fn lemma_level_tree(items: Seq<DirItem>)
    ensures
        is_tree(level_of(items, 0)),
{
    lemma_level_depth(items, 0);
    let v = level_of(items, 0);
    assert forall|k: int| 0 <= k < v.len() implies #[trigger] tree_step(v, k) by {
        assert(v[k].depth == 0);
        if k > 0 {
            assert(v[k - 1].depth == 0);
        }
    }
}

// ---------- new notes ----------

/// The file name of a new note: the given name, or a stand-in for an empty one, with
/// the extension of a note.
pub open spec fn new_file(name: Seq<char>) -> Seq<char> {
    let t = trim(name);
    let f = if t.len() == 0 {
        "未命名"@
    } else {
        t
    };
    if is_note(f) {
        f
    } else {
        f + ".md"@
    }
}

/// The `n`th path to try for a new note: the first is its name, the others carry a
/// number.
pub open spec fn candidate(root: Seq<char>, name: Seq<char>, n: nat) -> Seq<char> {
    let f = new_file(name);
    let stem = match file_stem(f) {
        Some(s) => s,
        None => "未命名"@,
    };
    if n <= 1 {
        joined(root, f)
    } else {
        joined(root, stem.push(' ') + digits_of(n) + ".md"@)
    }
}

/// Whether a name can be that of a file: not one that ends with `/` and is no note as it is.
pub open spec fn names_a_file(name: Seq<char>) -> bool {
    trim(name).len() > 0 && trim(name).last() == '/' ==> is_note(trim(name))
}

/// Every path to try is that of a note, if the name can be that of a file.
pub proof fn new_paths_are_notes(root: Seq<char>, name: Seq<char>, n: nat)
    requires
        names_a_file(name),
    ensures
        is_note(candidate(root, name, n)),
{
    let f = new_file(name);
    let t = trim(name);
    let base = if n > 1 {
        (match file_stem(f) {
            Some(s) => s,
            None => "未命名"@,
        }).push(' ') + digits_of(n)
    } else if t.len() == 0 {
        "未命名"@
    } else {
        t
    };
    reveal_strlit("未命名");
    reveal_strlit(".md");
    reveal_strlit("md");
    lemma_digits(n);
    if n <= 1 && is_note(base) {
        lemma_joined_name(root, f);
    } else {
        if n > 1 {
            let d = digits_of(n);
            assert(base.last() == d[d.len() - 1]);
        }
        lemma_extension_put(base, "md"@);
        let p = base + ".md"@;
        assert(p =~= base + seq!['.'] + "md"@);
        lemma_joined_name(root, p);
    }
}

/// Beside the first, no two paths to try are the same.
pub proof fn numbered_paths_differ(root: Seq<char>, name: Seq<char>, n: nat, m: nat)
    requires
        1 < n,
        1 < m,
        n != m,
    ensures
        candidate(root, name, n) != candidate(root, name, m),
{
    let stem = match file_stem(new_file(name)) {
        Some(s) => s,
        None => "未命名"@,
    };
    lemma_digits_differ(n, m);
    let (a, b) = (digits_of(n), digits_of(m));
    let p = stem.push(' ');
    let (x, y) = (p + a + ".md"@, p + b + ".md"@);
    assert(x[0] == p[0] && y[0] == p[0]);
    if joined(root, x) == joined(root, y) {
        let head = if p[0] == '/' {
            Seq::<char>::empty()
        } else if root.len() == 0 || root.last() == '/' {
            root
        } else {
            root.push('/')
        };
        assert(joined(root, x) =~= head + x);
        assert(joined(root, y) =~= head + y);
        assert(x =~= (head + x).skip(head.len() as int));
        assert(y =~= (head + y).skip(head.len() as int));
        assert(a =~= x.subrange(p.len() as int, x.len() - ".md"@.len()));
        assert(b =~= y.subrange(p.len() as int, y.len() - ".md"@.len()));
    }
}

/// Among the first `n` paths to try there is one that is not taken, if fewer are taken.
proof fn lemma_one_is_free(root: Seq<char>, name: Seq<char>, taken: Seq<Seq<char>>, n: int)
    requires
        0 <= n,
        forall|k: int| 0 <= k < n ==> taken.contains(#[trigger] candidate(root, name, (k + 2) as nat)),
    ensures
        n <= taken.len(),
{
    let tried = Seq::new(n as nat, |k: int| candidate(root, name, (k + 2) as nat));
    assert forall|i: int, j: int| 0 <= i < n && 0 <= j < n && i != j implies tried[i]
        != tried[j] by {
        numbered_paths_differ(root, name, (i + 2) as nat, (j + 2) as nat);
    }
    assert(tried.no_duplicates());
    tried.unique_seq_to_set();
    taken.lemma_cardinality_of_set();
    assert forall|p: Seq<char>| tried.to_set().contains(p) implies taken.to_set().contains(p) by {
        let i = choose|i: int| 0 <= i < tried.len() && tried[i] == p;
        assert(taken.contains(candidate(root, name, (i + 2) as nat)));
    }
    vstd::seq_lib::seq_to_set_is_finite(taken);
    vstd::set_lib::lemma_len_subset(tried.to_set(), taken.to_set());
}

/// The first path from the `n`th on that is not taken.
pub open spec fn is_first_free(
    root: Seq<char>,
    name: Seq<char>,
    taken: Seq<Seq<char>>,
    n: nat,
    p: Seq<char>,
) -> bool {
    &&& n >= 1
    &&& p == candidate(root, name, n)
    &&& !taken.contains(p)
    &&& forall|k: nat| 1 <= k < n ==> taken.contains(#[trigger] candidate(root, name, k))
}

fn numbered_path(root: &str, name: &str, n: u128) -> (r: String)
    ensures
        r@ == candidate(root@, name@, n as nat),
{
    let cs: Vec<char> = chars_of(name);
    let t = trim_chars(cs.as_slice());
    let mut f: Vec<char> = Vec::new();
    if t.len() == 0 {
        extend_str(&mut f, "未命名");
        proof {
            assert(f@ =~= "未命名"@);
        }
    } else {
        extend(&mut f, t);
        proof {
            assert(f@ =~= t@);
        }
    }
    if !is_note_path(&string_of(f.as_slice())) {
        extend_str(&mut f, ".md");
    }
    let file: String = string_of(f.as_slice());
    if n <= 1 {
        return join_path(root, &file);
    }
    let mut out: Vec<char> = Vec::new();
    match file_stem_of(&file) {
        Some(s) => {
            extend(&mut out, s.as_slice());
            proof {
                assert(out@ =~= s@);
            }
        },
        None => {
            extend_str(&mut out, "未命名");
            proof {
                assert(out@ =~= "未命名"@);
            }
        },
    }
    out.push(' ');
    let digits: Vec<char> = wide_number_chars(n);
    extend(&mut out, digits.as_slice());
    extend_str(&mut out, ".md");
    join_path(root, &string_of(out.as_slice()))
}

impl Vault {
    /// The path of a new note, where at the paths `taken` there are files already. Its name
    /// comes first, and then the same with a number, so that no file is written over.
    pub fn create_note(&self, name: &str, taken: &Vec<String>) -> (r: String)
        ensures
            exists|n: nat| is_first_free(self@.root, name@, texts(taken@), n, r@),
            !texts(taken@).contains(r@),
            names_a_file(name@) ==> is_note(r@),
    {
        let ghost root = self@.root;
        let ghost ts = texts(taken@);
        let m: usize = taken.len();
        let mut n: u128 = 1;
        loop
            invariant
                root == self@.root,
                ts == texts(taken@),
                m == taken@.len(),
                m == ts.len(),
                1 <= n <= m + 2,
                forall|k: nat| 1 <= k < n ==> ts.contains(#[trigger] candidate(root, name@, k)),
            decreases m + 3 - n,
        {
            let p: String = numbered_path(&self.root, name, n);
            if !holds_text(taken, &p) {
                proof {
                    assert(is_first_free(root, name@, ts, n as nat, p@));
                    if names_a_file(name@) {
                        new_paths_are_notes(root, name@, n as nat);
                    }
                }
                return p;
            }
            proof {
                let tried = (n - 1) as int;
                assert(ts.contains(candidate(root, name@, n as nat)));
                assert forall|k: int| 0 <= k < tried implies ts.contains(
                    #[trigger] candidate(root, name@, (k + 2) as nat),
                ) by {
                    assert(1 <= ((k + 2) as nat) <= n);
                }
                lemma_one_is_free(root, name@, ts, tried);
            }
            n = n + 1;
        }
    }

    /// The path of the note at a fixed place, and whether it is to be written: a note that
    /// exists stays as it is.
    pub fn ensure_note_at(&self, rel: &str, exists: bool) -> (r: (String, bool))
        ensures
            r.0@ == joined(self@.root, rel@),
            r.1 == !exists,
    {
        (join_path(&self.root, rel), !exists)
    }

    /// The templates of the vault, by name, from the files in its directory of templates.
    pub fn templates(&self, files: &Vec<TemplateFile>) -> (r: Vec<Template>)
        ensures
            templates_model(r@) == templates_of(files@),
    {
        load_all(files)
    }

    /// A walk through all notes of the vault, from its root.
    pub fn walk_notes(&self) -> (r: Walk)
        ensures
            r@ == walk_start(self@.root),
    {
        let mut todo: Vec<Stop> = Vec::new();
        todo.push(Stop::Dir(self.root.clone(), 0));
        let r = Walk { todo, notes: Vec::new() };
        proof {
            assert(r@.todo =~= walk_start(self@.root).todo);
            assert(r@.notes =~= Seq::<Seq<char>>::empty());
        }
        r
    }
}

// ---------- all notes ----------

/// How deep notes are looked for.
pub const WALK_DEPTH: usize = 16;

/// A stop of a walk.
pub enum Stop {
    /// A directory that is to be read, with its depth.
    Dir(String, usize),
    Note(String),
}

pub enum StopModel {
    Dir(Seq<char>, int),
    Note(Seq<char>),
}

impl View for Stop {
    type V = StopModel;

    open spec fn view(&self) -> StopModel {
        match *self {
            Stop::Dir(p, d) => StopModel::Dir(p@, d as int),
            Stop::Note(p) => StopModel::Note(p@),
        }
    }
}

pub open spec fn stops_model(v: Seq<Stop>) -> Seq<StopModel> {
    v.map_values(|s: Stop| s@)
}

/// A walk through all notes: the stops that are still to be made, the next one last, and
/// the notes that were found.
pub struct Walk {
    pub todo: Vec<Stop>,
    pub notes: Vec<String>,
}

pub struct WalkModel {
    pub todo: Seq<StopModel>,
    pub notes: Seq<Seq<char>>,
}

impl View for Walk {
    type V = WalkModel;

    open spec fn view(&self) -> WalkModel {
        WalkModel { todo: stops_model(self.todo@), notes: texts(self.notes@) }
    }
}

/// A walk before its first step.
pub open spec fn walk_start(root: Seq<char>) -> WalkModel {
    WalkModel { todo: seq![StopModel::Dir(root, 0)], notes: Seq::empty() }
}

/// The stop that an item of a directory is, which lies `depth` levels below the root. There
/// is none for what is passed over, and for directories that lie too deep.
pub open spec fn stop_of(item: DirItem, depth: int) -> Seq<StopModel> {
    if is_listed(item, false) {
        seq![StopModel::Note(item.path@)]
    } else if is_listed(item, true) && depth < WALK_DEPTH {
        seq![StopModel::Dir(item.path@, depth + 1)]
    } else {
        Seq::empty()
    }
}

/// The stops that the items from `k` on are, the first one last.
pub open spec fn stops_from(items: Seq<DirItem>, depth: int, k: int) -> Seq<StopModel>
    decreases items.len() - k,
{
    if k < 0 || k >= items.len() {
        Seq::empty()
    } else {
        stops_from(items, depth, k + 1) + stop_of(items[k], depth)
    }
}

/// A walk that stands before a directory, or at its end: the notes on the way are found.
pub open spec fn notes_taken(w: WalkModel) -> WalkModel
    decreases w.todo.len(),
{
    if w.todo.len() == 0 {
        w
    } else {
        match w.todo.last() {
            StopModel::Note(p) => notes_taken(
                WalkModel { todo: w.todo.drop_last(), notes: w.notes.push(p) },
            ),
            StopModel::Dir(_, _) => w,
        }
    }
}

/// A walk after a directory was read.
pub open spec fn dir_taken(w: WalkModel, depth: int, items: Seq<DirItem>) -> WalkModel {
    WalkModel { todo: w.todo + stops_from(items, depth, 0), ..w }
}

impl Walk {
    /// The next directory to be read, with its depth; none at the end of the walk.
    pub fn next_dir(&mut self) -> (r: Option<(String, usize)>)
        ensures
            ({
                let w = notes_taken(old(self)@);
                match r {
                    Some((p, d)) => {
                        &&& w.todo.len() > 0
                        &&& w.todo.last() == StopModel::Dir(p@, d as int)
                        &&& final(self)@ == (WalkModel { todo: w.todo.drop_last(), ..w })
                    },
                    None => w.todo.len() == 0 && final(self)@ == w,
                }
            }),
    {
        let ghost w = notes_taken(self@);
        loop
            invariant
                w == notes_taken(old(self)@),
                w == notes_taken(self@),
            decreases self.todo@.len(),
        {
            let ghost before = self@;
            proof {
                assert(before.todo.len() == self.todo@.len());
                if before.todo.len() > 0 {
                    assert(before.todo.last() == self.todo@.last()@);
                }
            }
            match self.todo.pop() {
                Some(stop) => {
                    proof {
                        assert(self@.todo =~= before.todo.drop_last());
                    }
                    match stop {
                        Stop::Dir(p, d) => {
                            return Some((p, d));
                        },
                        Stop::Note(p) => {
                            let ghost pm = p@;
                            self.notes.push(p);
                            proof {
                                assert(self@.notes =~= before.notes.push(pm));
                            }
                        },
                    }
                },
                None => {
                    proof {
                        assert(self@.todo =~= before.todo);
                    }
                    return None;
                },
            }
        }
    }

    /// Takes in what a directory holds, which lies `depth` levels below the root.
    pub fn take_dir(&mut self, depth: usize, items: &Vec<DirItem>)
        ensures
            final(self)@ == dir_taken(old(self)@, depth as int, items@),
    {
        let ghost w = self@;
        let mut k: usize = items.len();
        proof {
            assert(self@.todo =~= w.todo + stops_from(items@, depth as int, k as int));
        }
        while k > 0
            invariant
                0 <= k <= items@.len(),
                w == old(self)@,
                self@.todo == w.todo + stops_from(items@, depth as int, k as int),
                self@.notes == w.notes,
            decreases k,
        {
            k = k - 1;
            let ghost before = self@;
            let it: &DirItem = &items[k];
            if !hidden(&it.name) {
                if it.is_dir {
                    if depth < WALK_DEPTH {
                        self.todo.push(Stop::Dir(it.path.clone(), depth + 1));
                    }
                } else if is_note_path(&it.path) {
                    self.todo.push(Stop::Note(it.path.clone()));
                }
            }
            proof {
                assert(self@.todo =~= before.todo + stop_of(items@[k as int], depth as int));
                assert(self@.todo =~= w.todo + stops_from(items@, depth as int, k as int));
            }
        }
    }
}

} // verus!
