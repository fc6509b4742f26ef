//! What undo and redo promise.
//!
//! A history is sound if every recorded group, carried out when its turn comes,
//! meets exactly the text that it was recorded for. Every edit that starts with
//! cursor and anchor between two characters keeps the history sound, and taking
//! it back gives the text from before it.
use crate::document::{
    byte_of_line, bytes_between, clamp_to, doc_inserted, doc_removed, lemma_line_of_byte, line_at,
    line_col, line_of_byte, prev_boundary, with_inserted, DocModel,
};
use crate::editor::{
    apply_all, apply_edit, as_heading, at_cursor, back_from, backspaced, begun, broken,
    continuation, counter_group, cut_selection, deleted_forward, flipped, flushed, forward_to,
    fresh_editor, heading_set, indented, inserted, inverse, is_single, lemma_prev_boundary, merges,
    newline_text, no_goal, outdented, put, recorded, redone, sel_hi, sel_lo, selection_replaced,
    shift_line, shift_lines_from, shifted, streamed, taken, task_at_cursor, task_toggled,
    two_blanks, typed, undone, wrap_toggled, EditModel, EditorModel, GroupModel, ShiftModel,
    UNDO_LIMIT,
};
use crate::rope::{lemma_line_index, line_index};
use crate::text::{
    blen, floor_index, lead_spaces, lemma_blen_bounds, lemma_blen_concat, lemma_blen_split,
    lemma_floor_index, lemma_floor_index_off, lemma_floor_mono, lemma_lead_spaces, lemma_off_mono,
    lemma_off_subrange, off, on_boundary, run_of, trim_start,
};
use vstd::prelude::*;

verus! {

// ---------- single edits ----------

/// The text without the bytes from `a` to `b`.
pub open spec fn without(t: Seq<char>, a: int, b: int) -> Seq<char> {
    let lo = clamp_to(a, blen(t) as int);
    let hi = clamp_to(b, blen(t) as int);
    if lo >= hi {
        t
    } else {
        t.take(floor_index(t, lo)) + t.skip(floor_index(t, hi))
    }
}

/// The text after an edit.
pub open spec fn text_after(t: Seq<char>, x: EditModel) -> Seq<char> {
    match x {
        EditModel::Insert { at, text } => with_inserted(t, at, text),
        EditModel::Delete { at, text } => without(t, at, at + blen(text)),
    }
}

/// Whether `text` stands in `t` from byte `at` on.
pub open spec fn stands_at(t: Seq<char>, at: int, text: Seq<char>) -> bool {
    exists|i: int|
        0 <= i && i + text.len() <= t.len() && #[trigger] off(t, i) == at && t.subrange(
            i,
            i + text.len(),
        ) == text
}

/// Whether an edit meets the text that it is meant for.
pub open spec fn edit_sound(t: Seq<char>, x: EditModel) -> bool {
    match x {
        EditModel::Insert { at, .. } => on_boundary(t, at),
        EditModel::Delete { at, text } => stands_at(t, at, text),
    }
}

proof fn lemma_insert_at(t: Seq<char>, i: int, s: Seq<char>)
    requires
        0 <= i <= t.len(),
    ensures
        with_inserted(t, off(t, i) as int, s) == t.take(i) + s + t.skip(i),
        off(t.take(i) + s + t.skip(i), i) == off(t, i),
        off(t.take(i) + s + t.skip(i), i + s.len()) == off(t, i) + blen(s),
{
    lemma_floor_index_off(t, i);
    let u = t.take(i) + s + t.skip(i);
    assert(u.take(i) =~= t.take(i));
    assert(u.take(i + s.len()) =~= t.take(i) + s);
    lemma_blen_concat(t.take(i), s);
}

proof fn lemma_remove_at(t: Seq<char>, i: int, n: int)
    requires
        0 <= i,
        0 <= n,
        i + n <= t.len(),
    ensures
        without(t, off(t, i) as int, off(t, i) as int + blen(t.subrange(i, i + n))) == t.take(i) + t.skip(
            i + n,
        ),
        off(t.take(i) + t.skip(i + n), i) == off(t, i),
{
    lemma_off_mono(t, i, i + n);
    lemma_floor_index_off(t, i);
    lemma_floor_index_off(t, i + n);
    let u = t.take(i) + t.skip(i + n);
    assert(u.take(i) =~= t.take(i));
    if n == 0 {
        assert(u =~= t);
    }
}

/// An edit that meets its text can be taken back: its inverse meets the text that
/// the edit left, and gives the text before the edit.
pub proof fn edit_is_taken_back(t: Seq<char>, x: EditModel)
    requires
        edit_sound(t, x),
    ensures
        edit_sound(text_after(t, x), inverse(x)),
        text_after(text_after(t, x), inverse(x)) == t,
{
    match x {
        EditModel::Insert { at, text } => {
            let i = choose|i: int| 0 <= i <= t.len() && #[trigger] off(t, i) == at;
            lemma_insert_at(t, i, text);
            let u = t.take(i) + text + t.skip(i);
            assert(u.subrange(i, i + text.len()) =~= text);
            assert(stands_at(u, at, text));
            lemma_remove_at(u, i, text.len() as int);
            assert(u.take(i) + u.skip(i + text.len()) =~= t);
        },
        EditModel::Delete { at, text } => {
            let i = choose|i: int|
                0 <= i && i + text.len() <= t.len() && #[trigger] off(t, i) == at && t.subrange(
                    i,
                    i + text.len(),
                ) == text;
            lemma_remove_at(t, i, text.len() as int);
            let u = t.take(i) + t.skip(i + text.len());
            assert(on_boundary(u, at));
            lemma_insert_at(u, i, text);
            assert(u.take(i) + text + u.skip(i) =~= t);
        },
    }
}


// ---------- groups and stacks ----------

/// The text after edits, carried out from the last to the first.
pub open spec fn texts_after(t: Seq<char>, xs: Seq<EditModel>) -> Seq<char>
    decreases xs.len(),
{
    if xs.len() == 0 {
        t
    } else {
        texts_after(text_after(t, xs.last()), xs.drop_last())
    }
}

pub open spec fn group_sound(t: Seq<char>, xs: Seq<EditModel>) -> bool
    decreases xs.len(),
{
    xs.len() == 0 || (edit_sound(t, xs.last()) && group_sound(
        text_after(t, xs.last()),
        xs.drop_last(),
    ))
}

pub open spec fn stack_sound(gs: Seq<GroupModel>, t: Seq<char>) -> bool
    decreases gs.len(),
{
    gs.len() == 0 || (group_sound(t, gs.last().inverted) && stack_sound(
        gs.drop_last(),
        texts_after(t, gs.last().inverted),
    ))
}

/// The text that the open group started from.
pub open spec fn origin(e: EditorModel) -> Seq<char> {
    match e.pending {
        Some(g) => texts_after(e.doc.text, g.inverted),
        None => e.doc.text,
    }
}

/// Where the cursor stood when the open group started.
pub open spec fn origin_cursor(e: EditorModel) -> int {
    match e.pending {
        Some(g) => g.before,
        None => e.cursor,
    }
}

/// Every group of the history meets the text that it was recorded for.
pub open spec fn sound(e: EditorModel) -> bool {
    match e.pending {
        Some(g) => {
            &&& e.redo.len() == 0
            &&& group_sound(e.doc.text, g.inverted)
            &&& stack_sound(e.undo, origin(e))
        },
        None => stack_sound(e.undo, e.doc.text) && stack_sound(e.redo, e.doc.text),
    }
}

/// The open group meets the text that it was recorded for.
pub open spec fn open_sound(e: EditorModel) -> bool {
    e.pending matches Some(g) ==> group_sound(e.doc.text, g.inverted)
}

/// Cursor and anchor stand between two characters.
pub open spec fn at_boundaries(e: EditorModel) -> bool {
    on_boundary(e.doc.text, e.cursor) && on_boundary(e.doc.text, e.anchor)
}

pub proof fn lemma_apply_all(d: DocModel, xs: Seq<EditModel>)
    ensures
        apply_all(d, xs).text == texts_after(d.text, xs),
    decreases xs.len(),
{
    if xs.len() > 0 {
        lemma_apply_all(apply_edit(d, xs.last()), xs.drop_last());
    }
}

/// What is carried out first stands last.
proof fn lemma_texts_after_front(t: Seq<char>, x: EditModel, zs: Seq<EditModel>)
    ensures
        texts_after(t, seq![x] + zs) == text_after(texts_after(t, zs), x),
        group_sound(t, seq![x] + zs) == (group_sound(t, zs) && edit_sound(texts_after(t, zs), x)),
    decreases zs.len(),
{
    let all = seq![x] + zs;
    if zs.len() == 0 {
        assert(all.last() == x);
        assert(all.drop_last() =~= Seq::<EditModel>::empty());
        assert(texts_after(text_after(t, x), all.drop_last()) == text_after(t, x));
        assert(group_sound(text_after(t, x), all.drop_last()));
    } else {
        assert(all.last() == zs.last());
        assert(all.drop_last() =~= seq![x] + zs.drop_last());
        lemma_texts_after_front(text_after(t, zs.last()), x, zs.drop_last());
    }
}

/// A group that meets its text is taken back by its counterpart.
pub proof fn group_is_taken_back(t: Seq<char>, xs: Seq<EditModel>)
    requires
        group_sound(t, xs),
    ensures
        group_sound(texts_after(t, xs), flipped(xs)),
        texts_after(texts_after(t, xs), flipped(xs)) == t,
    decreases xs.len(),
{
    if xs.len() == 0 {
        assert(flipped(xs).len() == 0);
    } else {
        let x = xs.last();
        let ys = xs.drop_last();
        let u = text_after(t, x);
        group_is_taken_back(u, ys);
        edit_is_taken_back(t, x);
        assert(flipped(xs) =~= seq![inverse(x)] + flipped(ys));
        lemma_texts_after_front(texts_after(t, xs), inverse(x), flipped(ys));
    }
}

proof fn lemma_stack_drop_first(gs: Seq<GroupModel>, t: Seq<char>)
    requires
        stack_sound(gs, t),
        gs.len() > 0,
    ensures
        stack_sound(gs.drop_first(), t),
    decreases gs.len(),
{
    if gs.len() > 1 {
        assert(gs.drop_first().last() == gs.last());
        assert(gs.drop_first().drop_last() =~= gs.drop_last().drop_first());
        lemma_stack_drop_first(gs.drop_last(), texts_after(t, gs.last().inverted));
    }
}

// ---------- what the steps of editing keep ----------

/// A freshly opened document has a sound, empty history.
pub proof fn fresh_history_is_sound(d: DocModel)
    ensures
        sound(fresh_editor(d)),
        at_boundaries(fresh_editor(d)),
{
    assert(off(d.text, 0) == 0) by {
        assert(d.text.take(0) =~= Seq::<char>::empty());
    }
}

/// Only text and history matter for soundness: moving the cursor keeps it.
pub proof fn moving_keeps_history_sound(e: EditorModel, f: EditorModel)
    requires
        f.doc.text == e.doc.text,
        f.undo == e.undo,
        f.redo == e.redo,
        f.pending == e.pending,
    ensures
        sound(e) ==> sound(f),
        open_sound(e) ==> open_sound(f),
        origin(f) == origin(e),
{
}

pub proof fn lemma_flushed_sound(e: EditorModel)
    ensures
        sound(e) ==> sound(flushed(e)),
        open_sound(flushed(e)),
        flushed(e).pending is None,
        flushed(e).doc == e.doc,
        flushed(e).cursor == e.cursor,
        flushed(e).anchor == e.anchor,
        flushed(e).goal == e.goal,
{
    match e.pending {
        Some(g) => {
            if g.inverted.len() > 0 {
                let top = GroupModel { after: e.cursor, ..g };
                let u = e.undo.push(top);
                assert(u.last() == top);
                assert(u.drop_last() =~= e.undo);
                if sound(e) {
                    assert(stack_sound(u, e.doc.text));
                    if u.len() > UNDO_LIMIT {
                        lemma_stack_drop_first(u, e.doc.text);
                    }
                }
            }
        },
        None => {},
    }
}

pub proof fn lemma_begun_sound(e: EditorModel, merge: bool)
    requires
        merge ==> e.pending is Some && open_sound(e),
    ensures
        sound(e) ==> sound(begun(e, merge)),
        open_sound(begun(e, merge)),
        begun(e, merge).pending is Some,
        begun(e, merge).doc == e.doc,
        begun(e, merge).cursor == e.cursor,
        begun(e, merge).anchor == e.anchor,
        origin(begun(e, merge)) == if merge {
            origin(e)
        } else {
            e.doc.text
        },
        origin_cursor(begun(e, merge)) == if merge {
            origin_cursor(e)
        } else {
            e.cursor
        },
        !merge ==> begun(e, merge).undo == flushed(e).undo,
        !merge ==> begun(e, merge).pending->0.inverted.len() == 0,
{
    lemma_flushed_sound(e);
}

/// Recording the edit that led from `t` to the present text.
proof fn lemma_recorded_sound(e: EditorModel, x: EditModel, doc: DocModel)
    requires
        open_sound(e),
        e.pending is Some,
        edit_sound(e.doc.text, x),
        doc.text == text_after(e.doc.text, x),
    ensures
        sound(e) ==> sound(recorded(EditorModel { doc, ..e }, x)),
        open_sound(recorded(EditorModel { doc, ..e }, x)),
        origin(recorded(EditorModel { doc, ..e }, x)) == origin(e),
        origin_cursor(recorded(EditorModel { doc, ..e }, x)) == origin_cursor(e),
        recorded(EditorModel { doc, ..e }, x).pending is Some,
        recorded(EditorModel { doc, ..e }, x).pending->0.inverted.len() > 0,
{
    edit_is_taken_back(e.doc.text, x);
    let g = e.pending->0;
    let ys = g.inverted.push(inverse(x));
    assert(ys.last() == inverse(x));
    assert(ys.drop_last() =~= g.inverted);
}

pub proof fn lemma_put_sound(e: EditorModel, at: int, s: Seq<char>)
    requires
        open_sound(e),
        e.pending is Some,
        on_boundary(e.doc.text, at),
    ensures
        sound(e) ==> sound(put(e, at, s)),
        open_sound(put(e, at, s)),
        origin(put(e, at, s)) == origin(e),
        origin_cursor(put(e, at, s)) == origin_cursor(e),
        put(e, at, s).pending is Some,
        put(e, at, s).undo == e.undo,
        s.len() > 0 ==> put(e, at, s).pending->0.inverted.len() > 0,
        put(e, at, s).pending->0.inverted.len() >= e.pending->0.inverted.len(),
        on_boundary(put(e, at, s).doc.text, at),
        on_boundary(put(e, at, s).doc.text, at + blen(s)),
        put(e, at, s).cursor == e.cursor,
        put(e, at, s).anchor == e.anchor,
{
    let t = e.doc.text;
    let i = choose|i: int| 0 <= i <= t.len() && #[trigger] off(t, i) == at;
    lemma_insert_at(t, i, s);
    let u = t.take(i) + s + t.skip(i);
    if s.len() > 0 {
        lemma_recorded_sound(e, EditModel::Insert { at, text: s }, doc_inserted(e.doc, at, s));
        assert(off(u, i) == at);
        assert(off(u, i + s.len()) == at + blen(s));
    }
}

proof fn lemma_between(t: Seq<char>, i: int, b: int)
    requires
        0 <= i <= t.len(),
        off(t, i) <= b,
    ensures
        ({
            let hi = clamp_to(b, blen(t) as int);
            let j = floor_index(t, hi);
            &&& i <= j <= t.len()
            &&& bytes_between(t, off(t, i) as int, b) == t.subrange(i, j)
        }),
{
    lemma_off_mono(t, i, t.len() as int);
    lemma_blen_split(t, i);
    lemma_floor_index_off(t, i);
    let hi = clamp_to(b, blen(t) as int);
    lemma_floor_index(t, hi);
    lemma_floor_mono(t, off(t, i) as int, hi);
}

pub proof fn lemma_taken_sound(e: EditorModel, a: int, b: int)
    requires
        open_sound(e),
        e.pending is Some,
        on_boundary(e.doc.text, a),
    ensures
        sound(e) ==> sound(taken(e, a, b)),
        open_sound(taken(e, a, b)),
        origin(taken(e, a, b)) == origin(e),
        origin_cursor(taken(e, a, b)) == origin_cursor(e),
        taken(e, a, b).pending is Some,
        taken(e, a, b).undo == e.undo,
        a < b ==> taken(e, a, b).pending->0.inverted.len() > 0,
        taken(e, a, b).pending->0.inverted.len() >= e.pending->0.inverted.len(),
        on_boundary(taken(e, a, b).doc.text, a),
        taken(e, a, b).cursor == e.cursor,
        taken(e, a, b).anchor == e.anchor,
{
    let t = e.doc.text;
    let i = choose|i: int| 0 <= i <= t.len() && #[trigger] off(t, i) == a;
    if a < b {
        lemma_between(t, i, b);
        lemma_blen_split(t, i);
        lemma_floor_index_off(t, i);
        let hi = clamp_to(b, blen(t) as int);
        let j = floor_index(t, hi);
        let text = t.subrange(i, j);
        assert(stands_at(t, a, text));
        lemma_remove_at(t, i, j - i);
        let d = doc_removed(e.doc, a, b);
        if clamp_to(a, blen(t) as int) >= hi {
            assert(i == t.len()) by {
                lemma_off_mono(t, i, t.len() as int);
                lemma_blen_split(t, i);
                lemma_blen_bounds(t.skip(i));
            }
            assert(t.take(i) + t.skip(j) =~= t);
        }
        assert(d.text == t.take(i) + t.skip(j));
        lemma_recorded_sound(e, EditModel::Delete { at: a, text }, d);
        assert(off(d.text, i) == a);
    }
}

pub proof fn lemma_cut_sound(e: EditorModel)
    requires
        open_sound(e),
        e.pending is Some,
        at_boundaries(e),
    ensures
        sound(e) ==> sound(cut_selection(e)),
        open_sound(cut_selection(e)),
        origin(cut_selection(e)) == origin(e),
        origin_cursor(cut_selection(e)) == origin_cursor(e),
        cut_selection(e).pending is Some,
        cut_selection(e).undo == e.undo,
        cut_selection(e).pending->0.inverted.len() >= e.pending->0.inverted.len(),
        e.cursor != e.anchor ==> cut_selection(e).pending->0.inverted.len() > 0,
        at_boundaries(cut_selection(e)),
        cut_selection(e).cursor == sel_lo(e),
{
    if e.cursor != e.anchor {
        lemma_taken_sound(e, sel_lo(e), sel_hi(e));
    }
}

pub proof fn lemma_typed_sound(e: EditorModel, s: Seq<char>)
    requires
        open_sound(e),
        e.pending is Some,
        on_boundary(e.doc.text, e.cursor),
    ensures
        sound(e) ==> sound(typed(e, s)),
        open_sound(typed(e, s)),
        origin(typed(e, s)) == origin(e),
        origin_cursor(typed(e, s)) == origin_cursor(e),
        typed(e, s).pending is Some,
        typed(e, s).undo == e.undo,
        s.len() > 0 ==> typed(e, s).pending->0.inverted.len() > 0,
        typed(e, s).pending->0.inverted.len() >= e.pending->0.inverted.len(),
        at_boundaries(typed(e, s)),
{
    lemma_put_sound(e, e.cursor, s);
}

/// Where taking back the open group puts the cursor: where it stood at the start.
pub open spec fn start_cursor(e: EditorModel) -> int {
    clamp_to(origin_cursor(e), blen(origin(e)) as int)
}

/// Taking back an open group that holds an edit gives the text that it started from.
pub proof fn lemma_undone_open(e: EditorModel)
    requires
        e.pending is Some,
        e.pending->0.inverted.len() > 0,
    ensures
        flushed(e).undo.len() > 0,
        undone(e).doc.text == origin(e),
        undone(e).cursor == start_cursor(e),
        undone(e).anchor == start_cursor(e),
        undone(flushed(e)).doc.text == origin(e),
        undone(flushed(e)).cursor == start_cursor(e),
        undone(flushed(e)).anchor == start_cursor(e),
        flushed(flushed(e)) == flushed(e),
{
    let g = e.pending->0;
    let u = e.undo.push(GroupModel { after: e.cursor, ..g });
    assert(u.last().inverted == g.inverted);
    assert(flushed(e).undo.last() == u.last());
    lemma_apply_all(e.doc, g.inverted);
}

// ---------- the laws ----------

/// If the text of `f` is not `t`, there is something to undo, and one undo makes it `t`, with
/// the cursor at `c` and nothing selected.
pub open spec fn leads_back(f: EditorModel, t: Seq<char>, c: int) -> bool {
    f.doc.text != t ==> {
        &&& flushed(f).undo.len() > 0
        &&& undone(f).doc.text == t
        &&& undone(f).cursor == c
        &&& undone(f).anchor == c
    }
}

/// Closing a group keeps the way back.
proof fn lemma_closed_leads_back(f: EditorModel)
    requires
        f.pending is Some,
    ensures
        leads_back(f, origin(f), start_cursor(f)),
        leads_back(flushed(f), origin(f), start_cursor(f)),
{
    lemma_flushed_sound(f);
    if f.pending->0.inverted.len() > 0 {
        lemma_undone_open(f);
    } else {
        assert(f.doc.text == origin(f));
    }
}

/// Typing is taken back by one undo: to the text before it, or to where the group
/// of edits started that it was joined to.
pub proof fn typing_is_taken_back(e: EditorModel, s: Seq<char>, soon: bool)
    requires
        open_sound(e),
        at_boundaries(e),
    ensures
        leads_back(
            inserted(e, s, soon),
            if merges(e, is_single(s), soon) {
                origin(e)
            } else {
                e.doc.text
            },
            if merges(e, is_single(s), soon) {
                start_cursor(e)
            } else {
                e.cursor
            },
        ),
        at_boundaries(inserted(e, s, soon)),
        sound(e) ==> sound(inserted(e, s, soon)),
        open_sound(inserted(e, s, soon)),
{
    lemma_boundary_nonneg(e.doc.text, e.cursor);
    if s.len() > 0 {
        let m = merges(e, is_single(s), soon);
        lemma_begun_sound(e, m);
        let b = begun(e, m);
        lemma_cut_sound(b);
        let c = cut_selection(b);
        lemma_typed_sound(c, s);
        let f = no_goal(typed(c, s));
        moving_keeps_history_sound(typed(c, s), f);
        lemma_closed_leads_back(f);
        lemma_flushed_sound(f);
    }
}

/// A backspace is taken back by one undo.
pub proof fn backspace_is_taken_back(e: EditorModel, soon: bool)
    requires
        open_sound(e),
        at_boundaries(e),
    ensures
        leads_back(
            backspaced(e, soon),
            if merges(e, true, soon) {
                origin(e)
            } else {
                e.doc.text
            },
            if merges(e, true, soon) {
                start_cursor(e)
            } else {
                e.cursor
            },
        ),
        at_boundaries(backspaced(e, soon)),
        sound(e) ==> sound(backspaced(e, soon)),
        open_sound(backspaced(e, soon)),
{
    lemma_boundary_nonneg(e.doc.text, e.cursor);
    let m = merges(e, true, soon);
    lemma_begun_sound(e, m);
    let b = begun(e, m);
    if b.cursor != b.anchor {
        lemma_cut_sound(b);
        lemma_closed_leads_back(cut_selection(b));
        lemma_flushed_sound(cut_selection(b));
    } else if b.cursor == 0 {
        lemma_closed_leads_back(b);
    } else {
        let t = b.doc.text;
        let a = back_from(t, b.cursor);
        lemma_back_on_boundary(t, b.cursor);
        lemma_taken_sound(b, a, b.cursor);
        let f = no_goal(at_cursor(taken(b, a, b.cursor), a));
        moving_keeps_history_sound(taken(b, a, b.cursor), f);
        lemma_closed_leads_back(f);
    }
}

proof fn lemma_back_on_boundary(t: Seq<char>, c: int)
    requires
        0 <= c,
    ensures
        on_boundary(t, back_from(t, c)),
{
    lemma_prev_on_boundary(t, c);
    lemma_prev_boundary(t, c);
    let p = prev_boundary(t, c);
    if 0 <= p {
        lemma_prev_on_boundary(t, p);
    }
}

proof fn lemma_prev_on_boundary(t: Seq<char>, c: int)
    requires
        0 <= c,
    ensures
        0 <= prev_boundary(t, c),
        on_boundary(t, prev_boundary(t, c)),
{
    lemma_floor_index(t, c);
    let i = floor_index(t, c);
    crate::text::lemma_off_ends(t);
    if i == 0 {
        assert(off(t, 0) == 0);
    } else {
        assert(off(t, i - 1) == prev_boundary(t, c));
    }
}

/// A forward delete is taken back by one undo.
pub proof fn forward_delete_is_taken_back(e: EditorModel, soon: bool)
    requires
        open_sound(e),
        at_boundaries(e),
    ensures
        leads_back(
            deleted_forward(e, soon),
            if merges(e, true, soon) {
                origin(e)
            } else {
                e.doc.text
            },
            if merges(e, true, soon) {
                start_cursor(e)
            } else {
                e.cursor
            },
        ),
        at_boundaries(deleted_forward(e, soon)),
        sound(e) ==> sound(deleted_forward(e, soon)),
        open_sound(deleted_forward(e, soon)),
{
    lemma_boundary_nonneg(e.doc.text, e.cursor);
    let m = merges(e, true, soon);
    lemma_begun_sound(e, m);
    let b = begun(e, m);
    if b.cursor != b.anchor {
        lemma_cut_sound(b);
        lemma_closed_leads_back(cut_selection(b));
        lemma_flushed_sound(cut_selection(b));
    } else if b.cursor >= blen(b.doc.text) {
        lemma_closed_leads_back(b);
    } else {
        let to = forward_to(b.doc.text, b.cursor);
        lemma_taken_sound(b, b.cursor, to);
        let f = no_goal(taken(b, b.cursor, to));
        moving_keeps_history_sound(taken(b, b.cursor, to), f);
        lemma_closed_leads_back(f);
    }
}

proof fn lemma_line_on_boundary(t: Seq<char>, k: int)
    requires
        0 <= k,
    ensures
        on_boundary(t, byte_of_line(t, k)),
{
    lemma_line_index(t, k);
    assert(off(t, line_index(t, k)) == byte_of_line(t, k));
}

/// A line break is taken back by one undo.
pub proof fn line_break_is_taken_back(e: EditorModel)
    requires
        at_boundaries(e),
    ensures
        leads_back(broken(e), e.doc.text, e.cursor),
        at_boundaries(broken(e)),
        sound(e) ==> sound(broken(e)),
        open_sound(broken(e)),
{
    lemma_boundary_nonneg(e.doc.text, e.cursor);
    lemma_begun_sound(e, false);
    let b = begun(e, false);
    lemma_cut_sound(b);
    let c = cut_selection(b);
    let t = c.doc.text;
    let nl = newline_text(c.doc.newline);
    let (line, col) = line_col(t, c.cursor);
    let text = line_at(t, line);
    let start = byte_of_line(t, line);
    let i = choose|i: int| 0 <= i <= t.len() && #[trigger] off(t, i) == c.cursor;
    crate::text::lemma_off_mono(t, i, t.len() as int);
    lemma_blen_split(t, i);
    lemma_line_of_byte(t, c.cursor);
    lemma_line_on_boundary(t, line);
    lemma_taken_sound(c, start, start + blen(text));
    let d = at_cursor(taken(c, start, start + blen(text)), start);
    moving_keeps_history_sound(taken(c, start, start + blen(text)), d);
    lemma_typed_sound(d, nl);
    lemma_typed_sound(c, nl);
    let f1 = no_goal(typed(d, nl));
    moving_keeps_history_sound(typed(d, nl), f1);
    lemma_closed_leads_back(f1);
    lemma_flushed_sound(f1);
    let f2 = no_goal(typed(c, nl));
    moving_keeps_history_sound(typed(c, nl), f2);
    lemma_closed_leads_back(f2);
    lemma_flushed_sound(f2);
    match continuation(text) {
        Some((next, _)) => {
            lemma_typed_sound(c, nl + next);
            let f3 = no_goal(typed(c, nl + next));
            moving_keeps_history_sound(typed(c, nl + next), f3);
            lemma_closed_leads_back(f3);
            lemma_flushed_sound(f3);
        },
        None => {},
    }
}

proof fn lemma_shift_line_sound(s: ShiftModel, first: int, line: int, add: bool)
    requires
        open_sound(s.e),
        s.e.pending is Some,
        0 <= line,
    ensures
        sound(s.e) ==> sound(shift_line(s, first, line, add).e),
        open_sound(shift_line(s, first, line, add).e),
        shift_line(s, first, line, add).e.pending is Some,
        origin(shift_line(s, first, line, add).e) == origin(s.e),
        origin_cursor(shift_line(s, first, line, add).e) == origin_cursor(s.e),
        shift_line(s, first, line, add).e.undo == s.e.undo,
{
    let t = s.e.doc.text;
    let start = byte_of_line(t, line);
    let text = line_at(t, line);
    let run = run_of(text, ' ');
    let cut = if run < 2 {
        run
    } else {
        2
    };
    lemma_line_on_boundary(t, line);
    lemma_put_sound(s.e, start, two_blanks());
    lemma_taken_sound(s.e, start, start + cut);
}

proof fn lemma_shift_lines_sound(s: ShiftModel, first: int, line: int, add: bool)
    requires
        open_sound(s.e),
        s.e.pending is Some,
        0 <= first,
    ensures
        sound(s.e) ==> sound(shift_lines_from(s, first, line, add).e),
        open_sound(shift_lines_from(s, first, line, add).e),
        shift_lines_from(s, first, line, add).e.pending is Some,
        origin(shift_lines_from(s, first, line, add).e) == origin(s.e),
        origin_cursor(shift_lines_from(s, first, line, add).e) == origin_cursor(s.e),
        shift_lines_from(s, first, line, add).e.undo == s.e.undo,
    decreases line - first + 1,
{
    if line >= first {
        lemma_shift_line_sound(s, first, line, add);
        lemma_shift_lines_sound(shift_line(s, first, line, add), first, line - 1, add);
    }
}

proof fn lemma_shifted_sound(e: EditorModel, add: bool)
    requires
        open_sound(e),
        e.pending is Some,
        0 <= sel_lo(e),
    ensures
        sound(e) ==> sound(shifted(e, add)),
        open_sound(shifted(e, add)),
        shifted(e, add).pending is Some,
        origin(shifted(e, add)) == origin(e),
        origin_cursor(shifted(e, add)) == origin_cursor(e),
{
    let t = e.doc.text;
    let first = line_of_byte(t, sel_lo(e));
    let last = line_of_byte(t, sel_hi(e));
    lemma_floor_index(t, sel_lo(e));
    crate::rope::lemma_breaks_mono(t, 0, floor_index(t, sel_lo(e)));
    let s0 = ShiftModel { e, first: 0, total: 0 };
    lemma_shift_lines_sound(s0, first, last, add);
    let s = shift_lines_from(s0, first, last, add);
    moving_keeps_history_sound(s.e, shifted(e, add));
}

/// Indenting is taken back by one undo.
pub proof fn indenting_is_taken_back(e: EditorModel)
    requires
        at_boundaries(e),
    ensures
        leads_back(indented(e), e.doc.text, e.cursor),
        sound(e) ==> sound(indented(e)),
        open_sound(indented(e)),
{
    lemma_begun_sound(e, false);
    let b = begun(e, false);
    lemma_boundary_nonneg(b.doc.text, b.cursor);
    lemma_boundary_nonneg(b.doc.text, b.anchor);
    lemma_shifted_sound(b, true);
    lemma_closed_leads_back(shifted(b, true));
    lemma_flushed_sound(shifted(b, true));
    lemma_typed_sound(b, two_blanks());
    lemma_closed_leads_back(typed(b, two_blanks()));
    lemma_flushed_sound(typed(b, two_blanks()));
}

/// Outdenting is taken back by one undo.
pub proof fn outdenting_is_taken_back(e: EditorModel)
    requires
        0 <= sel_lo(e),
    ensures
        leads_back(outdented(e), e.doc.text, clamp_to(e.cursor, blen(e.doc.text) as int)),
        sound(e) ==> sound(outdented(e)),
        open_sound(outdented(e)),
{
    lemma_begun_sound(e, false);
    let b = begun(e, false);
    lemma_shifted_sound(b, false);
    lemma_closed_leads_back(shifted(b, false));
    lemma_flushed_sound(shifted(b, false));
}

proof fn lemma_boundary_nonneg(t: Seq<char>, b: int)
    requires
        on_boundary(t, b),
    ensures
        0 <= b <= blen(t),
{
    let i = choose|i: int| 0 <= i <= t.len() && #[trigger] off(t, i) == b;
    lemma_blen_split(t, i);
}

/// Wrapping in markers, and freeing from them, is taken back by one undo.
pub proof fn wrapping_is_taken_back(e: EditorModel, m: Seq<char>)
    requires
        at_boundaries(e),
    ensures
        leads_back(wrap_toggled(e, m), e.doc.text, e.cursor),
        at_boundaries(wrap_toggled(e, m)),
        sound(e) ==> sound(wrap_toggled(e, m)),
        open_sound(wrap_toggled(e, m)),
{
    lemma_boundary_nonneg(e.doc.text, e.cursor);
    lemma_begun_sound(e, false);
    let b = begun(e, false);
    let lo = sel_lo(b);
    let hi = sel_hi(b);
    let text = bytes_between(b.doc.text, lo, hi);
    let new = if blen(text) >= 2 * blen(m) && m.is_prefix_of(text) && m.is_suffix_of(text) {
        text.subrange(m.len() as int, text.len() - m.len())
    } else {
        m + text + m
    };
    if lo == hi {
        lemma_put_sound(b, b.cursor, m + m);
        let t = b.doc.text;
        let i = choose|i: int| 0 <= i <= t.len() && #[trigger] off(t, i) == b.cursor;
        let f = at_cursor(put(b, b.cursor, m + m), b.cursor + blen(m));
        moving_keeps_history_sound(put(b, b.cursor, m + m), f);
        lemma_closed_leads_back(f);
        lemma_flushed_sound(f);
        lemma_insert_at(t, i, m + m);
        let u = t.take(i) + (m + m) + t.skip(i);
        assert(u.take(i + m.len()) =~= t.take(i) + m);
        lemma_blen_concat(t.take(i), m);
        assert(off(u, i + m.len()) == b.cursor + blen(m));
        if m.len() == 0 {
            assert(m + m =~= m);
        }
        assert(on_boundary(f.doc.text, f.cursor));
    } else {
        lemma_taken_sound(b, lo, hi);
        let c = taken(b, lo, hi);
        lemma_put_sound(c, lo, new);
        let f = EditorModel { anchor: lo, cursor: lo + blen(new), ..put(c, lo, new) };
        moving_keeps_history_sound(put(c, lo, new), f);
        lemma_closed_leads_back(f);
        lemma_flushed_sound(f);
    }
}

/// Making a line a heading is taken back by one undo.
pub proof fn heading_is_taken_back(e: EditorModel, level: u8)
    requires
        0 <= e.cursor,
    ensures
        leads_back(heading_set(e, level), e.doc.text, clamp_to(e.cursor, blen(e.doc.text) as int)),
        at_boundaries(heading_set(e, level)),
        sound(e) ==> sound(heading_set(e, level)),
        open_sound(heading_set(e, level)),
{
    lemma_begun_sound(e, false);
    let b = begun(e, false);
    let t = b.doc.text;
    let line = line_col(t, b.cursor).0;
    lemma_line_of_byte(t, clamp_to(b.cursor, blen(t) as int));
    let start = byte_of_line(t, line);
    let text = line_at(t, line);
    let new = as_heading(text, level);
    lemma_line_on_boundary(t, line);
    lemma_taken_sound(b, start, start + blen(text));
    let c = taken(b, start, start + blen(text));
    lemma_put_sound(c, start, new);
    let f = at_cursor(put(c, start, new), start + blen(new));
    moving_keeps_history_sound(put(c, start, new), f);
    lemma_closed_leads_back(f);
    lemma_flushed_sound(f);
}

/// Where a line's check box stands is between two characters.
proof fn lemma_task_on_boundary(e: EditorModel)
    requires
        0 <= e.cursor,
    ensures
        task_at_cursor(e) matches Some((at, _)) ==> on_boundary(e.doc.text, at),
{
    match task_at_cursor(e) {
        Some((at, _)) => {
            let t = e.doc.text;
            let line = line_col(t, e.cursor).0;
            lemma_line_of_byte(t, clamp_to(e.cursor, blen(t) as int));
            let text = line_at(t, line);
            let k = lead_spaces(text);
            lemma_lead_spaces(text);
            reveal_strlit("- ");
            reveal_strlit("* ");
            reveal_strlit("+ ");
            let li = line_index(t, line);
            lemma_line_index(t, line);
            lemma_line_index(t, line + 1);
            crate::rope::lemma_line_index_mono(t, line, line + 1);
            crate::document::lemma_line_parts(crate::rope::full_line(t, line));
            assert(text =~= t.subrange(li, li + text.len()));
            assert(trim_start(text)[0] == text[k]);
            assert(trim_start(text)[1] == text[k + 1]);
            lemma_off_subrange(t, li, li + text.len(), k);
            lemma_off_subrange(t, li, li + text.len(), k + 2);
            crate::text::lemma_off_step(text, k);
            crate::text::lemma_off_step(text, k + 1);
            let ts = trim_start(text);
            assert(ts.subrange(0, 2)[0] == ts[0] && ts.subrange(0, 2)[1] == ts[1]);
            assert(ts[0] == '-' || ts[0] == '*' || ts[0] == '+');
            assert(ts[1] == ' ');
            assert(off(text, k + 2) == off(text, k) + 2);
            assert(off(t, li + k + 2) == at);
        },
        None => {},
    }
}

/// Ticking a check box is taken back by one undo.
pub proof fn ticking_is_taken_back(e: EditorModel)
    requires
        0 <= e.cursor,
    ensures
        leads_back(task_toggled(e), e.doc.text, clamp_to(e.cursor, blen(e.doc.text) as int)),
        sound(e) ==> sound(task_toggled(e)),
        open_sound(e) ==> open_sound(task_toggled(e)),
{
    match task_at_cursor(e) {
        Some((at, ticked)) => {
            lemma_task_on_boundary(e);
            lemma_begun_sound(e, false);
            let b = begun(e, false);
            lemma_taken_sound(b, at, at + 3);
            let c = taken(b, at, at + 3);
            let s = if ticked {
                seq!['[', ' ', ']']
            } else {
                seq!['[', 'x', ']']
            };
            lemma_put_sound(c, at, s);
            lemma_closed_leads_back(put(c, at, s));
            lemma_flushed_sound(put(c, at, s));
        },
        None => {},
    }
}

/// Replacing the selection is taken back by one undo.
pub proof fn replacing_is_taken_back(e: EditorModel, s: Seq<char>)
    requires
        at_boundaries(e),
    ensures
        leads_back(selection_replaced(e, s), e.doc.text, e.cursor),
        at_boundaries(selection_replaced(e, s)),
        sound(e) ==> sound(selection_replaced(e, s)),
        open_sound(selection_replaced(e, s)),
{
    lemma_boundary_nonneg(e.doc.text, e.cursor);
    lemma_begun_sound(e, false);
    let b = begun(e, false);
    lemma_cut_sound(b);
    lemma_typed_sound(cut_selection(b), s);
    lemma_closed_leads_back(typed(cut_selection(b), s));
    lemma_flushed_sound(typed(cut_selection(b), s));
}

/// The state in which the last edits were closed off from what follows.
pub open spec fn group_broken(e: EditorModel) -> EditorModel {
    EditorModel { timed: false, ..flushed(e) }
}

/// Where the edits before were closed off, whichever edit follows is taken back by one undo:
/// the text is what it was, the cursor is where it was, and nothing is selected.
pub proof fn edits_behind_a_break_are_taken_back(
    e: EditorModel,
    s: Seq<char>,
    level: u8,
    soon: bool,
)
    requires
        at_boundaries(e),
    ensures
        ({
            let b = group_broken(e);
            let (t, c) = (e.doc.text, e.cursor);
            &&& b.doc == e.doc && b.cursor == e.cursor && b.anchor == e.anchor
            &&& leads_back(inserted(b, s, soon), t, c)
            &&& leads_back(backspaced(b, soon), t, c)
            &&& leads_back(deleted_forward(b, soon), t, c)
            &&& leads_back(broken(b), t, c)
            &&& leads_back(indented(b), t, c)
            &&& leads_back(outdented(b), t, c)
            &&& leads_back(wrap_toggled(b, s), t, c)
            &&& leads_back(heading_set(b, level), t, c)
            &&& leads_back(task_toggled(b), t, c)
            &&& leads_back(selection_replaced(b, s), t, c)
        }),
{
    let b = group_broken(e);
    lemma_flushed_sound(e);
    lemma_boundary_nonneg(e.doc.text, e.cursor);
    lemma_boundary_nonneg(e.doc.text, e.anchor);
    typing_is_taken_back(b, s, soon);
    backspace_is_taken_back(b, soon);
    forward_delete_is_taken_back(b, soon);
    line_break_is_taken_back(b);
    indenting_is_taken_back(b);
    outdenting_is_taken_back(b);
    wrapping_is_taken_back(b, s);
    heading_is_taken_back(b, level);
    ticking_is_taken_back(b);
    replacing_is_taken_back(b, s);
}

/// The pieces of a stream, taken in one after the other.
pub open spec fn stream_of(e: EditorModel, pieces: Seq<Seq<char>>) -> EditorModel
    decreases pieces.len(),
{
    if pieces.len() == 0 {
        e
    } else {
        streamed(stream_of(e, pieces.drop_last()), pieces.last())
    }
}

proof fn lemma_stream(e: EditorModel, pieces: Seq<Seq<char>>)
    requires
        at_boundaries(e),
        e.pending is None,
    ensures
        sound(e) ==> sound(stream_of(e, pieces)),
        open_sound(stream_of(e, pieces)),
        at_boundaries(stream_of(e, pieces)),
        origin(stream_of(e, pieces)) == e.doc.text,
        stream_of(e, pieces).pending is Some ==> origin_cursor(stream_of(e, pieces)) == e.cursor,
        stream_of(e, pieces).pending is None ==> stream_of(e, pieces).cursor == e.cursor,
        stream_of(e, pieces).pending is None ==> stream_of(e, pieces).doc.text == e.doc.text,
    decreases pieces.len(),
{
    if pieces.len() > 0 {
        let f = stream_of(e, pieces.drop_last());
        lemma_stream(e, pieces.drop_last());
        let s = pieces.last();
        if s.len() > 0 {
            if f.pending is None {
                lemma_begun_sound(f, false);
                lemma_typed_sound(begun(f, false), s);
            } else {
                lemma_typed_sound(f, s);
            }
        }
    }
}

/// Whatever streams in is taken back by one undo, however many pieces it came in.
pub proof fn stream_is_one_undo_unit(e: EditorModel, pieces: Seq<Seq<char>>)
    requires
        at_boundaries(e),
        e.pending is None,
    ensures
        leads_back(flushed(stream_of(e, pieces)), e.doc.text, e.cursor),
        sound(e) ==> sound(flushed(stream_of(e, pieces))),
{
    lemma_boundary_nonneg(e.doc.text, e.cursor);
    lemma_stream(e, pieces);
    let f = stream_of(e, pieces);
    lemma_flushed_sound(f);
    if f.pending is Some {
        lemma_closed_leads_back(f);
    }
}

/// Undo keeps the history sound, and redo gives back the text that undo took away, with
/// the cursor where it stood behind the edit.
pub proof fn redo_gives_back_what_undo_took(e: EditorModel)
    requires
        sound(e),
        flushed(e).undo.len() > 0,
    ensures
        sound(undone(e)),
        redone(undone(e)).doc.text == e.doc.text,
        redone(undone(e)).cursor == clamp_to(
            flushed(e).undo.last().after,
            blen(e.doc.text) as int,
        ),
        redone(undone(e)).anchor == redone(undone(e)).cursor,
        e.pending is Some && e.pending->0.inverted.len() > 0 ==> redone(undone(e)).cursor
            == clamp_to(e.cursor, blen(e.doc.text) as int),
        sound(redone(undone(e))),
{
    lemma_flushed_sound(e);
    let f = flushed(e);
    let g = f.undo.last();
    let u = undone(e);
    lemma_apply_all(f.doc, g.inverted);
    group_is_taken_back(f.doc.text, g.inverted);
    let back = counter_group(g);
    assert(u.redo.last() == back);
    assert(u.redo.drop_last() =~= f.redo);
    assert(sound(u));
    undo_gives_back_what_redo_took(u);
    lemma_apply_all(u.doc, back.inverted);
}

/// Redo keeps the history sound, and undo gives back the text that redo took away, with
/// the cursor where the edit had started.
pub proof fn undo_gives_back_what_redo_took(e: EditorModel)
    requires
        sound(e),
        e.pending is None,
        e.redo.len() > 0,
    ensures
        sound(redone(e)),
        undone(redone(e)).doc.text == e.doc.text,
        undone(redone(e)).cursor == clamp_to(e.redo.last().after, blen(e.doc.text) as int),
        undone(redone(e)).anchor == undone(redone(e)).cursor,
{
    let g = e.redo.last();
    let r = redone(e);
    lemma_apply_all(e.doc, g.inverted);
    group_is_taken_back(e.doc.text, g.inverted);
    let back = counter_group(g);
    assert(r.undo.last() == back);
    assert(r.undo.drop_last() =~= e.undo);
    lemma_apply_all(r.doc, back.inverted);
}

/// Characters typed quickly one after the other.
pub open spec fn quickly(e: EditorModel, cs: Seq<char>) -> EditorModel
    decreases cs.len(),
{
    if cs.len() == 0 {
        e
    } else if cs.len() == 1 {
        inserted(e, cs, false)
    } else {
        inserted(quickly(e, cs.drop_last()), seq![cs.last()], true)
    }
}

proof fn lemma_quickly(e: EditorModel, cs: Seq<char>)
    requires
        open_sound(e),
        at_boundaries(e),
        cs.len() > 0,
        !cs.contains('\n'),
    ensures
        ({
            let f = quickly(e, cs);
            &&& open_sound(f)
            &&& at_boundaries(f)
            &&& f.pending is Some
            &&& f.timed
            &&& origin(f) == e.doc.text
            &&& origin_cursor(f) == e.cursor
        }),
    decreases cs.len(),
{
    if cs.len() == 1 {
        assert(cs[0] != '\n') by {
            assert(cs.contains(cs[0]));
        }
        lemma_begun_sound(e, false);
        let b = begun(e, false);
        lemma_cut_sound(b);
        lemma_typed_sound(cut_selection(b), cs);
        moving_keeps_history_sound(
            typed(cut_selection(b), cs),
            no_goal(typed(cut_selection(b), cs)),
        );
        assert(is_single(cs));
    } else {
        let d = cs.drop_last();
        assert(!d.contains('\n')) by {
            if d.contains('\n') {
                let k = choose|k: int| 0 <= k < d.len() && d[k] == '\n';
                assert(cs[k] == '\n');
            }
        }
        lemma_quickly(e, d);
        let f = quickly(e, d);
        let s = seq![cs.last()];
        assert(cs.contains(cs.last()));
        assert(is_single(s));
        assert(merges(f, true, true));
        lemma_begun_sound(f, true);
        let b = begun(f, true);
        lemma_cut_sound(b);
        lemma_typed_sound(cut_selection(b), s);
        moving_keeps_history_sound(
            typed(cut_selection(b), s),
            no_goal(typed(cut_selection(b), s)),
        );
    }
}

/// What is typed quickly is taken back by one undo, however many characters it is; a character
/// that comes later, a line break, or a longer text is taken back alone.
pub proof fn quick_typing_is_one_undo_unit(
    e: EditorModel,
    cs: Seq<char>,
    later: char,
    long: Seq<char>,
)
    requires
        open_sound(e),
        at_boundaries(e),
        cs.len() > 0,
        !cs.contains('\n'),
        long.len() > 1 || long == seq!['\n'],
    ensures
        leads_back(quickly(e, cs), e.doc.text, e.cursor),
        ({
            let f = quickly(e, cs);
            &&& leads_back(inserted(f, seq![later], false), f.doc.text, f.cursor)
            &&& leads_back(inserted(f, long, true), f.doc.text, f.cursor)
        }),
{
    lemma_boundary_nonneg(e.doc.text, e.cursor);
    lemma_quickly(e, cs);
    let f = quickly(e, cs);
    lemma_closed_leads_back(f);
    typing_is_taken_back(f, seq![later], false);
    typing_is_taken_back(f, long, true);
}

/// The history holds the last two thousand groups of edits: the newest comes last, and only
/// where there are more the oldest goes.
pub proof fn the_newest_edits_can_be_undone(e: EditorModel)
    requires
        e.undo.len() <= 2000,
        e.pending is Some,
        e.pending->0.inverted.len() > 0,
    ensures
        0 < flushed(e).undo.len() <= 2000,
        flushed(e).undo.last().inverted == e.pending->0.inverted,
        flushed(e).undo.last().before == e.pending->0.before,
        flushed(e).undo.last().after == e.cursor,
        e.undo.len() < 2000 ==> flushed(e).undo.drop_last() == e.undo,
        e.undo.len() == 2000 ==> flushed(e).undo.drop_last() == e.undo.drop_first(),
{
    let u = e.undo.push(GroupModel { after: e.cursor, ..e.pending->0 });
    assert(u.drop_last() =~= e.undo);
    if e.undo.len() == 2000 {
        assert(u.drop_first().drop_last() =~= e.undo.drop_first());
    }
}

} // verus!
