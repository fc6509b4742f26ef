//! What is promised of paths to notes, of counting tags, and of the graph of the notes.
use crate::index::{
    busier, degree_in, edges_among, last_at_path, lemma_best_by_path, line_hits, note_name,
    path_key, paths_differ, picked, place_of, query_from, query_matches, resolved, slot_order,
    tags_of, tags_upto, target_key, text_at, times, NoteModel, QueryModel,
};
use crate::paths::{depth, file_name};
use crate::text::{has_text, lemma_text_order_total, lowercase, text_before, trim};
use vstd::prelude::*;

verus! {

/// A link with a path leads to the note whose path ends with it; of several to the one that
/// lies in the fewest directories, and of those to the first.
pub proof fn paths_lead_to_the_nearest_note(notes: Seq<NoteModel>, target: Seq<char>, j: int)
    requires
        trim(target).len() > 0,
        target_key(target).contains('/'),
        0 <= j < notes.len(),
        target_key(target).is_suffix_of(path_key(notes[j].path)),
    ensures
        resolved(notes, target) matches Some(i) && {
            &&& 0 <= i < notes.len()
            &&& target_key(target).is_suffix_of(path_key(notes[i].path))
            &&& depth(notes[i].path) <= depth(notes[j].path)
            &&& depth(notes[i].path) == depth(notes[j].path) ==> i <= j
        },
{
    lemma_best_by_path(notes, target_key(target), notes.len() as int);
}

proof fn lemma_last_at_path(notes: Seq<NoteModel>, path: Seq<char>, n: int)
    requires
        0 <= n <= notes.len(),
    ensures
        match last_at_path(notes, path, n) {
            Some(i) => 0 <= i < n && notes[i].path == path && forall|j: int|
                i < j < n ==> (#[trigger] notes[j]).path != path,
            None => forall|j: int| 0 <= j < n ==> (#[trigger] notes[j]).path != path,
        },
    decreases n,
{
    if n > 0 && notes[n - 1].path != path {
        lemma_last_at_path(notes, path, n - 1);
    }
}

/// A path is shown by the name of the note there, or else by the name of the file.
pub proof fn paths_are_shown_by_name(notes: Seq<NoteModel>, path: Seq<char>, i: int)
    ensures
        0 <= i < notes.len() && notes[i].path == path && (forall|j: int|
            i < j < notes.len() ==> (#[trigger] notes[j]).path != path) ==> note_name(notes, path)
            == notes[i].name,
        (forall|j: int| 0 <= j < notes.len() ==> (#[trigger] notes[j]).path != path) ==> note_name(
            notes,
            path,
        ) == match file_name(path) {
            Some(n) => n,
            None => Seq::empty(),
        },
{
    lemma_last_at_path(notes, path, notes.len() as int);
}

/// A tag counts once for each note that has it.
pub proof fn tags_count_by_notes(notes: Seq<NoteModel>, note: NoteModel, t: Seq<char>)
    ensures
        times(tags_of(notes.push(note)), t) == times(tags_of(notes), t) + times(note.tags, t),
        times(tags_of(Seq::empty()), t) == 0,
        !note.tags.contains(t) ==> times(note.tags, t) == 0,
        note.tags.contains(t) && note.tags.no_duplicates() ==> times(note.tags, t) == 1,
{
    let all = notes.push(note);
    let n = notes.len() as int;
    lemma_tags_same(all, notes, n);
    assert(tags_of(all) == tags_upto(all, n) + note.tags);
    lemma_times_add(tags_of(notes), note.tags, t);
    lemma_times_once(note.tags, t);
}

proof fn lemma_tags_same(a: Seq<NoteModel>, b: Seq<NoteModel>, n: int)
    requires
        0 <= n <= b.len() <= a.len(),
        forall|k: int| 0 <= k < b.len() ==> #[trigger] a[k] == b[k],
    ensures
        tags_upto(a, n) == tags_upto(b, n),
    decreases n,
{
    if n > 0 {
        lemma_tags_same(a, b, n - 1);
        assert(a[n - 1] == b[n - 1]);
    }
}

proof fn lemma_times_add(a: Seq<Seq<char>>, b: Seq<Seq<char>>, t: Seq<char>)
    ensures
        times(a + b, t) == times(a, t) + times(b, t),
    decreases b.len(),
{
    if b.len() == 0 {
        assert(a + b =~= a);
    } else {
        assert((a + b).drop_last() =~= a + b.drop_last());
        lemma_times_add(a, b.drop_last(), t);
    }
}

proof fn lemma_times_once(v: Seq<Seq<char>>, t: Seq<char>)
    ensures
        !v.contains(t) ==> times(v, t) == 0,
        v.contains(t) && v.no_duplicates() ==> times(v, t) == 1,
    decreases v.len(),
{
    if v.len() > 0 {
        let d = v.drop_last();
        lemma_times_once(d, t);
        if v.last() == t {
            assert(v[v.len() - 1] == t);
            if v.no_duplicates() && d.contains(t) {
                let k = choose|k: int| 0 <= k < d.len() && d[k] == t;
                assert(v[k] == v[v.len() - 1]);
            }
        } else if v.contains(t) {
            let k = choose|k: int| 0 <= k < v.len() && v[k] == t;
            assert(d[k] == t);
        }
        if d.contains(t) {
            let k = choose|k: int| 0 <= k < d.len() && d[k] == t;
            assert(v[k] == t);
        }
        if v.no_duplicates() {
            assert(d.no_duplicates()) by {
                assert forall|i: int, j: int| 0 <= i < d.len() && 0 <= j < d.len() && i != j implies d[i]
                    != d[j] by {
                    assert(v[i] != v[j]);
                }
            }
        }
    }
}

/// A note has as many connections as pairs that it stands in.
pub proof fn connections_count_pairs(raw: Seq<(int, int)>, x: (int, int), i: int)
    ensures
        degree_in(Seq::empty(), i) == 0,
        x.0 == i || x.1 == i ==> degree_in(raw.push(x), i) == degree_in(raw, i) + 1,
        x.0 != i && x.1 != i ==> degree_in(raw.push(x), i) == degree_in(raw, i),
{
    assert(raw.push(x).drop_last() =~= raw);
}

proof fn lemma_place(picks: Seq<usize>, x: int, i: int)
    requires
        0 <= i <= picks.len(),
    ensures
        match place_of(picks, x, i) {
            Some(k) => i <= k < picks.len() && picks[k] == x,
            None => forall|k: int| i <= k < picks.len() ==> #[trigger] picks[k] != x,
        },
    decreases picks.len() - i,
{
    if i < picks.len() && picks[i] != x {
        lemma_place(picks, x, i + 1);
    }
}

/// Whether two places of the graph show this pair.
pub open spec fn shows_pair(picks: Seq<usize>, e: (int, int), x: (int, int)) -> bool {
    0 <= e.0 < picks.len() && 0 <= e.1 < picks.len() && picks[e.0] == x.0 && picks[e.1] == x.1
}

/// The graph shows the pairs of which both notes are shown, all of them and no others.
pub proof fn the_graph_shows_pairs_of_its_notes(raw: Seq<(int, int)>, picks: Seq<usize>)
    ensures
        forall|j: int|
            0 <= j < edges_among(raw, picks).len() ==> exists|k: int|
                0 <= k < raw.len() && shows_pair(
                    picks,
                    #[trigger] edges_among(raw, picks)[j],
                    #[trigger] raw[k],
                ),
        forall|k: int, a: int, b: int|
            0 <= k < raw.len() && #[trigger] shows_pair(picks, (a, b), raw[k]) ==> exists|j: int|
                0 <= j < edges_among(raw, picks).len() && shows_pair(
                    picks,
                    #[trigger] edges_among(raw, picks)[j],
                    raw[k],
                ),
    decreases raw.len(),
{
    if raw.len() > 0 {
        let d = raw.drop_last();
        the_graph_shows_pairs_of_its_notes(d, picks);
        let (es, rest) = (edges_among(raw, picks), edges_among(d, picks));
        let x = raw.last();
        lemma_place(picks, x.0, 0);
        lemma_place(picks, x.1, 0);
        assert forall|j: int| 0 <= j < es.len() implies exists|k: int|
            0 <= k < raw.len() && shows_pair(picks, #[trigger] es[j], #[trigger] raw[k]) by {
            if j < rest.len() {
                assert(es[j] == rest[j]);
                let k = choose|k: int|
                    0 <= k < d.len() && shows_pair(picks, rest[j], #[trigger] d[k]);
                assert(raw[k] == d[k]);
                assert(shows_pair(picks, es[j], raw[k]));
            } else {
                assert(shows_pair(picks, es[j], raw[raw.len() - 1]));
            }
        }
        assert forall|k: int, a: int, b: int|
            0 <= k < raw.len() && #[trigger] shows_pair(picks, (a, b), raw[k]) implies exists|j: int|
            0 <= j < es.len() && shows_pair(picks, #[trigger] es[j], raw[k]) by {
            if k < d.len() {
                assert(raw[k] == d[k]);
                assert(shows_pair(picks, (a, b), d[k]));
                let j = choose|j: int|
                    0 <= j < rest.len() && shows_pair(picks, #[trigger] rest[j], d[k]);
                assert(es[j] == rest[j]);
            } else {
                assert(picks[a] == x.0 && picks[b] == x.1);
                assert(shows_pair(picks, es[rest.len() as int], raw[k]));
            }
        }
    }
}

/// The graph shows the notes with the most connections, of equals those whose names come first;
/// and it shows them in the order of their names.
pub proof fn the_graph_prefers_what_is_connected(
    notes: Seq<NoteModel>,
    deg: Seq<usize>,
    most: int,
    picks: Seq<usize>,
    a: usize,
    b: usize,
)
    requires
        picked(notes, deg, most, picks),
        a < notes.len() && b < notes.len(),
    ensures
        picks.contains(b) && deg[a as int] > deg[b as int] ==> picks.contains(a),
        picks.contains(b) && deg[a as int] == deg[b as int] && text_before(
            notes[a as int].name,
            notes[b as int].name,
        ) ==> picks.contains(a),
        forall|j: int, k: int|
            0 <= j < k < picks.len() ==> !text_before(
                notes[#[trigger] picks[k] as int].name,
                notes[#[trigger] picks[j] as int].name,
            ),
        1 <= most <= notes.len() ==> picks.len() == most,
        notes.len() <= most ==> picks.len() == notes.len(),
{
    lemma_text_order_total(notes[a as int].name, notes[b as int].name);
    if picks.contains(b) && !picks.contains(a) {
        assert(busier(notes, deg, b as int, a as int));
    }
    assert forall|j: int, k: int| 0 <= j < k < picks.len() implies !text_before(
        notes[#[trigger] picks[k] as int].name,
        notes[#[trigger] picks[j] as int].name,
    ) by {
        assert(slot_order(notes, deg, true, picks[j] as int, picks[k] as int));
        lemma_text_order_total(notes[picks[k] as int].name, notes[picks[j] as int].name);
    }
}

// ---------- the order of findings ----------

proof fn lemma_from_later(
    notes: Seq<NoteModel>,
    read: Seq<Option<String>>,
    q: QueryModel,
    k: int,
    have: int,
    j: int,
) -> (n: int)
    requires
        0 <= k,
        0 <= j < query_from(notes, read, q, k, have).len(),
    ensures
        k <= n < notes.len(),
        query_from(notes, read, q, k, have)[j].path == notes[n].path,
    decreases notes.len() - k,
{
    if query_matches(notes, notes[k], text_at(read, k), q) {
        if j == 0 {
            k
        } else {
            lemma_from_later(notes, read, q, k + 1, have + 1, j - 1)
        }
    } else {
        lemma_from_later(notes, read, q, k + 1, have, j)
    }
}

/// What a query finds comes in the order of the notes.
pub proof fn findings_follow_the_notes(
    notes: Seq<NoteModel>,
    read: Seq<Option<String>>,
    q: QueryModel,
    k: int,
    have: int,
    a: int,
    b: int,
    i: int,
    j: int,
)
    requires
        paths_differ(notes),
        0 <= k <= a < b < notes.len(),
        0 <= i < query_from(notes, read, q, k, have).len(),
        0 <= j < query_from(notes, read, q, k, have).len(),
        query_from(notes, read, q, k, have)[i].path == notes[a].path,
        query_from(notes, read, q, k, have)[j].path == notes[b].path,
    ensures
        i < j,
    decreases notes.len() - k,
{
    let r = query_from(notes, read, q, k, have);
    assert(notes[a].path != notes[b].path);
    if query_matches(notes, notes[k], text_at(read, k), q) {
        let rest = query_from(notes, read, q, k + 1, have + 1);
        assert(r[0].path == notes[k].path);
        if k != b {
            assert(notes[k].path != notes[b].path);
        }
        assert(j > 0);
        assert(r[j] == rest[j - 1]);
        if a == k {
            if i > 0 {
                assert(r[i] == rest[i - 1]);
                let n = lemma_from_later(notes, read, q, k + 1, have + 1, i - 1);
                assert(notes[k].path != notes[n].path);
            }
        } else {
            assert(notes[k].path != notes[a].path);
            assert(i > 0);
            assert(r[i] == rest[i - 1]);
            findings_follow_the_notes(notes, read, q, k + 1, have + 1, a, b, i - 1, j - 1);
        }
    } else {
        if a == k {
            let n = lemma_from_later(notes, read, q, k + 1, have, i);
            assert(notes[k].path != notes[n].path);
        } else {
            findings_follow_the_notes(notes, read, q, k + 1, have, a, b, i, j);
        }
    }
}

/// What a search finds in a note comes in the order of its lines, each line once.
pub proof fn findings_follow_the_lines(
    note: NoteModel,
    lines: Seq<Seq<char>>,
    q: Seq<char>,
    most: int,
    total: int,
    from: int,
    per: int,
    have: int,
    i: int,
    j: int,
)
    requires
        0 <= from,
        0 <= i < j < line_hits(note, lines, q, most, total, from, per, have).len(),
    ensures
        from <= line_hits(note, lines, q, most, total, from, per, have)[i].line < line_hits(
            note,
            lines,
            q,
            most,
            total,
            from,
            per,
            have,
        )[j].line,
    decreases lines.len() - from,
{
    let r = line_hits(note, lines, q, most, total, from, per, have);
    if has_text(lowercase(lines[from]), q) {
        let rest = line_hits(note, lines, q, most, total, from + 1, per + 1, have + 1);
        assert(r[j] == rest[j - 1]);
        lemma_later_line(note, lines, q, most, total, from + 1, per + 1, have + 1, j - 1);
        if i > 0 {
            assert(r[i] == rest[i - 1]);
            findings_follow_the_lines(
                note,
                lines,
                q,
                most,
                total,
                from + 1,
                per + 1,
                have + 1,
                i - 1,
                j - 1,
            );
        }
    } else {
        findings_follow_the_lines(note, lines, q, most, total, from + 1, per, have, i, j);
    }
}

proof fn lemma_later_line(
    note: NoteModel,
    lines: Seq<Seq<char>>,
    q: Seq<char>,
    most: int,
    total: int,
    from: int,
    per: int,
    have: int,
    j: int,
)
    requires
        0 <= from,
        0 <= j < line_hits(note, lines, q, most, total, from, per, have).len(),
    ensures
        from <= line_hits(note, lines, q, most, total, from, per, have)[j].line,
    decreases lines.len() - from,
{
    if has_text(lowercase(lines[from]), q) {
        if j > 0 {
            lemma_later_line(note, lines, q, most, total, from + 1, per + 1, have + 1, j - 1);
        }
    } else {
        lemma_later_line(note, lines, q, most, total, from + 1, per, have, j);
    }
}

} // verus!
