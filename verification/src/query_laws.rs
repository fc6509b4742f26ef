//! What queries, searches and links find: everything that is asked for, and nothing else.
use crate::block::{ascii_lower, same_ignoring_case};
use crate::block_laws::lemma_cut_ends;
use crate::date::lemma_decimal_digits;
use crate::index::{
    breaks_in, default_query, drop_brackets, found, has_pair, has_tag_like, has_term, hits_from,
    is_quote, lemma_best_by_path, lemma_first_by_name, line_hits, line_links_to, link_lines,
    link_slot, links_upto, looked_at, note_hits, note_links_to, note_refs, query_from, query_hit,
    query_matches, query_of, query_result, refs_from, resolved, resolved_path, skip_brackets,
    target_key, target_stem, text_at, token_of, tokens, with_note_links, with_pair, with_token,
    with_tokens, NoteModel, PlaceModel, QueryModel,
};
use crate::text::{
    digits_of, find_from, has_text, is_space, lemma_digits, lemma_index_of, lemma_last_index_of_is,
    lines_of, lowercase, split_on, trim, trim_end,
};
use vstd::prelude::*;

verus! {

// ---------- letters in either case ----------

/// Whether two characters are the same, or the same letter of ASCII in upper and lower case.
pub open spec fn same_letter(a: char, b: char) -> bool {
    a == b || ('A' <= a <= 'Z' && b as u32 == a as u32 + 32) || ('A' <= b <= 'Z' && a as u32
        == b as u32 + 32)
}

/// Texts are the same but for case if they are, letter by letter.
pub proof fn case_is_that_of_letters(a: Seq<char>, b: Seq<char>)
    ensures
        same_ignoring_case(a, b) <==> a.len() == b.len() && forall|k: int|
            0 <= k < a.len() ==> same_letter(#[trigger] a[k], b[k]),
{
    assert forall|x: char, y: char| (#[trigger] ascii_lower(x) == #[trigger] ascii_lower(y))
        <==> same_letter(x, y) by {}
    if same_ignoring_case(a, b) {
        assert forall|k: int| 0 <= k < a.len() implies same_letter(#[trigger] a[k], b[k]) by {
            assert(ascii_lower(a[k]) == ascii_lower(b[k]));
        }
    }
    if a.len() == b.len() && forall|k: int| 0 <= k < a.len() ==> same_letter(#[trigger] a[k], b[k]) {
        assert forall|k: int| 0 <= k < a.len() implies ascii_lower(#[trigger] a[k]) == ascii_lower(
            b[k],
        ) by {
            assert(same_letter(a[k], b[k]));
        }
    }
}

// ---------- queries ----------

/// Whether a note has a tag, in upper or lower case.
pub open spec fn is_tagged(note: NoteModel, tag: Seq<char>) -> bool {
    exists|t: int| 0 <= t < note.tags.len() && same_ignoring_case(#[trigger] note.tags[t], tag)
}

/// Whether a note has everything that a query asks for: each of its tags, a link to each of
/// its notes, and each of its words, in the text or in the name.
pub open spec fn has_all(
    notes: Seq<NoteModel>,
    note: NoteModel,
    text: Option<Seq<char>>,
    q: QueryModel,
) -> bool {
    &&& forall|i: int| 0 <= i < q.tags.len() ==> is_tagged(note, #[trigger] q.tags[i])
    &&& forall|i: int| 0 <= i < q.links.len() ==> note_links_to(notes, note, #[trigger] q.links[i])
    &&& forall|i: int|
        0 <= i < q.terms.len() ==> (text is Some && has_text(
            lowercase(text->0),
            lowercase(#[trigger] q.terms[i]),
        )) || has_text(lowercase(note.name), lowercase(q.terms[i]))
}

proof fn lemma_has_all(
    notes: Seq<NoteModel>,
    note: NoteModel,
    text: Option<Seq<char>>,
    q: QueryModel,
)
    ensures
        query_matches(notes, note, text, q) == has_all(notes, note, text, q),
{
    if query_matches(notes, note, text, q) {
        assert forall|i: int| 0 <= i < q.tags.len() implies is_tagged(
            note,
            #[trigger] q.tags[i],
        ) by {
            assert(has_tag_like(note.tags, q.tags[i]));
        }
        assert forall|i: int| 0 <= i < q.terms.len() implies (text is Some && has_text(
            lowercase(text->0),
            lowercase(#[trigger] q.terms[i]),
        )) || has_text(lowercase(note.name), lowercase(q.terms[i])) by {
            assert(has_term(note, looked_at(text, q.terms), q.terms[i]));
        }
    }
    if has_all(notes, note, text, q) {
        assert forall|i: int| 0 <= i < q.tags.len() implies has_tag_like(
            note.tags,
            #[trigger] q.tags[i],
        ) by {
            assert(is_tagged(note, q.tags[i]));
        }
        assert forall|i: int| 0 <= i < q.terms.len() implies has_term(
            note,
            looked_at(text, q.terms),
            #[trigger] q.terms[i],
        ) by {}
    }
}

proof fn lemma_query_sound(
    notes: Seq<NoteModel>,
    read: Seq<Option<String>>,
    q: QueryModel,
    k: int,
    have: int,
    j: int,
) -> (n: int)
    requires
        0 <= k,
        0 <= j < query_from(notes, read, q, k, have).len(),
    ensures
        k <= n < notes.len(),
        query_from(notes, read, q, k, have)[j].path == notes[n].path,
        query_from(notes, read, q, k, have)[j].name == notes[n].name,
        query_from(notes, read, q, k, have)[j] == query_hit(
            notes[n],
            looked_at(text_at(read, n), q.terms),
            q.terms,
        ),
        query_matches(notes, notes[n], text_at(read, n), q),
    decreases notes.len() - k,
{
    if query_matches(notes, notes[k], text_at(read, k), q) {
        if j == 0 {
            k
        } else {
            lemma_query_sound(notes, read, q, k + 1, have + 1, j - 1)
        }
    } else {
        lemma_query_sound(notes, read, q, k + 1, have, j)
    }
}

proof fn lemma_query_complete(
    notes: Seq<NoteModel>,
    read: Seq<Option<String>>,
    q: QueryModel,
    k: int,
    have: int,
    n: int,
) -> (j: int)
    requires
        0 <= k <= n < notes.len(),
        have + query_from(notes, read, q, k, have).len() < q.limit,
        query_matches(notes, notes[n], text_at(read, n), q),
    ensures
        0 <= j < query_from(notes, read, q, k, have).len(),
        query_from(notes, read, q, k, have)[j].path == notes[n].path,
        query_from(notes, read, q, k, have)[j].name == notes[n].name,
    decreases notes.len() - k,
{
    if query_matches(notes, notes[k], text_at(read, k), q) {
        if k == n {
            0
        } else {
            1 + lemma_query_complete(notes, read, q, k + 1, have + 1, n)
        }
    } else {
        lemma_query_complete(notes, read, q, k + 1, have, n)
    }
}

/// Whatever a query finds is a note that has all that is asked for; and as long as there may
/// be more, every such note is found. A query that asks for nothing finds nothing.
pub proof fn queries_find_the_notes_that_have_all(
    notes: Seq<NoteModel>,
    read: Seq<Option<String>>,
    q: QueryModel,
)
    ensures
        ({
            let r = query_result(notes, read, q);
            &&& forall|j: int|
                0 <= j < r.len() ==> exists|n: int|
                    0 <= n < notes.len() && (#[trigger] r[j]).path == (#[trigger] notes[n]).path
                        && r[j].name == notes[n].name && has_all(notes, notes[n], text_at(read, n), q)
            &&& forall|n: int|
                0 <= n < notes.len() && r.len() < q.limit && (q.tags.len() > 0 || q.links.len() > 0
                    || q.terms.len() > 0) && has_all(
                    notes,
                    #[trigger] notes[n],
                    text_at(read, n),
                    q,
                ) ==> exists|j: int|
                    0 <= j < r.len() && (#[trigger] r[j]).path == notes[n].path && r[j].name
                        == notes[n].name
            &&& q.tags.len() == 0 && q.links.len() == 0 && q.terms.len() == 0 ==> r.len() == 0
        }),
{
    let r = query_result(notes, read, q);
    assert forall|j: int| 0 <= j < r.len() implies exists|n: int|
        0 <= n < notes.len() && (#[trigger] r[j]).path == (#[trigger] notes[n]).path && r[j].name
            == notes[n].name && has_all(notes, notes[n], text_at(read, n), q) by {
        let n = lemma_query_sound(notes, read, q, 0, 0, j);
        lemma_has_all(notes, notes[n], text_at(read, n), q);
    }
    assert forall|n: int|
        0 <= n < notes.len() && r.len() < q.limit && (q.tags.len() > 0 || q.links.len() > 0
            || q.terms.len() > 0) && has_all(
            notes,
            #[trigger] notes[n],
            text_at(read, n),
            q,
        ) implies exists|j: int|
        0 <= j < r.len() && (#[trigger] r[j]).path == notes[n].path && r[j].name
            == notes[n].name by {
        lemma_has_all(notes, notes[n], text_at(read, n), q);
        let j = lemma_query_complete(notes, read, q, 0, 0, n);
        assert(r[j].path == notes[n].path);
    }
}

/// Asking for one tag, one link or one word more never makes a note fit that did not before.
pub proof fn asking_for_more_finds_no_more(
    notes: Seq<NoteModel>,
    note: NoteModel,
    text: Option<Seq<char>>,
    q: QueryModel,
    x: Seq<char>,
)
    ensures
        query_matches(notes, note, text, QueryModel { tags: q.tags.push(x), ..q })
            ==> query_matches(notes, note, text, q),
        query_matches(notes, note, text, QueryModel { links: q.links.push(x), ..q })
            ==> query_matches(notes, note, text, q),
        query_matches(notes, note, text, QueryModel { terms: q.terms.push(x), ..q })
            ==> query_matches(notes, note, text, q),
{
    let a = QueryModel { tags: q.tags.push(x), ..q };
    let b = QueryModel { links: q.links.push(x), ..q };
    let c = QueryModel { terms: q.terms.push(x), ..q };
    lemma_has_all(notes, note, text, q);
    lemma_has_all(notes, note, text, a);
    lemma_has_all(notes, note, text, b);
    lemma_has_all(notes, note, text, c);
    assert forall|i: int| 0 <= i < q.tags.len() implies a.tags[i] == #[trigger] q.tags[i] by {}
    assert forall|i: int| 0 <= i < q.links.len() implies b.links[i] == #[trigger] q.links[i] by {}
    assert forall|i: int| 0 <= i < q.terms.len() implies c.terms[i] == #[trigger] q.terms[i] by {}
    if has_all(notes, note, text, a) {
        assert forall|i: int| 0 <= i < q.tags.len() implies is_tagged(
            note,
            #[trigger] q.tags[i],
        ) by {
            assert(a.tags[i] == q.tags[i]);
        }
    }
}

proof fn lemma_breaks_split(s: Seq<char>)
    ensures
        split_on(s, '\n').len() == breaks_in(s) + 1,
    decreases s.len(),
{
    let k = index_of_break(s);
    lemma_index_of(s, '\n');
    if k < s.len() {
        let t = s.skip(k + 1);
        lemma_breaks_split(t);
        lemma_breaks_add(s.take(k + 1), t);
        assert(s.take(k + 1) + t =~= s);
        lemma_no_breaks(s.take(k));
        assert(s.take(k + 1).drop_last() =~= s.take(k));
    } else {
        lemma_no_breaks(s);
    }
}

spec fn index_of_break(s: Seq<char>) -> int {
    crate::text::index_of(s, '\n')
}

proof fn lemma_no_breaks(s: Seq<char>)
    requires
        forall|k: int| 0 <= k < s.len() ==> #[trigger] s[k] != '\n',
    ensures
        breaks_in(s) == 0,
    decreases s.len(),
{
    if s.len() > 0 {
        assert(s[s.len() - 1] != '\n');
        lemma_no_breaks(s.drop_last());
    }
}

proof fn lemma_breaks_add(a: Seq<char>, b: Seq<char>)
    ensures
        breaks_in(a + b) == breaks_in(a) + breaks_in(b),
    decreases b.len(),
{
    if b.len() == 0 {
        assert(a + b =~= a);
    } else {
        lemma_breaks_add(a, b.drop_last());
        assert((a + b).drop_last() =~= a + b.drop_last());
    }
}

/// A note that a query finds is shown with the line in which its first word stands: as many
/// lines end before the word as the number of the line says. What is shown is that line, or
/// the name of the note if there is nothing in it.
pub proof fn hits_lead_to_the_first_word(note: NoteModel, text: Seq<char>, terms: Seq<Seq<char>>)
    requires
        terms.len() > 0,
    ensures
        ({
            let h = query_hit(note, Some(text), terms);
            let p = find_from(lowercase(text), lowercase(terms[0]), 0);
            &&& p is Some ==> split_on(lowercase(text).take(p->0), '\n').len() == h.line + 1
            &&& p is None ==> h.line == 0
            &&& h.snippet == if h.line < lines_of(text).len() && trim(lines_of(text)[h.line]).len()
                > 0 {
                trim(lines_of(text)[h.line])
            } else {
                note.name
            }
        }),
{
    let p = find_from(lowercase(text), lowercase(terms[0]), 0);
    if p is Some {
        lemma_breaks_split(lowercase(text).take(p->0));
    }
}

// ---------- searches ----------

proof fn lemma_line_found(
    note: NoteModel,
    lines: Seq<Seq<char>>,
    q: Seq<char>,
    max_per: int,
    max_total: int,
    i: int,
    per: int,
    have: int,
    n: int,
) -> (j: int)
    requires
        0 <= i <= n < lines.len(),
        per + (lines.len() - i) <= max_per,
        have + line_hits(note, lines, q, max_per, max_total, i, per, have).len() < max_total,
        has_text(lowercase(lines[n]), q),
    ensures
        0 <= j < line_hits(note, lines, q, max_per, max_total, i, per, have).len(),
        line_hits(note, lines, q, max_per, max_total, i, per, have)[j].path == note.path,
        line_hits(note, lines, q, max_per, max_total, i, per, have)[j].line == n,
    decreases lines.len() - i,
{
    let all = line_hits(note, lines, q, max_per, max_total, i, per, have);
    if has_text(lowercase(lines[i]), q) {
        if i == n {
            0
        } else {
            let rest = line_hits(note, lines, q, max_per, max_total, i + 1, per + 1, have + 1);
            let j = lemma_line_found(
                note,
                lines,
                q,
                max_per,
                max_total,
                i + 1,
                per + 1,
                have + 1,
                n,
            );
            assert(all[j + 1] == rest[j]);
            j + 1
        }
    } else {
        lemma_line_found(note, lines, q, max_per, max_total, i + 1, per, have, n)
    }
}

/// Whether a place is where a search leads: the note by its name, or a line of it.
pub open spec fn leads_to(h: PlaceModel, note: NoteModel, line: int) -> bool {
    h.path == note.path && h.line == line
}

proof fn lemma_hit_found(
    notes: Seq<NoteModel>,
    read: Seq<Option<String>>,
    q: Seq<char>,
    max_per: int,
    max_total: int,
    k: int,
    have: int,
    n: int,
    line: int,
) -> (j: int)
    requires
        0 <= k <= n < notes.len(),
        max_per >= 1,
        have + hits_from(notes, read, q, max_per, max_total, k, have).len() < max_total,
        has_text(lowercase(notes[n].name), q) && line == 0 || (!has_text(
            lowercase(notes[n].name),
            q,
        ) && text_at(read, n) is Some && 0 <= line < lines_of(text_at(read, n)->0).len() && has_text(
            lowercase(lines_of(text_at(read, n)->0)[line]),
            q,
        ) && max_per >= lines_of(text_at(read, n)->0).len()),
    ensures
        0 <= j < hits_from(notes, read, q, max_per, max_total, k, have).len(),
        leads_to(hits_from(notes, read, q, max_per, max_total, k, have)[j], notes[n], line),
    decreases notes.len() - k,
{
    let hs = note_hits(notes[k], text_at(read, k), q, max_per, max_total, have);
    let rest = hits_from(notes, read, q, max_per, max_total, k + 1, have + hs.len());
    let all = hits_from(notes, read, q, max_per, max_total, k, have);
    assert(all == hs + rest);
    if k == n {
        if has_text(lowercase(notes[n].name), q) {
            assert(all[0] == hs[0]);
            0
        } else {
            let t = text_at(read, n)->0;
            let j = lemma_line_found(
                notes[n],
                lines_of(t),
                q,
                max_per,
                max_total,
                0,
                0,
                have,
                line,
            );
            assert(all[j] == hs[j]);
            j
        }
    } else {
        let j = lemma_hit_found(
            notes,
            read,
            q,
            max_per,
            max_total,
            k + 1,
            have + hs.len(),
            n,
            line,
        );
        assert(all[hs.len() + j] == rest[j]);
        hs.len() + j
    }
}

/// As long as there may be more, a search finds every note whose name holds the words, and
/// in the other notes every line that holds them.
pub proof fn searches_find_every_place(
    notes: Seq<NoteModel>,
    read: Seq<Option<String>>,
    query: Seq<char>,
    max_per: int,
    max_total: int,
    n: int,
    line: int,
)
    requires
        lowercase(trim(query)).len() > 0,
        0 <= n < notes.len(),
        max_per >= 1,
        found(notes, read, query, max_per, max_total).len() < max_total,
    ensures
        has_text(lowercase(notes[n].name), lowercase(trim(query))) ==> exists|j: int|
            0 <= j < found(notes, read, query, max_per, max_total).len() && leads_to(
                #[trigger] found(notes, read, query, max_per, max_total)[j],
                notes[n],
                0,
            ),
        !has_text(lowercase(notes[n].name), lowercase(trim(query))) && text_at(read, n) is Some
            && max_per >= lines_of(text_at(read, n)->0).len() && 0 <= line < lines_of(
            text_at(read, n)->0,
        ).len() && has_text(
            lowercase(lines_of(text_at(read, n)->0)[line]),
            lowercase(trim(query)),
        ) ==> exists|j: int|
            0 <= j < found(notes, read, query, max_per, max_total).len() && leads_to(
                #[trigger] found(notes, read, query, max_per, max_total)[j],
                notes[n],
                line,
            ),
{
    let q = lowercase(trim(query));
    let r = found(notes, read, query, max_per, max_total);
    if has_text(lowercase(notes[n].name), q) {
        let j = lemma_hit_found(notes, read, q, max_per, max_total, 0, 0, n, 0);
        assert(leads_to(r[j], notes[n], 0));
    } else if text_at(read, n) is Some && max_per >= lines_of(text_at(read, n)->0).len() && 0 <= line
        < lines_of(text_at(read, n)->0).len() && has_text(
        lowercase(lines_of(text_at(read, n)->0)[line]),
        q,
    ) {
        let j = lemma_hit_found(notes, read, q, max_per, max_total, 0, 0, n, line);
        assert(leads_to(r[j], notes[n], line));
    }
}

/// A text holds another if it can be written with that one inside.
pub proof fn holding_is_standing_inside(s: Seq<char>, pat: Seq<char>)
    ensures
        has_text(s, pat) <==> exists|i: int|
            0 <= i && i + pat.len() <= s.len() && #[trigger] s.subrange(i, i + pat.len()) == pat,
{
    crate::text::lemma_find_from(s, pat, 0);
    if exists|i: int|
        0 <= i && i + pat.len() <= s.len() && #[trigger] s.subrange(i, i + pat.len()) == pat {
        let i = choose|i: int|
            0 <= i && i + pat.len() <= s.len() && #[trigger] s.subrange(i, i + pat.len()) == pat;
        lemma_find_some(s, pat, 0, i);
    }
}

proof fn lemma_find_some(s: Seq<char>, pat: Seq<char>, k: int, i: int)
    requires
        0 <= k <= i,
        i + pat.len() <= s.len(),
        s.subrange(i, i + pat.len()) == pat,
    ensures
        find_from(s, pat, k) is Some,
        find_from(s, pat, k)->0 <= i,
    decreases i - k,
{
    if k < i && s.subrange(k, k + pat.len()) != pat {
        lemma_find_some(s, pat, k + 1, i);
    }
}

// ---------- where links lead ----------

/// The extension of a note file does not count in a link, in upper or lower case; any other
/// ending does.
pub proof fn extensions_do_not_count(name: Seq<char>, ext: Seq<char>)
    requires
        !ext.contains('.'),
    ensures
        target_stem(name + seq!['.'] + ext) == if same_ignoring_case(ext, seq!['m', 'd'])
            || same_ignoring_case(ext, seq!['m', 'd', 'x']) || same_ignoring_case(
            ext,
            seq!['t', 'x', 't'],
        ) || same_ignoring_case(ext, seq!['m', 'a', 'r', 'k', 'd', 'o', 'w', 'n']) {
            name
        } else {
            name + seq!['.'] + ext
        },
        !name.contains('.') ==> target_stem(name) == name,
{
    reveal_strlit("md");
    reveal_strlit("mdx");
    reveal_strlit("txt");
    reveal_strlit("markdown");
    assert("md"@ =~= seq!['m', 'd']);
    assert("mdx"@ =~= seq!['m', 'd', 'x']);
    assert("txt"@ =~= seq!['t', 'x', 't']);
    assert("markdown"@ =~= seq!['m', 'a', 'r', 'k', 'd', 'o', 'w', 'n']);
    let t = name + seq!['.'] + ext;
    let k = name.len() as int;
    assert(t[k] == '.');
    assert forall|j: int| k < j < t.len() implies #[trigger] t[j] != '.' by {
        assert(t[j] == ext[j - k - 1]);
        assert(ext.contains(ext[j - k - 1]));
    }
    lemma_last_index_of_is(t, '.', k);
    assert(t.skip(k + 1) =~= ext);
    assert(t.take(k) =~= name);
    if !name.contains('.') {
        assert forall|j: int| -1 < j < name.len() implies #[trigger] name[j] != '.' by {
            assert(name.contains(name[j]));
        }
        lemma_last_index_of_is(name, '.', -1);
    }
}

/// A link without a `/` leads to the first note of that name, in any case of its letters, and
/// nowhere if there is none. A blank link leads nowhere.
pub proof fn links_lead_to_the_first_of_a_name(notes: Seq<NoteModel>, target: Seq<char>)
    ensures
        trim(target).len() == 0 ==> resolved(notes, target) is None,
        trim(target).len() > 0 && !target_key(target).contains('/') ==> match resolved(
            notes,
            target,
        ) {
            Some(i) => 0 <= i < notes.len() && lowercase(notes[i].name) == lowercase(
                target_stem(trim(target)),
            ) && forall|j: int|
                0 <= j < i ==> lowercase((#[trigger] notes[j]).name) != lowercase(
                    target_stem(trim(target)),
                ),
            None => forall|j: int|
                0 <= j < notes.len() ==> lowercase((#[trigger] notes[j]).name) != lowercase(
                    target_stem(trim(target)),
                ),
        },
        resolved(notes, target) matches Some(i) ==> resolved_path(notes, target) == Some(
            notes[i].path,
        ),
        resolved(notes, target) is None ==> resolved_path(notes, target) is None,
{
    lemma_first_by_name(notes, target_key(target), 0);
    lemma_best_by_path(notes, target_key(target), notes.len() as int);
}

/// A note links to another if one of its links leads to the same note; where the name leads
/// nowhere, if one of its links says the same.
pub proof fn linking_is_having_a_link(
    notes: Seq<NoteModel>,
    note: NoteModel,
    target: Seq<char>,
    k: int,
)
    requires
        0 <= k < note.outgoing.len(),
    ensures
        resolved_path(notes, target) is Some && resolved_path(notes, note.outgoing[k])
            == resolved_path(notes, target) ==> note_links_to(notes, note, target),
        resolved_path(notes, target) is None && same_ignoring_case(note.outgoing[k], target)
            ==> note_links_to(notes, note, target),
        (forall|j: int|
            0 <= j < note.outgoing.len() ==> resolved_path(notes, #[trigger] note.outgoing[j])
                != resolved_path(notes, target)) && resolved_path(notes, target) is Some
            ==> !note_links_to(notes, note, target),
{
}

// ---------- backlinks ----------

/// Whether a place is a line of note `n` that links to the note at a path.
pub open spec fn is_backlink(
    notes: Seq<NoteModel>,
    read: Seq<Option<String>>,
    path: Seq<char>,
    n: int,
    j: int,
    line: int,
) -> bool {
    &&& 0 <= n < notes.len() && notes[n].path != path
    &&& 0 <= j < notes[n].outgoing.len() && resolved_path(notes, notes[n].outgoing[j]) == Some(path)
    &&& text_at(read, n) is Some && 0 <= line < lines_of(text_at(read, n)->0).len()
    &&& line_links_to(lines_of(text_at(read, n)->0)[line], notes[n].outgoing[j])
}

pub open spec fn backlink_at(
    notes: Seq<NoteModel>,
    read: Seq<Option<String>>,
    n: int,
    line: int,
) -> PlaceModel {
    PlaceModel {
        path: notes[n].path,
        name: notes[n].name,
        line,
        snippet: trim_end(lines_of(text_at(read, n)->0)[line]),
    }
}

/// Whether a place is such a line of one of the notes from `k` on.
pub open spec fn shows_backlink(
    notes: Seq<NoteModel>,
    read: Seq<Option<String>>,
    path: Seq<char>,
    k: int,
    x: PlaceModel,
) -> bool {
    exists|n: int, j: int, line: int|
        k <= n && #[trigger] is_backlink(notes, read, path, n, j, line) && x == backlink_at(
            notes,
            read,
            n,
            line,
        )
}

proof fn lemma_link_line(
    note: NoteModel,
    lines: Seq<Seq<char>>,
    target: Seq<char>,
    i: int,
    line: int,
)
    requires
        0 <= i <= line < lines.len(),
        line_links_to(lines[line], target),
    ensures
        link_lines(note, lines, target, i).contains(
            PlaceModel { path: note.path, name: note.name, line, snippet: trim_end(lines[line]) },
        ),
    decreases line - i,
{
    let all = link_lines(note, lines, target, i);
    let rest = link_lines(note, lines, target, i + 1);
    let x = PlaceModel { path: note.path, name: note.name, line, snippet: trim_end(lines[line]) };
    if i == line {
        assert(all[0] == x);
    } else {
        lemma_link_line(note, lines, target, i + 1, line);
        let k = choose|k: int| 0 <= k < rest.len() && rest[k] == x;
        if line_links_to(lines[i], target) {
            assert(all[k + 1] == x);
        } else {
            assert(all[k] == x);
        }
    }
}

proof fn lemma_link_line_back(
    note: NoteModel,
    lines: Seq<Seq<char>>,
    target: Seq<char>,
    i: int,
    k: int,
) -> (line: int)
    requires
        0 <= i,
        0 <= k < link_lines(note, lines, target, i).len(),
    ensures
        i <= line < lines.len(),
        line_links_to(lines[line], target),
        link_lines(note, lines, target, i)[k] == (PlaceModel {
            path: note.path,
            name: note.name,
            line,
            snippet: trim_end(lines[line]),
        }),
    decreases lines.len() - i,
{
    if line_links_to(lines[i], target) {
        if k == 0 {
            i
        } else {
            lemma_link_line_back(note, lines, target, i + 1, k - 1)
        }
    } else {
        lemma_link_line_back(note, lines, target, i + 1, k)
    }
}

proof fn lemma_note_ref(
    notes: Seq<NoteModel>,
    read: Seq<Option<String>>,
    path: Seq<char>,
    n: int,
    i: int,
    j: int,
    line: int,
)
    requires
        is_backlink(notes, read, path, n, j, line),
        0 <= i <= j,
    ensures
        note_refs(notes, notes[n], text_at(read, n), path, i).contains(
            backlink_at(notes, read, n, line),
        ),
    decreases j - i,
{
    let t = text_at(read, n)->0;
    let note = notes[n];
    let all = note_refs(notes, note, text_at(read, n), path, i);
    let rest = note_refs(notes, note, text_at(read, n), path, i + 1);
    let x = backlink_at(notes, read, n, line);
    let here = link_lines(note, lines_of(t), note.outgoing[i], 0);
    if i == j {
        lemma_link_line(note, lines_of(t), note.outgoing[j], 0, line);
        let k = choose|k: int| 0 <= k < here.len() && here[k] == x;
        assert(all == here + rest);
        assert(all[k] == x);
    } else {
        lemma_note_ref(notes, read, path, n, i + 1, j, line);
        let k = choose|k: int| 0 <= k < rest.len() && rest[k] == x;
        if resolved_path(notes, note.outgoing[i]) == Some(path) {
            assert(all == here + rest);
            assert(all[here.len() + k] == x);
        } else {
            assert(all[k] == x);
        }
    }
}

proof fn lemma_note_ref_back(
    notes: Seq<NoteModel>,
    read: Seq<Option<String>>,
    path: Seq<char>,
    n: int,
    i: int,
    k: int,
) -> (r: (int, int))
    requires
        0 <= n < notes.len(),
        notes[n].path != path,
        0 <= i,
        0 <= k < note_refs(notes, notes[n], text_at(read, n), path, i).len(),
    ensures
        is_backlink(notes, read, path, n, r.0, r.1),
        note_refs(notes, notes[n], text_at(read, n), path, i)[k] == backlink_at(
            notes,
            read,
            n,
            r.1,
        ),
    decreases notes[n].outgoing.len() - i,
{
    let note = notes[n];
    let text = text_at(read, n);
    let all = note_refs(notes, note, text, path, i);
    let rest = note_refs(notes, note, text, path, i + 1);
    if text is Some && resolved_path(notes, note.outgoing[i]) == Some(path) {
        let here = link_lines(note, lines_of(text->0), note.outgoing[i], 0);
        assert(all == here + rest);
        if k < here.len() {
            let line = lemma_link_line_back(note, lines_of(text->0), note.outgoing[i], 0, k);
            assert(all[k] == here[k]);
            (i, line)
        } else {
            assert(all[k] == rest[k - here.len()]);
            lemma_note_ref_back(notes, read, path, n, i + 1, k - here.len())
        }
    } else {
        lemma_note_ref_back(notes, read, path, n, i + 1, k)
    }
}

/// The lines that link to a note are all found, with the note that they stand in and the
/// line as it stands there; and nothing else is.
pub proof fn backlinks_are_the_lines_that_link(
    notes: Seq<NoteModel>,
    read: Seq<Option<String>>,
    path: Seq<char>,
    k: int,
)
    requires
        0 <= k <= notes.len(),
    ensures
        forall|n: int, j: int, line: int|
            k <= n && #[trigger] is_backlink(notes, read, path, n, j, line) ==> refs_from(
                notes,
                read,
                path,
                k,
            ).contains(backlink_at(notes, read, n, line)),
        forall|m: int|
            0 <= m < refs_from(notes, read, path, k).len() ==> shows_backlink(
                notes,
                read,
                path,
                k,
                #[trigger] refs_from(notes, read, path, k)[m],
            ),
    decreases notes.len() - k,
{
    if k < notes.len() {
        backlinks_are_the_lines_that_link(notes, read, path, k + 1);
        let all = refs_from(notes, read, path, k);
        let rest = refs_from(notes, read, path, k + 1);
        let here = if notes[k].path == path {
            Seq::empty()
        } else {
            note_refs(notes, notes[k], text_at(read, k), path, 0)
        };
        assert(all =~= here + rest);
        assert forall|n: int, j: int, line: int|
            k <= n && #[trigger] is_backlink(notes, read, path, n, j, line) implies all.contains(
            backlink_at(notes, read, n, line),
        ) by {
            let x = backlink_at(notes, read, n, line);
            if n == k {
                lemma_note_ref(notes, read, path, n, 0, j, line);
                let i = choose|i: int| 0 <= i < here.len() && here[i] == x;
                assert(all[i] == x);
            } else {
                assert(rest.contains(x));
                let i = choose|i: int| 0 <= i < rest.len() && rest[i] == x;
                assert(all[here.len() + i] == x);
            }
        }
        assert forall|m: int| 0 <= m < all.len() implies shows_backlink(
            notes,
            read,
            path,
            k,
            #[trigger] all[m],
        ) by {
            if m < here.len() {
                let (j, line) = lemma_note_ref_back(notes, read, path, k, 0, m);
                assert(all[m] == here[m]);
                assert(is_backlink(notes, read, path, k, j, line));
            } else {
                assert(all[m] == rest[m - here.len()]);
                assert(shows_backlink(notes, read, path, k + 1, rest[m - here.len()]));
                let (n, j, line) = choose|n: int, j: int, line: int|
                    k + 1 <= n && #[trigger] is_backlink(notes, read, path, n, j, line)
                        && rest[m - here.len()] == backlink_at(notes, read, n, line);
                assert(is_backlink(notes, read, path, n, j, line));
            }
        }
    }
}

// ---------- how queries are written ----------

/// Whether a text holds neither white space nor quotation marks.
pub open spec fn is_word(s: Seq<char>) -> bool {
    s.len() > 0 && forall|k: int|
        0 <= k < s.len() ==> !is_space(#[trigger] s[k]) && s[k] != '"' && s[k] != '\u{201c}' && s[k]
            != '\u{201d}'
}

pub open spec fn has_no_quotes(s: Seq<char>) -> bool {
    forall|k: int|
        0 <= k < s.len() ==> #[trigger] s[k] != '"' && s[k] != '\u{201c}' && s[k] != '\u{201d}'
}

proof fn lemma_tokens_part(a: Seq<char>, w: char, b: Seq<char>, cur: Seq<char>)
    requires
        has_no_quotes(a),
        is_space(w),
    ensures
        tokens(a + seq![w] + b, cur, false) == tokens(a, cur, false) + tokens(
            b,
            Seq::empty(),
            false,
        ),
    decreases a.len(),
{
    let s = a + seq![w] + b;
    let tail = tokens(b, Seq::empty(), false);
    if a.len() == 0 {
        assert(s[0] == w);
        assert(s.drop_first() =~= b);
        assert(!is_quote(w));
    } else {
        let c = a[0];
        let rest = a.drop_first();
        assert(c != '"' && c != '\u{201c}' && c != '\u{201d}');
        assert(s[0] == c);
        assert(s.drop_first() =~= rest + seq![w] + b);
        assert forall|k: int| 0 <= k < rest.len() implies #[trigger] rest[k] != '"' && rest[k]
            != '\u{201c}' && rest[k] != '\u{201d}' by {
            assert(rest[k] == a[k + 1]);
        }
        if is_space(c) {
            lemma_tokens_part(rest, w, b, Seq::empty());
            let more = tokens(rest, Seq::empty(), false);
            assert(token_of(cur) + (more + tail) =~= (token_of(cur) + more) + tail);
        } else {
            lemma_tokens_part(rest, w, b, cur.push(c));
        }
    }
}

proof fn lemma_tokens_word(a: Seq<char>, cur: Seq<char>)
    requires
        forall|k: int|
            0 <= k < a.len() ==> !is_space(#[trigger] a[k]) && a[k] != '"' && a[k] != '\u{201c}'
                && a[k] != '\u{201d}',
    ensures
        tokens(a, cur, false) == token_of(cur + a),
    decreases a.len(),
{
    if a.len() == 0 {
        assert(cur + a =~= cur);
    } else {
        assert(!is_space(a[0]) && a[0] != '"');
        let rest = a.drop_first();
        assert forall|k: int| 0 <= k < rest.len() implies !is_space(#[trigger] rest[k]) && rest[k]
            != '"' && rest[k] != '\u{201c}' && rest[k] != '\u{201d}' by {
            assert(rest[k] == a[k + 1]);
        }
        lemma_tokens_word(rest, cur.push(a[0]));
        assert(cur.push(a[0]) + rest =~= cur + a);
    }
}

proof fn lemma_tokens_quoted(p: Seq<char>, q: char, cur: Seq<char>)
    requires
        has_no_quotes(p),
        q == '"' || q == '\u{201c}' || q == '\u{201d}',
    ensures
        tokens(p + seq![q], cur, true) == token_of(cur + p),
    decreases p.len(),
{
    let s = p + seq![q];
    if p.len() == 0 {
        assert(s[0] == q);
        assert(s.drop_first() =~= Seq::<char>::empty());
        assert(tokens(Seq::empty(), cur, false) == token_of(cur));
        assert(cur + p =~= cur);
    } else {
        assert(p[0] != '"' && p[0] != '\u{201c}');
        let rest = p.drop_first();
        assert forall|k: int| 0 <= k < rest.len() implies #[trigger] rest[k] != '"' && rest[k]
            != '\u{201c}' && rest[k] != '\u{201d}' by {
            assert(rest[k] == p[k + 1]);
        }
        assert(s[0] == p[0]);
        assert(s.drop_first() =~= rest + seq![q]);
        lemma_tokens_quoted(rest, q, cur.push(p[0]));
        assert(cur.push(p[0]) + rest =~= cur + p);
    }
}

/// The words of a query are parted by white space. What stands between quotation marks is one
/// word, with the white space in it.
pub proof fn words_are_parted_by_white_space(
    a: Seq<char>,
    w: char,
    b: Seq<char>,
    word: Seq<char>,
    q: char,
    r: char,
    phrase: Seq<char>,
)
    requires
        has_no_quotes(a),
        is_space(w),
        is_word(word),
        q == '"' || q == '\u{201c}' || q == '\u{201d}',
        r == '"' || r == '\u{201c}' || r == '\u{201d}',
        phrase.len() > 0,
        has_no_quotes(phrase),
    ensures
        ({
            let e = Seq::<char>::empty();
            &&& tokens(a + seq![w] + b, e, false) == tokens(a, e, false) + tokens(b, e, false)
            &&& tokens(word, e, false) == seq![word]
            &&& tokens(seq![q] + phrase + seq![r], e, false) == seq![phrase]
            &&& tokens(e, e, false).len() == 0
        }),
{
    let e = Seq::<char>::empty();
    lemma_tokens_part(a, w, b, e);
    lemma_tokens_word(word, e);
    assert(e + word =~= word);
    let s = seq![q] + phrase + seq![r];
    assert(s[0] == q);
    assert(s.drop_first() =~= phrase + seq![r]);
    lemma_tokens_quoted(phrase, r, e);
    assert(e + phrase =~= phrase);
}

proof fn lemma_with_tokens(q: QueryModel, a: Seq<Seq<char>>, t: Seq<char>)
    ensures
        with_tokens(q, a + seq![t]) == with_token(with_tokens(q, a), t),
    decreases a.len(),
{
    if a.len() == 0 {
        assert(a + seq![t] =~= seq![t]);
        assert(seq![t].drop_first() =~= Seq::<Seq<char>>::empty());
        assert(with_tokens(with_token(q, t), Seq::<Seq<char>>::empty()) == with_token(q, t));
    } else {
        lemma_with_tokens(with_token(q, a[0]), a.drop_first(), t);
        assert((a + seq![t]).drop_first() =~= a.drop_first() + seq![t]);
        assert((a + seq![t])[0] == a[0]);
    }
}

pub open spec fn link_word() -> Seq<char> {
    seq!['l', 'i', 'n', 'k', ':']
}

pub open spec fn limit_word() -> Seq<char> {
    seq!['l', 'i', 'm', 'i', 't', ':']
}

/// Between one and two hundred.
pub open spec fn in_limits(n: int) -> int {
    if n <= 0 {
        1
    } else if n >= 200 {
        200
    } else {
        n
    }
}

/// What a query asks for with one word more: behind `#` stands a tag, behind `link:` a note,
/// in brackets or not, behind `limit:` how many notes may be found; any other word is looked
/// for. A query of nothing asks for nothing, and for twenty notes at most.
pub proof fn each_word_of_a_query_counts(a: Seq<char>, w: char, x: Seq<char>, n: nat)
    requires
        has_no_quotes(a),
        is_space(w),
        is_word(x),
        n <= usize::MAX,
    ensures
        ({
            let q = query_of(a);
            let with = |word: Seq<char>| query_of(a + seq![w] + word);
            &&& with(seq!['#'] + x) == (QueryModel { tags: q.tags.push(x), ..q })
            &&& x[0] != '[' && x[0] != ']' && x.last() != '[' && x.last() != ']' ==> {
                &&& with(link_word() + x) == (QueryModel { links: q.links.push(x), ..q })
                &&& with(link_word() + (seq!['[', '['] + x + seq![']', ']'])) == (QueryModel {
                    links: q.links.push(x),
                    ..q
                })
            }
            &&& with(limit_word() + digits_of(n)) == (QueryModel { limit: in_limits(n as int), ..q })
            &&& x[0] != '#' && !link_word().is_prefix_of(x) && !limit_word().is_prefix_of(x)
                ==> with(x) == (QueryModel { terms: q.terms.push(x), ..q })
            &&& query_of(Seq::empty()) == (QueryModel {
                tags: Seq::empty(),
                terms: Seq::empty(),
                links: Seq::empty(),
                limit: 20,
            })
        }),
{
    reveal_strlit("link:");
    reveal_strlit("limit:");
    assert("link:"@ =~= link_word());
    assert("limit:"@ =~= limit_word());
    let e = Seq::<char>::empty();
    let q = query_of(a);
    let t1 = seq!['#'] + x;
    lemma_word_counts(a, w, t1);
    assert(t1.skip(1) =~= x);
    let t2 = link_word() + x;
    lemma_word_counts(a, w, t2);
    assert(t2.take(5) =~= link_word());
    assert(t2.skip(5) =~= x);
    let inner = seq!['[', '['] + x + seq![']', ']'];
    let t3 = link_word() + inner;
    assert forall|k: int| 0 <= k < inner.len() implies !is_space(#[trigger] inner[k]) && inner[k]
        != '"' && inner[k] != '\u{201c}' && inner[k] != '\u{201d}' by {
        if 2 <= k < 2 + x.len() {
            assert(inner[k] == x[k - 2]);
        }
    }
    lemma_word_counts(a, w, t3);
    assert(t3.take(5) =~= link_word());
    assert(t3.skip(5) =~= inner);
    if x[0] != '[' && x[0] != ']' && x.last() != '[' && x.last() != ']' {
        lemma_unbracketed(x);
        lemma_cut_ends(e, x, e);
        assert(e + x + e =~= x);
    }
    let ds = digits_of(n);
    let t4 = limit_word() + ds;
    lemma_digits(n);
    assert forall|k: int| 0 <= k < ds.len() implies !is_space(#[trigger] ds[k]) && ds[k] != '"'
        && ds[k] != '\u{201c}' && ds[k] != '\u{201d}' by {}
    lemma_word_counts(a, w, t4);
    assert(t4.take(6) =~= limit_word());
    assert(t4.take(5)[2] == 'm');
    assert(t4.skip(6) =~= ds);
    assert(ds[0] != '+');
    lemma_decimal_digits(n);
    lemma_word_counts(a, w, x);
    assert(tokens(e, e, false) =~= Seq::<Seq<char>>::empty());
}

proof fn lemma_unbracketed(x: Seq<char>)
    requires
        x.len() > 0,
        x[0] != '[' && x[0] != ']' && x.last() != '[' && x.last() != ']',
    ensures
        drop_brackets(skip_brackets(x)) == x,
        drop_brackets(skip_brackets(seq!['[', '['] + x + seq![']', ']'])) == x,
{
    let s = seq!['[', '['] + x + seq![']', ']'];
    let s1 = s.drop_first();
    let s2 = s1.drop_first();
    assert(s2 =~= x + seq![']', ']']);
    assert(s1[0] == '[' && s2[0] == x[0]);
    assert(skip_brackets(s2) == s2);
    assert(skip_brackets(s1) == s2);
    let u1 = s2.drop_last();
    let u2 = u1.drop_last();
    assert(u2 =~= x);
    assert(u1.last() == ']');
    assert(drop_brackets(u2) == u2);
    assert(drop_brackets(u1) == u2);
    assert(drop_brackets(s2) == u2);
}

proof fn lemma_word_counts(a: Seq<char>, w: char, t: Seq<char>)
    requires
        has_no_quotes(a),
        is_space(w),
        is_word(t),
    ensures
        query_of(a + seq![w] + t) == with_token(query_of(a), t),
{
    let e = Seq::<char>::empty();
    lemma_tokens_part(a, w, t, e);
    lemma_tokens_word(t, e);
    assert(e + t =~= t);
    lemma_with_tokens(default_query(), tokens(a, e, false), t);
}

// ---------- the links of the graph ----------

proof fn lemma_pairs_kept(notes: Seq<NoteModel>, i: int, k: int, raw: Seq<(int, int)>, a: int, b: int)
    requires
        has_pair(raw, a, b),
    ensures
        has_pair(with_note_links(notes, i, k, raw), a, b),
    decreases notes[i].outgoing.len() - k,
{
    if 0 <= k < notes[i].outgoing.len() {
        match link_slot(notes, i, k) {
            Some(j) => {
                lemma_pair_kept(raw, i, j, a, b);
                lemma_pairs_kept(notes, i, k + 1, with_pair(raw, i, j), a, b);
            },
            None => lemma_pairs_kept(notes, i, k + 1, raw, a, b),
        }
    }
}

proof fn lemma_pair_kept(raw: Seq<(int, int)>, i: int, j: int, a: int, b: int)
    requires
        has_pair(raw, a, b),
    ensures
        has_pair(with_pair(raw, i, j), a, b),
{
    let w = with_pair(raw, i, j);
    let x = if raw.contains((a, b)) {
        (a, b)
    } else {
        (b, a)
    };
    let k = choose|k: int| 0 <= k < raw.len() && raw[k] == x;
    assert(w[k] == x);
}

proof fn lemma_pair_made(
    notes: Seq<NoteModel>,
    i: int,
    k: int,
    raw: Seq<(int, int)>,
    m: int,
    j: int,
)
    requires
        0 <= k <= m < notes[i].outgoing.len(),
        link_slot(notes, i, m) == Some(j),
        i != j,
    ensures
        has_pair(with_note_links(notes, i, k, raw), i, j),
    decreases m - k,
{
    if k == m {
        let w = with_pair(raw, i, j);
        if !has_pair(raw, i, j) {
            assert(w[raw.len() as int] == (i, j));
        }
        lemma_pairs_kept(notes, i, k + 1, w, i, j);
    } else {
        match link_slot(notes, i, k) {
            Some(h) => lemma_pair_made(notes, i, k + 1, with_pair(raw, i, h), m, j),
            None => lemma_pair_made(notes, i, k + 1, raw, m, j),
        }
    }
}

/// Two notes are joined in the graph if one has a link that leads to the other.
pub proof fn linked_notes_are_joined(notes: Seq<NoteModel>, n: int, i: int, k: int, j: int)
    requires
        0 <= i < n <= notes.len(),
        0 <= k < notes[i].outgoing.len(),
        link_slot(notes, i, k) == Some(j),
        i != j,
    ensures
        has_pair(links_upto(notes, n), i, j),
    decreases n,
{
    if i == n - 1 {
        lemma_pair_made(notes, i, 0, links_upto(notes, n - 1), k, j);
    } else {
        linked_notes_are_joined(notes, n - 1, i, k, j);
        lemma_pairs_kept(notes, n - 1, 0, links_upto(notes, n - 1), i, j);
    }
}

/// Whether note `i` has a link that leads to note `j`.
pub open spec fn has_link(notes: Seq<NoteModel>, i: int, j: int) -> bool {
    exists|k: int|
        0 <= k < notes[i].outgoing.len() && #[trigger] link_slot(notes, i, k) == Some(j)
}

proof fn lemma_pair_stems(
    notes: Seq<NoteModel>,
    i: int,
    k: int,
    raw: Seq<(int, int)>,
    x: (int, int),
)
    requires
        0 <= k,
        with_note_links(notes, i, k, raw).contains(x),
    ensures
        raw.contains(x) || (x.0 == i && has_link(notes, i, x.1) && x.1 != i),
    decreases notes[i].outgoing.len() - k,
{
    if k < notes[i].outgoing.len() {
        match link_slot(notes, i, k) {
            Some(j) => {
                let w = with_pair(raw, i, j);
                lemma_pair_stems(notes, i, k + 1, w, x);
                if w.contains(x) && !raw.contains(x) {
                    let m = choose|m: int| 0 <= m < w.len() && w[m] == x;
                    if m < raw.len() {
                        assert(raw[m] == x);
                    }
                    assert(link_slot(notes, i, k) == Some(x.1));
                }
            },
            None => lemma_pair_stems(notes, i, k + 1, raw, x),
        }
    }
}

/// No two other notes are joined.
pub proof fn joined_notes_are_linked(notes: Seq<NoteModel>, n: int, x: (int, int))
    requires
        n <= notes.len(),
        links_upto(notes, n).contains(x),
    ensures
        0 <= x.0 < n,
        x.0 != x.1,
        has_link(notes, x.0, x.1),
    decreases n,
{
    if n > 0 {
        lemma_pair_stems(notes, n - 1, 0, links_upto(notes, n - 1), x);
        if links_upto(notes, n - 1).contains(x) {
            joined_notes_are_linked(notes, n - 1, x);
        }
    }
}

} // verus!
