//! What documents promise: what an edit changes of them, and which of their lines are parsed.
use crate::chat::deltas_of;
use crate::ai::sse::EventModel;
use crate::document::{
    blank_above, blank_at, blank_below, doc_inserted, doc_removed, fence_at, is_blank_char,
    last_fence, moves_fences, parse_end, parse_start, starts_fence, title_of, DocModel,
};
use crate::editor::EditorModel;
use crate::file_laws::names_part_at_the_last_dot;
use crate::input::{target_of, text_put};
use crate::paths::joined;
use crate::rope::{full_line, line_count, utf16_len};
use crate::text::blen;
use crate::typing_laws::{lemma_place, stands, typing_replaces_the_selection};
use crate::view::written;
use vstd::prelude::*;

verus! {

// ---------- edits ----------

/// An edit changes the text at its place and nothing else of it; the document has changed and
/// is another revision, and keeps its path and its line breaks.
pub proof fn edits_change_their_place(d: DocModel, pre: Seq<char>, mid: Seq<char>, post: Seq<char>, s: Seq<char>)
    requires
        d.text == pre + mid + post,
        mid.len() > 0,
    ensures
        ({
            let f = doc_inserted(d, blen(pre) as int, s);
            let g = doc_removed(d, blen(pre) as int, blen(pre) + blen(mid) as int);
            &&& f.text == pre + s + mid + post
            &&& g.text == pre + post
            &&& f.dirty && g.dirty
            &&& f.path == d.path && g.path == d.path
            &&& f.newline == d.newline && g.newline == d.newline
            &&& d.revision < u64::MAX ==> f.revision == d.revision + 1 && g.revision == d.revision + 1
            &&& f.covered is None && g.covered is None
        }),
{
    lemma_place(pre, mid, post);
    crate::text::lemma_blen_bounds(mid);
    let t = d.text;
    let i = pre.len() as int;
    assert(t.skip(i) =~= mid + post);
    assert(pre + s + (mid + post) =~= pre + s + mid + post);
}

/// Edits with backticks, tildes or line breaks in them can move code blocks; no others can.
pub proof fn fences_move_with_their_characters(s: Seq<char>)
    ensures
        moves_fences(s) <==> s.contains('`') || s.contains('~') || s.contains('\n') || s.contains(
            '\r',
        ),
{
    if moves_fences(s) {
        let i = choose|i: int|
            0 <= i < s.len() && (#[trigger] s[i] == '`' || s[i] == '~' || s[i] == '\n' || s[i]
                == '\r');
        assert(s.contains(s[i]));
    }
    if s.contains('`') {
        let i = choose|i: int| 0 <= i < s.len() && s[i] == '`';
        assert(s[i] == '`');
    }
    if s.contains('~') {
        let i = choose|i: int| 0 <= i < s.len() && s[i] == '~';
        assert(s[i] == '~');
    }
    if s.contains('\n') {
        let i = choose|i: int| 0 <= i < s.len() && s[i] == '\n';
        assert(s[i] == '\n');
    }
    if s.contains('\r') {
        let i = choose|i: int| 0 <= i < s.len() && s[i] == '\r';
        assert(s[i] == '\r');
    }
}

/// A document is titled by the name of its file without the ending; a new one has none.
pub proof fn titles_are_names_of_files(dir: Seq<char>, stem: Seq<char>, ext: Seq<char>)
    requires
        stem.len() > 0,
        !stem.contains('/'),
        !ext.contains('/'),
        !ext.contains('.'),
        stem + seq!['.'] + ext != seq!['.', '.'],
    ensures
        title_of(Some(joined(dir, stem + seq!['.'] + ext))) == stem,
        title_of(None) == seq!['未', '命', '名'],
{
    names_part_at_the_last_dot(dir, stem, ext);
    reveal_strlit("未命名");
    assert("未命名"@ =~= seq!['未', '命', '名']);
}

/// Text that is put in takes the place of the selection, whether anything is selected or not.
pub proof fn text_goes_in_at_the_cursor(
    e: EditorModel,
    pre: Seq<char>,
    mid: Seq<char>,
    post: Seq<char>,
    s: Seq<char>,
    soon: bool,
)
    requires
        stands(e, pre, mid, post),
        s.len() > 0,
    ensures
        text_put(e, s, soon).doc.text == pre + s + post,
        text_put(e, s, soon).cursor == blen(pre) + blen(s),
        text_put(e, s, soon).anchor == blen(pre) + blen(s),
{
    typing_replaces_the_selection(e, pre, mid, post, s, soon);
}

/// Places that are told in code units of UTF-16 are places between characters: a character
/// beyond the first sixty-five thousand takes two units, any other one.
pub proof fn units_tell_places(a: Seq<char>, b: Seq<char>, c: Seq<char>, x: char, marked: Option<(int, int)>)
    ensures
        target_of(a + b + c, Some((utf16_len(a) as int, utf16_len(a + b) as int)), marked) == Some(
            (blen(a) as int, blen(a + b) as int),
        ),
        target_of(a + b + c, None, marked) == marked,
        utf16_len(a.push(x)) == utf16_len(a) + if x as u32 >= 0x10000 {
            2nat
        } else {
            1
        },
        utf16_len(Seq::empty()) == 0,
{
    let t = a + b + c;
    let (i, j) = (a.len() as int, a.len() + b.len() as int);
    assert(t.take(i) =~= a);
    assert(t.take(j) =~= a + b);
    crate::input::bytes_come_back(t, i);
    crate::input::bytes_come_back(t, j);
    crate::text::lemma_floor_index_off(t, i);
    crate::text::lemma_floor_index_off(t, j);
    assert(a.push(x).drop_last() =~= a);
}

/// What streams in stands where the cursor stood, all of it and in its order.
pub proof fn streams_are_written_at_the_cursor(
    e: EditorModel,
    pre: Seq<char>,
    post: Seq<char>,
    scroll: int,
    rows: int,
    events: Seq<EventModel>,
    n: int,
)
    requires
        stands(e, pre, Seq::empty(), post),
        0 <= n <= events.len(),
    ensures
        ({
            let f = written(e, scroll, rows, events, n).0;
            stands(f, pre + deltas_of(events.take(n)), Seq::empty(), post)
        }),
    decreases n,
{
    let none = Seq::<char>::empty();
    if n == 0 {
        assert(events.take(0) =~= Seq::<EventModel>::empty());
        assert(pre + none =~= pre);
    } else {
        streams_are_written_at_the_cursor(e, pre, post, scroll, rows, events, n - 1);
        let (f, s) = written(e, scroll, rows, events, n - 1);
        let p = pre + deltas_of(events.take(n - 1));
        assert(events.take(n).drop_last() =~= events.take(n - 1));
        assert(events.take(n).last() == events[n - 1]);
        match events[n - 1] {
            EventModel::Delta(d) => {
                assert(pre + deltas_of(events.take(n)) =~= p + d);
                crate::text::lemma_blen_concat(p, d);
                if d.len() > 0 {
                    typing_replaces_the_selection(f, p, none, post, d, false);
                    assert(p + d + none + post =~= p + d + post);
                } else {
                    assert(p + d =~= p);
                }
            },
            _ => {
                assert(pre + deltas_of(events.take(n)) =~= p);
            },
        }
    }
}

// ---------- what is parsed ----------

/// A line is blank if it holds nothing but blanks, tabs and breaks.
pub proof fn blank_lines_hold_blanks(s: Seq<char>, k: int)
    requires
        0 <= k < line_count(s),
    ensures
        blank_at(s, k) <==> forall|i: int|
            0 <= i < full_line(s, k).len() ==> #[trigger] full_line(s, k)[i] == ' ' || full_line(s, k)[i]
                == '\t' || full_line(s, k)[i] == '\n' || full_line(s, k)[i] == '\r',
{
    let l = full_line(s, k);
    if blank_at(s, k) {
        assert forall|i: int| 0 <= i < l.len() implies #[trigger] l[i] == ' ' || l[i] == '\t' || l[i]
            == '\n' || l[i] == '\r' by {
            assert(is_blank_char(l[i]));
        }
    }
}

proof fn lemma_indent(ind: Seq<char>, t: Seq<char>)
    requires
        forall|k: int| 0 <= k < ind.len() ==> #[trigger] ind[k] == ' ' || ind[k] == '\t',
        t.len() > 0 ==> t[0] != ' ' && t[0] != '\t',
    ensures
        crate::document::indent_run(ind + t) == ind.len(),
    decreases ind.len(),
{
    let s = ind + t;
    if ind.len() == 0 {
        assert(s =~= t);
    } else {
        let rest = ind.drop_first();
        assert forall|k: int| 0 <= k < rest.len() implies #[trigger] rest[k] == ' ' || rest[k]
            == '\t' by {
            assert(rest[k] == ind[k + 1]);
        }
        lemma_indent(rest, t);
        assert(s[0] == ind[0]);
        assert(s.drop_first() =~= rest + t);
    }
}

/// A line can bound code if three backticks or three tildes start it, behind no more than three
/// blanks or tabs.
pub proof fn fences_stand_near_the_start(ind: Seq<char>, t: Seq<char>)
    requires
        forall|k: int| 0 <= k < ind.len() ==> #[trigger] ind[k] == ' ' || ind[k] == '\t',
        t.len() > 0 ==> t[0] != ' ' && t[0] != '\t',
    ensures
        starts_fence(ind + t) <==> ind.len() <= 3 && t.len() >= 3 && t[0] == t[1] && t[1] == t[2] && (
        t[0] == '`' || t[0] == '~'),
{
    lemma_indent(ind, t);
    let s = ind + t;
    let n = ind.len() as int;
    if t.len() >= 3 {
        assert(s[n] == t[0] && s[n + 1] == t[1] && s[n + 2] == t[2]);
    }
}

/// Parsing starts at the top, at a blank line, at a fence, or after having looked for one over
/// two hundred and fifty-six lines; and it ends likewise.
pub proof fn parsing_starts_where_blocks_can(s: Seq<char>, target: int)
    requires
        0 <= target <= line_count(s),
    ensures
        ({
            let a = parse_start(s, target);
            &&& 0 <= a <= target
            &&& a == 0 || blank_at(s, a) || fence_at(s, a) || target - a == 256
        }),
        ({
            let b = parse_end(s, target);
            &&& target <= b <= line_count(s)
            &&& b == line_count(s) || blank_at(s, b - 1) || b - target == 256
            &&& forall|k: int| target <= k < b - 1 ==> !blank_at(s, k)
        }),
{
    crate::document::lemma_parse_start(s, target);
    crate::document::lemma_parse_end(s, target);
    let floor = if target > 256 {
        target - 256
    } else {
        0
    };
    lemma_above(s, floor, target);
    let cand = blank_above(s, floor, target);
    let from = if cand > 2048 {
        cand - 2048
    } else {
        0
    };
    lemma_fence(s, from, cand);
    let n = line_count(s);
    let limit = if target + 256 < n {
        target + 256
    } else {
        n
    };
    lemma_below(s, target, limit);
}

proof fn lemma_above(s: Seq<char>, floor: int, l: int)
    requires
        0 <= floor <= l,
    ensures
        blank_above(s, floor, l) == floor || blank_at(s, blank_above(s, floor, l)),
    decreases l - floor,
{
    if floor < l && !blank_at(s, l - 1) {
        lemma_above(s, floor, l - 1);
    }
}

proof fn lemma_fence(s: Seq<char>, a: int, b: int)
    ensures
        last_fence(s, a, b) matches Some(f) ==> fence_at(s, f),
    decreases b - a,
{
    if a < b && !fence_at(s, b - 1) {
        lemma_fence(s, a, b - 1);
    }
}

proof fn lemma_below(s: Seq<char>, l: int, limit: int)
    requires
        0 <= l <= limit,
    ensures
        ({
            let b = blank_below(s, l, limit);
            &&& b == limit || blank_at(s, b - 1)
            &&& l <= b <= limit
            &&& forall|k: int| l <= k < b - 1 ==> !blank_at(s, k)
        }),
    decreases limit - l,
{
    if l < limit && !blank_at(s, l) {
        lemma_below(s, l + 1, limit);
    }
}

} // verus!
