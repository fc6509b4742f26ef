//! What blocks promise of their source: where it lies, and what of it is shown.
use crate::block::{
    block_at, bracket_end, code_body_of, code_of, eol_width, from_byte, image_of, inline_source,
    is_fence_close, lead_bytes, query_body_of, same_ignoring_case, shape_at, BlockModel,
    InputModel, KindModel, ListMarker,
};
use crate::block_laws::{
    bullets_start_items, is_white, lemma_cut_ends, lemma_cut_start, numbers_start_items,
};
use crate::inline::inline_of;
use crate::text::{
    blen, digits_of, is_space, lemma_digits, lemma_floor_index_off, lemma_index_of_is,
    lemma_last_index_of_is, lemma_split_join, off, split_on, trim, trim_start,
};
use crate::typing_laws::lemma_ascii_blen;
use vstd::prelude::*;

verus! {

pub open spec fn is_one_line(s: Seq<char>) -> bool {
    !s.contains('\n')
}

proof fn lemma_no_line_feed(s: Seq<char>)
    requires
        is_one_line(s),
    ensures
        forall|k: int| 0 <= k < s.len() ==> #[trigger] s[k] != '\n',
{
    assert forall|k: int| 0 <= k < s.len() implies #[trigger] s[k] != '\n' by {
        assert(s.contains(s[k]));
    }
}

proof fn lemma_behind_first(first: Seq<char>, rest: Seq<char>)
    requires
        is_one_line(first),
    ensures
        crate::text::index_of(first + seq!['\n'] + rest, '\n') == first.len(),
        (first + seq!['\n'] + rest).skip(first.len() as int + 1) == rest,
{
    let s = first + seq!['\n'] + rest;
    lemma_no_line_feed(first);
    assert forall|k: int| 0 <= k < first.len() implies #[trigger] s[k] != '\n' by {
        assert(s[k] == first[k]);
    }
    lemma_index_of_is(s, '\n', first.len() as int);
    assert(s.skip(first.len() as int + 1) =~= rest);
}

proof fn lemma_last_line(head: Seq<char>, last: Seq<char>)
    requires
        is_one_line(last),
        head.len() == 0 || head.last() == '\n',
    ensures
        crate::text::last_index_of(head + last, '\n') == head.len() - 1,
        (head + last).skip(head.len() as int) == last,
{
    let s = head + last;
    lemma_no_line_feed(last);
    assert forall|k: int| head.len() - 1 < k < s.len() implies #[trigger] s[k] != '\n' by {
        assert(s[k] == last[k - head.len()]);
    }
    lemma_last_index_of_is(s, '\n', head.len() - 1);
    assert(s.skip(head.len() as int) =~= last);
}

/// The code of a code block is what stands between its first line and its last, if that one
/// closes it, and else all that stands behind the first.
pub proof fn code_stands_inside_its_fences(
    first: Seq<char>,
    body: Seq<char>,
    last: Seq<char>,
)
    requires
        is_one_line(first),
        is_one_line(last),
    ensures
        is_fence_close(last) ==> code_of(first + seq!['\n'] + (body + seq!['\n'] + last)) == body,
        is_fence_close(last) ==> code_of(first + seq!['\n'] + last).len() == 0,
        !is_fence_close(last) ==> code_of(first + seq!['\n'] + (body + seq!['\n'] + last)) == body
            + seq!['\n'] + last,
        !is_fence_close(last) ==> code_of(first + seq!['\n'] + last) == last,
        code_of(first).len() == 0,
{
    let rest = body + seq!['\n'] + last;
    lemma_behind_first(first, rest);
    lemma_last_line(body + seq!['\n'], last);
    assert(rest.take(body.len() as int) =~= body);
    lemma_behind_first(first, last);
    let none = Seq::<char>::empty();
    lemma_last_line(none, last);
    assert(none + last =~= last);
    assert(last.skip(0) =~= last);
    assert(last.take(0) =~= none);
    lemma_no_line_feed(first);
    lemma_index_of_is(first, '\n', first.len() as int);
    let e = first.skip(first.len() as int);
    assert(e =~= none);
    assert(crate::text::last_index_of(none, '\n') == -1);
    assert(none.skip(0) =~= none);
    assert(none.take(0) =~= none);
}

/// A code block that names `query`, in upper or lower case, holds a query; no other block does.
pub proof fn queries_are_named(b: BlockModel, lang: Seq<char>, closed: bool)
    ensures
        b.kind == (KindModel::CodeFence { lang: Some(lang), closed }) && same_ignoring_case(
            lang,
            seq!['q', 'u', 'e', 'r', 'y'],
        ) && b.source.len() > 0 ==> query_body_of(b) == Some(code_of(b.source)),
        b.kind == (KindModel::CodeFence { lang: Some(lang), closed }) && !same_ignoring_case(
            lang,
            seq!['q', 'u', 'e', 'r', 'y'],
        ) ==> query_body_of(b) is None,
        b.kind == (KindModel::CodeFence { lang: None, closed }) ==> query_body_of(b) is None,
        !(b.kind is CodeFence) ==> query_body_of(b) is None && code_body_of(b) is None,
        b.kind is CodeFence && b.source.len() > 0 ==> code_body_of(b) == Some(code_of(b.source)),
{
    reveal_strlit("query");
    assert("query"@ =~= seq!['q', 'u', 'e', 'r', 'y']);
}

/// The source of a block is made of its lines.
pub proof fn sources_are_made_of_lines(m: InputModel, i: int)
    requires
        0 <= i < m.lines.len(),
        forall|k: int| 0 <= k < m.lines.len() ==> is_one_line(#[trigger] m.lines[k]),
    ensures
        ({
            let b = block_at(m, i);
            let n = b.end_line - b.first_line;
            &&& b.first_line == m.first_line + i
            &&& 1 <= n && i + n <= m.lines.len()
            &&& split_on(b.source, '\n') == m.lines.subrange(i, i + n)
        }),
{
    crate::block::lemma_shape_at(m.lines, i);
    let e = shape_at(m.lines, i).1;
    let part = m.lines.subrange(i, e);
    assert forall|k: int| 0 <= k < part.len() implies !(#[trigger] part[k]).contains('\n') by {
        assert(part[k] == m.lines[i + k]);
        assert(is_one_line(m.lines[i + k]));
    }
    lemma_split_join(part, '\n');
}

/// The bytes of blocks follow each other with a line break between them.
pub proof fn blocks_lie_behind_each_other(m: InputModel, i: int)
    requires
        0 <= i < m.lines.len(),
        shape_at(m.lines, i).1 < m.lines.len(),
    ensures
        block_at(m, 0).lo == m.first_byte,
        block_at(m, shape_at(m.lines, i).1).lo == block_at(m, i).hi + eol_width(
            m.eols,
            shape_at(m.lines, i).1 - 1,
        ),
        block_at(m, shape_at(m.lines, i).1).first_line == block_at(m, i).end_line,
{
    crate::block::lemma_shape_at(m.lines, i);
}

/// Code, rules, blank lines and images are shown as they are; all else is read for its parts:
/// paragraphs and tables whole.
pub proof fn text_is_read_for_its_parts(m: InputModel, i: int)
    requires
        0 <= i < m.lines.len(),
    ensures
        ({
            let b = block_at(m, i);
            &&& b.kind is CodeFence || b.kind is Rule || b.kind is Blank || b.kind is Image
                <==> b.inline is None
            &&& b.kind is Paragraph || b.kind is Table ==> b.inline == Some(inline_of(b.source))
            &&& b.inline is Some ==> b.inline == Some(inline_of(inline_source(b.kind, b.source).0))
        }),
{
}

proof fn lemma_behind_head(ind: Seq<char>, head: Seq<char>, body: Seq<char>)
    requires
        is_white(ind),
        head.len() > 0,
        !is_space(head[0]),
        forall|k: int| 0 <= k < head.len() ==> (#[trigger] head[k]) as u32 <= 127,
    ensures
        from_byte(trim_start(ind + head + body), head.len() as int) == body,
{
    let t = head + body;
    assert(ind + head + body =~= ind + t);
    assert(t[0] == head[0]);
    lemma_cut_start(ind, t);
    lemma_ascii_blen(head);
    let n = head.len() as int;
    assert(t.take(n) =~= head);
    lemma_floor_index_off(t, n);
    assert(off(t, n) == n);
    assert(t.skip(n) =~= body);
}

/// What an item shows is what stands behind its mark, and behind its box if it is a task.
pub proof fn items_show_their_text(
    ind: Seq<char>,
    c: char,
    n: nat,
    sep: char,
    x: char,
    body: Seq<char>,
    marker: ListMarker,
    indent: u8,
)
    requires
        is_white(ind),
        c == '-' || c == '*' || c == '+',
        n < 1_000_000_000,
        sep == '.' || sep == ')',
        x == ' ' || x == 'x' || x == 'X',
    ensures
        ({
            let plain = KindModel::List { marker, indent, task: None };
            let task = KindModel::List { marker, indent, task: Some(x != ' ') };
            let bx = seq!['[', x, ']', ' '];
            &&& inline_source(plain, ind + seq![c, ' '] + body).0 == body
            &&& inline_source(task, ind + seq![c, ' '] + (bx + body)).0 == body
            &&& inline_source(plain, ind + digits_of(n) + seq![sep, ' '] + body).0 == body
            &&& inline_source(task, ind + digits_of(n) + seq![sep, ' '] + (bx + body)).0 == body
        }),
{
    let bx = seq!['[', x, ']', ' '];
    let h1 = seq![c, ' '];
    bullets_start_items(ind, c, body);
    lemma_behind_head(ind, h1, body);
    let h2 = h1 + bx;
    bullets_start_items(ind, c, bx + body);
    assert(ind + h1 + (bx + body) =~= ind + h2 + body);
    lemma_behind_head(ind, h2, body);
    let ds = digits_of(n);
    lemma_digits(n);
    let h3 = ds + seq![sep, ' '];
    assert forall|k: int| 0 <= k < h3.len() implies (#[trigger] h3[k]) as u32 <= 127 by {
        if k < ds.len() {
            assert('0' <= ds[k] <= '9');
        }
    }
    assert(h3[0] == ds[0] && '0' <= ds[0] <= '9');
    numbers_start_items(ind, n, sep, body);
    assert(ind + ds + seq![sep, ' '] + body =~= ind + h3 + body);
    lemma_behind_head(ind, h3, body);
    let h4 = h3 + bx;
    assert forall|k: int| 0 <= k < h4.len() implies (#[trigger] h4[k]) as u32 <= 127 by {
        if k < h3.len() {
            assert(h4[k] == h3[k]);
        }
    }
    assert(h4[0] == h3[0]);
    numbers_start_items(ind, n, sep, bx + body);
    assert(ind + ds + seq![sep, ' '] + (bx + body) =~= ind + h4 + body);
    lemma_behind_head(ind, h4, body);
}

// ---------- images ----------

proof fn lemma_image(ind: Seq<char>, alt: Seq<char>, inner: Seq<char>, tail: Seq<char>)
    requires
        is_white(ind),
        is_white(tail),
        !alt.contains(']'),
    ensures
        image_of(ind + (seq!['!', '['] + alt + seq![']', '('] + inner + seq![')']) + tail) == if bracket_end(
            inner + seq![')'],
            0,
            0,
        ) >= inner.len() && trim(inner).len() > 0 {
            Some(trim(inner))
        } else {
            None
        },
{
    reveal_strlit("![");
    let t = seq!['!', '['] + alt + seq![']', '('] + inner + seq![')'];
    assert(t[0] == '!' && t.last() == ')');
    lemma_cut_ends(ind, t, tail);
    assert(t.take(2) =~= "!["@);
    let rest = t.skip(2);
    assert(rest =~= alt + seq![']', '('] + inner + seq![')']);
    let a = alt.len() as int;
    assert forall|k: int| 0 <= k < a implies #[trigger] rest[k] != ']' by {
        assert(rest[k] == alt[k]);
        assert(alt.contains(alt[k]));
    }
    assert(rest[a] == ']');
    lemma_index_of_is(rest, ']', a);
    let after = rest.skip(a + 1);
    assert(after =~= seq!['('] + inner + seq![')']);
    let path = after.skip(1);
    assert(path =~= inner + seq![')']);
    assert(path.drop_last() =~= inner);
}

proof fn lemma_pass(s: Seq<char>, open: int, i: int, j: int)
    requires
        0 <= i <= j <= s.len(),
        forall|k: int| i <= k < j ==> #[trigger] s[k] != '(' && s[k] != ')',
    ensures
        bracket_end(s, open, i) == bracket_end(s, open, j),
    decreases j - i,
{
    if i < j {
        assert(s[i] != '(' && s[i] != ')');
        lemma_pass(s, open, i + 1, j);
    }
}

pub open spec fn has_no_bracket(s: Seq<char>) -> bool {
    forall|k: int| 0 <= k < s.len() ==> #[trigger] s[k] != '(' && s[k] != ')'
}

/// The address of an image may hold brackets that close; where one closes that was not opened,
/// the line is no image.
pub proof fn addresses_may_hold_brackets(
    ind: Seq<char>,
    alt: Seq<char>,
    x: Seq<char>,
    y: Seq<char>,
    z: Seq<char>,
    tail: Seq<char>,
)
    requires
        is_white(ind),
        is_white(tail),
        !alt.contains(']'),
        has_no_bracket(x) && has_no_bracket(y) && has_no_bracket(z),
        x.len() > 0,
        !is_space(x[0]),
        z.len() > 0,
        !is_space(z.last()),
    ensures
        image_of(
            ind + (seq!['!', '['] + alt + seq![']', '('] + (x + seq!['('] + y + seq![')'] + z) + seq![
                ')',
            ]) + tail,
        ) == Some(x + seq!['('] + y + seq![')'] + z),
        image_of(
            ind + (seq!['!', '['] + alt + seq![']', '('] + (x + seq![')'] + z) + seq![')']) + tail,
        ) is None,
{
    let none = Seq::<char>::empty();
    let inner = x + seq!['('] + y + seq![')'] + z;
    lemma_image(ind, alt, inner, tail);
    lemma_cut_ends(none, inner, none);
    assert(none + inner + none =~= inner);
    let s = inner + seq![')'];
    let (a, b, n) = (x.len() as int, x.len() + 1 + y.len() as int, inner.len() as int);
    assert forall|k: int| 0 <= k < a implies #[trigger] s[k] != '(' && s[k] != ')' by {
        assert(s[k] == x[k]);
    }
    assert(s[a] == '(');
    assert forall|k: int| a + 1 <= k < b implies #[trigger] s[k] != '(' && s[k] != ')' by {
        assert(s[k] == y[k - a - 1]);
    }
    assert(s[b] == ')');
    assert forall|k: int| b + 1 <= k < n implies #[trigger] s[k] != '(' && s[k] != ')' by {
        assert(s[k] == z[k - b - 1]);
    }
    assert(s[n] == ')');
    lemma_pass(s, 0, 0, a);
    lemma_pass(s, 1, a + 1, b);
    lemma_pass(s, 0, b + 1, n);
    assert(bracket_end(s, 0, n) == n);
    let other = x + seq![')'] + z;
    lemma_image(ind, alt, other, tail);
    let u = other + seq![')'];
    assert forall|k: int| 0 <= k < a implies #[trigger] u[k] != '(' && u[k] != ')' by {
        assert(u[k] == x[k]);
    }
    assert(u[a] == ')');
    lemma_pass(u, 0, 0, a);
    assert(bracket_end(u, 0, a) == a);
    assert(other.len() > a);
}

// ---------- what is cut ----------

/// A line stands as far in as it has bytes of white space before its text.
pub proof fn lines_stand_in_by_their_white_space(ind: Seq<char>, t: Seq<char>)
    requires
        is_white(ind),
        t.len() == 0 || !is_space(t[0]),
    ensures
        lead_bytes(ind + t) == blen(ind),
{
    lemma_cut_start(ind, t);
    assert((ind + t).take(ind.len() as int) =~= ind);
}

/// What is cut from the first line of an item is all that stands before its text, and nothing
/// is cut from its other lines.
pub proof fn items_are_cut_before_their_text(
    ind: Seq<char>,
    c: char,
    x: char,
    body: Seq<char>,
    marker: ListMarker,
    indent: u8,
    k: int,
)
    requires
        is_white(ind),
        blen(ind) <= 1_000_000,
        c == '-' || c == '*' || c == '+',
        x == ' ' || x == 'x' || x == 'X',
    ensures
        ({
            let plain = KindModel::List { marker, indent, task: None };
            let task = KindModel::List { marker, indent, task: Some(x != ' ') };
            let a = inline_source(plain, ind + seq![c, ' '] + body).1;
            let b = inline_source(task, ind + seq![c, ' '] + (seq!['[', x, ']', ' '] + body)).1;
            &&& a[0] == blen(ind) + 2
            &&& b[0] == blen(ind) + 6
            &&& 0 < k < a.len() ==> a[k] == 0
            &&& 0 < k < b.len() ==> b[k] == 0
        }),
{
    let bx = seq!['[', x, ']', ' '];
    let t = seq![c, ' '] + body;
    let u = seq![c, ' '] + (bx + body);
    bullets_start_items(ind, c, body);
    bullets_start_items(ind, c, bx + body);
    assert(ind + seq![c, ' '] + body =~= ind + t);
    assert(ind + seq![c, ' '] + (bx + body) =~= ind + u);
    assert(t[0] == c && u[0] == c);
    lines_stand_in_by_their_white_space(ind, t);
    lines_stand_in_by_their_white_space(ind, u);
}

} // verus!
