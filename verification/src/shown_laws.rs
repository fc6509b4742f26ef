//! What is promised of what is shown: how text is styled, what the panels list, and what the
//! workspace tells.
use crate::block::{heading_level, is_fence_close, KindModel, ListMarker};
use crate::block_laws::{is_white, lemma_cut_ends, times};
use crate::chat::{deltas_of, ends_reply, error_of};
use crate::ai::sse::EventModel;
use crate::document::line_at;
use crate::editor::EditorModel;
use crate::inline::{MarkModel, SpanModel};
use crate::layout::{
    block_holding_line, block_with_byte, kind_of, lines_in_view, link_at, local_image, query_head,
    query_rows, rows_of, selected_in_row, without_title, PlanKind, RowModel,
};
use crate::block::BlockModel;
use crate::index::PlaceModel;
use crate::line_laws::{ends_here, has_no_break, is_before_a_line, places_lie_in_their_line};
use crate::palette::{chosen_cmd, is_shown, shown, template_list, CmdModel, ItemModel};
use crate::render::{
    marker_len, maybe_run, prefix_of, run_for, run_of_two, runs_from, style_of, Face, Ink,
    TextRun, Tint,
};
use crate::talk_laws::lemma_white;
use crate::template::{expanded, CtxModel, TemplateModel};
use crate::text::{
    blen, digits_of, has_text, is_space, join, lemma_blen_concat, lemma_floor_index_off,
    lemma_join_split, lemma_last_index_of_is, lemma_run_of_is, lowercase, split_on, trim,
    trim_start,
};
use crate::view::{
    completion_wanted, fence_lines, headings_upto, is_code_line, page_of, proposal_after,
    revealed, task_target, unix_breaks, AssistModel, HeadingModel,
};
use crate::workspace::{
    board_base, covers, daily_text, refusal, shows, size_of_text, snapshot_size_of, template_named,
    tenths, Have, Overlay, Overlays,
};
use crate::ai::config::AiConfigModel;
use crate::rope::line_count;
use vstd::prelude::*;

verus! {

// ---------- styles ----------

/// Headings are bold and larger the higher they stand; each level has its size.
pub proof fn headings_are_larger(level: u8, active: bool)
    ensures
        ({
            let s = style_of(KindModel::Heading { level }, active);
            &&& s.ink.bold && s.ink.color == Tint::Heading && s.ink.font == Face::Body
            &&& level == 1 ==> s.font_size == 28
            &&& level == 2 ==> s.font_size == 23
            &&& level == 3 ==> s.font_size == 19
            &&& level == 4 ==> s.font_size == 17
            &&& level == 5 ==> s.font_size == 15
            &&& level == 6 ==> s.font_size == 14
        }),
        style_of(KindModel::Paragraph, active).font_size == 15,
        !style_of(KindModel::Paragraph, active).ink.bold,
        style_of(KindModel::Table, active).ink.font == Face::Mono,
{
}

/// Items and quotes stand the further in the deeper they are; code stands on its own ground.
pub proof fn deeper_blocks_stand_further_in(
    depth: u8,
    marker: ListMarker,
    indent: u8,
    task: Option<bool>,
    lang: Option<Seq<char>>,
    closed: bool,
    active: bool,
)
    ensures
        depth > 0 ==> style_of(KindModel::Quote { depth }, active).indent == 16 * depth,
        style_of(KindModel::Quote { depth }, active).bar == Some(Tint::QuoteBar),
        style_of(KindModel::List { marker, indent, task }, active).indent == 22 + 20 * indent,
        style_of(KindModel::List { marker, indent, task }, true).prefix is None,
        style_of(KindModel::List { marker, indent, task }, false).prefix == Some(
            prefix_of(marker, task),
        ),
        style_of(KindModel::CodeFence { lang, closed }, active).bg == Some(Tint::CodeBlockBack),
        style_of(KindModel::CodeFence { lang, closed }, active).ink.font == Face::Mono,
        style_of(KindModel::Rule, active).is_rule,
        !style_of(KindModel::Paragraph, active).is_rule,
{
}

/// Items are marked by a dot or by their number, and tasks by a box, ticked or not.
pub proof fn items_are_marked(marker: ListMarker, n: u64)
    ensures
        prefix_of(ListMarker::Bullet, None) == seq!['•'],
        prefix_of(ListMarker::Ordered(n), None) == digits_of(n as nat) + seq!['.'],
        prefix_of(marker, Some(true)) == seq!['☑'],
        prefix_of(marker, Some(false)) == seq!['☐'],
{
    reveal_strlit("•");
    reveal_strlit("☑");
    reveal_strlit("☐");
    assert("•"@ =~= seq!['•']);
    assert("☑"@ =~= seq!['☑']);
    assert("☐"@ =~= seq!['☐']);
    assert(digits_of(n as nat).push('.') =~= digits_of(n as nat) + seq!['.']);
}

/// Each style shows as what it is: bold, italic, code, struck out, a link, a link to a note, a
/// tag; and text without a style as the text around it.
pub proof fn styles_show(len: usize, style: u8, base: Ink)
    ensures
        ({
            let r = run_for(len as int, style, base);
            &&& r.len == len
            &&& style & 1 == 1 ==> r.ink.bold
            &&& style & 1 != 1 && !base.bold ==> !r.ink.bold
            &&& r.italic == (style & 2 == 2)
            &&& style & 4 == 4 ==> r.ink.font == Face::Mono
            &&& style & 4 != 4 ==> r.ink.font == base.font
            &&& r.strike == (style & 8 == 8)
            &&& style & 64 == 64 ==> r.ink.color == Tint::Tag && r.background == Some(Tint::TagBack)
            &&& style & 64 != 64 && style & 32 == 32 ==> r.ink.color == Tint::Wikilink
            &&& style & 64 != 64 && style & 32 != 32 && style & 16 == 16 ==> r.ink.color
                == Tint::Accent && r.underline == Some(Tint::Accent)
            &&& style & 16 != 16 && style & 32 == 32 ==> r.underline == Some(Tint::Wikilink)
            &&& style & 16 != 16 && style & 32 != 32 ==> r.underline is None
            &&& style & 64 != 64 && style & 32 != 32 && style & 16 != 16 && style & 4 == 4
                ==> r.ink.color == Tint::Code && r.background == Some(Tint::CodeBack)
            &&& style & 64 != 64 && style & 4 != 4 ==> r.background is None
            &&& style & 64 != 64 && style & 32 != 32 && style & 16 != 16 && style & 4 != 4
                ==> r.ink.color == base.color
        }),
{
}

/// The run that shows the byte at a distance from where the runs start.
pub open spec fn run_at(runs: Seq<TextRun>, d: int) -> Option<TextRun>
    decreases runs.len(),
{
    if runs.len() == 0 || d < 0 {
        None
    } else if d < runs[0].len {
        Some(runs[0])
    } else {
        run_at(runs.drop_first(), d - runs[0].len)
    }
}

proof fn lemma_run_behind(a: Seq<TextRun>, b: Seq<TextRun>, d: int)
    requires
        a.len() <= 1,
        a.len() == 1 ==> d >= a[0].len,
        d >= 0,
    ensures
        a.len() == 1 ==> run_at(a + b, d) == run_at(b, d - a[0].len),
        a.len() == 0 ==> run_at(a + b, d) == run_at(b, d),
{
    if a.len() == 1 {
        assert((a + b)[0] == a[0]);
        assert((a + b).drop_first() =~= b);
    } else {
        assert(a + b =~= b);
    }
}

/// Whether spans stand one behind the other.
pub open spec fn in_line(spans: Seq<SpanModel>) -> bool {
    &&& forall|j: int| 0 <= j < spans.len() ==> (#[trigger] spans[j]).lo < spans[j].hi
    &&& forall|i: int, j: int|
        0 <= i < j < spans.len() ==> (#[trigger] spans[i]).hi <= (#[trigger] spans[j]).lo
}

/// Every byte that is shown is shown in the style of its span.
pub proof fn runs_have_the_style_of_their_span(
    spans: Seq<SpanModel>,
    k: int,
    lo: int,
    hi: int,
    at: int,
    base: Ink,
    q: int,
    x: int,
)
    requires
        in_line(spans),
        0 <= k <= q < spans.len(),
        0 <= lo <= at <= x < hi <= usize::MAX,
        spans[q].lo <= x < spans[q].hi,
        k > 0 ==> at <= lo || at <= spans[k - 1].hi,
        k == 0 ==> at == lo,
    ensures
        run_at(runs_from(spans, k, lo, hi, at, base), x - at) matches Some(r) && {
            let w = run_for(r.len as int, spans[q].style, base);
            r == w
        },
    decreases spans.len() - k,
{
    let runs = runs_from(spans, k, lo, hi, at, base);
    if k < q {
        assert(spans[k].hi <= spans[q].lo);
    }
    if spans[k].hi <= lo {
        runs_have_the_style_of_their_span(spans, k + 1, lo, hi, at, base, q, x);
    } else {
        let s = if spans[k].lo > lo {
            spans[k].lo
        } else {
            lo
        };
        let e = if spans[k].hi < hi {
            spans[k].hi
        } else {
            hi
        };
        if k > 0 {
            assert(spans[k - 1].hi <= spans[k].lo);
        }
        let (a, b) = (maybe_run(s - at, 0, base), maybe_run(e - s, spans[k].style, base));
        let rest = runs_from(spans, k + 1, lo, hi, e, base);
        assert(runs =~= a + (b + rest));
        assert(a.len() == 1 ==> a[0].len == s - at);
        assert(b.len() == 1 ==> b[0].len == e - s);
        assert(s <= x);
        lemma_run_behind(a, b + rest, x - at);
        assert(run_at(runs, x - at) == run_at(b + rest, x - s));
        if q == k {
            assert(b.len() == 1);
            assert((b + rest)[0] == b[0]);
        } else {
            assert(e <= x);
            lemma_run_behind(b, rest, x - s);
            runs_have_the_style_of_their_span(spans, k + 1, lo, hi, e, base, q, x);
        }
    }
}

proof fn lemma_indent_run(ind: Seq<char>, t: Seq<char>)
    requires
        forall|k: int| 0 <= k < ind.len() ==> #[trigger] ind[k] == ' ' || ind[k] == '\t',
        t.len() > 0 ==> t[0] != ' ' && t[0] != '\t',
    ensures
        run_of_two(ind + t, ' ', '\t') == ind.len(),
        (ind + t).skip(ind.len() as int) == t,
    decreases ind.len(),
{
    let s = ind + t;
    assert(s.skip(ind.len() as int) =~= t);
    if ind.len() == 0 {
        assert(s =~= t);
    } else {
        let rest = ind.drop_first();
        assert forall|k: int| 0 <= k < rest.len() implies #[trigger] rest[k] == ' ' || rest[k]
            == '\t' by {
            assert(rest[k] == ind[k + 1]);
        }
        lemma_indent_run(rest, t);
        assert(s[0] == ind[0]);
        assert(s.drop_first() =~= rest + t);
    }
}

/// In the source the mark of a line stands out: of a heading its `#`, of an item its mark and
/// box, of a fence the whole line; in a line without one nothing does.
pub proof fn marks_stand_out(ind: Seq<char>, n: nat, c: char, x: char, body: Seq<char>)
    requires
        forall|k: int| 0 <= k < ind.len() ==> #[trigger] ind[k] == ' ' || ind[k] == '\t',
        1 <= n <= 6,
        c == '-' || c == '*' || c == '+',
        x == ' ' || x == 'x' || x == 'X',
    ensures
        marker_len(ind + (times('#', n) + seq![' '] + body)) == ind.len() + n + 1,
        body.len() > 0 && body[0] != '[' ==> marker_len(ind + (seq![c, ' '] + body)) == ind.len() + 2,
        body.len() > 0 && body[0] != ' ' ==> marker_len(ind + (seq![c, ' ', '[', x, ']'] + body))
            == ind.len() + 5,
        marker_len(ind + (seq![c, ' ', '[', x, ']', ' '] + body)) == ind.len() + 6,
        marker_len(ind + (seq!['`', '`', '`'] + body)) == blen(ind + (seq!['`', '`', '`'] + body)),
        body.len() > 0 && ('a' <= body[0] <= 'z' || 'A' <= body[0] <= 'Z' || '\u{4e00}' <= body[0])
            ==> marker_len(ind + body) == 0,
{
    reveal_strlit("```");
    reveal_strlit("~~~");
    let h = times('#', n) + seq![' '] + body;
    assert(h[0] == '#');
    lemma_indent_run(ind, h);
    assert(h[n as int] == ' ');
    lemma_run_of_is(h, '#', n as int);
    let b = seq![c, ' '] + body;
    assert(b[0] == c && b[1] == ' ');
    lemma_indent_run(ind, b);
    lemma_run_of_is(b, '#', 0);
    assert(b.skip(2) =~= body);
    let d = seq![c, ' ', '[', x, ']'] + body;
    assert(d[0] == c && d[1] == ' ');
    lemma_indent_run(ind, d);
    lemma_run_of_is(d, '#', 0);
    let d2 = d.skip(2);
    assert(d2[0] == '[' && d2[1] == x && d2[2] == ']');
    if body.len() > 0 {
        assert(d2[3] == body[0]);
    }
    let f = seq![c, ' ', '[', x, ']', ' '] + body;
    assert(f[0] == c && f[1] == ' ');
    lemma_indent_run(ind, f);
    lemma_run_of_is(f, '#', 0);
    let f2 = f.skip(2);
    assert(f2[0] == '[' && f2[1] == x && f2[2] == ']' && f2[3] == ' ');
    let g = seq!['`', '`', '`'] + body;
    assert(g[0] == '`');
    lemma_indent_run(ind, g);
    lemma_run_of_is(g, '#', 0);
    assert("```"@ =~= g.take(3));
    assert("```"@.is_prefix_of(g));
    if body.len() > 0 && ('a' <= body[0] <= 'z' || 'A' <= body[0] <= 'Z' || '\u{4e00}' <= body[0]) {
        lemma_indent_run(ind, body);
        lemma_run_of_is(body, '#', 0);
        if "```"@.is_prefix_of(body) {
            assert(body[0] == "```"@[0]);
        }
        if "~~~"@.is_prefix_of(body) {
            assert(body[0] == "~~~"@[0]);
        }
    }
}

// ---------- rows ----------

/// A block in which the cursor stands shows its source; any other shows what a query found, a
/// rule, an image, or its text.
pub proof fn the_cursor_shows_the_source(b: BlockModel, has_image: bool, has_hits: bool)
    ensures
        kind_of(b, true, has_image, has_hits) == PlanKind::Source,
        kind_of(b, false, has_image, true) == PlanKind::Query,
        b.kind is Rule ==> kind_of(b, false, has_image, false) == PlanKind::Rule,
        !(b.kind is Rule) ==> kind_of(b, false, true, false) == PlanKind::Image,
        !(b.kind is Rule) && b.inline is None ==> kind_of(b, false, false, false) == PlanKind::Source,
        !(b.kind is Rule) && b.inline is Some ==> kind_of(b, false, false, false) == PlanKind::Shown,
{
}

/// The source of a block is shown line by line.
pub proof fn the_source_is_shown_by_lines(b: BlockModel, has_image: bool, t: Seq<char>, k: int)
    requires
        b.first_line <= k < b.end_line,
    ensures
        ({
            let rows = rows_of(b, true, has_image, None, t);
            &&& rows.len() == b.end_line - b.first_line
            &&& rows[k - b.first_line].text == line_at(t, k)
        }),
{
}

/// What a block shows is shown line by line.
pub proof fn shown_text_is_shown_by_lines(b: BlockModel, t: Seq<char>, k: int)
    requires
        b.inline is Some,
        !(b.kind is Rule),
        0 <= k < split_on(b.inline->0.text, '\n').len(),
    ensures
        ({
            let rows = rows_of(b, false, false, None, t);
            let parts = split_on(b.inline->0.text, '\n');
            &&& rows.len() == parts.len()
            &&& rows[k].text == parts[k]
            &&& join(rows.map_values(|r: RowModel| r.text), '\n') == b.inline->0.text
        }),
{
    let rows = rows_of(b, false, false, None, t);
    let parts = split_on(b.inline->0.text, '\n');
    assert(rows.map_values(|r: RowModel| r.text) =~= parts);
    lemma_join_split(b.inline->0.text, '\n');
}

/// A rule or an image takes one row without text.
pub proof fn pictures_take_one_row(b: BlockModel, t: Seq<char>)
    ensures
        b.kind is Rule ==> rows_of(b, false, false, None, t).len() == 1 && rows_of(
            b,
            false,
            false,
            None,
            t,
        )[0].text.len() == 0,
        rows_of(b, false, true, None, t).len() == 1 && rows_of(b, false, true, None, t)[0].text.len()
            == 0,
{
}

/// What a query found is counted, and then shown note by note, each leading to its place.
pub proof fn findings_lead_to_their_place(hits: Seq<PlaceModel>, at: int, k: int)
    requires
        0 <= k < hits.len(),
    ensures
        query_rows(hits, at).len() == hits.len() + 1,
        query_rows(hits, at)[0].text == query_head(hits.len()),
        query_rows(hits, at)[0].link is None,
        query_rows(hits, at)[k + 1].link == Some((hits[k].path, hits[k].line)),
        query_rows(hits, at)[k + 1].text == seq!['·', ' '] + hits[k].name + seq![' ', '—', ' ']
            + hits[k].snippet,
{
    reveal_strlit("· ");
    reveal_strlit(" — ");
    assert("· "@ =~= seq!['·', ' ']);
    assert(" — "@ =~= seq![' ', '—', ' ']);
}

/// A place belongs to the first block or link that holds it.
pub proof fn places_belong_to_the_first(bs: Seq<BlockModel>, ms: Seq<MarkModel>, at: int, k: int)
    ensures
        0 <= k < bs.len() && bs[k].lo <= at <= bs[k].hi && (forall|j: int|
            0 <= j < k ==> !((#[trigger] bs[j]).lo <= at <= bs[j].hi)) ==> block_with_byte(bs, at, 0)
            == Some(k),
        (forall|j: int| 0 <= j < bs.len() ==> !((#[trigger] bs[j]).lo <= at <= bs[j].hi))
            ==> block_with_byte(bs, at, 0) is None,
        0 <= k < bs.len() && bs[k].first_line <= at < bs[k].end_line && (forall|j: int|
            0 <= j < k ==> !((#[trigger] bs[j]).first_line <= at < bs[j].end_line))
            ==> block_holding_line(bs, at, 0) == Some(k),
        (forall|j: int| 0 <= j < bs.len() ==> !((#[trigger] bs[j]).first_line <= at < bs[j].end_line))
            ==> block_holding_line(bs, at, 0) is None,
        0 <= k < ms.len() && ms[k].lo <= at < ms[k].hi && (forall|j: int|
            0 <= j < k ==> !((#[trigger] ms[j]).lo <= at < ms[j].hi)) ==> link_at(ms, at, 0) == Some(
            ms[k].name,
        ),
        (forall|j: int| 0 <= j < ms.len() ==> !((#[trigger] ms[j]).lo <= at < ms[j].hi)) ==> link_at(
            ms,
            at,
            0,
        ) is None,
{
    lemma_block_with_byte(bs, at, 0);
    lemma_block_holding_line(bs, at, 0);
    lemma_link_at(ms, at, 0);
}

proof fn lemma_block_with_byte(bs: Seq<BlockModel>, at: int, i: int)
    requires
        0 <= i <= bs.len(),
    ensures
        match block_with_byte(bs, at, i) {
            Some(k) => i <= k < bs.len() && bs[k].lo <= at <= bs[k].hi && forall|j: int|
                i <= j < k ==> !((#[trigger] bs[j]).lo <= at <= bs[j].hi),
            None => forall|j: int|
                i <= j < bs.len() ==> !((#[trigger] bs[j]).lo <= at <= bs[j].hi),
        },
    decreases bs.len() - i,
{
    if i < bs.len() && !(bs[i].lo <= at <= bs[i].hi) {
        lemma_block_with_byte(bs, at, i + 1);
    }
}

proof fn lemma_block_holding_line(bs: Seq<BlockModel>, at: int, i: int)
    requires
        0 <= i <= bs.len(),
    ensures
        match block_holding_line(bs, at, i) {
            Some(k) => i <= k < bs.len() && bs[k].first_line <= at < bs[k].end_line && forall|j: int|
                i <= j < k ==> !((#[trigger] bs[j]).first_line <= at < bs[j].end_line),
            None => forall|j: int|
                i <= j < bs.len() ==> !((#[trigger] bs[j]).first_line <= at < bs[j].end_line),
        },
    decreases bs.len() - i,
{
    if i < bs.len() && !(bs[i].first_line <= at < bs[i].end_line) {
        lemma_block_holding_line(bs, at, i + 1);
    }
}

proof fn lemma_link_at(ms: Seq<MarkModel>, at: int, i: int)
    requires
        0 <= i <= ms.len(),
    ensures
        match link_at(ms, at, i) {
            Some(n) => exists|k: int|
                i <= k < ms.len() && (#[trigger] ms[k]).lo <= at < ms[k].hi && ms[k].name == n
                    && forall|j: int| i <= j < k ==> !((#[trigger] ms[j]).lo <= at < ms[j].hi),
            None => forall|j: int|
                i <= j < ms.len() ==> !((#[trigger] ms[j]).lo <= at < ms[j].hi),
        },
    decreases ms.len() - i,
{
    if i < ms.len() && !(ms[i].lo <= at < ms[i].hi) {
        lemma_link_at(ms, at, i + 1);
        if let Some(n) = link_at(ms, at, i + 1) {
            let k = choose|k: int|
                i + 1 <= k < ms.len() && (#[trigger] ms[k]).lo <= at < ms[k].hi && ms[k].name == n
                    && forall|j: int| i + 1 <= j < k ==> !((#[trigger] ms[j]).lo <= at < ms[j].hi);
            assert(ms[k].lo <= at < ms[k].hi);
        }
    }
}

/// What is selected in a row is what the selection and the row have in common; it is told if
/// the selection goes on behind the row.
pub proof fn selections_show_in_their_rows(row: RowModel, lo: int, hi: int, at: int)
    requires
        row.lo <= row.hi,
    ensures
        lo < at <= hi && row.lo <= at <= row.hi ==> selected_in_row(row, lo, hi) is Some,
        selected_in_row(row, lo, hi) matches Some((a, b, on)) ==> {
            &&& row.lo <= a <= row.hi && row.lo <= b <= row.hi && lo <= a && b <= hi
            &&& (a <= at < b <==> lo <= at < hi && row.lo <= at < row.hi)
            &&& on == (hi > row.hi)
        },
        lo >= hi ==> selected_in_row(row, lo, hi) is None,
{
}

/// The lines in view are those from the first on, as many as fit in and as there are.
pub proof fn lines_in_view_fit_in(scroll: int, rows: int, total: int)
    requires
        0 <= scroll,
        0 < rows,
        0 < total,
    ensures
        ({
            let (a, b) = lines_in_view(scroll, rows, total);
            &&& 0 <= a < b <= total && b - a <= rows
            &&& scroll < total ==> a == scroll
            &&& scroll >= total ==> a == total - 1
            &&& b < total ==> b - a == rows
        }),
{
}

// ---------- images ----------

/// The address of an image is what is written, without the white space around it.
pub proof fn images_are_addressed(a: Seq<char>, p: Seq<char>, b: Seq<char>)
    requires
        is_white(a) && is_white(b),
        p.len() > 0,
        !is_space(p[0]) && !is_space(p.last()),
        p[0] != '<',
        p.last() != '"' && p.last() != '\'' && p.last() != ')',
    ensures
        "http://"@.is_prefix_of(p) || "https://"@.is_prefix_of(p) ==> local_image(a + p + b) is None,
        !("http://"@.is_prefix_of(p)) && !("https://"@.is_prefix_of(p)) ==> local_image(a + p + b)
            == Some(p),
        is_white(a) ==> local_image(a) is None,
{
    lemma_cut_ends(a, p, b);
    lemma_white(a);
}

/// A title behind the address does not belong to it, in quotes of either kind or in brackets.
pub proof fn titles_are_left_out(p: Seq<char>, open: char, title: Seq<char>, close: char)
    requires
        p.len() > 0,
        !is_space(p[0]) && !is_space(p.last()),
        p[0] != '<',
        (open == '"' && close == '"') || (open == '\'' && close == '\'') || (open == '(' && close == ')'),
        !title.contains(open),
    ensures
        without_title(p + seq![' ', open] + title + seq![close]) == p,
{
    let s = p + seq![' ', open] + title + seq![close];
    let none = Seq::<char>::empty();
    assert(none + s + none =~= s);
    assert(s[0] == p[0] && s.last() == close);
    lemma_cut_ends(none, s, none);
    let t = s.drop_last();
    let n = p.len() as int + 1;
    assert forall|k: int| n < k < t.len() implies #[trigger] t[k] != open by {
        assert(t[k] == title[k - n - 1]);
        assert(title.contains(title[k - n - 1]));
    }
    assert(t[n] == open);
    lemma_last_index_of_is(t, open, n);
    assert(s[n - 1] == ' ');
    let head = s.take(n);
    assert(head =~= p.push(' '));
    crate::text::lemma_trim_end_is(head, p.len() as int);
    assert(head.take(p.len() as int) =~= p);
}

/// An address in angle brackets is what stands between them.
pub proof fn addresses_can_stand_in_brackets(a: Seq<char>, p: Seq<char>, b: Seq<char>)
    requires
        is_white(a) && is_white(b),
        p.len() > 0,
        p.last() != '"' && p.last() != '\'' && p.last() != ')',
    ensures
        without_title(a + (seq!['<'] + p + seq!['>']) + b) == p,
{
    let s = seq!['<'] + p + seq!['>'];
    assert(s[0] == '<' && s.last() == '>');
    lemma_cut_ends(a, s, b);
    assert(s.subrange(1, s.len() - 1) =~= p);
}

// ---------- panels ----------

/// A line that stands well in view is not moved.
pub proof fn lines_in_view_stay(scroll: int, rows: int, line: int)
    requires
        0 <= scroll,
        rows > 5,
        scroll + 2 <= line <= scroll + rows - 3,
    ensures
        revealed(scroll, rows, line) == scroll,
{
}

/// A line out of view is brought in by its nearer edge, with two lines beyond it.
pub proof fn lines_come_in_at_the_nearer_edge(scroll: int, rows: int, line: int)
    requires
        0 <= scroll,
        rows > 5,
        0 <= line,
    ensures
        line < scroll + 2 && line >= 2 ==> revealed(scroll, rows, line) == line - 2,
        line < scroll + 2 && line < 2 ==> revealed(scroll, rows, line) == 0,
        line > scroll + rows - 3 ==> revealed(scroll, rows, line) + rows - 3 == line,
{
}

/// Whether an entry of the outline shows this line.
pub open spec fn is_entry(t: Seq<char>, k: int, h: HeadingModel) -> bool {
    &&& h.line == k
    &&& heading_level(line_at(t, k)) == Some(h.level)
    &&& h.text == trim(trim_start(line_at(t, k)).skip(h.level as int))
}

/// The outline lists the headings of a note, all of them and nothing else, in their order.
pub proof fn the_outline_lists_the_headings(t: Seq<char>, n: int)
    requires
        0 <= n,
    ensures
        ({
            let r = headings_upto(t, n);
            &&& forall|j: int|
                0 <= j < r.len() ==> 0 <= (#[trigger] r[j]).line < n && is_entry(t, r[j].line, r[j])
            &&& forall|k: int|
                0 <= k < n && heading_level(#[trigger] line_at(t, k)) is Some ==> exists|j: int|
                    0 <= j < r.len() && (#[trigger] r[j]).line == k
            &&& forall|i: int, j: int|
                0 <= i < j < r.len() ==> (#[trigger] r[i]).line < (#[trigger] r[j]).line
        }),
    decreases n,
{
    if n > 0 {
        the_outline_lists_the_headings(t, n - 1);
        let q = headings_upto(t, n - 1);
        let r = headings_upto(t, n);
        assert forall|j: int| 0 <= j < r.len() implies 0 <= (#[trigger] r[j]).line < n && is_entry(
            t,
            r[j].line,
            r[j],
        ) by {
            if j < q.len() {
                assert(r[j] == q[j]);
            }
        }
        assert forall|k: int|
            0 <= k < n && heading_level(#[trigger] line_at(t, k)) is Some implies exists|j: int|
            0 <= j < r.len() && (#[trigger] r[j]).line == k by {
            if k < n - 1 {
                let j = choose|j: int| 0 <= j < q.len() && (#[trigger] q[j]).line == k;
                assert(r[j] == q[j]);
            } else {
                assert(r[q.len() as int].line == k);
            }
        }
        assert forall|i: int, j: int| 0 <= i < j < r.len() implies (#[trigger] r[i]).line < (
        #[trigger] r[j]).line by {
            assert(r[i] == q[i]);
            if j < q.len() {
                assert(r[j] == q[j]);
            }
        }
    }
}

/// Text from elsewhere gets line feeds for its line breaks: one for a carriage return with a
/// line feed behind it, one for a carriage return alone, and all else stays.
pub proof fn pasted_breaks_become_line_feeds(a: Seq<char>, c: char, b: Seq<char>)
    requires
        !b.contains('\r'),
        b.len() > 0 ==> b[0] != '\n',
        c != '\r' && c != '\n',
    ensures
        unix_breaks(a + seq!['\r', '\n'] + b) == unix_breaks(a) + seq!['\n'] + b,
        unix_breaks(a + seq!['\r'] + b) == unix_breaks(a) + seq!['\n'] + b,
        unix_breaks(a + seq![c] + b) == unix_breaks(a) + seq![c] + b,
        unix_breaks(b) == b,
{
    let none = Seq::<char>::empty();
    lemma_plain_tail(a + seq!['\r', '\n'], b);
    lemma_plain_tail(a + seq!['\r'], b);
    lemma_plain_tail(a + seq![c], b);
    lemma_plain_tail(none, b);
    assert(none + b =~= b);
    let x = a + seq!['\r', '\n'];
    assert(x.drop_last().drop_last() =~= a);
    assert(x[x.len() - 2] == '\r');
    let y = a + seq!['\r'];
    assert(y.drop_last() =~= a);
    let z = a + seq![c];
    assert(z.drop_last() =~= a);
}

proof fn lemma_plain_tail(a: Seq<char>, b: Seq<char>)
    requires
        !b.contains('\r'),
        b.len() > 0 ==> b[0] != '\n',
    ensures
        unix_breaks(a + b) == unix_breaks(a) + b,
    decreases b.len(),
{
    if b.len() == 0 {
        assert(a + b =~= a);
        assert(unix_breaks(a) + b =~= unix_breaks(a));
    } else {
        let d = b.drop_last();
        assert(!d.contains('\r')) by {
            if d.contains('\r') {
                let k = choose|k: int| 0 <= k < d.len() && d[k] == '\r';
                assert(b[k] == '\r');
            }
        }
        lemma_plain_tail(a, d);
        let s = a + b;
        assert(s.last() == b.last());
        assert(b.contains(b.last()));
        if s.last() == '\n' && s.len() > 1 {
            assert(b.len() > 1);
            assert(s[s.len() - 2] == b[b.len() - 2]);
            assert(b.contains(b[b.len() - 2]));
        }
        assert(s.drop_last() =~= a + d);
        assert(unix_breaks(s) =~= unix_breaks(a) + b);
    }
}

/// Whether no line from `a` to before `b` is a fence.
pub open spec fn fenceless(t: Seq<char>, a: int, b: int) -> bool {
    forall|k: int| a <= k < b ==> !is_fence_close(#[trigger] line_at(t, k))
}

proof fn lemma_fence_lines(t: Seq<char>, a: int, b: int)
    requires
        0 <= a <= b,
        fenceless(t, a, b),
    ensures
        fence_lines(t, b) == fence_lines(t, a),
    decreases b - a,
{
    if a < b {
        assert(!is_fence_close(line_at(t, b - 1)));
        lemma_fence_lines(t, a, b - 1);
    }
}

/// Code is what stands from a fence to the next one with the two; what stands before the first
/// is none, nor is what stands behind the second up to a third.
pub proof fn code_stands_between_fences(t: Seq<char>, f: int, g: int, k: int)
    requires
        0 <= f < g,
        fenceless(t, 0, f),
        is_fence_close(line_at(t, f)),
        fenceless(t, f + 1, g),
        is_fence_close(line_at(t, g)),
        0 <= k,
    ensures
        k < f ==> !is_code_line(t, k),
        f <= k <= g ==> is_code_line(t, k),
        g < k && fenceless(t, g + 1, k + 1) ==> !is_code_line(t, k),
{
    if k < f {
        lemma_fence_lines(t, 0, k);
        assert(!is_fence_close(line_at(t, k)));
    } else {
        lemma_fence_lines(t, 0, f);
        if f < k <= g {
            lemma_fence_lines(t, f + 1, k);
        }
        if g < k && fenceless(t, g + 1, k + 1) {
            lemma_fence_lines(t, f + 1, g);
            lemma_fence_lines(t, g + 1, k);
            assert(!is_fence_close(line_at(t, k)));
        }
    }
}

/// What a model proposes is what has come, piece by piece; an error takes it back.
pub proof fn proposals_grow(a: AssistModel, events: Seq<EventModel>)
    ensures
        error_of(events) is Some ==> proposal_after(a, events).proposal is None && !proposal_after(
            a,
            events,
        ).completing,
        error_of(events) is None && a.acc + deltas_of(events) != Seq::<char>::empty() ==> {
            &&& proposal_after(a, events).proposal == Some(a.acc + deltas_of(events))
            &&& proposal_after(a, events).acc == a.acc + deltas_of(events)
        },
        error_of(events) is None && a.acc + deltas_of(events) == Seq::<char>::empty()
            ==> proposal_after(a, events).proposal == a.proposal,
        error_of(events) is None ==> proposal_after(a, events).completing == (a.completing
            && !ends_reply(events)),
{
    let acc = a.acc + deltas_of(events);
    if acc.len() == 0 {
        assert(acc =~= Seq::<char>::empty());
    }
}

/// What a model is asked to work on is what is selected, or else the line of the cursor.
pub proof fn tasks_work_on_the_selection_or_the_line(
    e: EditorModel,
    pre: Seq<char>,
    l: Seq<char>,
    br: Seq<char>,
    post: Seq<char>,
)
    requires
        is_before_a_line(pre),
        has_no_break(l),
        ends_here(br, post),
        e.doc.text == pre + l + br + post,
        blen(pre) <= e.cursor <= blen(pre) + blen(l),
    ensures
        e.cursor == e.anchor ==> task_target(e) == (blen(pre) as int, blen(pre) + blen(l) as int),
        e.cursor < e.anchor ==> task_target(e) == (e.cursor, e.anchor),
        e.anchor < e.cursor ==> task_target(e) == (e.anchor, e.cursor),
{
    places_lie_in_their_line(pre, l, br, post, e.cursor - blen(pre));
}

/// A completion is asked for where the rest of the line is white, outside of code, if there is
/// a service to ask and a text.
pub proof fn completions_are_asked_for_at_the_end_of_a_line(
    e: EditorModel,
    cfg: AiConfigModel,
    pre: Seq<char>,
    head: Seq<char>,
    tail: Seq<char>,
    br: Seq<char>,
    post: Seq<char>,
)
    requires
        is_before_a_line(pre),
        has_no_break(head + tail),
        ends_here(br, post),
        e.doc.text == pre + (head + tail) + br + post,
        e.cursor == blen(pre) + blen(head),
    ensures
        completion_wanted(e, cfg) <==> cfg.is_configured() && e.doc.text.len() > 0 && is_white(tail)
            && !is_code_line(e.doc.text, line_count(pre) - 1),
{
    let l = head + tail;
    lemma_blen_concat(head, tail);
    places_lie_in_their_line(pre, l, br, post, blen(head) as int);
    assert(l.take(head.len() as int) =~= head);
    lemma_floor_index_off(l, head.len() as int);
    assert(l.skip(head.len() as int) =~= tail);
    lemma_white(tail);
}

/// A page is what is in view but for two lines.
pub proof fn pages_keep_two_lines(rows: int)
    ensures
        rows > 3 ==> page_of(rows) == rows - 2,
        rows <= 3 ==> page_of(rows) == 1,
{
}

// ---------- commands ----------

/// A command is listed if nothing is typed, or if its name, its group or its further words hold
/// what is typed, whatever the case and the white space around it.
pub proof fn commands_are_found_by_their_words(it: ItemModel, a: Seq<char>, q: Seq<char>, b: Seq<char>)
    requires
        is_white(a) && is_white(b),
        q.len() > 0,
        !is_space(q[0]) && !is_space(q.last()),
        lowercase(q).len() > 0,
    ensures
        is_shown(it, a + q + b) <==> {
            ||| has_text(lowercase(it.label), lowercase(q))
            ||| has_text(lowercase(it.keywords), lowercase(q))
            ||| has_text(lowercase(it.group), lowercase(q))
        },
{
    lemma_cut_ends(a, q, b);
}

/// A template is listed by its name and makes a note from it.
pub proof fn templates_are_listed_by_name(templates: Seq<(String, String)>, k: int)
    requires
        0 <= k < templates.len(),
    ensures
        template_list(templates).len() == templates.len(),
        template_list(templates)[k].label == templates[k].0@,
        template_list(templates)[k].cmd == CmdModel::NewFromTemplate(templates[k].1@),
{
}

/// What is chosen is the command at the mark, or the last if the mark stands behind it; where
/// no command is listed, what is typed is an instruction.
pub proof fn the_marked_command_is_chosen(
    items: Seq<ItemModel>,
    selected: int,
    typed: Seq<char>,
)
    requires
        0 <= selected,
    ensures
        ({
            let f = shown(items, typed);
            let r = chosen_cmd(items, selected, typed);
            &&& selected < f.len() ==> r == Some(items[f[selected]].cmd)
            &&& 0 < f.len() <= selected ==> r == Some(items[f.last()].cmd)
            &&& f.len() == 0 && is_white(typed) ==> r is None
            &&& f.len() == 0 && !is_white(typed) ==> r == Some(
                CmdModel::Ai(crate::ai::prompt::TaskModel::Custom(trim(typed))),
            )
        }),
{
    lemma_white(typed);
}

// ---------- the workspace ----------

/// Something covers the text if and only if a panel is open.
pub proof fn open_panels_cover_the_text(o: Overlays)
    ensures
        covers(o) <==> exists|which: Overlay| shows(o, which),
{
    if covers(o) {
        let w = if o.palette {
            Overlay::Palette
        } else if o.settings {
            Overlay::Settings
        } else if o.help {
            Overlay::Help
        } else if o.search {
            Overlay::Search
        } else if o.graph {
            Overlay::Graph
        } else if o.chat {
            Overlay::Chat
        } else if o.board {
            Overlay::Board
        } else {
            Overlay::History
        };
        assert(shows(o, w));
    }
}

/// A panel opens if what it needs is there: notes for searching, asking and the graph, a file
/// for the board, and both a vault and a file for the history.
pub proof fn panels_need_what_they_show(have: Have)
    ensures
        refusal(Overlay::Search, have) is None <==> have.index,
        refusal(Overlay::Chat, have) is None <==> have.index,
        refusal(Overlay::Graph, have) is None <==> have.index && have.notes,
        refusal(Overlay::Board, have) is None <==> have.path,
        refusal(Overlay::History, have) is None <==> have.vault && have.path,
        refusal(Overlay::Palette, have) is None,
        refusal(Overlay::Settings, have) is None,
        refusal(Overlay::Help, have) is None,
{
}

/// A size is shown in tenths of its unit, to the nearest one, and between two to the even one.
pub proof fn sizes_are_rounded(bytes: int, unit: int)
    requires
        0 <= bytes,
        0 < unit,
    ensures
        -unit <= 2 * (bytes * 10 - tenths(bytes, unit) * unit) <= unit,
        2 * (bytes * 10 - tenths(bytes, unit) * unit) == unit || 2 * (tenths(bytes, unit) * unit - bytes
            * 10) == unit ==> tenths(bytes, unit) % 2 == 0,
        0 <= tenths(bytes, unit),
{
    let n = bytes * 10;
    let (q, r) = (n / unit, n % unit);
    vstd::arithmetic::div_mod::lemma_fundamental_div_mod(n, unit);
    vstd::arithmetic::div_mod::lemma_mod_bound(n, unit);
    vstd::arithmetic::div_mod::lemma_div_pos_is_pos(n, unit);
    assert(unit * q == q * unit) by (nonlinear_arith);
    assert((q + 1) * unit == q * unit + unit) by (nonlinear_arith);
}

/// A size is shown in bytes below a kilobyte, below a megabyte in kilobytes, and then in
/// megabytes.
pub proof fn sizes_have_their_unit(bytes: int)
    requires
        0 <= bytes,
    ensures
        bytes < 1024 ==> size_of_text(bytes) == digits_of(bytes as nat) + seq![' ', 'B'],
        1024 <= bytes < 1048576 ==> {
            let t = tenths(bytes, 1024);
            size_of_text(bytes) == digits_of((t / 10) as nat) + seq!['.'] + digits_of(
                (t % 10) as nat,
            ) + seq![' ', 'K', 'B']
        },
        1048576 <= bytes ==> {
            let t = tenths(bytes, 1048576);
            size_of_text(bytes) == digits_of((t / 10) as nat) + seq!['.'] + digits_of(
                (t % 10) as nat,
            ) + seq![' ', 'M', 'B']
        },
        bytes < 1048576 ==> snapshot_size_of(bytes) == size_of_text(bytes),
{
    reveal_strlit(" B");
    reveal_strlit(" KB");
    reveal_strlit(" MB");
    reveal_strlit(".");
    assert(" B"@ =~= seq![' ', 'B']);
    assert(" KB"@ =~= seq![' ', 'K', 'B']);
    assert(" MB"@ =~= seq![' ', 'M', 'B']);
    assert("."@ =~= seq!['.']);
}

proof fn lemma_template_named(ts: Seq<TemplateModel>, name: Seq<char>, i: int)
    requires
        0 <= i <= ts.len(),
    ensures
        match template_named(ts, name, i) {
            Some(k) => i <= k < ts.len() && ts[k].name == name && forall|j: int|
                i <= j < k ==> (#[trigger] ts[j]).name != name,
            None => forall|j: int| i <= j < ts.len() ==> (#[trigger] ts[j]).name != name,
        },
    decreases ts.len() - i,
{
    if i < ts.len() && ts[i].name != name {
        lemma_template_named(ts, name, i + 1);
    }
}

/// The note of a day starts from the first template of that name, or with the day as its
/// heading.
pub proof fn days_start_from_their_template(ts: Seq<TemplateModel>, ctx: CtxModel, k: int)
    ensures
        0 <= k < ts.len() && ts[k].name == seq!['每', '日'] && (forall|j: int|
            0 <= j < k ==> (#[trigger] ts[j]).name != seq!['每', '日']) ==> daily_text(ts, ctx)
            == expanded(ts[k].body, ctx),
        (forall|j: int| 0 <= j < ts.len() ==> (#[trigger] ts[j]).name != seq!['每', '日'])
            ==> daily_text(ts, ctx) == seq!['#', ' '] + ctx.date + seq!['\n', '\n'],
{
    reveal_strlit("每日");
    reveal_strlit("# ");
    reveal_strlit("\n\n");
    assert("每日"@ =~= seq!['每', '日']);
    assert("# "@ =~= seq!['#', ' ']);
    assert("\n\n"@ =~= seq!['\n', '\n']);
    lemma_template_named(ts, "每日"@, 0);
}

/// A board is put into what is open of its note, or else into what is on disk.
pub proof fn boards_go_into_what_is_open(note: Seq<char>, p: Seq<char>, text: Seq<char>, disk: Seq<char>)
    ensures
        board_base(note, Some((note, text)), disk) == text,
        p != note ==> board_base(note, Some((p, text)), disk) == disk,
        board_base(note, None, disk) == disk,
{
}

} // verus!
