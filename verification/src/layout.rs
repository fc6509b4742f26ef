//! What is drawn of a document: for each block in view its rows of text, and which bytes of
//! the document each row stands for.
use crate::block::{
    blocks_model, lemma_part_start, line_col_to_shown, opt_text, part_start, query_body_of,
    shown_to_line_col, Block, BlockModel,
};
use crate::document::{byte_of_line, clamp_to, lemma_byte_of_line, line_at, line_col, Document};
use crate::index::{
    hits_model, parse_query, query_of, query_result, PlaceModel, SearchHit, VaultIndex,
};
use crate::inline::{mark_model, InlineModel, MarkModel};
use crate::paths::{join_path, joined};
use crate::render::{
    block_style, inline_runs, rounded, runs_from, source_runs, source_runs_of, style_of,
    BlockStyle, BlockStyleModel, Face, Ink, TextRun, Tint, BODY,
};
use crate::rope::{lemma_line_count, line_count};
use crate::text::{
    blen, byte_len, chars_len, chars_of, digits_of, glue, glue3, join, last_index_of,
    lemma_join_split, lemma_last_index_of, lemma_split_nonempty, lines_chars, lines_of,
    number_chars, rfind_char, slices, split_chars, split_on, starts_with, string_of, trim,
    trim_chars, trim_end, trim_end_chars,
};
use std::ops::Range;
use vstd::prelude::*;
use vstd::slice::slice_subrange;

verus! {

/// How places in a row and bytes of the document go together.
#[derive(Clone, Copy, Debug, PartialEq, Eq, Structural)]
pub enum RowMap {
    /// The row is the document's own text.
    Source,
    /// The row is a part of what its block shows, from this byte on.
    Shown { start: usize },
}

/// A row of text.
#[derive(Debug)]
pub struct Row {
    pub text: String,
    pub runs: Vec<TextRun>,
    pub font_size: u32,
    pub line_height: u32,
    /// The bytes of the document that it stands for, without a line break.
    pub doc: Range<usize>,
    pub map: RowMap,
    /// The note and the line that a click leads to.
    pub link: Option<(String, usize)>,
}

pub struct RowModel {
    pub text: Seq<char>,
    pub runs: Seq<TextRun>,
    pub font_size: int,
    pub line_height: int,
    pub lo: int,
    pub hi: int,
    pub map: RowMap,
    pub link: Option<(Seq<char>, int)>,
}

impl View for Row {
    type V = RowModel;

    open spec fn view(&self) -> RowModel {
        RowModel {
            text: self.text@,
            runs: self.runs@,
            font_size: self.font_size as int,
            line_height: self.line_height as int,
            lo: self.doc.start as int,
            hi: self.doc.end as int,
            map: self.map,
            link: match self.link {
                Some((p, n)) => Some((p@, n as int)),
                None => None,
            },
        }
    }
}

pub open spec fn rows_model(v: Seq<Row>) -> Seq<RowModel> {
    v.map_values(|r: Row| r@)
}

// ---------- places in rows ----------

pub open spec fn lesser(a: int, b: int) -> int {
    if a < b {
        a
    } else {
        b
    }
}

/// The last line of a block.
pub open spec fn last_line(b: BlockModel) -> int {
    if b.end_line > 0 {
        b.end_line - 1
    } else {
        0
    }
}

/// The byte of the document at which a line starts; the end of the text behind the last.
pub open spec fn line_start_in(t: Seq<char>, k: int) -> int {
    byte_of_line(t, clamp_to(k, line_count(t)))
}

/// The byte of the document that byte `local` of a row of block `b` stands for.
pub open spec fn row_to_doc(row: RowModel, local: int, b: BlockModel, t: Seq<char>) -> int {
    match row.map {
        RowMap::Source => row.lo + if row.lo <= row.hi {
            lesser(local, row.hi - row.lo)
        } else {
            0
        },
        RowMap::Shown { start } => {
            let (k, col) = shown_to_line_col(b, start + local);
            let line = lesser(b.first_line + k, last_line(b));
            line_start_in(t, line) + lesser(col, blen(line_at(t, line)) as int)
        },
    }
}

/// The place in a row of block `b` where byte `byte` of the document stands, if the row
/// stands for that byte.
pub open spec fn doc_to_row(row: RowModel, byte: int, b: BlockModel, t: Seq<char>) -> Option<int> {
    if byte < row.lo || byte > row.hi {
        None
    } else {
        match row.map {
            RowMap::Source => Some(byte - row.lo),
            RowMap::Shown { start } => {
                let (line, col) = line_col(t, byte);
                if line < b.first_line {
                    None
                } else {
                    let r = line_col_to_shown(b, line - b.first_line, col);
                    Some(
                        if r > start {
                            r - start
                        } else {
                            0
                        },
                    )
                }
            },
        }
    }
}

/// In rows of the document's own text, the place where a byte stands leads back to it.
pub proof fn source_rows_lead_back(row: RowModel, byte: int, b: BlockModel, t: Seq<char>)
    requires
        row.map == RowMap::Source,
        row.lo <= byte <= row.hi,
    ensures
        doc_to_row(row, byte, b, t) matches Some(local) && row_to_doc(row, local, b, t) == byte,
{
}

impl Row {
    /// The byte of the document that byte `local` of the row stands for.
    pub fn doc_offset(&self, local: usize, block: &Block, doc: &Document) -> (r: usize)
        requires
            self.map matches RowMap::Shown { start } ==> start + local <= usize::MAX,
        ensures
            r == row_to_doc(self@, local as int, block@, doc@.text),
    {
        match self.map {
            RowMap::Source => if self.doc.start <= self.doc.end {
                let n: usize = self.doc.end - self.doc.start;
                self.doc.start + if local < n {
                    local
                } else {
                    n
                }
            } else {
                self.doc.start
            },
            RowMap::Shown { start } => {
                let (k, col) = block.inline_to_line_col(start + local);
                let last: usize = if block.lines.end > 0 {
                    block.lines.end - 1
                } else {
                    0
                };
                let first: usize = block.lines.start;
                let line: usize = if last < first || k > last - first {
                    last
                } else {
                    first + k
                };
                let total: usize = doc.len_bytes();
                let base: usize = doc.line_to_byte(line);
                let len: usize = byte_len(&doc.line_text(line));
                proof {
                    lemma_line_len(doc@.text, line as int);
                }
                base + if col < len {
                    col
                } else {
                    len
                }
            },
        }
    }

    /// The place in the row where a byte of the document stands.
    pub fn local_offset(&self, byte: usize, block: &Block, doc: &Document) -> (r: Option<usize>)
        ensures
            match r {
                Some(n) => doc_to_row(self@, byte as int, block@, doc@.text) == Some(n as int),
                None => doc_to_row(self@, byte as int, block@, doc@.text) is None,
            },
    {
        if byte < self.doc.start || byte > self.doc.end {
            return None;
        }
        match self.map {
            RowMap::Source => Some(byte - self.doc.start),
            RowMap::Shown { start } => {
                let (line, col) = doc.byte_to_line_col(byte);
                if line < block.lines.start {
                    return None;
                }
                let n: usize = block.line_col_to_inline(line - block.lines.start, col);
                Some(
                    if n > start {
                        n - start
                    } else {
                        0
                    },
                )
            },
        }
    }
}

/// A line ends within its text.
proof fn lemma_line_len(t: Seq<char>, k: int)
    requires
        0 <= k,
    ensures
        0 <= line_start_in(t, k),
        line_start_in(t, k) + blen(line_at(t, k)) <= blen(t),
{
    lemma_line_count(t);
    let c = clamp_to(k, line_count(t));
    lemma_byte_of_line(t, c);
    if k < line_count(t) {
        lemma_byte_of_line(t, k + 1);
    } else {
        assert(line_at(t, k).len() == 0);
    }
}

// ---------- the rows of a block ----------

/// What is drawn of a block.
#[derive(Clone, Copy, Debug, PartialEq, Eq, Structural)]
pub enum PlanKind {
    /// What a query found.
    Query,
    /// A line across.
    Rule,
    /// An image.
    Image,
    /// The source.
    Source,
    /// What the source stands for.
    Shown,
}

/// What is drawn of a block, by what is known of it: the block with the cursor shows its
/// source.
pub open spec fn kind_of(b: BlockModel, active: bool, has_image: bool, has_hits: bool) -> PlanKind {
    if has_hits && !active {
        PlanKind::Query
    } else if style_of(b.kind, active).is_rule && !active {
        PlanKind::Rule
    } else if has_image && !active {
        PlanKind::Image
    } else if active || b.inline is None {
        PlanKind::Source
    } else {
        PlanKind::Shown
    }
}

/// A row that stands for one place of the document, in a size of its own.
pub open spec fn result_row(
    text: Seq<char>,
    color: Tint,
    at: int,
    link: Option<(Seq<char>, int)>,
) -> RowModel {
    let size = BODY - 1;
    RowModel {
        text,
        runs: source_runs_of(text, Ink { font: Face::Body, bold: false, color }),
        font_size: size,
        line_height: rounded(size * 170),
        lo: at,
        hi: at,
        map: RowMap::Source,
        link,
    }
}

/// The line above what a query found.
pub open spec fn query_head(n: nat) -> Seq<char> {
    if n == 0 {
        "⌕ 查询无匹配"@
    } else {
        "⌕ 查询 · "@ + digits_of(n) + " 篇"@
    }
}

pub open spec fn hit_text(h: PlaceModel) -> Seq<char> {
    "· "@ + h.name + " — "@ + h.snippet
}

/// The rows of what a query found: how much, and then a row for each place.
pub open spec fn query_rows(hits: Seq<PlaceModel>, at: int) -> Seq<RowModel> {
    seq![result_row(query_head(hits.len()), Tint::Muted, at, None)] + Seq::new(
        hits.len(),
        |k: int|
            result_row(
                hit_text(hits[k]),
                Tint::Wikilink,
                at,
                Some((hits[k].path, hits[k].line)),
            ),
    )
}

/// A row without text that stands for a whole block.
pub open spec fn empty_row(b: BlockModel, style: BlockStyleModel, t: Seq<char>) -> RowModel {
    let at = line_start_in(t, b.first_line);
    RowModel {
        text: Seq::empty(),
        runs: Seq::empty(),
        font_size: style.font_size,
        line_height: style.line_height,
        lo: at,
        hi: at + blen(b.source),
        map: RowMap::Source,
        link: None,
    }
}

/// The row of line `k` of the document.
pub open spec fn source_row(style: BlockStyleModel, t: Seq<char>, k: int) -> RowModel {
    let text = line_at(t, k);
    let at = line_start_in(t, k);
    RowModel {
        text,
        runs: source_runs_of(text, style.ink),
        font_size: style.font_size,
        line_height: style.line_height,
        lo: at,
        hi: at + blen(text),
        map: RowMap::Source,
        link: None,
    }
}

/// Row `k` of what a block shows.
pub open spec fn shown_row(
    b: BlockModel,
    m: InlineModel,
    style: BlockStyleModel,
    t: Seq<char>,
    k: int,
) -> RowModel {
    let parts = split_on(m.text, '\n');
    let start = part_start(parts, k);
    let end = start + blen(parts[k]);
    let line = lesser(b.first_line + k, last_line(b));
    RowModel {
        text: parts[k],
        runs: runs_from(m.spans, 0, start, end, start, style.ink),
        font_size: style.font_size,
        line_height: style.line_height,
        lo: line_start_in(t, line),
        hi: line_start_in(t, line) + blen(line_at(t, line)),
        map: RowMap::Shown { start: start as usize },
        link: None,
    }
}

/// The rows of a block. `hits` is what its query found, if it is a query.
pub open spec fn rows_of(
    b: BlockModel,
    active: bool,
    has_image: bool,
    hits: Option<Seq<PlaceModel>>,
    t: Seq<char>,
) -> Seq<RowModel> {
    let style = style_of(b.kind, active);
    match kind_of(b, active, has_image, hits is Some) {
        PlanKind::Query => query_rows(hits->0, line_start_in(t, b.first_line)),
        PlanKind::Rule | PlanKind::Image => seq![empty_row(b, style, t)],
        PlanKind::Source => Seq::new(
            if b.first_line <= b.end_line {
                (b.end_line - b.first_line) as nat
            } else {
                0
            },
            |k: int| source_row(style, t, b.first_line + k),
        ),
        PlanKind::Shown => Seq::new(
            split_on(b.inline->0.text, '\n').len(),
            |k: int| shown_row(b, b.inline->0, style, t, k),
        ),
    }
}

pub open spec fn opt_hits(h: Option<Vec<SearchHit>>) -> Option<Seq<PlaceModel>> {
    match h {
        Some(v) => Some(hits_model(v@)),
        None => None,
    }
}

/// What is drawn of a block: how, and its rows.
pub struct Plan {
    pub kind: PlanKind,
    pub style: BlockStyle,
    pub rows: Vec<Row>,
}

fn push_row(rows: &mut Vec<Row>, row: Row)
    ensures
        rows_model(final(rows)@) == rows_model(old(rows)@).push(row@),
{
    let ghost before = rows@;
    let ghost rm = row@;
    rows.push(row);
    proof {
        assert(rows_model(rows@) =~= rows_model(before).push(rm));
    }
}

fn make_result_row(
    text: String,
    color: Tint,
    at: usize,
    link: Option<(String, usize)>,
) -> (r: Row)
    ensures
        r@ == result_row(
            text@,
            color,
            at as int,
            match link {
                Some((p, n)) => Some((p@, n as int)),
                None => None,
            },
        ),
{
    let ink = Ink { font: Face::Body, bold: false, color };
    let runs: Vec<TextRun> = source_runs(&text, ink);
    let size: u32 = BODY - 1;
    Row {
        text,
        runs,
        font_size: size,
        line_height: (size * 170 + 50) / 100,
        doc: at..at,
        map: RowMap::Source,
        link,
    }
}

fn make_query_rows(hits: &Vec<SearchHit>, at: usize) -> (r: Vec<Row>)
    ensures
        rows_model(r@) == query_rows(hits_model(hits@), at as int),
{
    let ghost hm = hits_model(hits@);
    let ghost all = query_rows(hm, at as int);
    let head: String = if hits.len() == 0 {
        "⌕ 查询无匹配".to_owned()
    } else {
        let n: Vec<char> = number_chars(hits.len() as u64);
        glue3("⌕ 查询 · ", &string_of(n.as_slice()), " 篇")
    };
    let mut rows: Vec<Row> = Vec::new();
    proof {
        assert(rows_model(rows@) =~= Seq::empty());
        assert(hm.len() == hits@.len());
    }
    push_row(&mut rows, make_result_row(head, Tint::Muted, at, None));
    let mut k: usize = 0;
    proof {
        assert(rows_model(rows@) =~= all.take(1));
    }
    while k < hits.len()
        invariant
            0 <= k <= hits@.len(),
            hm == hits_model(hits@),
            all == query_rows(hm, at as int),
            rows_model(rows@) == all.take(k + 1),
        decreases hits@.len() - k,
    {
        let ghost h = hm[k as int];
        let text: String = glue(&glue3("· ", &hits[k].name, " — "), &hits[k].snippet);
        let link: Option<(String, usize)> = Some((hits[k].path.clone(), hits[k].line));
        let row = make_result_row(text, Tint::Wikilink, at, link);
        proof {
            assert(h == hits@[k as int]@);
            assert(row@ == all[k + 1]);
        }
        push_row(&mut rows, row);
        proof {
            assert(rows_model(rows@) =~= all.take(k + 2));
        }
        k = k + 1;
    }
    proof {
        assert(all.take(k + 1) =~= all);
    }
    rows
}

fn make_source_rows(doc: &Document, style: &BlockStyle, from: usize, to: usize) -> (r: Vec<Row>)
    requires
        from <= to,
    ensures
        rows_model(r@) == Seq::new(
            (to - from) as nat,
            |k: int| source_row(style@, doc@.text, from + k),
        ),
{
    let ghost all = Seq::new((to - from) as nat, |k: int| source_row(style@, doc@.text, from + k));
    let mut rows: Vec<Row> = Vec::new();
    let total: usize = doc.len_bytes();
    let mut line: usize = from;
    proof {
        assert(rows_model(rows@) =~= all.take(0));
    }
    while line < to
        invariant
            from <= line <= to,
            total == blen(doc@.text),
            all == Seq::new((to - from) as nat, |k: int| source_row(style@, doc@.text, from + k)),
            rows_model(rows@) == all.take(line - from),
        decreases to - line,
    {
        let text: String = doc.line_text(line);
        let start: usize = doc.line_to_byte(line);
        let len: usize = byte_len(&text);
        let runs: Vec<TextRun> = source_runs(&text, style.ink);
        proof {
            lemma_line_len(doc@.text, line as int);
        }
        let row = Row {
            text,
            runs,
            font_size: style.font_size,
            line_height: style.line_height,
            doc: start..start + len,
            map: RowMap::Source,
            link: None,
        };
        proof {
            assert(row@ == all[line - from]);
        }
        push_row(&mut rows, row);
        proof {
            assert(rows_model(rows@) =~= all.take(line - from + 1));
        }
        line = line + 1;
    }
    proof {
        assert(all.take(to - from) =~= all);
    }
    rows
}

fn make_shown_rows(doc: &Document, block: &Block, style: &BlockStyle) -> (r: Vec<Row>)
    requires
        block@.inline matches Some(m) && spans_in_order(m),
    ensures
        rows_model(r@) == Seq::new(
            split_on(block@.inline->0.text, '\n').len(),
            |k: int| shown_row(block@, block@.inline->0, style@, doc@.text, k),
        ),
{
    let ghost bm = block@;
    let ghost m = block@.inline->0;
    let ghost t = doc@.text;
    let ghost parts = split_on(m.text, '\n');
    let ghost all = Seq::new(parts.len(), |k: int| shown_row(bm, m, style@, t, k));
    let mut rows: Vec<Row> = Vec::new();
    let inline = match &block.inline {
        Some(i) => i,
        None => {
            return rows;
        },
    };
    let cs: Vec<char> = chars_of(&inline.text);
    let segs: Vec<&[char]> = split_chars(cs.as_slice(), '\n');
    let last: usize = if block.lines.end > 0 {
        block.lines.end - 1
    } else {
        0
    };
    let first: usize = block.lines.start;
    let total: usize = doc.len_bytes();
    let mut start: usize = 0;
    let mut k: usize = 0;
    proof {
        lemma_split_nonempty(m.text, '\n');
        lemma_join_split(m.text, '\n');
        assert(slices(segs@).len() == segs@.len());
        assert(rows_model(rows@) =~= all.take(0));
    }
    while k < segs.len()
        invariant
            0 <= k <= segs@.len(),
            bm == block@,
            m == inline@,
            bm.inline == Some(m),
            spans_in_order(m),
            t == doc@.text,
            total == blen(t),
            parts == split_on(m.text, '\n'),
            slices(segs@) == parts,
            segs@.len() == parts.len(),
            join(parts, '\n') == m.text,
            m.text == cs@,
            blen(cs@) <= usize::MAX,
            all == Seq::new(parts.len(), |k: int| shown_row(bm, m, style@, t, k)),
            k < segs@.len() ==> start == part_start(parts, k as int),
            first == bm.first_line,
            last == last_line(bm),
            rows_model(rows@) == all.take(k as int),
        decreases segs@.len() - k,
    {
        let seg = segs[k];
        proof {
            assert(parts[k as int] == seg@);
            lemma_part_start(parts, k as int);
        }
        let len: usize = chars_len(seg);
        let end: usize = start + len;
        let runs: Vec<TextRun> = inline_runs(inline, start, end, style.ink);
        let line: usize = if last < first || k > last - first {
            last
        } else {
            first + k
        };
        let at: usize = doc.line_to_byte(line);
        let line_len: usize = byte_len(&doc.line_text(line));
        proof {
            lemma_line_len(t, line as int);
        }
        let row = Row {
            text: string_of(seg),
            runs,
            font_size: style.font_size,
            line_height: style.line_height,
            doc: at..at + line_len,
            map: RowMap::Shown { start },
            link: None,
        };
        proof {
            assert(row@ == all[k as int]);
        }
        push_row(&mut rows, row);
        proof {
            assert(rows_model(rows@) =~= all.take(k + 1));
        }
        if k + 1 < segs.len() {
            proof {
                lemma_part_start(parts, k + 1);
            }
            start = end + 1;
        }
        k = k + 1;
    }
    proof {
        assert(all.take(k as int) =~= all);
    }
    rows
}

/// No span ends before it starts.
pub open spec fn spans_in_order(m: InlineModel) -> bool {
    forall|k: int| 0 <= k < m.spans.len() ==> (#[trigger] m.spans[k]).lo <= m.spans[k].hi
}

/// What is drawn of a block of a document. `active` says whether it holds the cursor,
/// `has_image` whether there is an image to draw in its place, and `hits` is what its
/// query found, if it is a query.
pub fn plan_block(
    doc: &Document,
    block: &Block,
    active: bool,
    has_image: bool,
    hits: Option<Vec<SearchHit>>,
) -> (r: Plan)
    requires
        line_start_in(doc@.text, block@.first_line) + blen(block@.source) <= usize::MAX,
        block@.inline matches Some(m) ==> spans_in_order(m),
    ensures
        r.kind == kind_of(block@, active, has_image, hits is Some),
        r.style@ == style_of(block@.kind, active),
        rows_model(r.rows@) == rows_of(block@, active, has_image, opt_hits(hits), doc@.text),
{
    let style: BlockStyle = block_style(&block.kind, active);
    let at: usize = doc.line_to_byte(block.lines.start);
    if !active {
        if let Some(h) = &hits {
            let rows: Vec<Row> = make_query_rows(h, at);
            return Plan { kind: PlanKind::Query, style, rows };
        }
    }
    if (style.is_rule || has_image) && !active {
        let kind: PlanKind = if style.is_rule {
            PlanKind::Rule
        } else {
            PlanKind::Image
        };
        let len: usize = byte_len(&block.source);
        let text: String = String::new();
        let runs: Vec<TextRun> = Vec::new();
        proof {
            assert(text@ =~= Seq::<char>::empty());
            assert(runs@ =~= Seq::<TextRun>::empty());
        }
        let row = Row {
            text,
            runs,
            font_size: style.font_size,
            line_height: style.line_height,
            doc: at..at + len,
            map: RowMap::Source,
            link: None,
        };
        let ghost rm = row@;
        let mut rows: Vec<Row> = Vec::new();
        push_row(&mut rows, row);
        proof {
            assert(rows_model(rows@) =~= seq![rm]);
        }
        return Plan { kind, style, rows };
    }
    if active || block.inline.is_none() {
        let (from, to) = (block.lines.start, block.lines.end);
        let rows: Vec<Row> = if from <= to {
            make_source_rows(doc, &style, from, to)
        } else {
            Vec::new()
        };
        proof {
            assert(rows_model(rows@) =~= rows_of(
                block@,
                active,
                has_image,
                opt_hits(hits),
                doc@.text,
            ));
        }
        return Plan { kind: PlanKind::Source, style, rows };
    }
    let rows: Vec<Row> = make_shown_rows(doc, block, &style);
    Plan { kind: PlanKind::Shown, style, rows }
}

// ---------- which blocks and rows ----------

/// What the query of a block finds, if it is a query. `read` holds the text of each note
/// as it is now.
pub fn query_hits_for(index: &VaultIndex, block: &Block, read: &Vec<Option<String>>) -> (r: Option<
    Vec<SearchHit>,
>)
    requires
        index.wf(),
    ensures
        opt_hits(r) == match query_body_of(block@) {
            Some(body) => Some(query_result(index@, read@, query_of(body))),
            None => None,
        },
{
    match block.query_body() {
        Some(body) => Some(index.query(&parse_query(body), read)),
        None => None,
    }
}

/// The lines to lay out: so many from the first one in view, which is at most the last.
pub open spec fn lines_in_view(scroll: int, rows: int, total: int) -> (int, int) {
    let from = lesser(scroll, total - 1);
    (from, lesser(from + rows, total))
}

/// The lines to lay out, where `rows` fit in and the document has `total` lines.
pub fn view_lines(scroll: usize, rows: usize, total: usize) -> (r: Range<usize>)
    requires
        total >= 1,
    ensures
        (r.start as int, r.end as int) == lines_in_view(scroll as int, rows as int, total as int),
        r.start < r.end || rows == 0,
{
    let from: usize = if scroll < total - 1 {
        scroll
    } else {
        total - 1
    };
    let to: usize = if rows < total - from {
        from + rows
    } else {
        total
    };
    from..to
}

/// The first block from block `k` on that holds byte `byte`.
pub open spec fn block_with_byte(bs: Seq<BlockModel>, byte: int, k: int) -> Option<int>
    decreases bs.len() - k,
{
    if k < 0 || k >= bs.len() {
        None
    } else if bs[k].lo <= byte <= bs[k].hi {
        Some(k)
    } else {
        block_with_byte(bs, byte, k + 1)
    }
}

/// The first block from block `k` on that holds line `line`.
pub open spec fn block_holding_line(bs: Seq<BlockModel>, line: int, k: int) -> Option<int>
    decreases bs.len() - k,
{
    if k < 0 || k >= bs.len() {
        None
    } else if bs[k].first_line <= line < bs[k].end_line {
        Some(k)
    } else {
        block_holding_line(bs, line, k + 1)
    }
}

/// The block with the cursor.
pub fn active_block(blocks: &[Block], cursor: usize) -> (r: Option<usize>)
    ensures
        match r {
            Some(k) => block_with_byte(blocks_model(blocks@), cursor as int, 0) == Some(k as int)
                && k < blocks@.len(),
            None => block_with_byte(blocks_model(blocks@), cursor as int, 0) is None,
        },
{
    let ghost bs = blocks_model(blocks@);
    let mut k: usize = 0;
    while k < blocks.len()
        invariant
            0 <= k <= blocks@.len(),
            bs == blocks_model(blocks@),
            block_with_byte(bs, cursor as int, 0) == block_with_byte(bs, cursor as int, k as int),
        decreases blocks@.len() - k,
    {
        proof {
            assert(bs[k as int] == blocks@[k as int]@);
        }
        if blocks[k].contains_byte(cursor) {
            return Some(k);
        }
        k = k + 1;
    }
    None
}

/// The block that the first line in view belongs to; the first one if there is none.
pub fn first_block(blocks: &[Block], line: usize) -> (r: usize)
    ensures
        r == match block_holding_line(blocks_model(blocks@), line as int, 0) {
            Some(k) => k,
            None => 0,
        },
{
    let ghost bs = blocks_model(blocks@);
    let mut k: usize = 0;
    while k < blocks.len()
        invariant
            0 <= k <= blocks@.len(),
            bs == blocks_model(blocks@),
            block_holding_line(bs, line as int, 0) == block_holding_line(bs, line as int, k as int),
        decreases blocks@.len() - k,
    {
        proof {
            assert(bs[k as int] == blocks@[k as int]@);
        }
        if blocks[k].contains_line(line) {
            return k;
        }
        k = k + 1;
    }
    0
}

/// The part of a row that is selected: its first byte, its end, and whether the selection
/// goes on behind the row.
pub open spec fn selected_in_row(row: RowModel, lo: int, hi: int) -> Option<(int, int, bool)> {
    if lo >= hi || hi < row.lo || lo > row.hi {
        None
    } else {
        Some(
            (
                if lo < row.lo {
                    row.lo
                } else {
                    lo
                },
                lesser(hi, row.hi),
                hi > row.hi,
            ),
        )
    }
}

impl Row {
    /// The part of the row that is selected, where bytes `sel` of the document are.
    pub fn selected(&self, sel: &Range<usize>) -> (r: Option<(usize, usize, bool)>)
        ensures
            match r {
                Some((a, b, on)) => selected_in_row(self@, sel.start as int, sel.end as int)
                    == Some((a as int, b as int, on)),
                None => selected_in_row(self@, sel.start as int, sel.end as int) is None,
            },
    {
        if sel.start >= sel.end || sel.end < self.doc.start || sel.start > self.doc.end {
            return None;
        }
        let a: usize = if sel.start < self.doc.start {
            self.doc.start
        } else {
            sel.start
        };
        let b: usize = if sel.end < self.doc.end {
            sel.end
        } else {
            self.doc.end
        };
        Some((a, b, sel.end > self.doc.end))
    }
}

/// The name of the note that a link at byte `at` of a shown text leads to.
pub open spec fn link_at(marks: Seq<MarkModel>, at: int, k: int) -> Option<Seq<char>>
    decreases marks.len() - k,
{
    if k < 0 || k >= marks.len() {
        None
    } else if marks[k].lo <= at < marks[k].hi {
        Some(marks[k].name)
    } else {
        link_at(marks, at, k + 1)
    }
}

/// The name of the note that a link at a byte of a row leads to. Rows that show the source
/// have no links.
pub fn wikilink_at(row: &Row, block: &Block, local: usize) -> (r: Option<String>)
    requires
        row.map matches RowMap::Shown { start } ==> start + local <= usize::MAX,
    ensures
        opt_text(r) == match (row.map, block@.inline) {
            (RowMap::Shown { start }, Some(m)) => link_at(m.wikilinks, start + local, 0),
            _ => None,
        },
{
    let start: usize = match row.map {
        RowMap::Shown { start } => start,
        RowMap::Source => {
            return None;
        },
    };
    let inline = match &block.inline {
        Some(i) => i,
        None => {
            return None;
        },
    };
    let at: usize = start + local;
    let ghost marks = inline@.wikilinks;
    let mut k: usize = 0;
    while k < inline.wikilinks.len()
        invariant
            0 <= k <= inline.wikilinks@.len(),
            marks == inline@.wikilinks,
            block@.inline == Some(inline@),
            row.map == (RowMap::Shown { start }),
            at == start + local,
            link_at(marks, at as int, 0) == link_at(marks, at as int, k as int),
        decreases inline.wikilinks@.len() - k,
    {
        proof {
            assert(marks[k as int] == mark_model(inline.wikilinks@[k as int]));
        }
        if inline.wikilinks[k].0.start <= at && at < inline.wikilinks[k].0.end {
            return Some(inline.wikilinks[k].1.clone());
        }
        k = k + 1;
    }
    None
}

/// What is shown at the cursor of a text that may go on over several lines: its first
/// line, if that is not empty.
pub open spec fn first_line_of(s: Seq<char>) -> Option<Seq<char>> {
    let ls = lines_of(s);
    if ls.len() > 0 && ls[0].len() > 0 {
        Some(ls[0])
    } else {
        None
    }
}

/// What is shown at the cursor of a text.
pub fn ghost_line(s: &str) -> (r: Option<String>)
    ensures
        opt_text(r) == first_line_of(s@),
{
    let cs: Vec<char> = chars_of(s);
    let ls: Vec<&[char]> = lines_chars(cs.as_slice());
    proof {
        assert(slices(ls@).len() == ls@.len());
    }
    if ls.len() == 0 {
        return None;
    }
    let l = ls[0];
    proof {
        assert(slices(ls@)[0] == l@);
    }
    if l.len() == 0 {
        None
    } else {
        Some(string_of(l))
    }
}

// ---------- images ----------

/// `s` without `<` and `>` around it.
pub open spec fn unwrapped(s: Seq<char>) -> Seq<char> {
    if s.len() >= 2 && s[0] == '<' && s.last() == '>' {
        s.subrange(1, s.len() - 1)
    } else {
        s
    }
}

/// Where the title of an image starts that ends with `close`: behind a blank.
pub open spec fn title_start(s: Seq<char>, open: char, close: char) -> Option<int> {
    if s.len() > 0 && s.last() == close {
        let p = last_index_of(s.drop_last(), open);
        if p > 0 && s[p - 1] == ' ' {
            Some(p)
        } else {
            None
        }
    } else {
        None
    }
}

/// The path of an image without the title behind it. Only what ends like a title is
/// taken for one.
pub open spec fn without_title(src: Seq<char>) -> Seq<char> {
    let s = unwrapped(trim(src));
    match title_start(s, '"', '"') {
        Some(p) => trim_end(s.take(p)),
        None => match title_start(s, '\'', '\'') {
            Some(p) => trim_end(s.take(p)),
            None => match title_start(s, '(', ')') {
                Some(p) => trim_end(s.take(p)),
                None => s,
            },
        },
    }
}

fn find_title(s: &[char], open: char, close: char) -> (r: Option<usize>)
    ensures
        match r {
            Some(p) => title_start(s@, open, close) == Some(p as int) && p <= s@.len(),
            None => title_start(s@, open, close) is None,
        },
{
    let n: usize = s.len();
    if n == 0 || s[n - 1] != close {
        return None;
    }
    let front = slice_subrange(s, 0, n - 1);
    proof {
        assert(front@ =~= s@.drop_last());
        lemma_last_index_of(front@, open);
    }
    match rfind_char(front, open) {
        Some(p) => if p > 0 && s[p - 1] == ' ' {
            Some(p)
        } else {
            None
        },
        None => None,
    }
}

/// The path of an image without the title behind it.
pub fn strip_image_title(src: &str) -> (r: String)
    ensures
        r@ == without_title(src@),
{
    let cs: Vec<char> = chars_of(src);
    let t = trim_chars(cs.as_slice());
    let n: usize = t.len();
    let s = if n >= 2 && t[0] == '<' && t[n - 1] == '>' {
        slice_subrange(t, 1, n - 1)
    } else {
        t
    };
    let found: Option<usize> = match find_title(s, '"', '"') {
        Some(p) => Some(p),
        None => match find_title(s, '\'', '\'') {
            Some(p) => Some(p),
            None => find_title(s, '(', ')'),
        },
    };
    match found {
        Some(p) => {
            let front = slice_subrange(s, 0, p);
            proof {
                assert(front@ =~= s@.take(p as int));
            }
            string_of(trim_end_chars(front))
        },
        None => string_of(s),
    }
}

/// The path of an image that can be read from disk; none for one from the net.
pub open spec fn local_image(src: Seq<char>) -> Option<Seq<char>> {
    let s = without_title(src);
    if s.len() == 0 || "http://"@.is_prefix_of(s) || "https://"@.is_prefix_of(s) {
        None
    } else {
        Some(s)
    }
}

/// The path of an image that can be read from disk.
pub fn image_target(src: &str) -> (r: Option<String>)
    ensures
        opt_text(r) == local_image(src@),
{
    let s: String = strip_image_title(src);
    let cs: Vec<char> = chars_of(&s);
    if cs.len() == 0 || starts_with(cs.as_slice(), "http://") || starts_with(
        cs.as_slice(),
        "https://",
    ) {
        None
    } else {
        Some(s)
    }
}

/// The file of an image: the path itself if it is absolute, or else below the directory of
/// the note, if the note has one.
pub fn image_file(target: &str, absolute: bool, base: Option<&str>) -> (r: Option<String>)
    ensures
        opt_text(r) == if absolute {
            Some(target@)
        } else {
            match base {
                Some(b) => Some(joined(b@, target@)),
                None => None,
            }
        },
{
    if absolute {
        return Some(target.to_owned());
    }
    match base {
        Some(b) => Some(join_path(b, target)),
        None => None,
    }
}

/// Pixels of four bytes with the first and the third of each swapped. Bytes behind the
/// last whole pixel stay.
pub open spec fn swapped(v: Seq<u8>) -> Seq<u8> {
    Seq::new(
        v.len(),
        |i: int|
            if i / 4 * 4 + 4 > v.len() {
                v[i]
            } else if i % 4 == 0 {
                v[i + 2]
            } else if i % 4 == 2 {
                v[i - 2]
            } else {
                v[i]
            },
    )
}

/// Turns pixels from red, green, blue to blue, green, red.
pub fn swap_red_blue(data: &mut Vec<u8>)
    ensures
        final(data)@ == swapped(old(data)@),
{
    let ghost before = data@;
    let n: usize = data.len();
    let mut i: usize = 0;
    while i < n && 4 <= n - i
        invariant
            n == before.len(),
            data@.len() == n,
            i <= n,
            i % 4 == 0,
            forall|k: int| 0 <= k < i ==> #[trigger] data@[k] == swapped(before)[k],
            forall|k: int| i <= k < n ==> #[trigger] data@[k] == before[k],
        decreases n - i,
    {
        let a: u8 = data[i];
        let b: u8 = data[i + 2];
        data.set(i, b);
        data.set(i + 2, a);
        i = i + 4;
    }
    proof {
        assert(data@ =~= swapped(before));
    }
}

/// Swapping twice gives the pixels back.
pub proof fn swapping_twice_changes_nothing(v: Seq<u8>)
    ensures
        swapped(swapped(v)) == v,
{
    assert(swapped(swapped(v)) =~= v);
}

} // verus!
