//! Inline Markdown: a flat list of styled spans over the text that is shown,
//! with the way back from shown text to source text.
//!
//! On top of common Markdown two note-keeping forms are recognised:
//! `[[note]]` or `[[note|shown]]` links to another note, `#word` is a tag.
use crate::inline::Piece::{
    Address, Bold, EndAddress, EndBold, EndItalic, EndPicture, EndStruck, Hard, Italic, Markup,
    Other, Picture, Soft, Struck, Tag, Verbatim, Words,
};
use crate::text::{
    blen, byte_len, chars_len, chars_of, cut, find_char, find_chars, find_from, floor_index,
    index_at, index_of, lemma_blen_bounds, lemma_blen_concat, lemma_blen_split, lemma_find_from,
    lemma_floor_index, lemma_index_of, lemma_off_mono, off, push_chars, string_of, trim, trim_chars,
};
use pulldown_cmark::Event::{Code, End, HardBreak, Html, InlineHtml, SoftBreak, Start, Text};
use pulldown_cmark::Tag::{Emphasis, Image, Link, Strikethrough, Strong};
use pulldown_cmark::TagEnd::{
    Emphasis as EmphasisEnd, Image as ImageEnd, Link as LinkEnd, Strikethrough as StrikethroughEnd,
    Strong as StrongEnd,
};
use pulldown_cmark::{Options, Parser};
use std::ops::Range;
use vstd::prelude::*;
use vstd::slice::slice_subrange;

verus! {

/// A set of inline styles, one bit each: styles add up.
#[derive(Clone, Copy, Debug, PartialEq, Eq, Structural)]
pub struct SpanStyle(u8);

impl View for SpanStyle {
    type V = u8;

    closed spec fn view(&self) -> u8 {
        self.0
    }
}

impl SpanStyle {
    /// No style at all.
    pub fn none() -> (r: SpanStyle)
        ensures
            r@ == 0,
    {
        SpanStyle(0)
    }

    /// Strong text.
    pub fn bold() -> (r: SpanStyle)
        ensures
            r@ == 1,
    {
        SpanStyle(1)
    }

    /// Emphasised text.
    pub fn italic() -> (r: SpanStyle)
        ensures
            r@ == 2,
    {
        SpanStyle(2)
    }

    /// Code.
    pub fn code() -> (r: SpanStyle)
        ensures
            r@ == 4,
    {
        SpanStyle(4)
    }

    /// Struck out text.
    pub fn strike() -> (r: SpanStyle)
        ensures
            r@ == 8,
    {
        SpanStyle(8)
    }

    /// A link to an address.
    pub fn link() -> (r: SpanStyle)
        ensures
            r@ == 16,
    {
        SpanStyle(16)
    }

    /// A link `[[..]]` to another note.
    pub fn wikilink() -> (r: SpanStyle)
        ensures
            r@ == 32,
    {
        SpanStyle(32)
    }

    /// A tag `#word`.
    pub fn tag() -> (r: SpanStyle)
        ensures
            r@ == 64,
    {
        SpanStyle(64)
    }

    /// Whether every style of `other` is in this set.
    pub fn contains(self, other: SpanStyle) -> (r: bool)
        ensures
            r == (self@ & other@ == other@),
    {
        self.0 & other.0 == other.0
    }

    /// Adds the styles of `other`.
    pub fn insert(&mut self, other: SpanStyle)
        ensures
            final(self)@ == old(self)@ | other@,
    {
        self.0 = self.0 | other.0;
    }

    /// Whether the set is empty.
    pub fn is_plain(self) -> (r: bool)
        ensures
            r == (self@ == 0),
    {
        self.0 == 0
    }

    /// The set as a number, one bit for each style.
    pub fn bits(self) -> (r: u8)
        ensures
            r == self@,
    {
        self.0
    }
}

impl Default for SpanStyle {
    fn default() -> (r: SpanStyle)
        ensures
            r@ == 0,
    {
        SpanStyle(0)
    }
}

impl std::ops::BitOr for SpanStyle {
    type Output = SpanStyle;

    fn bitor(self, rhs: SpanStyle) -> (r: SpanStyle)
    {
        SpanStyle(self.0 | rhs.0)
    }
}

impl vstd::std_specs::ops::BitOrSpecImpl for SpanStyle {
    open spec fn obeys_bitor_spec() -> bool {
        true
    }

    open spec fn bitor_req(self, rhs: SpanStyle) -> bool {
        true
    }

    closed spec fn bitor_spec(self, rhs: SpanStyle) -> SpanStyle {
        SpanStyle(self.0 | rhs.0)
    }
}

/// Joining two sets of styles joins their bits.
pub proof fn styles_add_up(a: SpanStyle, b: SpanStyle)
    ensures
        vstd::std_specs::ops::BitOrSpec::bitor_spec(a, b)@ == a@ | b@,
{
}

// ---------- the result of parsing, and its model ----------

/// A stretch of shown text in one style.
#[derive(Debug, PartialEq, Eq)]
pub struct StyledSpan {
    /// Bytes of the shown text.
    pub range: Range<usize>,
    /// Bytes of the source text that it comes from.
    pub src: Range<usize>,
    pub style: SpanStyle,
}

/// The shown text of a block with its styles and links.
#[derive(Debug, PartialEq, Eq)]
pub struct InlineText {
    /// What is shown: the source text without its markers.
    pub text: String,
    /// Spans over `text`, in order.
    pub spans: Vec<StyledSpan>,
    /// Links: bytes of `text`, and the address.
    pub links: Vec<(Range<usize>, String)>,
    /// Links to other notes: bytes of `text`, and the note's name.
    pub wikilinks: Vec<(Range<usize>, String)>,
    /// Tags: bytes of `text`, and the tag without its `#`.
    pub tags: Vec<(Range<usize>, String)>,
}

/// A styled span: bytes `lo` to `hi` of the shown text, from `src_lo` to
/// `src_hi` of the source.
pub struct SpanModel {
    pub lo: int,
    pub hi: int,
    pub src_lo: int,
    pub src_hi: int,
    pub style: u8,
}

/// A named stretch of the shown text.
pub struct MarkModel {
    pub lo: int,
    pub hi: int,
    pub name: Seq<char>,
}

pub struct InlineModel {
    pub text: Seq<char>,
    pub spans: Seq<SpanModel>,
    pub links: Seq<MarkModel>,
    pub wikilinks: Seq<MarkModel>,
    pub tags: Seq<MarkModel>,
}

impl View for StyledSpan {
    type V = SpanModel;

    open spec fn view(&self) -> SpanModel {
        SpanModel {
            lo: self.range.start as int,
            hi: self.range.end as int,
            src_lo: self.src.start as int,
            src_hi: self.src.end as int,
            style: self.style@,
        }
    }
}

pub open spec fn spans_model(v: Seq<StyledSpan>) -> Seq<SpanModel> {
    v.map_values(|s: StyledSpan| s@)
}

pub open spec fn mark_model(m: (Range<usize>, String)) -> MarkModel {
    MarkModel { lo: m.0.start as int, hi: m.0.end as int, name: m.1@ }
}

pub open spec fn marks_model(v: Seq<(Range<usize>, String)>) -> Seq<MarkModel> {
    v.map_values(|m: (Range<usize>, String)| mark_model(m))
}

impl View for InlineText {
    type V = InlineModel;

    open spec fn view(&self) -> InlineModel {
        InlineModel {
            text: self.text@,
            spans: spans_model(self.spans@),
            links: marks_model(self.links@),
            wikilinks: marks_model(self.wikilinks@),
            tags: marks_model(self.tags@),
        }
    }
}

pub open spec fn empty_model() -> InlineModel {
    InlineModel {
        text: Seq::empty(),
        spans: Seq::empty(),
        links: Seq::empty(),
        wikilinks: Seq::empty(),
        tags: Seq::empty(),
    }
}

/// Text without any marker: shown as it is, in one plain span.
pub open spec fn plain_model(s: Seq<char>) -> InlineModel {
    InlineModel {
        text: s,
        spans: if s.len() == 0 {
            Seq::empty()
        } else {
            seq![SpanModel { lo: 0, hi: blen(s) as int, src_lo: 0, src_hi: blen(s) as int, style: 0 }]
        },
        links: Seq::empty(),
        wikilinks: Seq::empty(),
        tags: Seq::empty(),
    }
}

/// The source offset of byte `r` of the shown text, looking at the spans from
/// the one at index `k` on: inside a span by the distance from its start, before
/// a span at the span's start, after all spans at the last one's end.
pub open spec fn source_at(spans: Seq<SpanModel>, r: int, k: int) -> int
    decreases spans.len() - k,
{
    if spans.len() == 0 {
        0
    } else if k < 0 || k >= spans.len() {
        spans.last().src_hi
    } else {
        let sp = spans[k];
        if r < sp.lo {
            sp.src_lo
        } else if r <= sp.hi {
            let room = if sp.src_hi > sp.src_lo {
                sp.src_hi - sp.src_lo
            } else {
                0
            };
            sp.src_lo + if r - sp.lo <= room {
                r - sp.lo
            } else {
                room
            }
        } else {
            source_at(spans, r, k + 1)
        }
    }
}

/// The offset in the shown text of byte `b` of the source, looking at the spans
/// from the one at index `k` on.
pub open spec fn rendered_at(m: InlineModel, b: int, k: int) -> int
    decreases m.spans.len() - k,
{
    if m.spans.len() == 0 {
        0
    } else if k < 0 || k >= m.spans.len() {
        blen(m.text) as int
    } else {
        let sp = m.spans[k];
        if b < sp.src_lo {
            sp.lo
        } else if b <= sp.src_hi {
            let room = if sp.hi > sp.lo {
                sp.hi - sp.lo
            } else {
                0
            };
            sp.lo + if b - sp.src_lo <= room {
                b - sp.src_lo
            } else {
                room
            }
        } else {
            rendered_at(m, b, k + 1)
        }
    }
}

impl Clone for StyledSpan {
    fn clone(&self) -> (r: StyledSpan)
        ensures
            r == *self,
    {
        StyledSpan {
            range: self.range.start..self.range.end,
            src: self.src.start..self.src.end,
            style: self.style,
        }
    }
}

fn clone_spans(v: &Vec<StyledSpan>) -> (r: Vec<StyledSpan>)
    ensures
        r@ == v@,
{
    let mut out: Vec<StyledSpan> = Vec::new();
    let mut k: usize = 0;
    while k < v.len()
        invariant
            0 <= k <= v@.len(),
            out@ == v@.take(k as int),
        decreases v@.len() - k,
    {
        out.push(v[k].clone());
        proof {
            assert(out@ =~= v@.take(k + 1));
        }
        k = k + 1;
    }
    proof {
        assert(v@.take(v@.len() as int) =~= v@);
    }
    out
}

fn clone_marks(v: &Vec<(Range<usize>, String)>) -> (r: Vec<(Range<usize>, String)>)
    ensures
        r@ == v@,
{
    let mut out: Vec<(Range<usize>, String)> = Vec::new();
    let mut k: usize = 0;
    while k < v.len()
        invariant
            0 <= k <= v@.len(),
            out@ == v@.take(k as int),
        decreases v@.len() - k,
    {
        out.push((v[k].0.start..v[k].0.end, v[k].1.clone()));
        proof {
            assert(out@ =~= v@.take(k + 1));
        }
        k = k + 1;
    }
    proof {
        assert(v@.take(v@.len() as int) =~= v@);
    }
    out
}

impl Clone for InlineText {
    fn clone(&self) -> (r: InlineText)
        ensures
            r@ == self@,
    {
        InlineText {
            text: self.text.clone(),
            spans: clone_spans(&self.spans),
            links: clone_marks(&self.links),
            wikilinks: clone_marks(&self.wikilinks),
            tags: clone_marks(&self.tags),
        }
    }
}

impl Default for InlineText {
    fn default() -> (r: InlineText)
        ensures
            r@ == empty_model(),
    {
        let r = InlineText {
            text: String::new(),
            spans: Vec::new(),
            links: Vec::new(),
            wikilinks: Vec::new(),
            tags: Vec::new(),
        };
        proof {
            assert(r@.spans =~= Seq::<SpanModel>::empty());
            assert(r@.links =~= Seq::<MarkModel>::empty());
            assert(r@.wikilinks =~= Seq::<MarkModel>::empty());
            assert(r@.tags =~= Seq::<MarkModel>::empty());
        }
        r
    }
}

impl InlineText {
    /// The result for text without any marker.
    pub fn plain(text: &str) -> (r: InlineText)
        ensures
            r@ == plain_model(text@),
    {
        let n: usize = byte_len(text);
        let mut spans: Vec<StyledSpan> = Vec::new();
        if n > 0 {
            spans.push(StyledSpan { range: 0..n, src: 0..n, style: SpanStyle::none() });
        }
        let r = InlineText {
            text: text.to_owned(),
            spans,
            links: Vec::new(),
            wikilinks: Vec::new(),
            tags: Vec::new(),
        };
        proof {
            lemma_blen_bounds(text@);
            assert(r@.spans =~= plain_model(text@).spans);
            assert(r@.links =~= Seq::<MarkModel>::empty());
            assert(r@.wikilinks =~= Seq::<MarkModel>::empty());
            assert(r@.tags =~= Seq::<MarkModel>::empty());
        }
        r
    }

    /// The source offset that belongs to byte `rendered` of the shown text.
    pub fn source_offset(&self, rendered: usize) -> (r: usize)
        ensures
            r == source_at(self@.spans, rendered as int, 0),
    {
        let n: usize = self.spans.len();
        if n == 0 {
            return 0;
        }
        let mut k: usize = 0;
        while k < n
            invariant
                n == self.spans@.len(),
                n > 0,
                0 <= k <= n,
                source_at(self@.spans, rendered as int, 0) == source_at(
                    self@.spans,
                    rendered as int,
                    k as int,
                ),
            decreases n - k,
        {
            let sp = &self.spans[k];
            proof {
                assert(self@.spans[k as int] == sp@);
            }
            if rendered < sp.range.start {
                return sp.src.start;
            }
            if rendered <= sp.range.end {
                let d: usize = rendered - sp.range.start;
                let room: usize = if sp.src.end > sp.src.start {
                    sp.src.end - sp.src.start
                } else {
                    0
                };
                let step: usize = if d <= room {
                    d
                } else {
                    room
                };
                return sp.src.start + step;
            }
            k = k + 1;
        }
        proof {
            assert(self@.spans.last() == self.spans@[n - 1]@);
        }
        self.spans[n - 1].src.end
    }

    /// The offset in the shown text that belongs to byte `src` of the source.
    pub fn rendered_offset(&self, src: usize) -> (r: usize)
        ensures
            r == rendered_at(self@, src as int, 0),
    {
        let n: usize = self.spans.len();
        if n == 0 {
            return 0;
        }
        let mut k: usize = 0;
        while k < n
            invariant
                n == self.spans@.len(),
                n > 0,
                0 <= k <= n,
                rendered_at(self@, src as int, 0) == rendered_at(self@, src as int, k as int),
            decreases n - k,
        {
            let sp = &self.spans[k];
            proof {
                assert(self@.spans[k as int] == sp@);
            }
            if src < sp.src.start {
                return sp.range.start;
            }
            if src <= sp.src.end {
                let d: usize = src - sp.src.start;
                let room: usize = if sp.range.end > sp.range.start {
                    sp.range.end - sp.range.start
                } else {
                    0
                };
                let step: usize = if d <= room {
                    d
                } else {
                    room
                };
                return sp.range.start + step;
            }
            k = k + 1;
        }
        byte_len(&self.text)
    }
}

// ---------- links to notes, and tags ----------

/// The characters that can start inline markup.
pub open spec fn is_marker(c: char) -> bool {
    c == '*' || c == '_' || c == '`' || c == '[' || c == '!' || c == '~' || c == '<' || c == '&' || c
        == '\\' || c == '#'
}

/// Whether `s` holds a character that can start inline markup.
pub open spec fn has_marker(s: Seq<char>) -> bool {
    exists|i: int| 0 <= i < s.len() && is_marker(#[trigger] s[i])
}

/// The characters of a tag: ASCII letters and digits, `_`, and the common
/// Chinese characters.
pub open spec fn is_word(c: char) -> bool {
    ||| '0' <= c <= '9'
    ||| 'A' <= c <= 'Z'
    ||| 'a' <= c <= 'z'
    ||| c == '_'
    ||| '\u{4e00}' <= c <= '\u{9fff}'
}

/// The end of the run of word characters of `s` that starts at index `k`.
pub open spec fn word_end(s: Seq<char>, k: int) -> int
    decreases s.len() - k,
{
    if 0 <= k < s.len() && is_word(s[k]) {
        word_end(s, k + 1)
    } else {
        k
    }
}

/// A link to a note that starts at index `i` of `s`: the index behind it, the
/// note's name and the text to show.
pub open spec fn wiki_at(s: Seq<char>, i: int) -> Option<(int, Seq<char>, Seq<char>)> {
    if 0 <= i && i + 1 < s.len() && s[i] == '[' && s[i + 1] == '[' {
        match find_from(s, seq![']', ']'], i + 2) {
            Some(j) => {
                let inner = s.subrange(i + 2, j);
                let bar = index_of(inner, '|');
                let target = trim(inner.take(bar));
                let shown = if bar < inner.len() {
                    trim(inner.skip(bar + 1))
                } else {
                    target
                };
                if target.len() == 0 {
                    None
                } else {
                    Some((j + 2, target, if shown.len() == 0 {
                        target
                    } else {
                        shown
                    }))
                }
            },
            None => None,
        }
    } else {
        None
    }
}

/// A tag that starts at index `i` of `s`: the index behind it.
pub open spec fn tag_at(s: Seq<char>, i: int) -> Option<int> {
    if 0 <= i < s.len() && s[i] == '#' && !(i > 0 && is_word(s[i - 1])) && word_end(s, i + 1) > i
        + 1 {
        Some(word_end(s, i + 1))
    } else {
        None
    }
}

/// A part of the source, from character index `i` to `j`.
pub enum SegModel {
    Plain { i: int, j: int },
    Wiki { i: int, j: int, target: Seq<char>, shown: Seq<char> },
    Tag { i: int, j: int },
}

/// The text between index `c` and index `i`, where there is any.
pub open spec fn gap(c: int, i: int) -> Seq<SegModel> {
    if c < i {
        seq![SegModel::Plain { i: c, j: i }]
    } else {
        Seq::empty()
    }
}

/// The parts of `s` from index `c` on, with no link or tag between `c` and `i`.
pub open spec fn segs_from(s: Seq<char>, i: int, c: int) -> Seq<SegModel>
    decreases s.len() - i,
{
    proof {
        lemma_word_end(s, i + 1);
        lemma_find_from(s, seq![']', ']'], i + 2);
    }
    if i < 0 || i >= s.len() {
        gap(c, s.len() as int)
    } else {
        match wiki_at(s, i) {
            Some((j, target, shown)) => gap(c, i) + seq![SegModel::Wiki { i, j, target, shown }]
                + segs_from(s, j, j),
            None => match tag_at(s, i) {
                Some(j) => gap(c, i) + seq![SegModel::Tag { i, j }] + segs_from(s, j, j),
                None => segs_from(s, i + 1, c),
            },
        }
    }
}

pub proof fn lemma_word_end(s: Seq<char>, k: int)
    ensures
        k <= word_end(s, k),
        0 <= k <= s.len() ==> word_end(s, k) <= s.len(),
    decreases s.len() - k,
{
    if 0 <= k < s.len() && is_word(s[k]) {
        lemma_word_end(s, k + 1);
    }
}

pub open spec fn seg_lo(m: SegModel) -> int {
    match m {
        SegModel::Plain { i, .. } => i,
        SegModel::Wiki { i, .. } => i,
        SegModel::Tag { i, .. } => i,
    }
}

pub open spec fn seg_hi(m: SegModel) -> int {
    match m {
        SegModel::Plain { j, .. } => j,
        SegModel::Wiki { j, .. } => j,
        SegModel::Tag { j, .. } => j,
    }
}

/// Whether the parts cover the indices from `c` to `n`, one after the other,
/// none of them empty.
pub open spec fn tiles(v: Seq<SegModel>, c: int, n: int) -> bool
    decreases v.len(),
{
    if v.len() == 0 {
        c == n
    } else {
        seg_lo(v[0]) == c && seg_hi(v[0]) > c && tiles(v.drop_first(), seg_hi(v[0]), n)
    }
}

/// The parts of a text cover it without gap or overlap.
pub proof fn segs_tile_the_text(s: Seq<char>, i: int, c: int)
    requires
        0 <= c <= i <= s.len(),
    ensures
        tiles(segs_from(s, i, c), c, s.len() as int),
    decreases s.len() - i,
{
    lemma_word_end(s, i + 1);
    lemma_find_from(s, seq![']', ']'], i + 2);
    let v = segs_from(s, i, c);
    if i >= s.len() {
        if c < s.len() {
            assert(v.drop_first() =~= Seq::<SegModel>::empty());
            assert(tiles(v.drop_first(), s.len() as int, s.len() as int));
        }
    } else {
        let j = match wiki_at(s, i) {
            Some((j, _, _)) => j,
            None => match tag_at(s, i) {
                Some(j) => j,
                None => i + 1,
            },
        };
        if wiki_at(s, i) is None && tag_at(s, i) is None {
            segs_tile_the_text(s, i + 1, c);
        } else {
            segs_tile_the_text(s, j, j);
            let g = match wiki_at(s, i) {
                Some((_, target, shown)) => SegModel::Wiki { i, j, target, shown },
                None => SegModel::Tag { i, j },
            };
            let rest = segs_from(s, j, j);
            assert(v == gap(c, i) + seq![g] + rest);
            assert(seg_lo(g) == i && seg_hi(g) == j && i < j);
            assert((seq![g] + rest).drop_first() =~= rest);
            assert(tiles(seq![g] + rest, i, s.len() as int));
            if c < i {
                assert(v.drop_first() =~= seq![g] + rest);
            } else {
                assert(v =~= seq![g] + rest);
            }
        }
    }
}

/// A part of a text, by character indices.
enum Seg {
    Plain(usize, usize),
    Wiki(usize, usize, String, String),
    Tag(usize, usize),
}

spec fn seg_model(g: Seg) -> SegModel {
    match g {
        Seg::Plain(i, j) => SegModel::Plain { i: i as int, j: j as int },
        Seg::Wiki(i, j, target, shown) => SegModel::Wiki {
            i: i as int,
            j: j as int,
            target: target@,
            shown: shown@,
        },
        Seg::Tag(i, j) => SegModel::Tag { i: i as int, j: j as int },
    }
}

spec fn segs_model(v: Seq<Seg>) -> Seq<SegModel> {
    v.map_values(|g: Seg| seg_model(g))
}

fn is_marker_char(c: char) -> (r: bool)
    ensures
        r == is_marker(c),
{
    c == '*' || c == '_' || c == '`' || c == '[' || c == '!' || c == '~' || c == '<' || c == '&' || c
        == '\\' || c == '#'
}

fn is_word_char(c: char) -> (r: bool)
    ensures
        r == is_word(c),
{
    ('0' <= c && c <= '9') || ('A' <= c && c <= 'Z') || ('a' <= c && c <= 'z') || c == '_' || (
    '\u{4e00}' <= c && c <= '\u{9fff}')
}

fn has_inline_marker(cs: &[char]) -> (r: bool)
    ensures
        r == has_marker(cs@),
{
    let mut i: usize = 0;
    while i < cs.len()
        invariant
            0 <= i <= cs@.len(),
            forall|k: int| 0 <= k < i ==> !is_marker(#[trigger] cs@[k]),
        decreases cs@.len() - i,
    {
        if is_marker_char(cs[i]) {
            return true;
        }
        i = i + 1;
    }
    false
}

/// The link to a note that starts at index `i`.
fn wiki_here(cs: &[char], i: usize) -> (r: Option<(usize, String, String)>)
    requires
        i < cs@.len(),
    ensures
        match r {
            Some((j, target, shown)) => wiki_at(cs@, i as int) == Some((j as int, target@, shown@))
                && i < j <= cs@.len(),
            None => wiki_at(cs@, i as int) is None,
        },
{
    if cs.len() - i < 2 || cs[i] != '[' || cs[i + 1] != '[' {
        return None;
    }
    let mut close: Vec<char> = Vec::new();
    close.push(']');
    close.push(']');
    proof {
        assert(close@ =~= seq![']', ']']);
    }
    match find_chars(cs, close.as_slice(), i + 2) {
        Some(j) => {
            let inner = slice_subrange(cs, i + 2, j);
            let bar: usize = find_char(inner, '|');
            proof {
                assert(inner@.subrange(0, bar as int) =~= inner@.take(bar as int));
                lemma_index_of(inner@, '|');
            }
            let target = trim_chars(slice_subrange(inner, 0, bar));
            if target.len() == 0 {
                return None;
            }
            if bar < inner.len() {
                let shown = trim_chars(slice_subrange(inner, bar + 1, inner.len()));
                proof {
                    assert(inner@.subrange(bar + 1, inner@.len() as int) =~= inner@.skip(bar + 1));
                }
                if shown.len() > 0 {
                    return Some((j + 2, string_of(target), string_of(shown)));
                }
            }
            Some((j + 2, string_of(target), string_of(target)))
        },
        None => None,
    }
}

/// The end of the tag that starts at index `i`.
pub(crate) fn tag_here(cs: &[char], i: usize) -> (r: Option<usize>)
    requires
        i < cs@.len(),
    ensures
        match r {
            Some(j) => tag_at(cs@, i as int) == Some(j as int) && i < j <= cs@.len(),
            None => tag_at(cs@, i as int) is None,
        },
{
    if cs[i] != '#' || (i > 0 && is_word_char(cs[i - 1])) {
        return None;
    }
    let mut k: usize = i + 1;
    while k < cs.len() && is_word_char(cs[k])
        invariant
            i < k <= cs@.len(),
            word_end(cs@, i + 1) == word_end(cs@, k as int),
        decreases cs@.len() - k,
    {
        k = k + 1;
    }
    if k > i + 1 {
        Some(k)
    } else {
        None
    }
}

/// Cuts a text into plain parts, links to notes and tags.
fn tokenize(cs: &[char]) -> (r: Vec<Seg>)
    ensures
        segs_model(r@) == segs_from(cs@, 0, 0),
{
    let n: usize = cs.len();
    let mut out: Vec<Seg> = Vec::new();
    let mut i: usize = 0;
    let mut c: usize = 0;
    proof {
        assert(segs_model(out@) + segs_from(cs@, 0, 0) =~= segs_from(cs@, 0, 0));
    }
    while i < n
        invariant
            n == cs@.len(),
            0 <= c <= i <= n,
            segs_model(out@) + segs_from(cs@, i as int, c as int) == segs_from(cs@, 0, 0),
        decreases n - i,
    {
        let ghost before = segs_model(out@);
        let ghost (i0, c0) = (i as int, c as int);
        let found: Option<(Seg, usize)> = match wiki_here(cs, i) {
            Some((j, target, shown)) => Some((Seg::Wiki(i, j, target, shown), j)),
            None => match tag_here(cs, i) {
                Some(j) => Some((Seg::Tag(i, j), j)),
                None => None,
            },
        };
        match found {
            Some((g, j)) => {
                if c < i {
                    out.push(Seg::Plain(c, i));
                    proof {
                        assert(segs_model(out@) =~= before + gap(c0, i0));
                    }
                } else {
                    proof {
                        assert(segs_model(out@) =~= before + gap(c0, i0));
                    }
                }
                let ghost gm = seg_model(g);
                let ghost middle = segs_model(out@);
                out.push(g);
                proof {
                    assert(segs_model(out@) =~= middle.push(gm));
                    let tail = segs_from(cs@, j as int, j as int);
                    assert(segs_from(cs@, i0, c0) == gap(c0, i0) + seq![gm] + tail);
                    assert(segs_model(out@) + tail =~= before + (gap(c0, i0) + seq![gm] + tail));
                }
                i = j;
                c = j;
            },
            None => {
                i = i + 1;
            },
        }
    }
    let ghost before = segs_model(out@);
    if c < n {
        out.push(Seg::Plain(c, n));
    }
    proof {
        assert(segs_from(cs@, i as int, c as int) == gap(c as int, n as int));
        assert(segs_model(out@) =~= before + gap(c as int, n as int));
    }
    out
}

// ---------- Markdown events ----------

/// What the Markdown parser reports of a text, piece by piece.
#[derive(Debug)]
pub enum Piece {
    Bold,
    Italic,
    Struck,
    /// A link opens, to this address.
    Address(String),
    /// An image opens, from this address.
    Picture(String),
    EndBold,
    EndItalic,
    EndStruck,
    EndAddress,
    EndPicture,
    /// Text to show.
    Words(String),
    /// An HTML tag in a line, shown as it is.
    Tag(String),
    /// A block of HTML, shown as it is.
    Markup(String),
    /// Code to show.
    Verbatim(String),
    /// The end of a source line.
    Soft,
    /// A line break that was asked for.
    Hard,
    Other,
}

pub enum PieceModel {
    Bold,
    Italic,
    Struck,
    Address(Seq<char>),
    Picture(Seq<char>),
    EndBold,
    EndItalic,
    EndStruck,
    EndAddress,
    EndPicture,
    Words(Seq<char>),
    Tag(Seq<char>),
    Markup(Seq<char>),
    Verbatim(Seq<char>),
    Soft,
    Hard,
    Other,
}

impl View for Piece {
    type V = PieceModel;

    open spec fn view(&self) -> PieceModel {
        match *self {
            Piece::Bold => PieceModel::Bold,
            Piece::Italic => PieceModel::Italic,
            Piece::Struck => PieceModel::Struck,
            Piece::Address(s) => PieceModel::Address(s@),
            Piece::Picture(s) => PieceModel::Picture(s@),
            Piece::EndBold => PieceModel::EndBold,
            Piece::EndItalic => PieceModel::EndItalic,
            Piece::EndStruck => PieceModel::EndStruck,
            Piece::EndAddress => PieceModel::EndAddress,
            Piece::EndPicture => PieceModel::EndPicture,
            Piece::Words(s) => PieceModel::Words(s@),
            Piece::Tag(s) => PieceModel::Tag(s@),
            Piece::Markup(s) => PieceModel::Markup(s@),
            Piece::Verbatim(s) => PieceModel::Verbatim(s@),
            Piece::Soft => PieceModel::Soft,
            Piece::Hard => PieceModel::Hard,
            Piece::Other => PieceModel::Other,
        }
    }
}

/// A piece with the bytes of the text that it comes from.
pub struct EventModel {
    pub lo: int,
    pub hi: int,
    pub piece: PieceModel,
}

pub open spec fn event_model(e: (Range<usize>, Piece)) -> EventModel {
    EventModel { lo: e.0.start as int, hi: e.0.end as int, piece: e.1@ }
}

pub open spec fn events_model(v: Seq<(Range<usize>, Piece)>) -> Seq<EventModel> {
    v.map_values(|e: (Range<usize>, Piece)| event_model(e))
}

/// The event lies inside a text of `n` bytes, and code is no longer than what it
/// comes from.
pub open spec fn event_ok(e: EventModel, n: int) -> bool {
    &&& 0 <= e.lo <= e.hi <= n
    &&& e.piece matches PieceModel::Verbatim(t) ==> blen(t) <= e.hi - e.lo
}

pub open spec fn events_ok(v: Seq<EventModel>, n: int) -> bool {
    forall|k: int| 0 <= k < v.len() ==> event_ok(#[trigger] v[k], n)
}

/// What `pulldown_cmark` reports of a text, with strikethrough switched on.
pub uninterp spec fn markdown_events(src: Seq<char>) -> Seq<EventModel>;

/// `pulldown_cmark::Parser::new_ext` with `ENABLE_STRIKETHROUGH`, walked by
/// `into_offset_iter`: the events of `src` with the range of the source that
/// each comes from. Claimed: the events are a function of `src` alone; each range
/// lies in `src`; the text of a code span is no longer than its range.
#[verifier::external_body]
fn markdown(src: &str) -> (r: Vec<(Range<usize>, Piece)>)
    ensures
        events_model(r@) == markdown_events(src@),
        events_ok(events_model(r@), blen(src@) as int),
{
    Parser::new_ext(src, Options::ENABLE_STRIKETHROUGH).into_offset_iter().map(|(e, r)| (r, match e {
        Start(Strong) => Bold, End(StrongEnd) => EndBold,
        Start(Emphasis) => Italic, End(EmphasisEnd) => EndItalic,
        Start(Strikethrough) => Struck, End(StrikethroughEnd) => EndStruck,
        Start(Link { dest_url, .. }) => Address(dest_url.to_string()), End(LinkEnd) => EndAddress,
        Start(Image { dest_url, .. }) => Picture(dest_url.to_string()), End(ImageEnd) => EndPicture,
        Text(t) => Words(t.to_string()),
        InlineHtml(t) => Tag(t.to_string()),
        Html(t) => Markup(t.to_string()),
        Code(t) => Verbatim(t.to_string()),
        SoftBreak => Soft, HardBreak => Hard,
        _ => Other,
    })).collect()
}

// ---------- from events to spans ----------

/// `m` with the text `s` behind it, as a span of its own.
pub open spec fn with_span(m: InlineModel, s: Seq<char>, style: u8, lo: int, hi: int) -> InlineModel {
    let a = blen(m.text) as int;
    let b = a + blen(s) as int;
    InlineModel {
        text: m.text + s,
        spans: m.spans.push(SpanModel { lo: a, hi: b, src_lo: lo, src_hi: hi, style }),
        ..m
    }
}

/// `m` with the text `s` behind it. The last span grows where style, shown text
/// and source text all continue it; else there is a new span.
pub open spec fn with_text(m: InlineModel, s: Seq<char>, style: u8, lo: int, hi: int) -> InlineModel {
    let a = blen(m.text) as int;
    let b = a + blen(s) as int;
    if s.len() == 0 {
        m
    } else if m.spans.len() > 0 && m.spans.last().style == style && m.spans.last().hi == a
        && m.spans.last().src_hi == lo {
        InlineModel {
            text: m.text + s,
            spans: m.spans.drop_last().push(SpanModel { hi: b, src_hi: hi, ..m.spans.last() }),
            ..m
        }
    } else {
        with_span(m, s, style, lo, hi)
    }
}

/// Where the code text `t` starts that an event on bytes `lo` to `hi` of `sub`
/// reports: at its first occurrence there, else at `lo`.
pub open spec fn code_start(sub: Seq<char>, lo: int, hi: int, t: Seq<char>) -> int {
    let i = floor_index(sub, lo);
    let j = floor_index(sub, hi);
    if off(sub, i) == lo && off(sub, j) == hi && i <= j {
        match find_from(sub.subrange(i, j), t, 0) {
            Some(k) => lo + off(sub.subrange(i, j), k),
            None => lo,
        }
    } else {
        lo
    }
}

/// The state between two events: what is shown so far, the style in force, the
/// styles to go back to, and the open link with where its text starts.
pub struct WalkModel {
    pub out: InlineModel,
    pub style: u8,
    pub stack: Seq<u8>,
    pub link: Option<(int, Seq<char>)>,
}

pub open spec fn opened(w: WalkModel, bits: u8) -> WalkModel {
    WalkModel { style: w.style | bits, stack: w.stack.push(w.style), ..w }
}

pub open spec fn closed_style(w: WalkModel) -> WalkModel {
    if w.stack.len() > 0 {
        WalkModel { style: w.stack.last(), stack: w.stack.drop_last(), ..w }
    } else {
        WalkModel { style: 0, ..w }
    }
}

pub open spec fn closed_link(w: WalkModel) -> WalkModel {
    let end = blen(w.out.text) as int;
    let out = match w.link {
        Some((start, url)) if start < end => InlineModel {
            links: w.out.links.push(MarkModel { lo: start, hi: end, name: url }),
            ..w.out
        },
        _ => w.out,
    };
    closed_style(WalkModel { out, link: None, ..w })
}

/// One event of the text `sub`, which starts at byte `base` of the source.
pub open spec fn event_step(w: WalkModel, sub: Seq<char>, base: int, e: EventModel) -> WalkModel {
    match e.piece {
        PieceModel::Bold => opened(w, 1),
        PieceModel::Italic => opened(w, 2),
        PieceModel::Struck => opened(w, 8),
        PieceModel::Address(u) => WalkModel {
            link: Some((blen(w.out.text) as int, u)),
            ..opened(w, 16)
        },
        PieceModel::Picture(u) => WalkModel {
            link: Some((blen(w.out.text) as int, u)),
            stack: w.stack.push(w.style),
            ..w
        },
        PieceModel::EndBold | PieceModel::EndItalic | PieceModel::EndStruck => closed_style(w),
        PieceModel::EndAddress | PieceModel::EndPicture => closed_link(w),
        PieceModel::Words(t) | PieceModel::Tag(t) | PieceModel::Markup(t) => WalkModel {
            out: with_text(w.out, t, w.style, base + e.lo, base + e.hi),
            ..w
        },
        PieceModel::Verbatim(t) => {
            let at = base + code_start(sub, e.lo, e.hi, t);
            WalkModel { out: with_text(w.out, t, w.style | 4, at, at + blen(t) as int), ..w }
        },
        PieceModel::Soft | PieceModel::Hard => WalkModel {
            out: with_text(w.out, seq!['\n'], w.style, base + e.lo, base + e.hi),
            ..w
        },
        PieceModel::Other => w,
    }
}

pub open spec fn walk(w: WalkModel, sub: Seq<char>, base: int, events: Seq<EventModel>) -> WalkModel
    decreases events.len(),
{
    if events.len() == 0 {
        w
    } else {
        walk(event_step(w, sub, base, events[0]), sub, base, events.drop_first())
    }
}

/// `m` with what the events of the text `sub` show behind it.
pub open spec fn with_events(
    m: InlineModel,
    sub: Seq<char>,
    base: int,
    events: Seq<EventModel>,
) -> InlineModel {
    walk(WalkModel { out: m, style: 0, stack: Seq::empty(), link: None }, sub, base, events).out
}

/// Every mark lies in a text of `n` bytes and is not empty.
pub open spec fn marks_ok(v: Seq<MarkModel>, n: int) -> bool {
    forall|k: int| 0 <= k < v.len() ==> 0 <= (#[trigger] v[k]).lo < v[k].hi <= n
}

/// The span at index `k` starts where the one before ends, is not empty, and
/// comes from a range of the source.
pub open spec fn span_ok(spans: Seq<SpanModel>, k: int, n: int) -> bool {
    &&& spans[k].lo < spans[k].hi
    &&& spans[k].lo == if k == 0 {
        0
    } else {
        spans[k - 1].hi
    }
    &&& 0 <= spans[k].src_lo <= spans[k].src_hi <= n
}

/// What holds of every result for a source of `n` bytes: the spans cover the
/// shown text from its start to its end, one after the other, none empty; each
/// comes from a range of the source; every link and tag lies in the shown text.
pub open spec fn inline_ok(m: InlineModel, n: int) -> bool {
    &&& forall|k: int| 0 <= k < m.spans.len() ==> #[trigger] span_ok(m.spans, k, n)
    &&& if m.spans.len() == 0 {
        m.text.len() == 0
    } else {
        m.spans.last().hi == blen(m.text)
    }
    &&& marks_ok(m.links, blen(m.text) as int)
    &&& marks_ok(m.wikilinks, blen(m.text) as int)
    &&& marks_ok(m.tags, blen(m.text) as int)
}

proof fn lemma_with_span_ok(m: InlineModel, s: Seq<char>, style: u8, lo: int, hi: int, n: int)
    requires
        inline_ok(m, n),
        s.len() > 0,
        0 <= lo <= hi <= n,
    ensures
        inline_ok(with_span(m, s, style, lo, hi), n),
        blen(with_span(m, s, style, lo, hi).text) == blen(m.text) + blen(s),
        blen(s) > 0,
{
    lemma_blen_concat(m.text, s);
    lemma_blen_bounds(s);
    let r = with_span(m, s, style, lo, hi);
    assert forall|k: int| 0 <= k < r.spans.len() implies #[trigger] span_ok(r.spans, k, n) by {
        if k < m.spans.len() {
            assert(span_ok(m.spans, k, n));
            assert(r.spans[k] == m.spans[k]);
            if k > 0 {
                assert(r.spans[k - 1] == m.spans[k - 1]);
            }
        }
    }
    assert(r.spans.last().hi == blen(r.text));
}

proof fn lemma_with_text_ok(m: InlineModel, s: Seq<char>, style: u8, lo: int, hi: int, n: int)
    requires
        inline_ok(m, n),
        0 <= lo <= hi <= n,
    ensures
        inline_ok(with_text(m, s, style, lo, hi), n),
        blen(with_text(m, s, style, lo, hi).text) >= blen(m.text),
{
    if s.len() > 0 {
        lemma_with_span_ok(m, s, style, lo, hi, n);
        let r = with_text(m, s, style, lo, hi);
        if r != with_span(m, s, style, lo, hi) {
            assert forall|k: int| 0 <= k < r.spans.len() implies #[trigger] span_ok(r.spans, k, n) by {
                assert(span_ok(m.spans, k, n));
                if k > 0 {
                    assert(r.spans[k - 1] == m.spans[k - 1]);
                }
            }
        }
    }
}

pub proof fn lemma_code_start(sub: Seq<char>, lo: int, hi: int, t: Seq<char>)
    requires
        0 <= lo <= hi <= blen(sub),
        blen(t) <= hi - lo,
    ensures
        lo <= code_start(sub, lo, hi, t),
        code_start(sub, lo, hi, t) + blen(t) <= hi,
{
    let i = floor_index(sub, lo);
    let j = floor_index(sub, hi);
    lemma_floor_index(sub, lo);
    lemma_floor_index(sub, hi);
    if off(sub, i) == lo && off(sub, j) == hi && i <= j {
        let p = sub.subrange(i, j);
        lemma_find_from(p, t, 0);
        match find_from(p, t, 0) {
            Some(k) => {
                lemma_off_mono(p, k, k + t.len());
                lemma_off_mono(sub, i, j);
            },
            None => {},
        }
    }
}

/// What an event keeps.
proof fn lemma_event_step_ok(w: WalkModel, sub: Seq<char>, base: int, e: EventModel, n: int)
    requires
        inline_ok(w.out, n),
        0 <= base,
        base + blen(sub) <= n,
        event_ok(e, blen(sub) as int),
        w.link matches Some((start, _)) ==> 0 <= start <= blen(w.out.text),
    ensures
        inline_ok(event_step(w, sub, base, e).out, n),
        event_step(w, sub, base, e).link matches Some((start, _)) ==> 0 <= start <= blen(
            event_step(w, sub, base, e).out.text,
        ),
{
    match e.piece {
        PieceModel::Words(t) | PieceModel::Tag(t) | PieceModel::Markup(t) => {
            lemma_with_text_ok(w.out, t, w.style, base + e.lo, base + e.hi, n);
        },
        PieceModel::Verbatim(t) => {
            lemma_code_start(sub, e.lo, e.hi, t);
            let at = base + code_start(sub, e.lo, e.hi, t);
            lemma_with_text_ok(w.out, t, w.style | 4, at, at + blen(t) as int, n);
        },
        PieceModel::Soft | PieceModel::Hard => {
            lemma_with_text_ok(w.out, seq!['\n'], w.style, base + e.lo, base + e.hi, n);
        },
        _ => {},
    }
}

/// Appends text as a span of its own.
fn push_span(out: &mut InlineText, s: &[char], style: SpanStyle, src: Range<usize>)
    ensures
        final(out)@ == with_span(old(out)@, s@, style@, src.start as int, src.end as int),
{
    let start: usize = byte_len(&out.text);
    push_chars(&mut out.text, s);
    let end: usize = byte_len(&out.text);
    let ghost before = out.spans@;
    out.spans.push(StyledSpan { range: start..end, src: src, style });
    proof {
        lemma_blen_concat(old(out)@.text, s@);
        assert(spans_model(out.spans@) =~= spans_model(before).push(out.spans@.last()@));
    }
}

/// Appends text, to the last span where that continues.
fn push_text(out: &mut InlineText, s: &[char], style: SpanStyle, src: Range<usize>)
    ensures
        final(out)@ == with_text(old(out)@, s@, style@, src.start as int, src.end as int),
{
    if s.len() == 0 {
        return ;
    }
    let n: usize = out.spans.len();
    let start: usize = byte_len(&out.text);
    proof {
        if n > 0 {
            assert(out@.spans.last() == out.spans@[n - 1]@);
        }
    }
    if n > 0 && out.spans[n - 1].style.bits() == style.bits() && out.spans[n - 1].range.end == start
        && out.spans[n - 1].src.end == src.start {
        push_chars(&mut out.text, s);
        let end: usize = byte_len(&out.text);
        let ghost before = out.spans@;
        let last = out.spans.pop().unwrap();
        let grown = StyledSpan {
            range: last.range.start..end,
            src: last.src.start..src.end,
            style: last.style,
        };
        out.spans.push(grown);
        proof {
            lemma_blen_concat(old(out)@.text, s@);
            assert(spans_model(out.spans@) =~= spans_model(before).drop_last().push(grown@));
        }
    } else {
        push_span(out, s, style, src);
    }
}

/// Where the code text `t` starts that an event on `range` of `sub` reports.
fn find_code(sub: &[char], range: &Range<usize>, t: &[char]) -> (r: usize)
    requires
        range.start <= range.end <= blen(sub@),
        blen(t@) <= range.end - range.start,
        blen(sub@) <= usize::MAX,
    ensures
        r == code_start(sub@, range.start as int, range.end as int, t@),
{
    let i: usize = index_at(sub, range.start);
    let j: usize = index_at(sub, range.end);
    proof {
        lemma_blen_split(sub@, i as int);
        lemma_blen_split(sub@, j as int);
        lemma_code_start(sub@, range.start as int, range.end as int, t@);
        assert(sub@.subrange(0, i as int) =~= sub@.take(i as int));
        assert(sub@.subrange(0, j as int) =~= sub@.take(j as int));
    }
    let lo: usize = chars_len(slice_subrange(sub, 0, i));
    let hi: usize = chars_len(slice_subrange(sub, 0, j));
    if lo == range.start && hi == range.end && i <= j {
        let part = slice_subrange(sub, i, j);
        match find_chars(part, t, 0) {
            Some(k) => {
                proof {
                    lemma_off_mono(sub@, i as int, j as int);
                    lemma_blen_split(part@, k as int);
                    assert(part@.subrange(0, k as int) =~= part@.take(k as int));
                }
                lo + chars_len(slice_subrange(part, 0, k))
            },
            None => lo,
        }
    } else {
        range.start
    }
}

/// The bits of a stack of styles.
spec fn styles_model(v: Seq<SpanStyle>) -> Seq<u8> {
    v.map_values(|s: SpanStyle| s@)
}

/// The open link, with where its text starts.
spec fn link_model(l: Option<(usize, String)>) -> Option<(int, Seq<char>)> {
    match l {
        Some((a, u)) => Some((a as int, u@)),
        None => None,
    }
}

/// Appends to `out` what the Markdown events of `sub` show, where `sub` starts at
/// byte `base` of the source.
pub fn add_events(
    out: &mut InlineText,
    sub: &str,
    base: usize,
    events: &Vec<(Range<usize>, Piece)>,
)
    requires
        base + blen(sub@) <= usize::MAX,
        events_ok(events_model(events@), blen(sub@) as int),
    ensures
        final(out)@ == with_events(old(out)@, sub@, base as int, events_model(events@)),
        forall|n: int|
            #![trigger inline_ok(final(out)@, n)]
            base + blen(sub@) <= n && inline_ok(old(out)@, n) ==> inline_ok(final(out)@, n),
{
    let cs: Vec<char> = chars_of(sub);
    let mut style: SpanStyle = SpanStyle::none();
    let mut stack: Vec<SpanStyle> = Vec::new();
    let mut link: Option<(usize, String)> = None;
    let ghost evs = events_model(events@);
    let ghost w0 = WalkModel { out: out@, style: 0, stack: Seq::empty(), link: None };
    let mut k: usize = 0;
    proof {
        assert(styles_model(stack@) =~= Seq::<u8>::empty());
        assert(evs.skip(0) =~= evs);
    }
    while k < events.len()
        invariant
            0 <= k <= events@.len(),
            cs@ == sub@,
            evs == events_model(events@),
            base + blen(sub@) <= usize::MAX,
            events_ok(evs, blen(sub@) as int),
            w0 == (WalkModel { out: old(out)@, style: 0, stack: Seq::empty(), link: None }),
            ({
                let w = WalkModel {
                    out: out@,
                    style: style@,
                    stack: styles_model(stack@),
                    link: link_model(link),
                };
                &&& walk(w0, sub@, base as int, evs) == walk(w, sub@, base as int, evs.skip(k as int))
                &&& w.link matches Some((start, _)) ==> 0 <= start <= blen(w.out.text)
            }),
            forall|n: int|
                #![trigger inline_ok(out@, n)]
                base + blen(sub@) <= n && inline_ok(old(out)@, n) ==> inline_ok(out@, n),
        decreases events@.len() - k,
    {
        let ghost w = WalkModel {
            out: out@,
            style: style@,
            stack: styles_model(stack@),
            link: link_model(link),
        };
        let ghost e = evs[k as int];
        let (range, piece) = (&events[k].0, &events[k].1);
        let ghost stack0 = stack@;
        proof {
            assert(event_ok(evs[k as int], blen(sub@) as int));
            assert(evs.skip(k as int)[0] == e);
            assert(evs.skip(k as int).drop_first() =~= evs.skip(k + 1));
        }
        match piece {
            Piece::Bold => {
                stack.push(style);
                style.insert(SpanStyle::bold());
            },
            Piece::Italic => {
                stack.push(style);
                style.insert(SpanStyle::italic());
            },
            Piece::Struck => {
                stack.push(style);
                style.insert(SpanStyle::strike());
            },
            Piece::Address(url) => {
                stack.push(style);
                style.insert(SpanStyle::link());
                link = Some((byte_len(&out.text), url.clone()));
            },
            Piece::Picture(url) => {
                stack.push(style);
                link = Some((byte_len(&out.text), url.clone()));
            },
            Piece::EndBold | Piece::EndItalic | Piece::EndStruck => {
                style = match stack.pop() {
                    Some(s) => s,
                    None => SpanStyle::none(),
                };
            },
            Piece::EndAddress | Piece::EndPicture => {
                match link {
                    Some((start, url)) => {
                        let end: usize = byte_len(&out.text);
                        if start < end {
                            let ghost before = out.links@;
                            out.links.push((start..end, url));
                            proof {
                                assert(marks_model(out.links@) =~= marks_model(before).push(
                                    mark_model(out.links@.last()),
                                ));
                            }
                        }
                    },
                    None => {},
                }
                link = None;
                style = match stack.pop() {
                    Some(s) => s,
                    None => SpanStyle::none(),
                };
            },
            Piece::Words(t) | Piece::Tag(t) | Piece::Markup(t) => {
                let tc: Vec<char> = chars_of(t);
                push_text(out, tc.as_slice(), style, base + range.start..base + range.end);
            },
            Piece::Verbatim(t) => {
                let tc: Vec<char> = chars_of(t);
                proof {
                    lemma_code_start(sub@, e.lo, e.hi, t@);
                }
                let at: usize = base + find_code(cs.as_slice(), range, tc.as_slice());
                let mut code: SpanStyle = style;
                code.insert(SpanStyle::code());
                push_text(out, tc.as_slice(), code, at..at + chars_len(tc.as_slice()));
            },
            Piece::Soft | Piece::Hard => {
                let mut nl: Vec<char> = Vec::new();
                nl.push('\n');
                proof {
                    assert(nl@ =~= seq!['\n']);
                }
                push_text(out, nl.as_slice(), style, base + range.start..base + range.end);
            },
            Piece::Other => {},
        }
        proof {
            let w1 = WalkModel {
                out: out@,
                style: style@,
                stack: styles_model(stack@),
                link: link_model(link),
            };
            let want = event_step(w, sub@, base as int, e);
            if stack@.len() > stack0.len() {
                assert(w1.stack =~= w.stack.push(w.style));
            } else if stack@.len() < stack0.len() {
                assert(w1.stack =~= w.stack.drop_last());
            }
            assert(w1.stack =~= want.stack);
            assert(w1 == want);
            assert forall|n: int|
                #![trigger inline_ok(out@, n)]
                base + blen(sub@) <= n && inline_ok(old(out)@, n) implies inline_ok(out@, n) by {
                assert(inline_ok(w.out, n));
                lemma_event_step_ok(w, sub@, base as int, e, n);
            }
            lemma_link_stays(w, sub@, base as int, e);
        }
        k = k + 1;
    }
    proof {
        assert(evs.skip(k as int) =~= Seq::<EventModel>::empty());
    }
}

/// An open link starts inside the text shown so far.
proof fn lemma_link_stays(w: WalkModel, sub: Seq<char>, base: int, e: EventModel)
    requires
        w.link matches Some((start, _)) ==> 0 <= start <= blen(w.out.text),
    ensures
        event_step(w, sub, base, e).link matches Some((start, _)) ==> 0 <= start <= blen(
            event_step(w, sub, base, e).out.text,
        ),
{
    match e.piece {
        PieceModel::Words(t) | PieceModel::Tag(t) | PieceModel::Markup(t) => {
            lemma_blen_concat(w.out.text, t);
        },
        PieceModel::Verbatim(t) => {
            lemma_blen_concat(w.out.text, t);
        },
        PieceModel::Soft | PieceModel::Hard => {
            lemma_blen_concat(w.out.text, seq!['\n']);
        },
        _ => {},
    }
}

// ---------- the whole text ----------

/// `m` with what the part `g` of the source `s` shows behind it.
pub open spec fn seg_step(m: InlineModel, s: Seq<char>, g: SegModel) -> InlineModel {
    match g {
        SegModel::Plain { i, j } => {
            let sub = s.subrange(i, j);
            if has_marker(sub) {
                with_events(m, sub, off(s, i) as int, markdown_events(sub))
            } else {
                with_span(m, sub, 0, off(s, i) as int, off(s, j) as int)
            }
        },
        SegModel::Wiki { i, j, target, shown } => {
            let a = blen(m.text) as int;
            let w = with_span(m, shown, 32, off(s, i) as int, off(s, j) as int);
            InlineModel {
                wikilinks: w.wikilinks.push(
                    MarkModel { lo: a, hi: a + blen(shown) as int, name: target },
                ),
                ..w
            }
        },
        SegModel::Tag { i, j } => {
            let a = blen(m.text) as int;
            let shown = s.subrange(i, j);
            let w = with_span(m, shown, 64, off(s, i) as int, off(s, j) as int);
            InlineModel {
                tags: w.tags.push(
                    MarkModel { lo: a, hi: a + blen(shown) as int, name: s.subrange(i + 1, j) },
                ),
                ..w
            }
        },
    }
}

pub open spec fn segs_fold(m: InlineModel, s: Seq<char>, v: Seq<SegModel>) -> InlineModel
    decreases v.len(),
{
    if v.len() == 0 {
        m
    } else {
        segs_fold(seg_step(m, s, v[0]), s, v.drop_first())
    }
}

/// What the inline Markdown text `s` shows.
pub open spec fn inline_of(s: Seq<char>) -> InlineModel {
    if has_marker(s) {
        segs_fold(empty_model(), s, segs_from(s, 0, 0))
    } else {
        plain_model(s)
    }
}

/// The parts that are left lie in the text, and a link shows something.
spec fn segs_ok(v: Seq<SegModel>, s: Seq<char>) -> bool {
    forall|k: int|
        0 <= k < v.len() ==> {
            &&& 0 <= seg_lo(#[trigger] v[k]) < seg_hi(v[k]) <= s.len()
            &&& v[k] matches SegModel::Wiki { shown, .. } ==> shown.len() > 0
        }
}

proof fn lemma_segs_ok(s: Seq<char>, i: int, c: int)
    requires
        0 <= c <= i <= s.len(),
    ensures
        segs_ok(segs_from(s, i, c), s),
    decreases s.len() - i,
{
    lemma_word_end(s, i + 1);
    lemma_find_from(s, seq![']', ']'], i + 2);
    if i < s.len() {
        match wiki_at(s, i) {
            Some((j, _, _)) => lemma_segs_ok(s, j, j),
            None => match tag_at(s, i) {
                Some(j) => lemma_segs_ok(s, j, j),
                None => lemma_segs_ok(s, i + 1, c),
            },
        }
    }
}

proof fn lemma_plain_ok(s: Seq<char>)
    ensures
        inline_ok(plain_model(s), blen(s) as int),
{
    lemma_blen_bounds(s);
}

/// Parses a text of inline Markdown.
pub fn parse_inline(src: &str) -> (r: InlineText)
    ensures
        r@ == inline_of(src@),
        inline_ok(r@, blen(src@) as int),
{
    let cs: Vec<char> = chars_of(src);
    let all = cs.as_slice();
    if !has_inline_marker(all) {
        proof {
            lemma_plain_ok(src@);
        }
        return InlineText::plain(src);
    }
    let segs: Vec<Seg> = tokenize(all);
    let mut out: InlineText = InlineText::default();
    let ghost gm = segs_model(segs@);
    let ghost n = blen(src@) as int;
    let mut k: usize = 0;
    proof {
        lemma_segs_ok(src@, 0, 0);
        assert(gm.skip(0) =~= gm);
    }
    while k < segs.len()
        invariant
            0 <= k <= segs@.len(),
            cs@ == src@,
            all@ == src@,
            gm == segs_model(segs@),
            segs_ok(gm, src@),
            n == blen(src@),
            n <= usize::MAX,
            inline_ok(out@, n),
            segs_fold(empty_model(), src@, gm) == segs_fold(out@, src@, gm.skip(k as int)),
        decreases segs@.len() - k,
    {
        let ghost m = out@;
        let ghost g = gm[k as int];
        proof {
            assert(gm.skip(k as int)[0] == g);
            assert(gm.skip(k as int).drop_first() =~= gm.skip(k + 1));
            assert(seg_lo(gm[k as int]) < seg_hi(gm[k as int]));
            lemma_off_mono(src@, seg_lo(g), seg_hi(g));
        }
        match &segs[k] {
            Seg::Plain(i, j) => {
                let lo: usize = crate::text::offset_of(all, *i);
                let hi: usize = crate::text::offset_of(all, *j);
                let part = slice_subrange(all, *i, *j);
                if has_inline_marker(part) {
                    let sub = cut(src, lo, hi, Ghost(*i as int), Ghost(*j as int));
                    let events = markdown(sub);
                    add_events(&mut out, sub, lo, &events);
                    proof {
                        assert(inline_ok(out@, n));
                    }
                } else {
                    push_span(&mut out, part, SpanStyle::none(), lo..hi);
                    proof {
                        lemma_with_span_ok(m, part@, 0, lo as int, hi as int, n);
                    }
                }
            },
            Seg::Wiki(i, j, target, shown) => {
                let lo: usize = crate::text::offset_of(all, *i);
                let hi: usize = crate::text::offset_of(all, *j);
                let start: usize = byte_len(&out.text);
                let sc: Vec<char> = chars_of(shown);
                push_span(&mut out, sc.as_slice(), SpanStyle::wikilink(), lo..hi);
                let end: usize = byte_len(&out.text);
                let ghost before = out.wikilinks@;
                out.wikilinks.push((start..end, target.clone()));
                proof {
                    lemma_with_span_ok(m, shown@, 32, lo as int, hi as int, n);
                    assert(marks_model(out.wikilinks@) =~= marks_model(before).push(
                        mark_model(out.wikilinks@.last()),
                    ));
                    assert(out@ == seg_step(m, src@, g));
                }
            },
            Seg::Tag(i, j) => {
                let lo: usize = crate::text::offset_of(all, *i);
                let hi: usize = crate::text::offset_of(all, *j);
                let start: usize = byte_len(&out.text);
                let shown = slice_subrange(all, *i, *j);
                push_span(&mut out, shown, SpanStyle::tag(), lo..hi);
                let end: usize = byte_len(&out.text);
                let ghost before = out.tags@;
                out.tags.push((start..end, string_of(slice_subrange(all, *i + 1, *j))));
                proof {
                    lemma_with_span_ok(m, shown@, 64, lo as int, hi as int, n);
                    assert(marks_model(out.tags@) =~= marks_model(before).push(
                        mark_model(out.tags@.last()),
                    ));
                    assert(out@ == seg_step(m, src@, g));
                }
            },
        }
        proof {
            assert(out@ == seg_step(m, src@, g));
        }
        k = k + 1;
    }
    proof {
        assert(gm.skip(k as int) =~= Seq::<SegModel>::empty());
    }
    out
}

// ---------- laws of the mapping ----------

/// A position in the shown text never maps behind the end of the source.
pub proof fn source_offset_stays_in_the_source(m: InlineModel, n: int, r: int, k: int)
    requires
        inline_ok(m, n),
        0 <= r,
        0 <= k,
        0 <= n,
    ensures
        0 <= source_at(m.spans, r, k) <= n,
    decreases m.spans.len() - k,
{
    if k < m.spans.len() {
        assert(span_ok(m.spans, k, n));
        source_offset_stays_in_the_source(m, n, r, k + 1);
    } else if m.spans.len() > 0 {
        assert(span_ok(m.spans, m.spans.len() - 1, n));
    }
}

/// A position in the source never maps behind the end of the shown text.
pub proof fn rendered_offset_stays_in_the_text(m: InlineModel, n: int, b: int, k: int)
    requires
        inline_ok(m, n),
        0 <= b,
        0 <= k,
    ensures
        0 <= rendered_at(m, b, k) <= blen(m.text),
    decreases m.spans.len() - k,
{
    if k < m.spans.len() {
        lemma_spans_below(m, n, k);
        rendered_offset_stays_in_the_text(m, n, b, k + 1);
    }
}

proof fn lemma_spans_below(m: InlineModel, n: int, k: int)
    requires
        inline_ok(m, n),
        0 <= k < m.spans.len(),
    ensures
        0 <= m.spans[k].lo < m.spans[k].hi <= blen(m.text),
    decreases m.spans.len() - k,
{
    assert(span_ok(m.spans, k, n));
    lemma_span_nonneg(m, n, k);
    if k + 1 < m.spans.len() {
        lemma_spans_below(m, n, k + 1);
        assert(span_ok(m.spans, k + 1, n));
    }
}

proof fn lemma_span_nonneg(m: InlineModel, n: int, k: int)
    requires
        inline_ok(m, n),
        0 <= k < m.spans.len(),
    ensures
        0 <= m.spans[k].lo,
    decreases k,
{
    if k > 0 {
        lemma_span_nonneg(m, n, k - 1);
        assert(span_ok(m.spans, k - 1, n));
    }
    assert(span_ok(m.spans, k, n));
}

/// In text without markers every position is its own source position, and back.
pub proof fn plain_text_maps_to_itself(s: Seq<char>, r: int)
    requires
        !has_marker(s),
        0 <= r <= blen(s),
    ensures
        source_at(inline_of(s).spans, r, 0) == r,
        rendered_at(inline_of(s), r, 0) == r,
{
    lemma_blen_bounds(s);
}

/// No span shows more bytes than its source has, and the spans keep the source's order.
pub open spec fn faithful(spans: Seq<SpanModel>) -> bool {
    &&& forall|k: int|
        0 <= k < spans.len() ==> (#[trigger] spans[k]).hi - spans[k].lo <= spans[k].src_hi
            - spans[k].src_lo
    &&& forall|j: int, k: int|
        0 <= j < k < spans.len() ==> (#[trigger] spans[j]).src_hi <= (#[trigger] spans[k]).src_lo
}

/// Where no span shows more than its source has, going from a shown position to the source
/// and back leads to the same position.
pub proof fn offsets_round_trip(m: InlineModel, n: int, r: int)
    requires
        inline_ok(m, n),
        faithful(m.spans),
        0 <= r <= blen(m.text),
    ensures
        rendered_at(m, source_at(m.spans, r, 0), 0) == r,
{
    if m.spans.len() == 0 {
        lemma_blen_bounds(m.text);
    } else {
        assert(span_ok(m.spans, 0, n));
        lemma_round_trip_from(m, n, r, 0);
    }
}

proof fn lemma_round_trip_from(m: InlineModel, n: int, r: int, k: int)
    requires
        inline_ok(m, n),
        faithful(m.spans),
        0 <= k < m.spans.len(),
        m.spans[k].lo <= r <= blen(m.text),
        k > 0 ==> m.spans[k].lo < r,
    ensures
        rendered_at(m, source_at(m.spans, r, k), 0) == r,
    decreases m.spans.len() - k,
{
    assert(span_ok(m.spans, k, n));
    let sp = m.spans[k];
    if r <= sp.hi {
        let b = source_at(m.spans, r, k);
        assert(b == sp.src_lo + (r - sp.lo));
        lemma_rendered_skips(m, n, b, 0, k);
    } else {
        assert(k + 1 < m.spans.len());
        assert(span_ok(m.spans, k + 1, n));
        lemma_round_trip_from(m, n, r, k + 1);
    }
}

/// Spans that end before a source position are passed over.
proof fn lemma_rendered_skips(m: InlineModel, n: int, b: int, j: int, k: int)
    requires
        inline_ok(m, n),
        faithful(m.spans),
        0 <= j <= k < m.spans.len(),
        m.spans[k].src_lo <= b <= m.spans[k].src_hi,
        b - m.spans[k].src_lo <= m.spans[k].hi - m.spans[k].lo,
        k > 0 ==> m.spans[k].src_lo < b,
    ensures
        rendered_at(m, b, j) == m.spans[k].lo + (b - m.spans[k].src_lo),
    decreases k - j,
{
    assert(span_ok(m.spans, j, n));
    assert(span_ok(m.spans, k, n));
    if j < k {
        assert(m.spans[j].src_hi <= m.spans[k].src_lo);
        lemma_rendered_skips(m, n, b, j + 1, k);
    }
}

} // verus!
