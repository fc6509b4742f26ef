//! How blocks and their text look: sizes, indents, and runs of styled text.
//!
//! Lengths are whole pixels. Which colour a tint is depends on the theme, which is the
//! caller's.
use crate::block::{
    count_digits, digit_run, is_fence, lemma_digit_run, opt_text, BlockKind, KindModel, ListMarker,
};
use crate::inline::{inline_ok, span_ok, InlineText, SpanModel, SpanStyle};
use crate::text::{
    blen, byte_len, chars_len, chars_of, count_run, digits_of, lemma_blen_bounds, lemma_run_of,
    number_chars, run_of, starts_with, string_of,
};
use vstd::prelude::*;
use vstd::slice::slice_subrange;

verus! {

/// The typeface of text.
#[derive(Clone, Copy, Debug, PartialEq, Eq, Structural)]
pub enum Face {
    Body,
    Mono,
}

/// A colour, by what it is for.
#[derive(Clone, Copy, Debug, PartialEq, Eq, Structural)]
pub enum Tint {
    Text,
    Heading,
    Muted,
    Accent,
    CodeBack,
    Code,
    CodeBlockBack,
    QuoteBar,
    Quote,
    Syntax,
    Wikilink,
    Tag,
    TagBack,
    Warn,
    Hover,
    Active,
}

/// How the text of a block is drawn where nothing else is said.
#[derive(Clone, Copy, Debug, PartialEq, Eq, Structural)]
pub struct Ink {
    pub font: Face,
    pub bold: bool,
    pub color: Tint,
}

/// Sizes.
pub struct Metrics {}

/// The size of body text.
pub const BODY: u32 = 15;

/// The height of a line of body text, in hundredths of its size.
pub const LINE_HEIGHT: u32 = 175;

/// The space between blocks.
pub const BLOCK_GAP: u32 = 8;

/// So many hundredths, in whole pixels.
pub open spec fn rounded(hundredths: int) -> int {
    (hundredths + 50) / 100
}

/// How large headings are, in hundredths of the size of body text.
pub open spec fn scale_of(level: u8) -> u32 {
    if level == 1 {
        185
    } else if level == 2 {
        150
    } else if level == 3 {
        128
    } else if level == 4 {
        112
    } else if level == 5 {
        102
    } else {
        96
    }
}

impl Metrics {
    /// How large headings are, in hundredths of the size of body text.
    pub fn heading_scale(level: u8) -> (r: u32)
        ensures
            r == scale_of(level),
    {
        match level {
            1 => 185,
            2 => 150,
            3 => 128,
            4 => 112,
            5 => 102,
            _ => 96,
        }
    }
}

/// How a block looks.
#[derive(Clone, Debug, PartialEq, Eq)]
pub struct BlockStyle {
    pub font_size: u32,
    pub line_height: u32,
    pub ink: Ink,
    /// How far the text stands from the left.
    pub indent: u32,
    /// What the block is drawn on.
    pub bg: Option<Tint>,
    /// The bar at the left of the block.
    pub bar: Option<Tint>,
    pub gap_above: u32,
    pub gap_below: u32,
    /// What is drawn before the text of a list item.
    pub prefix: Option<String>,
    /// Whether a line is drawn across.
    pub is_rule: bool,
}

pub struct BlockStyleModel {
    pub font_size: int,
    pub line_height: int,
    pub ink: Ink,
    pub indent: int,
    pub bg: Option<Tint>,
    pub bar: Option<Tint>,
    pub gap_above: int,
    pub gap_below: int,
    pub prefix: Option<Seq<char>>,
    pub is_rule: bool,
}

impl View for BlockStyle {
    type V = BlockStyleModel;

    open spec fn view(&self) -> BlockStyleModel {
        BlockStyleModel {
            font_size: self.font_size as int,
            line_height: self.line_height as int,
            ink: self.ink,
            indent: self.indent as int,
            bg: self.bg,
            bar: self.bar,
            gap_above: self.gap_above as int,
            gap_below: self.gap_below as int,
            prefix: opt_text(self.prefix),
            is_rule: self.is_rule,
        }
    }
}

/// How body text looks.
pub open spec fn base_style() -> BlockStyleModel {
    BlockStyleModel {
        font_size: BODY as int,
        line_height: rounded(BODY * LINE_HEIGHT),
        ink: Ink { font: Face::Body, bold: false, color: Tint::Text },
        indent: 0,
        bg: None,
        bar: None,
        gap_above: 0,
        gap_below: BLOCK_GAP as int,
        prefix: None,
        is_rule: false,
    }
}

/// What is drawn before a list item.
pub open spec fn prefix_of(marker: ListMarker, task: Option<bool>) -> Seq<char> {
    match task {
        Some(done) => if done {
            "☑"@
        } else {
            "☐"@
        },
        None => match marker {
            ListMarker::Bullet => "•"@,
            ListMarker::Ordered(n) => digits_of(n as nat).push('.'),
        },
    }
}

/// How a block of a kind looks. In the block that holds the cursor the source is shown,
/// and so no mark is drawn before a list item; nothing else is different there.
pub open spec fn style_of(kind: KindModel, active: bool) -> BlockStyleModel {
    let s = base_style();
    let small = BODY - 1;
    match kind {
        KindModel::Blank => BlockStyleModel { gap_below: 0, ..s },
        KindModel::Heading { level } => {
            let size = rounded(BODY * scale_of(level));
            BlockStyleModel {
                font_size: size,
                line_height: rounded(size * 145),
                ink: Ink { font: Face::Body, bold: true, color: Tint::Heading },
                gap_above: if level <= 2 {
                    18
                } else {
                    12
                },
                gap_below: 6,
                ..s
            }
        },
        KindModel::Paragraph => s,
        KindModel::Quote { depth } => BlockStyleModel {
            indent: 16 * if depth == 0 {
                1
            } else {
                depth as int
            },
            bar: Some(Tint::QuoteBar),
            ink: Ink { color: Tint::Quote, ..s.ink },
            ..s
        },
        KindModel::List { marker, indent, task } => BlockStyleModel {
            indent: 22 + 20 * indent,
            gap_below: 2,
            prefix: if active {
                None
            } else {
                Some(prefix_of(marker, task))
            },
            ..s
        },
        KindModel::CodeFence { .. } => BlockStyleModel {
            font_size: small,
            line_height: rounded(small * 160),
            ink: Ink { font: Face::Mono, ..s.ink },
            bg: Some(Tint::CodeBlockBack),
            indent: 12,
            gap_above: 10,
            gap_below: 10,
            ..s
        },
        KindModel::Rule => BlockStyleModel { is_rule: true, gap_above: 12, gap_below: 12, ..s },
        KindModel::Table => BlockStyleModel {
            font_size: small,
            line_height: rounded(small * 170),
            ink: Ink { font: Face::Mono, ..s.ink },
            ..s
        },
        KindModel::Image { .. } => BlockStyleModel { gap_above: 8, gap_below: 12, ..s },
    }
}

fn round(hundredths: u32) -> (r: u32)
    requires
        hundredths <= 1_000_000,
    ensures
        r == rounded(hundredths as int),
{
    (hundredths + 50) / 100
}

fn prefix_text(marker: ListMarker, task: Option<bool>) -> (r: String)
    ensures
        r@ == prefix_of(marker, task),
{
    match task {
        Some(done) => if done {
            "☑".to_owned()
        } else {
            "☐".to_owned()
        },
        None => match marker {
            ListMarker::Bullet => "•".to_owned(),
            ListMarker::Ordered(n) => {
                let mut v: Vec<char> = number_chars(n);
                v.push('.');
                string_of(v.as_slice())
            },
        },
    }
}

impl BlockStyle {
    /// How body text looks.
    pub fn base() -> (r: BlockStyle)
        ensures
            r@ == base_style(),
    {
        BlockStyle {
            font_size: BODY,
            line_height: round(BODY * LINE_HEIGHT),
            ink: Ink { font: Face::Body, bold: false, color: Tint::Text },
            indent: 0,
            bg: None,
            bar: None,
            gap_above: 0,
            gap_below: BLOCK_GAP,
            prefix: None,
            is_rule: false,
        }
    }
}

/// How a block looks; `active` says whether it holds the cursor.
pub fn block_style(kind: &BlockKind, active: bool) -> (r: BlockStyle)
    ensures
        r@ == style_of(kind@, active),
{
    let mut s = BlockStyle::base();
    match kind {
        BlockKind::Blank => {
            s.gap_below = 0;
        },
        BlockKind::Heading { level } => {
            s.font_size = round(BODY * Metrics::heading_scale(*level));
            s.line_height = round(s.font_size * 145);
            s.ink = Ink { font: Face::Body, bold: true, color: Tint::Heading };
            s.gap_above = if *level <= 2 {
                18
            } else {
                12
            };
            s.gap_below = 6;
        },
        BlockKind::Paragraph => {},
        BlockKind::Quote { depth } => {
            s.indent = 16 * if *depth == 0 {
                1
            } else {
                *depth as u32
            };
            s.bar = Some(Tint::QuoteBar);
            s.ink.color = Tint::Quote;
        },
        BlockKind::List { marker, indent, task } => {
            s.indent = 22 + 20 * (*indent as u32);
            s.gap_below = 2;
            if !active {
                s.prefix = Some(prefix_text(*marker, *task));
            }
        },
        BlockKind::CodeFence { .. } => {
            s.ink.font = Face::Mono;
            s.font_size = BODY - 1;
            s.line_height = round(s.font_size * 160);
            s.bg = Some(Tint::CodeBlockBack);
            s.indent = 12;
            s.gap_above = 10;
            s.gap_below = 10;
        },
        BlockKind::Rule => {
            s.is_rule = true;
            s.gap_above = 12;
            s.gap_below = 12;
        },
        BlockKind::Table => {
            s.ink.font = Face::Mono;
            s.font_size = BODY - 1;
            s.line_height = round(s.font_size * 170);
        },
        BlockKind::Image { .. } => {
            s.gap_above = 8;
            s.gap_below = 12;
        },
    }
    s
}

/// Where the cursor goes in or out of a block, only the mark before its text comes or
/// goes: its place and size stay as they are.
pub proof fn cursor_moves_no_block(kind: KindModel)
    ensures
        style_of(kind, true) == (BlockStyleModel { prefix: None, ..style_of(kind, false) }),
{
}

// ---------- runs of text ----------

/// So many bytes of text that look alike.
#[derive(Clone, Copy, Debug, PartialEq, Eq, Structural)]
pub struct TextRun {
    pub len: usize,
    pub ink: Ink,
    pub italic: bool,
    pub background: Option<Tint>,
    pub underline: Option<Tint>,
    pub strike: bool,
}

/// How text of a style looks in a block: code has a face of its own; links to notes and
/// tags go before other colours.
pub open spec fn run_for(len: int, style: u8, base: Ink) -> TextRun {
    let code = style & 4 == 4;
    let link = style & 16 == 16;
    let wiki = style & 32 == 32;
    let tag = style & 64 == 64;
    TextRun {
        len: len as usize,
        ink: Ink {
            font: if code {
                Face::Mono
            } else {
                base.font
            },
            bold: style & 1 == 1 || (base.bold && !code),
            color: if tag {
                Tint::Tag
            } else if wiki {
                Tint::Wikilink
            } else if link {
                Tint::Accent
            } else if code {
                Tint::Code
            } else {
                base.color
            },
        },
        italic: style & 2 == 2,
        background: if tag {
            Some(Tint::TagBack)
        } else if code {
            Some(Tint::CodeBack)
        } else {
            None
        },
        underline: if link {
            Some(Tint::Accent)
        } else if wiki {
            Some(Tint::Wikilink)
        } else {
            None
        },
        strike: style & 8 == 8,
    }
}

/// So many bytes of text of a style, in a block that is drawn like `base`.
pub fn styled_run(len: usize, style: SpanStyle, base: Ink) -> (r: TextRun)
    ensures
        r == run_for(len as int, style@, base),
{
    let mut ink = base;
    let mut background: Option<Tint> = None;
    if style.contains(SpanStyle::code()) {
        ink = Ink { font: Face::Mono, bold: false, color: Tint::Code };
        background = Some(Tint::CodeBack);
    }
    if style.contains(SpanStyle::bold()) {
        ink.bold = true;
    }
    let italic: bool = style.contains(SpanStyle::italic());
    if style.contains(SpanStyle::link()) {
        ink.color = Tint::Accent;
    }
    if style.contains(SpanStyle::wikilink()) {
        ink.color = Tint::Wikilink;
    }
    if style.contains(SpanStyle::tag()) {
        ink.color = Tint::Tag;
        background = Some(Tint::TagBack);
    }
    let underline: Option<Tint> = if style.contains(SpanStyle::link()) {
        Some(Tint::Accent)
    } else if style.contains(SpanStyle::wikilink()) {
        Some(Tint::Wikilink)
    } else {
        None
    };
    TextRun { len, ink, italic, background, underline, strike: style.contains(SpanStyle::strike()) }
}

/// A run, if it is not empty.
pub open spec fn maybe_run(len: int, style: u8, base: Ink) -> Seq<TextRun> {
    if len <= 0 {
        Seq::empty()
    } else {
        seq![run_for(len, style, base)]
    }
}

/// The runs for bytes `at` to `hi`, from span `k` on: each span as far as it lies
/// between `lo` and `hi`, and plain text where there is none.
pub open spec fn runs_from(
    spans: Seq<SpanModel>,
    k: int,
    lo: int,
    hi: int,
    at: int,
    base: Ink,
) -> Seq<TextRun>
    decreases spans.len() - k,
{
    if k < 0 || k >= spans.len() || (spans[k].lo >= hi && spans[k].hi > lo) {
        maybe_run(hi - at, 0, base)
    } else if spans[k].hi <= lo {
        runs_from(spans, k + 1, lo, hi, at, base)
    } else {
        let s = if spans[k].lo > lo {
            spans[k].lo
        } else {
            lo
        };
        let e = if spans[k].hi < hi {
            spans[k].hi
        } else {
            hi
        };
        maybe_run(s - at, 0, base) + maybe_run(e - s, spans[k].style, base) + runs_from(
            spans,
            k + 1,
            lo,
            hi,
            e,
            base,
        )
    }
}

fn push_run(runs: &mut Vec<TextRun>, len: usize, style: SpanStyle, base: Ink)
    ensures
        final(runs)@ == old(runs)@ + maybe_run(len as int, style@, base),
{
    let ghost before = runs@;
    if len > 0 {
        runs.push(styled_run(len, style, base));
    }
    proof {
        assert(runs@ =~= before + maybe_run(len as int, style@, base));
    }
}

/// The runs for bytes `lo` to `hi` of a shown text.
pub fn inline_runs(inline: &InlineText, lo: usize, hi: usize, base: Ink) -> (r: Vec<TextRun>)
    requires
        lo <= hi,
        forall|k: int|
            0 <= k < inline@.spans.len() ==> (#[trigger] inline@.spans[k]).lo
                <= inline@.spans[k].hi,
    ensures
        r@ == runs_from(inline@.spans, 0, lo as int, hi as int, lo as int, base),
{
    let ghost spans = inline@.spans;
    let ghost goal = runs_from(spans, 0, lo as int, hi as int, lo as int, base);
    let mut runs: Vec<TextRun> = Vec::new();
    let mut at: usize = lo;
    let mut k: usize = 0;
    let mut more: bool = true;
    proof {
        assert(goal =~= runs@ + goal);
    }
    while more && k < inline.spans.len()
        invariant
            spans == inline@.spans,
            spans.len() == inline.spans@.len(),
            lo <= at <= hi,
            lo <= hi,
            0 <= k <= spans.len(),
            forall|k: int| 0 <= k < spans.len() ==> (#[trigger] spans[k]).lo <= spans[k].hi,
            goal == runs@ + if more {
                runs_from(spans, k as int, lo as int, hi as int, at as int, base)
            } else {
                maybe_run(hi - at, 0, base)
            },
        decreases spans.len() - k + if more {
            1int
        } else {
            0
        },
    {
        let (a, b, style) = (
            inline.spans[k].range.start,
            inline.spans[k].range.end,
            inline.spans[k].style,
        );
        let ghost sp = spans[k as int];
        proof {
            assert(sp == inline.spans@[k as int]@);
            assert(sp.lo <= sp.hi);
        }
        if b <= lo {
            k = k + 1;
        } else if a >= hi {
            more = false;
        } else {
            let s: usize = if a > lo {
                a
            } else {
                lo
            };
            let e: usize = if b < hi {
                b
            } else {
                hi
            };
            let ghost before = runs@;
            let ghost gap = maybe_run(s - at, 0, base);
            let ghost own = maybe_run(e - s, style@, base);
            let ghost rest = runs_from(spans, k + 1, lo as int, hi as int, e as int, base);
            if s > at {
                push_run(&mut runs, s - at, SpanStyle::none(), base);
            }
            proof {
                assert(runs@ =~= before + gap);
            }
            push_run(&mut runs, e - s, style, base);
            proof {
                assert(before + (gap + own + rest) =~= runs@ + rest);
            }
            at = e;
            k = k + 1;
        }
    }
    push_run(&mut runs, hi - at, SpanStyle::none(), base);
    runs
}

/// The bytes of all runs together.
pub open spec fn runs_len(runs: Seq<TextRun>) -> int
    decreases runs.len(),
{
    if runs.len() == 0 {
        0
    } else {
        runs_len(runs.drop_last()) + runs.last().len
    }
}

proof fn lemma_runs_len(a: Seq<TextRun>, b: Seq<TextRun>)
    ensures
        runs_len(a + b) == runs_len(a) + runs_len(b),
    decreases b.len(),
{
    if b.len() == 0 {
        assert(a + b =~= a);
    } else {
        assert((a + b).drop_last() =~= a + b.drop_last());
        lemma_runs_len(a, b.drop_last());
    }
}

proof fn lemma_maybe_run_len(len: int, style: u8, base: Ink)
    requires
        0 <= len <= usize::MAX,
    ensures
        runs_len(maybe_run(len, style, base)) == len,
{
    let v = maybe_run(len, style, base);
    if len > 0 {
        assert(v.drop_last() =~= Seq::empty());
        assert(runs_len(v.drop_last()) == 0);
    }
}

proof fn lemma_runs_cover(
    spans: Seq<SpanModel>,
    n: int,
    k: int,
    lo: int,
    hi: int,
    at: int,
    base: Ink,
)
    requires
        forall|j: int| 0 <= j < spans.len() ==> #[trigger] span_ok(spans, j, n),
        0 <= k,
        0 <= lo <= at <= hi <= usize::MAX,
        at == lo || (0 < k <= spans.len() && at <= spans[k - 1].hi),
    ensures
        runs_len(runs_from(spans, k, lo, hi, at, base)) == hi - at,
    decreases spans.len() - k,
{
    if k >= spans.len() || (spans[k].lo >= hi && spans[k].hi > lo) {
        lemma_maybe_run_len(hi - at, 0, base);
    } else if spans[k].hi <= lo {
        assert(span_ok(spans, k, n));
        lemma_runs_cover(spans, n, k + 1, lo, hi, at, base);
    } else {
        assert(span_ok(spans, k, n));
        let s = if spans[k].lo > lo {
            spans[k].lo
        } else {
            lo
        };
        let e = if spans[k].hi < hi {
            spans[k].hi
        } else {
            hi
        };
        let gap = maybe_run(s - at, 0, base);
        let own = maybe_run(e - s, spans[k].style, base);
        let rest = runs_from(spans, k + 1, lo, hi, e, base);
        lemma_maybe_run_len(s - at, 0, base);
        lemma_maybe_run_len(e - s, spans[k].style, base);
        lemma_runs_cover(spans, n, k + 1, lo, hi, e, base);
        lemma_runs_len(gap, own);
        lemma_runs_len(gap + own, rest);
    }
}

/// The runs for a range of a parsed text are as long as the range.
pub proof fn runs_cover_the_range(inline: InlineText, n: int, lo: int, hi: int, base: Ink)
    requires
        inline_ok(inline@, n),
        0 <= lo <= hi <= usize::MAX,
    ensures
        runs_len(runs_from(inline@.spans, 0, lo, hi, lo, base)) == hi - lo,
{
    lemma_runs_cover(inline@.spans, n, 0, lo, hi, lo, base);
}

// ---------- the marks at the start of a line ----------

/// How many of the characters that `s` starts with are `a` or `b`.
pub open spec fn run_of_two(s: Seq<char>, a: char, b: char) -> int
    decreases s.len(),
{
    if s.len() > 0 && (s[0] == a || s[0] == b) {
        1 + run_of_two(s.drop_first(), a, b)
    } else {
        0
    }
}

proof fn lemma_run_of_two_is(s: Seq<char>, a: char, b: char, n: int)
    requires
        0 <= n <= s.len(),
        forall|k: int| 0 <= k < n ==> #[trigger] s[k] == a || s[k] == b,
        n < s.len() ==> s[n] != a && s[n] != b,
    ensures
        run_of_two(s, a, b) == n,
    decreases s.len(),
{
    if n > 0 {
        let t = s.drop_first();
        assert(s[0] == a || s[0] == b);
        assert forall|k: int| 0 <= k < n - 1 implies #[trigger] t[k] == a || t[k] == b by {
            assert(t[k] == s[k + 1]);
        }
        lemma_run_of_two_is(t, a, b, n - 1);
    }
}

fn count_two(cs: &[char], a: char, b: char) -> (r: usize)
    ensures
        r == run_of_two(cs@, a, b),
        r <= cs@.len(),
        forall|k: int| 0 <= k < r ==> #[trigger] cs@[k] == a || cs@[k] == b,
{
    let mut i: usize = 0;
    while i < cs.len() && (cs[i] == a || cs[i] == b)
        invariant
            0 <= i <= cs@.len(),
            forall|k: int| 0 <= k < i ==> #[trigger] cs@[k] == a || cs@[k] == b,
        decreases cs@.len() - i,
    {
        i = i + 1;
    }
    proof {
        lemma_run_of_two_is(cs@, a, b, i as int);
    }
    i
}

/// Whether the character at `i` is `c`.
pub open spec fn char_at(s: Seq<char>, i: int, c: char) -> bool {
    0 <= i < s.len() && s[i] == c
}

/// How long the check box is that `s` starts with, with the blank behind it.
pub open spec fn box_len(s: Seq<char>) -> int {
    if char_at(s, 0, '[') && (char_at(s, 1, ' ') || char_at(s, 1, 'x') || char_at(s, 1, 'X'))
        && char_at(s, 2, ']') {
        if char_at(s, 3, ' ') {
            4
        } else {
            3
        }
    } else {
        0
    }
}

/// How long the mark is that `t` starts with, with the blank behind it: of a heading, of
/// quotes, of a list item with its check box. `None` for a fence, of which the whole line
/// is a mark.
pub open spec fn mark_len(t: Seq<char>) -> Option<int> {
    let h = if run_of(t, '#') < 6 {
        run_of(t, '#')
    } else {
        6
    };
    let d = digit_run(t);
    if h > 0 && char_at(t, h, ' ') {
        Some(h + 1)
    } else if char_at(t, 0, '>') {
        Some(run_of_two(t, '>', ' '))
    } else if (char_at(t, 0, '-') || char_at(t, 0, '*') || char_at(t, 0, '+')) && char_at(
        t,
        1,
        ' ',
    ) {
        Some(2 + box_len(t.skip(2)))
    } else if d > 0 && (char_at(t, d, '.') || char_at(t, d, ')')) && char_at(t, d + 1, ' ') {
        Some(d + 2)
    } else if is_fence(t) {
        None
    } else {
        Some(0)
    }
}

/// How many bytes at the start of a line are marks, with the indent before them; none if
/// there is no mark.
pub open spec fn marker_len(s: Seq<char>) -> int {
    let i = run_of_two(s, ' ', '\t');
    match mark_len(s.skip(i)) {
        Some(n) => if n == 0 {
            0
        } else {
            i + n
        },
        None => blen(s) as int,
    }
}

fn is_at(cs: &[char], i: usize, c: char) -> (r: bool)
    ensures
        r == char_at(cs@, i as int, c),
{
    i < cs.len() && cs[i] == c
}

fn box_chars(cs: &[char]) -> (r: usize)
    ensures
        r == box_len(cs@),
        r <= cs@.len(),
{
    if is_at(cs, 0, '[') && (is_at(cs, 1, ' ') || is_at(cs, 1, 'x') || is_at(cs, 1, 'X')) && is_at(
        cs,
        2,
        ']',
    ) {
        if is_at(cs, 3, ' ') {
            4
        } else {
            3
        }
    } else {
        0
    }
}

fn mark_chars(t: &[char]) -> (r: Option<usize>)
    ensures
        match r {
            Some(n) => mark_len(t@) == Some(n as int) && n <= t@.len(),
            None => mark_len(t@) is None,
        },
{
    proof {
        lemma_run_of(t@, '#');
        lemma_digit_run(t@);
    }
    let run: usize = count_run(t, '#');
    let h: usize = if run < 6 {
        run
    } else {
        6
    };
    if h > 0 && is_at(t, h, ' ') {
        return Some(h + 1);
    }
    if is_at(t, 0, '>') {
        return Some(count_two(t, '>', ' '));
    }
    if (is_at(t, 0, '-') || is_at(t, 0, '*') || is_at(t, 0, '+')) && is_at(t, 1, ' ') {
        let rest = slice_subrange(t, 2, t.len());
        proof {
            assert(rest@ =~= t@.skip(2));
        }
        return Some(2 + box_chars(rest));
    }
    let d: usize = count_digits(t);
    if d > 0 && d < t.len() && (is_at(t, d, '.') || is_at(t, d, ')')) && is_at(t, d + 1, ' ') {
        return Some(d + 2);
    }
    if starts_with(t, "```") || starts_with(t, "~~~") {
        return None;
    }
    Some(0)
}

/// How many bytes at the start of a line are marks, with the indent before them.
pub fn leading_marker_len(line: &str) -> (r: usize)
    ensures
        r == marker_len(line@),
        r <= blen(line@),
{
    let cs: Vec<char> = chars_of(line);
    let i: usize = count_two(cs.as_slice(), ' ', '\t');
    let t = slice_subrange(cs.as_slice(), i, cs.len());
    proof {
        assert(t@ =~= cs@.skip(i as int));
        lemma_blen_bounds(cs@);
    }
    match mark_chars(t) {
        Some(n) => if n == 0 {
            0
        } else {
            i + n
        },
        None => chars_len(cs.as_slice()),
    }
}

/// The runs of a line that is shown as its source: its marks, and then its text.
pub open spec fn source_runs_of(line: Seq<char>, base: Ink) -> Seq<TextRun> {
    let n = marker_len(line);
    maybe_run(n, 0, Ink { color: Tint::Syntax, ..base }) + maybe_run(blen(line) - n, 0, base)
}

/// The runs of a line that is shown as its source.
pub fn source_runs(line: &str, base: Ink) -> (r: Vec<TextRun>)
    ensures
        r@ == source_runs_of(line@, base),
{
    let n: usize = leading_marker_len(line);
    let total: usize = byte_len(line);
    let mut runs: Vec<TextRun> = Vec::new();
    push_run(
        &mut runs,
        n,
        SpanStyle::none(),
        Ink { font: base.font, bold: base.bold, color: Tint::Syntax },
    );
    push_run(&mut runs, total - n, SpanStyle::none(), base);
    proof {
        assert(runs@ =~= source_runs_of(line@, base));
    }
    runs
}

proof fn lemma_run_of_two(s: Seq<char>, a: char, b: char)
    ensures
        0 <= run_of_two(s, a, b) <= s.len(),
    decreases s.len(),
{
    if s.len() > 0 {
        lemma_run_of_two(s.drop_first(), a, b);
    }
}

/// The runs of a line that is shown as its source are as long as the line.
pub proof fn source_runs_cover_the_line(line: Seq<char>, base: Ink)
    requires
        blen(line) <= usize::MAX,
    ensures
        0 <= marker_len(line) <= blen(line),
        runs_len(source_runs_of(line, base)) == blen(line),
{
    lemma_run_of_two(line, ' ', '\t');
    let t = line.skip(run_of_two(line, ' ', '\t'));
    lemma_run_of_two(t, '>', ' ');
    lemma_run_of(t, '#');
    lemma_digit_run(t);
    lemma_blen_bounds(line);
    let n = marker_len(line);
    let dim = Ink { color: Tint::Syntax, ..base };
    lemma_maybe_run_len(n, 0, dim);
    lemma_maybe_run_len(blen(line) - n, 0, base);
    lemma_runs_len(maybe_run(n, 0, dim), maybe_run(blen(line) - n, 0, base));
}

// ---------- buttons ----------

/// How much weight a button has.
#[derive(Clone, Copy, Debug, PartialEq, Eq, Structural)]
pub enum Kind {
    Plain,
    /// The main action.
    Primary,
    Quiet,
    /// Something that is switched on.
    On,
    /// Something that cannot be undone.
    Danger,
}

/// How a button looks: its text, whether that is heavy, what is behind it under the mouse,
/// and whether that is always there.
#[derive(Clone, Copy, Debug, PartialEq, Eq, Structural)]
pub struct ButtonLook {
    pub color: Tint,
    pub heavy: bool,
    pub hover: Tint,
    pub filled: bool,
}

/// How a button looks.
pub fn button_look(kind: Kind) -> (r: ButtonLook)
    ensures
        r.color == match kind {
            Kind::Primary => Tint::Accent,
            Kind::Quiet => Tint::Muted,
            Kind::On => Tint::Accent,
            Kind::Danger => Tint::Warn,
            Kind::Plain => Tint::Text,
        },
        r.heavy == (kind is Primary || kind is On),
        r.hover == if kind is On {
            Tint::Active
        } else {
            Tint::Hover
        },
        r.filled == (kind is On),
{
    match kind {
        Kind::Primary => ButtonLook {
            color: Tint::Accent,
            heavy: true,
            hover: Tint::Hover,
            filled: false,
        },
        Kind::Quiet => ButtonLook {
            color: Tint::Muted,
            heavy: false,
            hover: Tint::Hover,
            filled: false,
        },
        Kind::On => ButtonLook {
            color: Tint::Accent,
            heavy: true,
            hover: Tint::Active,
            filled: true,
        },
        Kind::Danger => ButtonLook {
            color: Tint::Warn,
            heavy: false,
            hover: Tint::Hover,
            filled: false,
        },
        Kind::Plain => ButtonLook {
            color: Tint::Text,
            heavy: false,
            hover: Tint::Hover,
            filled: false,
        },
    }
}

} // verus!
