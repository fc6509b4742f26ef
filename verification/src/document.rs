//! A document: a text buffer with its file, and the blocks of the lines in view.
//!
//! Blocks are never parsed for the whole text while it is edited. A view asks
//! for some lines; parsing starts at a line above them where a block can start
//! and ends behind them, and what was parsed is kept until the next edit.
//!
//! Positions are byte offsets.
use crate::block::{
    blocks_from, blocks_model, line_start, scan_blocks, Block, BlockModel, InputModel, LineInput,
};
use crate::paths::{file_stem, file_stem_of};
use crate::rope::{
    breaks_upto, full_line, lemma_index_in_line, lemma_line_count, lemma_line_index,
    lemma_line_index_mono, line_count, line_index, rope_line, rope_remove, rope_slice, rope_text,
};
use crate::text::{
    blen, byte_len, chars_of, find_chars, find_from, floor_index, lemma_blen_push,
    lemma_floor_index, lemma_floor_index_off, lemma_off_ends, lemma_off_mono, off, string_of, texts,
};
use ropey::Rope;
use std::ops::Range;
use vstd::prelude::*;
use vstd::slice::slice_subrange;

verus! {

// ---------- lines ----------

/// A line without its break. Only LF and CR LF are taken off.
pub open spec fn line_body(l: Seq<char>) -> Seq<char> {
    if l.len() > 0 && l.last() == '\n' {
        let t = l.drop_last();
        if t.len() > 0 && t.last() == '\r' {
            t.drop_last()
        } else {
            t
        }
    } else {
        l
    }
}

/// The bytes of a line's break.
pub open spec fn break_width(l: Seq<char>) -> u8 {
    if l.len() > 0 && l.last() == '\n' {
        if l.len() > 1 && l[l.len() - 2] == '\r' {
            2
        } else {
            1
        }
    } else {
        0
    }
}

/// Line `k` of the text without its break; nothing behind the last line.
pub open spec fn line_at(s: Seq<char>, k: int) -> Seq<char> {
    if k < line_count(s) {
        line_body(full_line(s, k))
    } else {
        Seq::empty()
    }
}

/// The bytes of the break behind line `k`.
pub open spec fn break_at(s: Seq<char>, k: int) -> u8 {
    if k < line_count(s) {
        break_width(full_line(s, k))
    } else {
        0
    }
}

pub open spec fn is_blank_char(c: char) -> bool {
    c == ' ' || c == '\t' || c == '\r' || c == '\n'
}

/// Whether line `k` is blank. So is every line behind the last.
pub open spec fn blank_at(s: Seq<char>, k: int) -> bool {
    k >= line_count(s) || forall|i: int|
        0 <= i < full_line(s, k).len() ==> is_blank_char(#[trigger] full_line(s, k)[i])
}

/// How many blanks and tabs `l` starts with.
pub open spec fn indent_run(l: Seq<char>) -> int
    decreases l.len(),
{
    if l.len() > 0 && (l[0] == ' ' || l[0] == '\t') {
        1 + indent_run(l.drop_first())
    } else {
        0
    }
}

/// Whether a line opens or closes a code block: at most three blanks, then three
/// times the same fence character.
pub open spec fn starts_fence(l: Seq<char>) -> bool {
    let n = indent_run(l);
    n <= 3 && n + 2 < l.len() && (l[n] == '`' || l[n] == '~') && l[n + 1] == l[n] && l[n + 2] == l[n]
}

pub open spec fn fence_at(s: Seq<char>, k: int) -> bool {
    k < line_count(s) && starts_fence(full_line(s, k))
}

// ---------- where parsing starts and ends ----------

/// How far up a blank line is looked for.
pub const UP_SCAN: usize = 256;

/// How far up fences are counted.
pub const FENCE_SCAN: usize = 2048;

/// How far down a blank line is looked for.
pub const DOWN_SCAN: usize = 256;

/// How many lines above and below the wanted ones are parsed with them.
pub const VIEW_PAD: usize = 256;

/// The last blank line before `l`, down to `floor`; `floor` if there is none.
pub open spec fn blank_above(s: Seq<char>, floor: int, l: int) -> int
    decreases l - floor,
{
    if l <= floor {
        floor
    } else if blank_at(s, l - 1) {
        l - 1
    } else {
        blank_above(s, floor, l - 1)
    }
}

/// How many fence lines there are from line `a` up to line `b`.
pub open spec fn fences(s: Seq<char>, a: int, b: int) -> int
    decreases b - a,
{
    if b <= a {
        0
    } else {
        fences(s, a, b - 1) + if fence_at(s, b - 1) {
            1int
        } else {
            0
        }
    }
}

/// The last fence line from line `a` up to line `b`, if there is one.
pub open spec fn last_fence(s: Seq<char>, a: int, b: int) -> Option<int>
    decreases b - a,
{
    if b <= a {
        None
    } else if fence_at(s, b - 1) {
        Some(b - 1)
    } else {
        last_fence(s, a, b - 1)
    }
}

/// `cand`, or the line that opened the code block which `cand` is inside.
pub open spec fn fence_fixed(s: Seq<char>, cand: int) -> int {
    let from = if cand > FENCE_SCAN {
        cand - FENCE_SCAN
    } else {
        0
    };
    match last_fence(s, from, cand) {
        Some(f) if fences(s, from, cand) % 2 == 1 => f,
        _ => cand,
    }
}

/// A line at or above `target` where parsing can start.
pub open spec fn parse_start(s: Seq<char>, target: int) -> int {
    if target == 0 {
        0
    } else {
        let floor = if target > UP_SCAN {
            target - UP_SCAN
        } else {
            0
        };
        fence_fixed(s, blank_above(s, floor, target))
    }
}

/// The line behind the first blank line from `l` on, up to `limit`.
pub open spec fn blank_below(s: Seq<char>, l: int, limit: int) -> int
    decreases limit - l,
{
    if l >= limit {
        limit
    } else if blank_at(s, l) {
        l + 1
    } else {
        blank_below(s, l + 1, limit)
    }
}

/// The line at or below `target` where parsing can end.
pub open spec fn parse_end(s: Seq<char>, target: int) -> int {
    let n = line_count(s);
    let limit = if target + DOWN_SCAN < n {
        target + DOWN_SCAN
    } else {
        n
    };
    blank_below(
        s,
        if target < n {
            target
        } else {
            n
        },
        limit,
    )
}

/// The wanted lines that exist.
pub open spec fn wanted(s: Seq<char>, a: int, b: int) -> (int, int) {
    let n = line_count(s);
    let lo = if a < n {
        a
    } else {
        n
    };
    let hi = if b < lo {
        lo
    } else if b > n {
        n
    } else {
        b
    };
    (lo, hi)
}

/// The lines that are parsed to show the lines from `a` to `b`.
pub open spec fn window(s: Seq<char>, a: int, b: int) -> (int, int) {
    let n = line_count(s);
    let (lo, hi) = wanted(s, a, b);
    let top = if lo > VIEW_PAD {
        lo - VIEW_PAD
    } else {
        0
    };
    let bottom = if hi + VIEW_PAD < n {
        hi + VIEW_PAD
    } else {
        n
    };
    let start = parse_start(s, top);
    let end = parse_end(s, bottom);
    (start, if end < start {
        start
    } else {
        end
    })
}

/// Whether these lines are parsed to show some lines.
pub open spec fn is_window(s: Seq<char>, w: (int, int)) -> bool {
    exists|a: int, b: int| 0 <= a && 0 <= b && w == #[trigger] window(s, a, b)
}

/// The lines from `a` to `b` as input for the block scanner.
pub open spec fn lines_input(s: Seq<char>, a: int, b: int) -> InputModel {
    InputModel {
        lines: Seq::new((b - a) as nat, |k: int| line_at(s, a + k)),
        first_line: a,
        first_byte: off(s, line_index(s, a)) as int,
        eols: Seq::new((b - a) as nat, |k: int| break_at(s, a + k)),
    }
}

/// The blocks of the lines from `a` to `b`.
pub open spec fn blocks_between(s: Seq<char>, a: int, b: int) -> Seq<BlockModel> {
    blocks_from(lines_input(s, a, b), 0)
}

/// Small enough for its lines, joined anew, to be held in memory.
pub open spec fn fits(s: Seq<char>) -> bool {
    2 * blen(s) + 2 <= isize::MAX
}

proof fn lemma_last_fence(s: Seq<char>, a: int, b: int)
    ensures
        last_fence(s, a, b) matches Some(f) ==> a <= f < b,
    decreases b - a,
{
    if a < b && !fence_at(s, b - 1) {
        lemma_last_fence(s, a, b - 1);
    }
}

proof fn lemma_blank_above(s: Seq<char>, floor: int, l: int)
    requires
        0 <= floor <= l,
    ensures
        floor <= blank_above(s, floor, l) <= l,
        floor < l ==> blank_above(s, floor, l) < l,
    decreases l - floor,
{
    if floor < l && !blank_at(s, l - 1) {
        lemma_blank_above(s, floor, l - 1);
    }
}

proof fn lemma_blank_below(s: Seq<char>, l: int, limit: int)
    requires
        l <= limit,
    ensures
        l <= blank_below(s, l, limit) <= limit,
        l < limit ==> l < blank_below(s, l, limit),
    decreases limit - l,
{
    if l < limit && !blank_at(s, l) {
        lemma_blank_below(s, l + 1, limit);
    }
}

pub proof fn lemma_parse_start(s: Seq<char>, target: int)
    requires
        0 <= target,
    ensures
        0 <= parse_start(s, target) <= target,
{
    if target > 0 {
        let floor = if target > UP_SCAN {
            target - UP_SCAN
        } else {
            0
        };
        lemma_blank_above(s, floor, target);
        let cand = blank_above(s, floor, target);
        let from = if cand > FENCE_SCAN {
            cand - FENCE_SCAN
        } else {
            0
        };
        lemma_last_fence(s, from, cand);
    }
}

pub proof fn lemma_parse_end(s: Seq<char>, target: int)
    requires
        0 <= target <= line_count(s),
    ensures
        target <= parse_end(s, target) <= line_count(s),
{
    let n = line_count(s);
    let limit = if target + DOWN_SCAN < n {
        target + DOWN_SCAN
    } else {
        n
    };
    lemma_blank_below(s, target, limit);
}

/// What is parsed covers the wanted lines.
pub proof fn window_covers_the_wanted_lines(s: Seq<char>, a: int, b: int)
    requires
        0 <= a,
        0 <= b,
    ensures
        ({
            let (lo, hi) = wanted(s, a, b);
            let (start, end) = window(s, a, b);
            0 <= start <= lo <= hi <= end <= line_count(s)
        }),
{
    lemma_line_count(s);
    let (lo, hi) = wanted(s, a, b);
    lemma_parse_start(s, if lo > VIEW_PAD {
        lo - VIEW_PAD
    } else {
        0
    });
    lemma_parse_end(s, if hi + VIEW_PAD < line_count(s) {
        hi + VIEW_PAD
    } else {
        line_count(s)
    });
}

/// A line is its body and its break.
pub proof fn lemma_line_parts(l: Seq<char>)
    ensures
        blen(line_body(l)) + break_width(l) == blen(l),
        line_body(l).len() <= l.len(),
        line_body(l) == l.take(line_body(l).len() as int),
{
    if l.len() > 0 && l.last() == '\n' {
        let t = l.drop_last();
        assert(l =~= t.push('\n'));
        lemma_blen_push(t, '\n');
        if t.len() > 0 && t.last() == '\r' {
            assert(t =~= t.drop_last().push('\r'));
            lemma_blen_push(t.drop_last(), '\r');
            assert(l[l.len() - 2] == t.last());
            assert(line_body(l) =~= l.take(line_body(l).len() as int));
        } else {
            if l.len() > 1 {
                assert(l[l.len() - 2] == t.last());
            }
            assert(line_body(l) =~= l.take(line_body(l).len() as int));
        }
    } else {
        assert(l.take(l.len() as int) =~= l);
    }
}

/// The scanner's line starts are the document's.
pub proof fn lemma_input_starts(s: Seq<char>, a: int, b: int, k: int)
    requires
        0 <= a <= b <= line_count(s),
        0 <= k <= b - a,
    ensures
        line_start(lines_input(s, a, b), k) == off(s, line_index(s, a + k)),
    decreases k,
{
    let m = lines_input(s, a, b);
    if k > 0 {
        lemma_input_starts(s, a, b, k - 1);
        let j = a + k - 1;
        lemma_line_index(s, j);
        lemma_line_index(s, j + 1);
        lemma_line_index_mono(s, j, j + 1);
        lemma_off_mono(s, line_index(s, j), line_index(s, j + 1));
        lemma_line_parts(full_line(s, j));
        assert(m.lines[k - 1] == line_at(s, j));
        assert(m.eols[k - 1] == break_at(s, j));
    }
}

/// Where a block of a document stands: it starts where its first line starts, and
/// ends where the text of its last line ends.
pub proof fn block_bytes_follow_the_lines(s: Seq<char>, a: int, b: int, i: int)
    requires
        0 <= a <= b <= line_count(s),
        0 <= i < b - a,
    ensures
        ({
            let x = crate::block::block_at(lines_input(s, a, b), i);
            &&& x.lo == off(s, line_index(s, x.first_line))
            &&& x.hi == off(s, line_index(s, x.end_line - 1)) + blen(line_at(s, x.end_line - 1))
        }),
{
    let m = lines_input(s, a, b);
    crate::block::lemma_shape_at(m.lines, i);
    let end = crate::block::shape_at(m.lines, i).1;
    lemma_input_starts(s, a, b, i);
    lemma_input_starts(s, a, b, end - 1);
    assert(m.lines[end - 1] == line_at(s, a + end - 1));
}

// ---------- the document ----------

#[derive(Clone, Copy, Debug, PartialEq, Eq, Structural)]
pub enum Newline {
    Lf,
    Crlf,
}

impl Newline {
    pub fn as_str(self) -> (r: &'static str)
        ensures
            r@ == match self {
                Newline::Lf => seq!['\n'],
                Newline::Crlf => seq!['\r', '\n'],
            },
    {
        proof {
            reveal_strlit("\n");
            reveal_strlit("\r\n");
            assert("\n"@ =~= seq!['\n']);
            assert("\r\n"@ =~= seq!['\r', '\n']);
        }
        match self {
            Newline::Lf => "\n",
            Newline::Crlf => "\r\n",
        }
    }
}

/// The line breaks of a text: CR LF if it holds one.
pub open spec fn newline_of(s: Seq<char>) -> Newline {
    if find_from(s, seq!['\r', '\n'], 0) is Some {
        Newline::Crlf
    } else {
        Newline::Lf
    }
}

/// How much of a file is looked at to tell its line breaks.
pub const PROBE_CHARS: usize = 4096;

/// The blocks that were parsed last.
struct ViewCache {
    revision: u64,
    from: usize,
    to: usize,
    blocks: Vec<Block>,
}

pub struct Document {
    text: Rope,
    path: Option<String>,
    dirty: bool,
    revision: u64,
    newline: Newline,
    cache: Option<ViewCache>,
    fence_rev: u64,
}

/// The name that a document goes by.
pub open spec fn title_of(path: Option<Seq<char>>) -> Seq<char> {
    match path {
        Some(p) => match file_stem(p) {
            Some(s) => s,
            None => "未命名"@,
        },
        None => "未命名"@,
    }
}


pub struct DocModel {
    pub text: Seq<char>,
    pub path: Option<Seq<char>>,
    pub dirty: bool,
    /// Counts the edits.
    pub revision: u64,
    pub newline: Newline,
    /// Counts the edits that can move code fences.
    pub fence_rev: u64,
    /// The lines whose blocks are kept.
    pub covered: Option<(int, int)>,
}

impl View for Document {
    type V = DocModel;

    closed spec fn view(&self) -> DocModel {
        DocModel {
            text: rope_text(self.text),
            path: match self.path {
                Some(p) => Some(p@),
                None => None,
            },
            dirty: self.dirty,
            revision: self.revision,
            newline: self.newline,
            fence_rev: self.fence_rev,
            covered: match self.cache {
                Some(c) => Some((c.from as int, c.to as int)),
                None => None,
            },
        }
    }
}

/// A fresh document.
pub open spec fn fresh_doc(text: Seq<char>, path: Option<Seq<char>>, newline: Newline) -> DocModel {
    DocModel { text, path, dirty: false, revision: 1, newline, fence_rev: 1, covered: None }
}

pub open spec fn next_count(n: u64) -> u64 {
    if n == u64::MAX {
        0
    } else {
        (n + 1) as u64
    }
}

/// A document after an edit that left it with `text`.
pub open spec fn edited(d: DocModel, text: Seq<char>, structural: bool) -> DocModel {
    DocModel {
        text,
        dirty: true,
        revision: next_count(d.revision),
        fence_rev: if structural {
            next_count(d.fence_rev)
        } else {
            d.fence_rev
        },
        covered: None,
        ..d
    }
}

/// Whether adding or taking away this text can move code fences.
pub open spec fn moves_fences(s: Seq<char>) -> bool {
    exists|i: int|
        0 <= i < s.len() && (#[trigger] s[i] == '`' || s[i] == '~' || s[i] == '\n' || s[i] == '\r')
}

/// The text with `s` put in at byte `b`, behind the end at the end.
pub open spec fn with_inserted(t: Seq<char>, b: int, s: Seq<char>) -> Seq<char> {
    let i = floor_index(t, b);
    t.take(i) + s + t.skip(i)
}

pub open spec fn clamp_to(b: int, n: int) -> int {
    if b < n {
        b
    } else {
        n
    }
}

/// The text from byte `a` to byte `b`, each at most the text's end and `b` at least `a`.
pub open spec fn bytes_between(t: Seq<char>, a: int, b: int) -> Seq<char> {
    let lo = clamp_to(a, blen(t) as int);
    let hi = clamp_to(b, blen(t) as int);
    t.subrange(floor_index(t, lo), floor_index(t, if hi < lo {
        lo
    } else {
        hi
    }))
}

/// The document with text put in.
pub open spec fn doc_inserted(d: DocModel, b: int, s: Seq<char>) -> DocModel {
    edited(d, with_inserted(d.text, b, s), moves_fences(s))
}

/// The document without the bytes from `a` to `b`. Nothing happens if there are none.
pub open spec fn doc_removed(d: DocModel, a: int, b: int) -> DocModel {
    let lo = clamp_to(a, blen(d.text) as int);
    let hi = clamp_to(b, blen(d.text) as int);
    if lo >= hi {
        d
    } else {
        let i = floor_index(d.text, lo);
        let j = floor_index(d.text, hi);
        edited(d, d.text.take(i) + d.text.skip(j), moves_fences(d.text.subrange(i, j)))
    }
}

/// The blocks that are handed out for the lines from `a` to `b`: those kept, if
/// they cover these lines; else those of a new window.
pub open spec fn view_window(d: DocModel, a: int, b: int) -> (int, int) {
    let (lo, hi) = wanted(d.text, a, b);
    match d.covered {
        Some((x, y)) if x <= lo && hi <= y => (x, y),
        _ => window(d.text, a, b),
    }
}

/// A document of few lines is parsed as a whole, whichever lines are wanted.
pub proof fn short_documents_are_parsed_whole(d: DocModel, a: int, b: int)
    requires
        0 <= a,
        0 <= b,
        line_count(d.text) <= VIEW_PAD,
        d.covered matches Some(w) ==> is_window(d.text, w),
    ensures
        view_window(d, a, b) == (0int, line_count(d.text)),
{
    let n = line_count(d.text);
    crate::rope::lemma_line_count(d.text);
    match d.covered {
        Some(w) => {
            let (x, y) = choose|x: int, y: int|
                0 <= x && 0 <= y && w == #[trigger] window(d.text, x, y);
            assert(window(d.text, x, y) == (0int, n));
        },
        None => {},
    }
    assert(window(d.text, a, b) == (0int, n));
}

/// `std::path::MAIN_SEPARATOR`: the character between the parts of a path on this
/// machine. Nothing is claimed of it.
#[verifier::external_body]
fn main_separator() -> (r: char) {
    std::path::MAIN_SEPARATOR
}

/// The line breaks of new documents on a machine whose paths use this separator.
pub fn newline_for(separator: char) -> (r: Newline)
    ensures
        r == if separator == '\\' {
            Newline::Crlf
        } else {
            Newline::Lf
        },
{
    if separator == '\\' {
        Newline::Crlf
    } else {
        Newline::Lf
    }
}

fn sniff_newline(cs: &[char]) -> (r: Newline)
    ensures
        r == newline_of(cs@),
{
    let mut crlf: Vec<char> = Vec::new();
    crlf.push('\r');
    crlf.push('\n');
    proof {
        assert(crlf@ =~= seq!['\r', '\n']);
    }
    match find_chars(cs, crlf.as_slice(), 0) {
        Some(_) => Newline::Crlf,
        None => Newline::Lf,
    }
}

fn affects_fences(cs: &[char]) -> (r: bool)
    ensures
        r == moves_fences(cs@),
{
    let mut i: usize = 0;
    while i < cs.len()
        invariant
            0 <= i <= cs@.len(),
            forall|k: int|
                0 <= k < i ==> !(#[trigger] cs@[k] == '`' || cs@[k] == '~' || cs@[k] == '\n'
                    || cs@[k] == '\r'),
        decreases cs@.len() - i,
    {
        let c: char = cs[i];
        if c == '`' || c == '~' || c == '\n' || c == '\r' {
            return true;
        }
        i = i + 1;
    }
    false
}

impl Document {
    /// What is kept of the blocks is true of the text.
    pub closed spec fn wf(&self) -> bool {
        match self.cache {
            Some(c) => {
                &&& c.revision == self.revision
                &&& c.from <= c.to <= line_count(rope_text(self.text))
                &&& is_window(rope_text(self.text), (c.from as int, c.to as int))
                &&& blocks_model(c.blocks@) == blocks_between(
                    rope_text(self.text),
                    c.from as int,
                    c.to as int,
                )
            },
            None => true,
        }
    }

    /// The lines whose blocks are kept were parsed to show some lines.
    pub proof fn lemma_kept_window(&self)
        requires
            self.wf(),
        ensures
            self@.covered matches Some(w) ==> is_window(self@.text, w),
    {
    }

    /// Every wanted line lies in one of the blocks that are handed out, and in no other.
    pub proof fn lemma_lines_in_one_block(&self, a: int, b: int)
        requires
            self.wf(),
            0 <= a,
            0 <= b,
        ensures
            ({
                let (x, y) = view_window(self@, a, b);
                forall|line: int|
                    a <= line < b && line < line_count(self@.text) ==> #[trigger] in_one_block(
                        blocks_between(self@.text, x, y),
                        line,
                    )
            }),
    {
        let t = self@.text;
        let (x, y) = view_window(self@, a, b);
        window_covers_the_wanted_lines(t, a, b);
        let m = lines_input(t, x, y);
        crate::block::blocks_tile_the_lines(m, 0);
        assert forall|line: int| a <= line < b && line < line_count(t) implies #[trigger] in_one_block(
            blocks_between(t, x, y),
            line,
        ) by {
            lemma_tiled_once(blocks_between(t, x, y), x, y, line);
        }
    }

    /// An empty document.
    pub fn empty() -> (r: Document)
        ensures
            r.wf(),
            exists|n: Newline| r@ == fresh_doc(Seq::empty(), None, n),
    {
        let newline: Newline = newline_for(main_separator());
        let r = Document {
            text: Rope::new(),
            path: None,
            dirty: false,
            revision: 1,
            newline,
            cache: None,
            fence_rev: 1,
        };
        proof {
            assert(r@ == fresh_doc(Seq::empty(), None, newline));
        }
        r
    }

    /// A document with this text and no file.
    pub fn from_str(src: &str) -> (r: Document)
        ensures
            r.wf(),
            r@ == fresh_doc(src@, None, newline_of(src@)),
    {
        let cs: Vec<char> = chars_of(src);
        Document {
            text: Rope::from_str(src),
            path: None,
            dirty: false,
            revision: 1,
            newline: sniff_newline(cs.as_slice()),
            cache: None,
            fence_rev: 1,
        }
    }

    /// A document with the text of the file at `path`. Only the start of the text
    /// tells its line breaks.
    pub fn from_file(path: &str, src: &str) -> (r: Document)
        ensures
            r.wf(),
            r@ == fresh_doc(
                src@,
                Some(path@),
                newline_of(src@.take(clamp_to(src@.len() as int, PROBE_CHARS as int))),
            ),
    {
        let cs: Vec<char> = chars_of(src);
        let n: usize = if cs.len() < PROBE_CHARS {
            cs.len()
        } else {
            PROBE_CHARS
        };
        let probe = slice_subrange(cs.as_slice(), 0, n);
        proof {
            assert(probe@ =~= src@.take(n as int));
        }
        Document {
            text: Rope::from_str(src),
            path: Some(path.to_owned()),
            dirty: false,
            revision: 1,
            newline: sniff_newline(probe),
            cache: None,
            fence_rev: 1,
        }
    }

    /// Notes that the text was written to the file at `path`.
    pub fn saved_as(&mut self, path: &str)
        requires
            old(self).wf(),
        ensures
            final(self).wf(),
            final(self)@ == (DocModel { path: Some(path@), dirty: false, ..old(self)@ }),
    {
        self.path = Some(path.to_owned());
        self.dirty = false;
    }

    pub fn path(&self) -> (r: Option<&str>)
        ensures
            crate::block::opt_str(r) == self@.path,
    {
        match &self.path {
            Some(p) => Some(p.as_str()),
            None => None,
        }
    }

    pub fn set_path(&mut self, path: String)
        requires
            old(self).wf(),
        ensures
            final(self).wf(),
            final(self)@ == (DocModel { path: Some(path@), ..old(self)@ }),
    {
        self.path = Some(path);
    }

    pub fn is_dirty(&self) -> (r: bool)
        ensures
            r == self@.dirty,
    {
        self.dirty
    }

    pub fn revision(&self) -> (r: u64)
        ensures
            r == self@.revision,
    {
        self.revision
    }

    pub fn fence_rev(&self) -> (r: u64)
        ensures
            r == self@.fence_rev,
    {
        self.fence_rev
    }

    pub fn newline(&self) -> (r: Newline)
        ensures
            r == self@.newline,
    {
        self.newline
    }

    pub fn len_bytes(&self) -> (r: usize)
        ensures
            r == blen(self@.text),
    {
        self.text.len_bytes()
    }

    pub fn len_lines(&self) -> (r: usize)
        ensures
            r == line_count(self@.text),
    {
        self.text.len_lines()
    }

    pub fn rope(&self) -> (r: &Rope)
        ensures
            rope_text(*r) == self@.text,
    {
        &self.text
    }

    /// The name that the document goes by: that of its file without the extension.
    pub fn title(&self) -> (r: String)
        ensures
            r@ == title_of(self@.path),
    {
        if let Some(p) = &self.path {
            if let Some(s) = file_stem_of(p) {
                return string_of(s.as_slice());
            }
        }
        "未命名".to_owned()
    }

    /// A line without its break; nothing behind the last line.
    pub fn line_text(&self, line: usize) -> (r: String)
        ensures
            r@ == line_at(self@.text, line as int),
    {
        if line >= self.text.len_lines() {
            return String::new();
        }
        let s: String = rope_line(&self.text, line);
        let cs: Vec<char> = chars_of(&s);
        let n: usize = cs.len();
        let mut end: usize = n;
        if n > 0 && cs[n - 1] == '\n' {
            end = n - 1;
            if end > 0 && cs[end - 1] == '\r' {
                end = end - 1;
            }
        }
        proof {
            lemma_line_parts(s@);
            assert(cs@.subrange(0, end as int) =~= line_body(s@));
        }
        string_of(slice_subrange(cs.as_slice(), 0, end))
    }

    fn line_eol_width(&self, line: usize) -> (r: u8)
        ensures
            r == break_at(self@.text, line as int),
    {
        if line >= self.text.len_lines() {
            return 0;
        }
        let s: String = rope_line(&self.text, line);
        let cs: Vec<char> = chars_of(&s);
        let n: usize = cs.len();
        if n == 0 || cs[n - 1] != '\n' {
            return 0;
        }
        if n >= 2 && cs[n - 2] == '\r' {
            2
        } else {
            1
        }
    }

    fn is_blank_line(&self, line: usize) -> (r: bool)
        ensures
            r == blank_at(self@.text, line as int),
    {
        if line >= self.text.len_lines() {
            return true;
        }
        let s: String = rope_line(&self.text, line);
        let cs: Vec<char> = chars_of(&s);
        let mut i: usize = 0;
        while i < cs.len()
            invariant
                0 <= i <= cs@.len(),
                cs@ == full_line(self@.text, line as int),
                line < line_count(self@.text),
                forall|k: int| 0 <= k < i ==> is_blank_char(#[trigger] cs@[k]),
            decreases cs@.len() - i,
        {
            let c: char = cs[i];
            if !(c == ' ' || c == '\t' || c == '\r' || c == '\n') {
                return false;
            }
            i = i + 1;
        }
        true
    }

    fn line_starts_fence(&self, line: usize) -> (r: bool)
        ensures
            r == fence_at(self@.text, line as int),
    {
        if line >= self.text.len_lines() {
            return false;
        }
        let s: String = rope_line(&self.text, line);
        let cs: Vec<char> = chars_of(&s);
        let mut n: usize = 0;
        proof {
            assert(cs@.skip(0) =~= cs@);
        }
        while n < cs.len() && (cs[n] == ' ' || cs[n] == '\t')
            invariant
                0 <= n <= cs@.len(),
                indent_run(cs@) == n + indent_run(cs@.skip(n as int)),
            decreases cs@.len() - n,
        {
            proof {
                assert(cs@.skip(n as int)[0] == cs@[n as int]);
                assert(cs@.skip(n as int).drop_first() =~= cs@.skip(n + 1));
            }
            n = n + 1;
        }
        proof {
            if n < cs@.len() {
                assert(cs@.skip(n as int)[0] == cs@[n as int]);
            }
        }
        if n > 3 || cs.len() - n < 3 {
            return false;
        }
        (cs[n] == '`' || cs[n] == '~') && cs[n + 1] == cs[n] && cs[n + 2] == cs[n]
    }
}

impl Default for Document {
    fn default() -> (r: Document)
        ensures
            r.wf(),
            exists|n: Newline| r@ == fresh_doc(Seq::empty(), None, n),
    {
        Document::empty()
    }
}

// ---------- positions ----------

/// The line of a byte.
pub open spec fn line_of_byte(t: Seq<char>, b: int) -> int {
    breaks_upto(t, floor_index(t, b))
}

/// The byte at which a line starts; the end of the text behind the last line.
pub open spec fn byte_of_line(t: Seq<char>, k: int) -> int {
    off(t, line_index(t, k)) as int
}

/// The line and the column in bytes of a byte, at most the text's end.
pub open spec fn line_col(t: Seq<char>, b: int) -> (int, int) {
    let x = clamp_to(b, blen(t) as int);
    let k = line_of_byte(t, x);
    (k, x - byte_of_line(t, k))
}

/// The byte of a column of a line, at most the end of the line's text.
pub open spec fn byte_at_line_col(t: Seq<char>, line: int, col: int) -> int {
    let k = clamp_to(line, line_count(t) - 1);
    byte_of_line(t, k) + clamp_to(col, blen(line_at(t, k)) as int)
}

/// The start of the character before the one at byte `b`.
pub open spec fn prev_boundary(t: Seq<char>, b: int) -> int {
    let i = floor_index(t, b);
    if i == 0 {
        0
    } else {
        off(t, i - 1) as int
    }
}

/// The end of the character at byte `b`.
pub open spec fn next_boundary(t: Seq<char>, b: int) -> int {
    let i = floor_index(t, b);
    if i >= t.len() {
        blen(t) as int
    } else {
        off(t, i + 1) as int
    }
}

pub proof fn lemma_line_of_byte(t: Seq<char>, b: int)
    requires
        0 <= b <= blen(t),
    ensures
        0 <= line_of_byte(t, b) < line_count(t),
        0 <= byte_of_line(t, line_of_byte(t, b)) <= b,
{
    lemma_floor_index(t, b);
    let i = floor_index(t, b);
    lemma_index_in_line(t, i);
    lemma_line_index(t, breaks_upto(t, i));
    lemma_off_mono(t, line_index(t, breaks_upto(t, i)), i);
}

/// Behind the end of a text every byte is taken for its end.
pub proof fn lemma_floor_clamped(t: Seq<char>, b: int)
    ensures
        floor_index(t, clamp_to(b, blen(t) as int)) == floor_index(t, b),
{
    if b >= blen(t) {
        crate::text::lemma_floor_end(t, b);
        crate::text::lemma_floor_end(t, blen(t) as int);
    }
}

pub proof fn lemma_byte_of_line(t: Seq<char>, k: int)
    requires
        0 <= k,
    ensures
        0 <= byte_of_line(t, k) <= blen(t),
        k < line_count(t) ==> byte_of_line(t, k) + blen(line_at(t, k)) <= byte_of_line(t, k + 1),
{
    lemma_line_index(t, k);
    lemma_line_index(t, k + 1);
    lemma_line_index_mono(t, k, k + 1);
    lemma_off_mono(t, line_index(t, k), line_index(t, k + 1));
    lemma_line_parts(full_line(t, k));
}

/// A line and column that belong to a byte lead back to it, unless it stands in the
/// line's break.
pub proof fn line_col_leads_back(t: Seq<char>, b: int)
    requires
        0 <= b <= blen(t),
        line_col(t, b).1 <= blen(line_at(t, line_col(t, b).0)),
    ensures
        byte_at_line_col(t, line_col(t, b).0, line_col(t, b).1) == b,
{
    lemma_line_of_byte(t, b);
}

/// Going one character back from the end of a character leads to its start, and
/// forth again to its end.
pub proof fn boundaries_step_over_one_character(t: Seq<char>, i: int)
    requires
        0 <= i < t.len(),
    ensures
        next_boundary(t, off(t, i) as int) == off(t, i + 1),
        prev_boundary(t, off(t, i + 1) as int) == off(t, i),
{
    lemma_floor_index_off(t, i);
    lemma_floor_index_off(t, i + 1);
}

impl Document {
    /// The line of a byte.
    pub fn byte_to_line(&self, byte: usize) -> (r: usize)
        ensures
            r == line_of_byte(self@.text, byte as int),
            r < line_count(self@.text),
    {
        let n: usize = self.text.len_bytes();
        let b: usize = if byte < n {
            byte
        } else {
            n
        };
        proof {
            lemma_line_of_byte(self@.text, b as int);
            lemma_floor_clamped(self@.text, byte as int);
        }
        self.text.byte_to_line(b)
    }

    /// The byte at which a line starts; the end of the text behind the last line.
    pub fn line_to_byte(&self, line: usize) -> (r: usize)
        ensures
            r == byte_of_line(self@.text, clamp_to(line as int, line_count(self@.text))),
            r <= blen(self@.text),
    {
        let n: usize = self.text.len_lines();
        let k: usize = if line < n {
            line
        } else {
            n
        };
        proof {
            lemma_byte_of_line(self@.text, k as int);
        }
        self.text.line_to_byte(k)
    }

    /// The line and the column of a byte.
    pub fn byte_to_line_col(&self, byte: usize) -> (r: (usize, usize))
        ensures
            (r.0 as int, r.1 as int) == line_col(self@.text, byte as int),
    {
        let n: usize = self.text.len_bytes();
        let b: usize = if byte < n {
            byte
        } else {
            n
        };
        proof {
            lemma_line_of_byte(self@.text, b as int);
        }
        let line: usize = self.text.byte_to_line(b);
        (line, b - self.text.line_to_byte(line))
    }

    /// The byte of a column of a line.
    pub fn line_col_to_byte(&self, line: usize, col: usize) -> (r: usize)
        ensures
            r == byte_at_line_col(self@.text, line as int, col as int),
            r <= blen(self@.text),
    {
        let n: usize = self.text.len_lines();
        proof {
            lemma_line_count(self@.text);
        }
        let k: usize = if line < n - 1 {
            line
        } else {
            n - 1
        };
        let start: usize = self.text.line_to_byte(k);
        let len: usize = byte_len(&self.line_text(k));
        proof {
            lemma_byte_of_line(self@.text, k as int);
            lemma_byte_of_line(self@.text, k + 1);
        }
        let total: usize = self.text.len_bytes();
        start + if col < len {
            col
        } else {
            len
        }
    }

    /// The start of the character before the one at a byte.
    pub fn prev_char_boundary(&self, byte: usize) -> (r: usize)
        ensures
            r == prev_boundary(self@.text, byte as int),
            r <= byte,
            r <= blen(self@.text),
    {
        let n: usize = self.text.len_bytes();
        let b: usize = if byte < n {
            byte
        } else {
            n
        };
        let i: usize = self.text.byte_to_char(b);
        proof {
            lemma_floor_index(self@.text, b as int);
            lemma_floor_clamped(self@.text, byte as int);
        }
        if i == 0 {
            return 0;
        }
        proof {
            lemma_off_mono(self@.text, i - 1, i as int);
        }
        self.text.char_to_byte(i - 1)
    }

    /// The end of the character at a byte.
    pub fn next_char_boundary(&self, byte: usize) -> (r: usize)
        ensures
            r == next_boundary(self@.text, byte as int),
            r <= blen(self@.text),
            byte < blen(self@.text) ==> byte < r,
    {
        let n: usize = self.text.len_bytes();
        if byte >= n {
            proof {
                crate::text::lemma_floor_end(self@.text, byte as int);
            }
            return n;
        }
        let i: usize = self.text.byte_to_char(byte);
        proof {
            lemma_floor_index(self@.text, byte as int);
            lemma_off_ends(self@.text);
        }
        if i >= self.text.len_chars() - 1 {
            return n;
        }
        proof {
            lemma_off_mono(self@.text, i as int, i + 1);
        }
        self.text.char_to_byte(i + 1)
    }

    /// The text of a range of bytes.
    pub fn slice_to_string(&self, range: Range<usize>) -> (r: String)
        ensures
            r@ == bytes_between(self@.text, range.start as int, range.end as int),
    {
        let n: usize = self.text.len_bytes();
        let start: usize = if range.start < n {
            range.start
        } else {
            n
        };
        let stop: usize = if range.end < n {
            range.end
        } else {
            n
        };
        let end: usize = if stop < start {
            start
        } else {
            stop
        };
        let cs: usize = self.text.byte_to_char(start);
        let ce: usize = self.text.byte_to_char(end);
        proof {
            crate::text::lemma_floor_mono(self@.text, start as int, end as int);
            lemma_floor_index(self@.text, end as int);
        }
        rope_slice(&self.text, cs, ce)
    }

    // ---------- edits ----------

    /// Puts text in at a byte.
    pub fn insert(&mut self, byte: usize, s: &str)
        requires
            old(self).wf(),
        ensures
            final(self).wf(),
            final(self)@ == doc_inserted(old(self)@, byte as int, s@),
    {
        let n: usize = self.text.len_bytes();
        let b: usize = if byte < n {
            byte
        } else {
            n
        };
        proof {
            lemma_floor_index(self@.text, b as int);
            if byte >= n {
                crate::text::lemma_floor_end(self@.text, byte as int);
                crate::text::lemma_floor_end(self@.text, n as int);
            }
        }
        let i: usize = self.text.byte_to_char(b);
        self.text.insert(i, s);
        let cs: Vec<char> = chars_of(s);
        self.bump(affects_fences(cs.as_slice()));
    }

    /// Takes a range of bytes away.
    pub fn remove(&mut self, range: Range<usize>)
        requires
            old(self).wf(),
        ensures
            final(self).wf(),
            final(self)@ == doc_removed(old(self)@, range.start as int, range.end as int),
    {
        let n: usize = self.text.len_bytes();
        let start: usize = if range.start < n {
            range.start
        } else {
            n
        };
        let end: usize = if range.end < n {
            range.end
        } else {
            n
        };
        if start >= end {
            return ;
        }
        let cs: usize = self.text.byte_to_char(start);
        let ce: usize = self.text.byte_to_char(end);
        proof {
            crate::text::lemma_floor_mono(self@.text, start as int, end as int);
            lemma_floor_index(self@.text, end as int);
        }
        let gone: Vec<char> = chars_of(&rope_slice(&self.text, cs, ce));
        let structural: bool = affects_fences(gone.as_slice());
        rope_remove(&mut self.text, cs, ce);
        self.bump(structural);
    }

    /// Puts text in the place of a range of bytes.
    pub fn replace(&mut self, range: Range<usize>, s: &str)
        requires
            old(self).wf(),
        ensures
            final(self).wf(),
            final(self)@ == doc_inserted(
                doc_removed(old(self)@, range.start as int, range.end as int),
                range.start as int,
                s@,
            ),
    {
        let at: usize = range.start;
        self.remove(range.start..range.end);
        self.insert(at, s);
    }

    /// Notes an edit.
    fn bump(&mut self, structural: bool)
        ensures
            final(self).wf(),
            final(self)@ == edited(old(self)@, old(self)@.text, structural),
    {
        self.revision = self.revision.wrapping_add(1);
        self.dirty = true;
        self.cache = None;
        if structural {
            self.fence_rev = self.fence_rev.wrapping_add(1);
        }
    }

    // ---------- blocks ----------

    /// A line at or above `target` where parsing can start.
    fn safe_start(&self, target: usize) -> (r: usize)
        ensures
            r == parse_start(self@.text, target as int),
            r <= target,
    {
        proof {
            lemma_parse_start(self@.text, target as int);
        }
        if target == 0 {
            return 0;
        }
        let floor: usize = if target > UP_SCAN {
            target - UP_SCAN
        } else {
            0
        };
        let mut l: usize = target;
        while l > floor && !self.is_blank_line(l - 1)
            invariant
                floor <= l <= target,
                blank_above(self@.text, floor as int, target as int) == blank_above(
                    self@.text,
                    floor as int,
                    l as int,
                ),
            decreases l,
        {
            l = l - 1;
        }
        let cand: usize = if l > floor {
            l - 1
        } else {
            floor
        };
        self.fence_fix(cand)
    }

    /// `cand`, or the line that opened the code block which `cand` is inside.
    fn fence_fix(&self, cand: usize) -> (r: usize)
        ensures
            r == fence_fixed(self@.text, cand as int),
    {
        let from: usize = if cand > FENCE_SCAN {
            cand - FENCE_SCAN
        } else {
            0
        };
        let mut last: Option<usize> = None;
        let mut odd: bool = false;
        let mut i: usize = from;
        while i < cand
            invariant
                from <= i <= cand,
                odd == (fences(self@.text, from as int, i as int) % 2 == 1),
                match last {
                    Some(f) => last_fence(self@.text, from as int, i as int) == Some(f as int),
                    None => last_fence(self@.text, from as int, i as int) is None,
                },
            decreases cand - i,
        {
            if self.line_starts_fence(i) {
                odd = !odd;
                last = Some(i);
            }
            i = i + 1;
        }
        match last {
            Some(f) => if odd {
                f
            } else {
                cand
            },
            None => cand,
        }
    }

    /// The line at or below `target` where parsing can end.
    fn safe_end(&self, target: usize) -> (r: usize)
        requires
            target <= line_count(self@.text),
        ensures
            r == parse_end(self@.text, target as int),
            target <= r <= line_count(self@.text),
    {
        proof {
            lemma_parse_end(self@.text, target as int);
        }
        let n: usize = self.text.len_lines();
        let limit: usize = if n - target > DOWN_SCAN {
            target + DOWN_SCAN
        } else {
            n
        };
        let mut l: usize = target;
        while l < limit
            invariant
                target <= l <= limit <= n,
                n == line_count(self@.text),
                parse_end(self@.text, target as int) == blank_below(
                    self@.text,
                    l as int,
                    limit as int,
                ),
            decreases limit - l,
        {
            if self.is_blank_line(l) {
                return l + 1;
            }
            l = l + 1;
        }
        limit
    }

    /// Parses the lines from `from` to `to`.
    fn scan_lines(&self, from: usize, to: usize) -> (r: Vec<Block>)
        requires
            from <= to <= line_count(self@.text),
            fits(self@.text),
        ensures
            blocks_model(r@) == blocks_between(self@.text, from as int, to as int),
    {
        let mut lines: Vec<String> = Vec::new();
        let mut eols: Vec<u8> = Vec::new();
        let ghost m = lines_input(self@.text, from as int, to as int);
        let mut i: usize = from;
        while i < to
            invariant
                from <= i <= to,
                m == lines_input(self@.text, from as int, to as int),
                texts(lines@) == m.lines.take(i - from),
                eols@ == m.eols.take(i - from),
            decreases to - i,
        {
            let ghost before = lines@;
            lines.push(self.line_text(i));
            eols.push(self.line_eol_width(i));
            proof {
                assert(texts(lines@) =~= texts(before).push(lines@.last()@));
                assert(m.lines.take(i + 1 - from) =~= m.lines.take(i - from).push(
                    line_at(self@.text, i as int),
                ));
                assert(m.eols.take(i + 1 - from) =~= m.eols.take(i - from).push(
                    break_at(self@.text, i as int),
                ));
            }
            i = i + 1;
        }
        let first_byte: usize = self.line_to_byte(from);
        proof {
            assert(m.lines.take(to - from) =~= m.lines);
            assert(m.eols.take(to - from) =~= m.eols);
            lemma_input_starts(self@.text, from as int, to as int, to - from);
            lemma_byte_of_line(self@.text, to as int);
            lemma_line_count(self@.text);
        }
        let input = LineInput {
            lines: lines.as_slice(),
            first_line: from,
            first_byte,
            eol_widths: eols.as_slice(),
        };
        proof {
            assert(input@ == m);
        }
        scan_blocks(&input)
    }

    /// The blocks that show the wanted lines, with more around them: parsing has to
    /// start where a block starts.
    pub fn blocks_for_lines(&mut self, want: Range<usize>) -> (r: &[Block])
        requires
            old(self).wf(),
            fits(old(self)@.text),
        ensures
            final(self).wf(),
            ({
                let (a, b) = view_window(old(self)@, want.start as int, want.end as int);
                &&& blocks_model(r@) == blocks_between(old(self)@.text, a, b)
                &&& final(self)@ == (DocModel { covered: Some((a, b)), ..old(self)@ })
            }),
            line_count(old(self)@.text) <= VIEW_PAD ==> blocks_model(r@) == blocks_between(
                old(self)@.text,
                0,
                line_count(old(self)@.text),
            ),
            forall|line: int|
                want.start <= line < want.end && line < line_count(old(self)@.text)
                    ==> #[trigger] in_one_block(blocks_model(r@), line),
    {
        proof {
            self.lemma_lines_in_one_block(want.start as int, want.end as int);
            if line_count(self@.text) <= VIEW_PAD {
                self.lemma_kept_window();
                short_documents_are_parsed_whole(self@, want.start as int, want.end as int);
            }
        }
        self.ensure_blocks(want);
        match &self.cache {
            Some(c) => c.blocks.as_slice(),
            None => &[],
        }
    }

    fn ensure_blocks(&mut self, want: Range<usize>)
        requires
            old(self).wf(),
            fits(old(self)@.text),
        ensures
            final(self).wf(),
            final(self).cache is Some,
            ({
                let (a, b) = view_window(old(self)@, want.start as int, want.end as int);
                final(self)@ == (DocModel { covered: Some((a, b)), ..old(self)@ })
            }),
    {
        let n: usize = self.text.len_lines();
        let lo: usize = if want.start < n {
            want.start
        } else {
            n
        };
        let hi: usize = if want.end < lo {
            lo
        } else if want.end > n {
            n
        } else {
            want.end
        };
        let hit: bool = match &self.cache {
            Some(c) => c.revision == self.revision && c.from <= lo && hi <= c.to,
            None => false,
        };
        if hit {
            return ;
        }
        let top: usize = if lo > VIEW_PAD {
            lo - VIEW_PAD
        } else {
            0
        };
        let bottom: usize = if n - hi > VIEW_PAD {
            hi + VIEW_PAD
        } else {
            n
        };
        let start: usize = self.safe_start(top);
        let stop: usize = self.safe_end(bottom);
        let end: usize = if stop < start {
            start
        } else {
            stop
        };
        let blocks: Vec<Block> = self.scan_lines(start, end);
        proof {
            assert((start as int, end as int) == window(
                self@.text,
                want.start as int,
                want.end as int,
            ));
        }
        self.cache = Some(ViewCache { revision: self.revision, from: start, to: end, blocks });
    }

    /// All blocks of the text.
    pub fn blocks_all(&self) -> (r: Vec<Block>)
        requires
            fits(self@.text),
        ensures
            blocks_model(r@) == blocks_between(self@.text, 0, line_count(self@.text)),
    {
        self.scan_lines(0, self.text.len_lines())
    }
}

/// Whether block `b` is the one of `bs` that holds line `k`.
pub open spec fn block_with_line(bs: Seq<BlockModel>, k: int, b: BlockModel) -> bool {
    bs.contains(b) && b.first_line <= k < b.end_line
}

/// Whether a line lies in one of the blocks, and in no other.
pub open spec fn in_one_block(bs: Seq<BlockModel>, line: int) -> bool {
    exists|j: int|
        0 <= j < bs.len() && (#[trigger] bs[j]).first_line <= line < bs[j].end_line && forall|k: int|
            0 <= k < bs.len() && k != j ==> !((#[trigger] bs[k]).first_line <= line
                < bs[k].end_line)
}

proof fn lemma_tiled_order(bs: Seq<BlockModel>, from: int, to: int, j: int, k: int)
    requires
        crate::block::tiled(bs, from, to),
        0 <= j < k < bs.len(),
    ensures
        bs[j].end_line <= bs[k].first_line,
    decreases k - j,
{
    assert(bs[k].first_line == bs[k - 1].end_line);
    if j < k - 1 {
        lemma_tiled_order(bs, from, to, j, k - 1);
        assert(bs[k - 1].first_line < bs[k - 1].end_line);
    }
}

proof fn lemma_tiled_once(bs: Seq<BlockModel>, from: int, to: int, line: int)
    requires
        crate::block::tiled(bs, from, to),
        from <= line < to,
    ensures
        in_one_block(bs, line),
{
    lemma_tiled_holds(bs, from, to, line);
    let j = choose|j: int|
        0 <= j < bs.len() && (#[trigger] bs[j]).first_line <= line < bs[j].end_line;
    assert forall|k: int| 0 <= k < bs.len() && k != j implies !((#[trigger] bs[k]).first_line
        <= line < bs[k].end_line) by {
        if k < j {
            lemma_tiled_order(bs, from, to, k, j);
        } else {
            lemma_tiled_order(bs, from, to, j, k);
        }
    }
}

/// Blocks that follow each other without gap hold every line between.
proof fn lemma_tiled_holds(bs: Seq<BlockModel>, from: int, to: int, k: int)
    requires
        crate::block::tiled(bs, from, to),
        from <= k < to,
    ensures
        exists|j: int| 0 <= j < bs.len() && (#[trigger] bs[j]).first_line <= k < bs[j].end_line,
    decreases bs.len(),
{
    let last = bs.last();
    assert(bs[bs.len() - 1] == last);
    if k < last.first_line {
        let front = bs.drop_last();
        assert forall|j: int| 0 <= j < front.len() implies (#[trigger] front[j]).first_line
            < front[j].end_line by {
            assert(front[j] == bs[j]);
        }
        assert forall|j: int| 0 < j < front.len() implies (#[trigger] front[j]).first_line
            == front[j - 1].end_line by {
            assert(front[j] == bs[j]);
        }
        if front.len() > 0 {
            assert(front.last() == bs[bs.len() - 2]);
            assert(bs[bs.len() - 1].first_line == bs[bs.len() - 2].end_line);
        }
        lemma_tiled_holds(front, from, last.first_line, k);
        let j = choose|j: int|
            0 <= j < front.len() && (#[trigger] front[j]).first_line <= k < front[j].end_line;
        assert(bs[j] == front[j]);
    }
}

impl Document {
    /// The block at a byte.
    pub fn block_at_byte(&mut self, byte: usize) -> (r: Option<&Block>)
        requires
            old(self).wf(),
            fits(old(self)@.text),
        ensures
            final(self).wf(),
            ({
                let line = line_of_byte(old(self)@.text, byte as int);
                let (a, b) = view_window(old(self)@, line, line + 1);
                &&& r matches Some(x) && block_with_line(
                    blocks_between(old(self)@.text, a, b),
                    line,
                    x@,
                )
                &&& final(self)@ == (DocModel { covered: Some((a, b)), ..old(self)@ })
            }),
    {
        let line: usize = self.byte_to_line(byte);
        let n: usize = self.text.len_lines();
        self.ensure_blocks(line..line + 1);
        proof {
            window_covers_the_wanted_lines(old(self)@.text, line as int, line + 1);
        }
        let k: usize = self.find_block(line);
        match &self.cache {
            Some(c) => Some(&c.blocks[k]),
            None => None,
        }
    }

    /// The index of the kept block that holds a line.
    fn find_block(&self, line: usize) -> (r: usize)
        requires
            self.wf(),
            self.cache is Some,
            self.cache->0.from <= line < self.cache->0.to,
        ensures
            r < self.cache->0.blocks@.len(),
            block_with_line(
                blocks_model(self.cache->0.blocks@),
                line as int,
                self.cache->0.blocks@[r as int]@,
            ),
    {
        let mut k: usize = 0;
        match &self.cache {
            Some(c) => {
                let n: usize = c.blocks.len();
                let ghost (a, b) = (c.from as int, c.to as int);
                let ghost bs = blocks_between(self@.text, a, b);
                proof {
                    crate::block::blocks_tile_the_lines(lines_input(self@.text, a, b), 0);
                    lemma_tiled_holds(bs, a, b, line as int);
                }
                while !c.blocks[k].contains_line(line)
                    invariant
                        blocks_model(c.blocks@) == bs,
                        exists|j: int|
                            k <= j < bs.len() && (#[trigger] bs[j]).first_line <= line < bs[j].end_line,
                        k < n,
                        n == c.blocks@.len(),
                    decreases c.blocks@.len() - k,
                {
                    proof {
                        assert(bs[k as int] == c.blocks@[k as int]@);
                    }
                    k = k + 1;
                }
                proof {
                    assert(bs[k as int] == c.blocks@[k as int]@);
                    assert(bs.contains(bs[k as int]));
                }
            },
            None => {},
        }
        k
    }
}

} // verus!
