//! The index of a note vault: links between notes, tags, search, queries, and
//! the graph of notes.
//!
//! The index does no reading of its own. It is built from the texts of the
//! notes, and searching takes the texts as they are at that time.
use crate::block::{decimal, eq_ignore_case, is_digit, same_ignoring_case};
use crate::inline::{lemma_word_end, tag_at, tag_here};
use crate::paths::{depth, depth_of, file_name, file_name_of, file_stem, file_stem_of};
use crate::text::{
    chars_of, comes_before, contains_text, ends_with, find_char, find_chars, find_from, has_text,
    index_of, is_space, is_space_char, last_index_of, lemma_find_from, lemma_index_of,
    lemma_text_order_total, lemma_text_order_transitive, lines_chars, lines_of, lowercase,
    rfind_char, run_of, same_chars, same_text, slices, split_chars, split_on, starts_with,
    string_of, text_before, texts, trim, trim_chars, trim_end, trim_end_chars, trim_run, trim_run_chars, trim_run_end,
    trim_run_end_chars, trim_start, trim_start_chars,
};
use vstd::prelude::*;
use vstd::slice::slice_subrange;

verus! {

// ---------- queries ----------

/// A parsed query.
#[derive(Clone, Debug)]
pub struct QuerySpec {
    /// Tags that a note must have, all of them.
    pub tags: Vec<String>,
    /// Words that must occur, all of them.
    pub terms: Vec<String>,
    /// Notes that a note must link to, all of them.
    pub links: Vec<String>,
    /// How many results to give at most.
    pub limit: usize,
}

pub struct QueryModel {
    pub tags: Seq<Seq<char>>,
    pub terms: Seq<Seq<char>>,
    pub links: Seq<Seq<char>>,
    pub limit: int,
}

impl View for QuerySpec {
    type V = QueryModel;

    open spec fn view(&self) -> QueryModel {
        QueryModel {
            tags: texts(self.tags@),
            terms: texts(self.terms@),
            links: texts(self.links@),
            limit: self.limit as int,
        }
    }
}

pub open spec fn is_empty_query(q: QueryModel) -> bool {
    q.tags.len() == 0 && q.terms.len() == 0 && q.links.len() == 0
}

impl QuerySpec {
    /// Whether the query asks for nothing.
    pub fn is_empty(&self) -> (r: bool)
        ensures
            r == is_empty_query(self@),
    {
        self.tags.len() == 0 && self.terms.len() == 0 && self.links.len() == 0
    }
}

impl Default for QuerySpec {
    fn default() -> (r: QuerySpec)
        ensures
            is_empty_query(r@),
            r@.limit == 0,
    {
        QuerySpec { tags: Vec::new(), terms: Vec::new(), links: Vec::new(), limit: 0 }
    }
}

/// Straight or curly double quotes.
pub open spec fn is_quote(c: char) -> bool {
    c == '"' || c == '\u{201c}' || c == '\u{201d}'
}

/// A token so far, if there is one.
pub open spec fn token_of(cur: Seq<char>) -> Seq<Seq<char>> {
    if cur.len() == 0 {
        Seq::empty()
    } else {
        seq![cur]
    }
}

/// The tokens of `s`, where `cur` is the token so far: parted by white space, unless
/// it stands between quotes. The quotes themselves are dropped.
pub open spec fn tokens(s: Seq<char>, cur: Seq<char>, quoted: bool) -> Seq<Seq<char>>
    decreases s.len(),
{
    if s.len() == 0 {
        token_of(cur)
    } else if is_quote(s[0]) {
        tokens(s.drop_first(), cur, !quoted)
    } else if is_space(s[0]) && !quoted {
        token_of(cur) + tokens(s.drop_first(), Seq::empty(), quoted)
    } else {
        tokens(s.drop_first(), cur.push(s[0]), quoted)
    }
}

pub open spec fn all_digits(s: Seq<char>) -> bool {
    forall|k: int| 0 <= k < s.len() ==> is_digit(#[trigger] s[k])
}

/// `s` without a plus sign in front.
pub open spec fn without_plus(s: Seq<char>) -> Seq<char> {
    if s.len() > 0 && s[0] == '+' {
        s.skip(1)
    } else {
        s
    }
}

/// A decimal number that fits in a `usize`, with or without a plus sign.
pub open spec fn parsed_number(s: Seq<char>) -> Option<int> {
    let d = without_plus(s);
    if d.len() > 0 && all_digits(d) && decimal(d) <= usize::MAX {
        Some(decimal(d) as int)
    } else {
        None
    }
}

pub open spec fn is_bracket(c: char) -> bool {
    c == '[' || c == ']'
}

/// `s` without the brackets at its start.
pub open spec fn skip_brackets(s: Seq<char>) -> Seq<char>
    decreases s.len(),
{
    if s.len() > 0 && is_bracket(s[0]) {
        skip_brackets(s.drop_first())
    } else {
        s
    }
}

/// `s` without the brackets at its end.
pub open spec fn drop_brackets(s: Seq<char>) -> Seq<char>
    decreases s.len(),
{
    if s.len() > 0 && is_bracket(s.last()) {
        drop_brackets(s.drop_last())
    } else {
        s
    }
}

pub open spec fn clamped_limit(n: int) -> int {
    if n < 1 {
        1
    } else if n > 200 {
        200
    } else {
        n
    }
}

/// The query with one more token.
pub open spec fn with_token(q: QueryModel, t: Seq<char>) -> QueryModel {
    let link = trim(drop_brackets(skip_brackets(t.skip(5))));
    if t.len() > 0 && t[0] == '#' {
        if t.len() > 1 {
            QueryModel { tags: q.tags.push(t.skip(1)), ..q }
        } else {
            q
        }
    } else if "link:"@.is_prefix_of(t) {
        if link.len() > 0 {
            QueryModel { links: q.links.push(link), ..q }
        } else {
            q
        }
    } else if "limit:"@.is_prefix_of(t) {
        match parsed_number(t.skip(6)) {
            Some(n) => QueryModel { limit: clamped_limit(n), ..q },
            None => q,
        }
    } else if t.len() > 0 {
        QueryModel { terms: q.terms.push(t), ..q }
    } else {
        q
    }
}

pub open spec fn with_tokens(q: QueryModel, ts: Seq<Seq<char>>) -> QueryModel
    decreases ts.len(),
{
    if ts.len() == 0 {
        q
    } else {
        with_tokens(with_token(q, ts[0]), ts.drop_first())
    }
}

/// The query that asks for nothing, with at most twenty results.
pub open spec fn default_query() -> QueryModel {
    QueryModel { tags: Seq::empty(), terms: Seq::empty(), links: Seq::empty(), limit: 20 }
}

/// What a query's text asks for.
pub open spec fn query_of(body: Seq<char>) -> QueryModel {
    with_tokens(default_query(), tokens(body, Seq::empty(), false))
}

pub(crate) fn push_text(v: &mut Vec<String>, s: String)
    ensures
        texts(final(v)@) == texts(old(v)@).push(s@),
{
    v.push(s);
    proof {
        assert(texts(v@) =~= texts(old(v)@).push(s@));
    }
}

/// The tokens of a query's text.
fn split_tokens(cs: &[char]) -> (r: Vec<String>)
    ensures
        texts(r@) == tokens(cs@, Seq::empty(), false),
{
    let mut out: Vec<String> = Vec::new();
    let mut cur: Vec<char> = Vec::new();
    let mut quoted: bool = false;
    let mut i: usize = 0;
    let ghost all = tokens(cs@, Seq::empty(), false);
    proof {
        assert(cs@.skip(0) =~= cs@);
        assert(texts(out@) + all =~= all);
    }
    while i < cs.len()
        invariant
            0 <= i <= cs@.len(),
            texts(out@) + tokens(cs@.skip(i as int), cur@, quoted) == all,
        decreases cs@.len() - i,
    {
        let c: char = cs[i];
        let ghost rest = cs@.skip(i as int);
        let ghost before = texts(out@);
        proof {
            assert(rest[0] == c);
            assert(rest.drop_first() =~= cs@.skip(i + 1));
        }
        if c == '"' || c == '\u{201c}' || c == '\u{201d}' {
            quoted = !quoted;
        } else if is_space_char(c) && !quoted {
            let ghost tok = token_of(cur@);
            if cur.len() > 0 {
                push_text(&mut out, string_of(cur.as_slice()));
            }
            cur = Vec::new();
            proof {
                assert(texts(out@) =~= before + tok);
                let tail = tokens(cs@.skip(i + 1), Seq::empty(), quoted);
                assert(cur@ =~= Seq::<char>::empty());
                assert(texts(out@) + tail =~= before + (tok + tail));
            }
        } else {
            cur.push(c);
        }
        i = i + 1;
    }
    let ghost before = texts(out@);
    if cur.len() > 0 {
        push_text(&mut out, string_of(cur.as_slice()));
    }
    proof {
        assert(texts(out@) =~= before + token_of(cur@));
    }
    out
}

/// A decimal number that fits in a `usize`, with or without a plus sign.
fn parse_number(cs: &[char]) -> (r: Option<usize>)
    ensures
        match r {
            Some(n) => parsed_number(cs@) == Some(n as int),
            None => parsed_number(cs@) is None,
        },
{
    let d = if cs.len() > 0 && cs[0] == '+' {
        let t = slice_subrange(cs, 1, cs.len());
        proof {
            assert(t@ =~= cs@.skip(1));
        }
        t
    } else {
        cs
    };
    if d.len() == 0 {
        return None;
    }
    let mut n: usize = 0;
    let mut i: usize = 0;
    let mut big: bool = false;
    proof {
        assert(d@.take(0) =~= Seq::<char>::empty());
    }
    while i < d.len()
        invariant
            0 <= i <= d@.len(),
            forall|k: int| 0 <= k < i ==> is_digit(#[trigger] d@[k]),
            big ==> decimal(d@.take(i as int)) > usize::MAX,
            !big ==> n == decimal(d@.take(i as int)),
            d@.len() > 0,
            d@ == without_plus(cs@),
        decreases d@.len() - i,
    {
        let c: char = d[i];
        if !('0' <= c && c <= '9') {
            proof {
                assert(!is_digit(d@[i as int]));
                assert(!all_digits(d@));
            }
            return None;
        }
        let v: usize = (c as u32 - '0' as u32) as usize;
        proof {
            assert(d@.take(i + 1).drop_last() =~= d@.take(i as int));
            assert(d@.take(i + 1).last() == c);
        }
        if !big {
            if n > (usize::MAX - v) / 10 {
                big = true;
            } else {
                n = n * 10 + v;
            }
        }
        i = i + 1;
    }
    proof {
        assert(d@.take(d@.len() as int) =~= d@);
    }
    if big {
        None
    } else {
        Some(n)
    }
}

fn without_brackets<'a>(cs: &'a [char]) -> (r: &'a [char])
    ensures
        r@ == drop_brackets(skip_brackets(cs@)),
{
    let mut t = cs;
    while t.len() > 0 && (t[0] == '[' || t[0] == ']')
        invariant
            skip_brackets(cs@) == skip_brackets(t@),
        decreases t@.len(),
    {
        let u = slice_subrange(t, 1, t.len());
        proof {
            assert(u@ =~= t@.drop_first());
        }
        t = u;
    }
    let ghost front = t@;
    while t.len() > 0 && (t[t.len() - 1] == '[' || t[t.len() - 1] == ']')
        invariant
            drop_brackets(front) == drop_brackets(t@),
        decreases t@.len(),
    {
        let u = slice_subrange(t, 0, t.len() - 1);
        proof {
            assert(u@ =~= t@.drop_last());
        }
        t = u;
    }
    t
}

/// Parses the text of a query: `#tag`, `link:note`, `limit:n`, and words.
pub fn parse_query(body: &str) -> (r: QuerySpec)
    ensures
        r@ == query_of(body@),
{
    let cs: Vec<char> = chars_of(body);
    let toks: Vec<String> = split_tokens(cs.as_slice());
    let ghost ts = texts(toks@);
    let mut q = QuerySpec { tags: Vec::new(), terms: Vec::new(), links: Vec::new(), limit: 20 };
    let mut k: usize = 0;
    proof {
        assert(q@.tags =~= Seq::<Seq<char>>::empty());
        assert(q@.terms =~= Seq::<Seq<char>>::empty());
        assert(q@.links =~= Seq::<Seq<char>>::empty());
        assert(ts.skip(0) =~= ts);
    }
    while k < toks.len()
        invariant
            0 <= k <= toks@.len(),
            ts == texts(toks@),
            with_tokens(default_query(), ts) == with_tokens(q@, ts.skip(k as int)),
        decreases toks@.len() - k,
    {
        let ghost q0 = q@;
        let tok: Vec<char> = chars_of(&toks[k]);
        let t = tok.as_slice();
        proof {
            assert(ts.skip(k as int)[0] == t@);
            assert(ts.skip(k as int).drop_first() =~= ts.skip(k + 1));
            reveal_strlit("link:");
            reveal_strlit("limit:");
        }
        if t.len() > 0 && t[0] == '#' {
            if t.len() > 1 {
                let rest = slice_subrange(t, 1, t.len());
                proof {
                    assert(rest@ =~= t@.skip(1));
                }
                push_text(&mut q.tags, string_of(rest));
            }
        } else if starts_with(t, "link:") {
            let rest = slice_subrange(t, 5, t.len());
            proof {
                assert(rest@ =~= t@.skip(5));
            }
            let link = trim_chars(without_brackets(rest));
            if link.len() > 0 {
                push_text(&mut q.links, string_of(link));
            }
        } else if starts_with(t, "limit:") {
            let rest = slice_subrange(t, 6, t.len());
            proof {
                assert(rest@ =~= t@.skip(6));
            }
            match parse_number(rest) {
                Some(n) => {
                    q.limit = if n < 1 {
                        1
                    } else if n > 200 {
                        200
                    } else {
                        n
                    };
                },
                None => {},
            }
        } else if t.len() > 0 {
            push_text(&mut q.terms, string_of(t));
        }
        proof {
            assert(q@ == with_token(q0, t@));
        }
        k = k + 1;
    }
    proof {
        assert(ts.skip(k as int) =~= Seq::<Seq<char>>::empty());
    }
    q
}

/// The number of results of a query is between one and two hundred.
pub proof fn query_limit_is_bounded(body: Seq<char>)
    ensures
        1 <= query_of(body).limit <= 200,
{
    lemma_limit(default_query(), tokens(body, Seq::empty(), false));
}

proof fn lemma_limit(q: QueryModel, ts: Seq<Seq<char>>)
    requires
        1 <= q.limit <= 200,
    ensures
        1 <= with_tokens(q, ts).limit <= 200,
    decreases ts.len(),
{
    if ts.len() > 0 {
        lemma_limit(with_token(q, ts[0]), ts.drop_first());
    }
}

// ---------- what a note says ----------

/// A tag as it is written in a list: without white space and quotes around it;
/// nothing if nothing is left.
pub open spec fn list_tag(s: Seq<char>) -> Seq<Seq<char>> {
    token_of(trim_run(trim_run(trim(s), '"'), '\''))
}

pub open spec fn list_tags(parts: Seq<Seq<char>>) -> Seq<Seq<char>>
    decreases parts.len(),
{
    if parts.len() == 0 {
        Seq::empty()
    } else {
        list_tag(parts[0]) + list_tags(parts.drop_first())
    }
}

/// The tags behind `tags:` on the same line: those of a list in brackets.
pub open spec fn inline_tags(s: Seq<char>) -> Seq<Seq<char>> {
    let t = trim(s);
    if t.len() > 0 && t[0] == '[' {
        list_tags(split_on(trim(trim_run_end(t.skip(run_of(t, '[')), ']')), ','))
    } else {
        Seq::empty()
    }
}

/// The tags in the lines of a note's front matter: behind the first `tags:`, and in
/// the items below it.
pub open spec fn matter_tags(lines: Seq<Seq<char>>, inside: bool) -> Seq<Seq<char>>
    decreases lines.len(),
{
    if lines.len() == 0 {
        Seq::empty()
    } else {
        let l = trim_start(lines[0]);
        let rest = lines.drop_first();
        if !inside {
            if "tags:"@.is_prefix_of(l) {
                inline_tags(l.skip(5)) + matter_tags(rest, true)
            } else {
                matter_tags(rest, false)
            }
        } else if "- "@.is_prefix_of(l) {
            list_tag(l.skip(2)) + matter_tags(rest, true)
        } else if l.len() > 0 && l[0] == '-' {
            matter_tags(rest, true)
        } else {
            Seq::empty()
        }
    }
}

/// The tags of a note's front matter, which stands between two lines of `---`.
pub open spec fn front_tags(content: Seq<char>) -> Seq<Seq<char>> {
    if "---"@.is_prefix_of(content) {
        match find_from(content.skip(3), "\n---"@, 0) {
            Some(e) => matter_tags(lines_of(content.skip(3).take(e)), false),
            None => Seq::empty(),
        }
    } else {
        Seq::empty()
    }
}

/// The tags of a line from index `i` on.
pub open spec fn line_tags(s: Seq<char>, i: int) -> Seq<Seq<char>>
    decreases s.len() - i,
{
    proof {
        lemma_word_end(s, i + 1);
    }
    if i < 0 || i >= s.len() {
        Seq::empty()
    } else {
        match tag_at(s, i) {
            Some(j) => seq![s.subrange(i + 1, j)] + line_tags(s, j),
            None => line_tags(s, i + 1),
        }
    }
}

/// Where the link closes that opens at index `i` of `s`.
pub open spec fn link_end(s: Seq<char>, i: int) -> Option<int> {
    if 0 <= i && i + 1 < s.len() && s[i] == '[' && s[i + 1] == '[' {
        find_from(s, seq![']', ']'], i + 2)
    } else {
        None
    }
}

/// The note that a link names which opens at index `i` and closes at index `j`.
pub open spec fn link_target(s: Seq<char>, i: int, j: int) -> Seq<char> {
    let inner = s.subrange(i + 2, j);
    trim(inner.take(index_of(inner, '|')))
}

/// The notes that the links of a line name, from index `i` on.
pub open spec fn line_links(s: Seq<char>, i: int) -> Seq<Seq<char>>
    decreases s.len() - i,
{
    proof {
        lemma_find_from(s, seq![']', ']'], i + 2);
    }
    if i < 0 || i >= s.len() {
        Seq::empty()
    } else {
        match link_end(s, i) {
            Some(j) => token_of(link_target(s, i, j)) + line_links(s, j + 2),
            None => line_links(s, i + 1),
        }
    }
}

/// Whether a line links, from index `i` on, to a note of this lower-case name.
pub open spec fn links_lower(s: Seq<char>, name: Seq<char>, i: int) -> bool
    decreases s.len() - i,
{
    proof {
        lemma_find_from(s, seq![']', ']'], i + 2);
    }
    if i < 0 || i >= s.len() {
        false
    } else {
        match link_end(s, i) {
            Some(j) => lowercase(link_target(s, i, j)) == name || links_lower(s, name, j + 2),
            None => links_lower(s, name, i + 1),
        }
    }
}

/// Whether a line links to a note, in upper or lower case.
pub open spec fn line_links_to(s: Seq<char>, target: Seq<char>) -> bool {
    links_lower(s, lowercase(trim(target)), 0)
}

/// The tags of all lines.
pub open spec fn all_line_tags(lines: Seq<Seq<char>>) -> Seq<Seq<char>>
    decreases lines.len(),
{
    if lines.len() == 0 {
        Seq::empty()
    } else {
        all_line_tags(lines.drop_last()) + line_tags(lines.last(), 0)
    }
}

/// The links of all lines.
pub open spec fn all_line_links(lines: Seq<Seq<char>>) -> Seq<Seq<char>>
    decreases lines.len(),
{
    if lines.len() == 0 {
        Seq::empty()
    } else {
        all_line_links(lines.drop_last()) + line_links(lines.last(), 0)
    }
}

/// `v` with each text only where it stands first.
pub open spec fn firsts(v: Seq<Seq<char>>) -> Seq<Seq<char>>
    decreases v.len(),
{
    if v.len() == 0 {
        Seq::empty()
    } else {
        let f = firsts(v.drop_last());
        if f.contains(v.last()) {
            f
        } else {
            f.push(v.last())
        }
    }
}

/// What a note says of itself.
#[derive(Clone, Debug)]
pub struct NoteMeta {
    pub path: String,
    /// The file name without its extension.
    pub name: String,
    /// Tags without `#`, each once.
    pub tags: Vec<String>,
    /// Names of linked notes, each once.
    pub outgoing: Vec<String>,
}

pub struct NoteModel {
    pub path: Seq<char>,
    pub name: Seq<char>,
    pub tags: Seq<Seq<char>>,
    pub outgoing: Seq<Seq<char>>,
}

impl View for NoteMeta {
    type V = NoteModel;

    open spec fn view(&self) -> NoteModel {
        NoteModel {
            path: self.path@,
            name: self.name@,
            tags: texts(self.tags@),
            outgoing: texts(self.outgoing@),
        }
    }
}

pub open spec fn notes_model(v: Seq<NoteMeta>) -> Seq<NoteModel> {
    v.map_values(|n: NoteMeta| n@)
}

/// What the note at `path` with this text says of itself.
pub open spec fn note_of(path: Seq<char>, content: Seq<char>) -> NoteModel {
    NoteModel {
        path,
        name: match file_stem(path) {
            Some(s) => s,
            None => Seq::empty(),
        },
        tags: firsts(front_tags(content) + all_line_tags(lines_of(content))),
        outgoing: firsts(all_line_links(lines_of(content))),
    }
}

/// Each of them once, in the order in which they come first.
pub proof fn firsts_has_no_duplicates(v: Seq<Seq<char>>)
    ensures
        firsts(v).no_duplicates(),
        forall|x: Seq<char>|
            #![trigger firsts(v).contains(x)]
            #![trigger v.contains(x)]
            firsts(v).contains(x) <==> v.contains(x),
    decreases v.len(),
{
    if v.len() > 0 {
        let w = v.drop_last();
        firsts_has_no_duplicates(w);
        let f = firsts(w);
        assert forall|x: Seq<char>|
            #![trigger firsts(v).contains(x)]
            #![trigger v.contains(x)]
            firsts(v).contains(x) <==> v.contains(x) by {
            assert(v =~= w.push(v.last()));
            if v.contains(x) {
                let k = choose|k: int| 0 <= k < v.len() && v[k] == x;
                if k < w.len() {
                    assert(w[k] == x);
                    assert(w.contains(x));
                    assert(f.contains(x));
                    let j = choose|j: int| 0 <= j < f.len() && f[j] == x;
                    assert(firsts(v)[j] == x);
                } else if !f.contains(v.last()) {
                    assert(firsts(v)[f.len() as int] == x);
                }
            }
            if firsts(v).contains(x) {
                let j = choose|j: int| 0 <= j < firsts(v).len() && firsts(v)[j] == x;
                if j < f.len() {
                    assert(f[j] == x);
                    assert(f.contains(x));
                    assert(w.contains(x));
                    let k = choose|k: int| 0 <= k < w.len() && w[k] == x;
                    assert(v[k] == x);
                } else {
                    assert(v[v.len() - 1] == x);
                }
            }
        }
    }
}

// ---------- reading notes ----------

/// Appends a tag as it is written in a list.
fn push_list_tag(out: &mut Vec<String>, cs: &[char])
    ensures
        texts(final(out)@) == texts(old(out)@) + list_tag(cs@),
{
    let t = trim_run_chars(trim_run_chars(trim_chars(cs), '"'), '\'');
    if t.len() > 0 {
        push_text(out, string_of(t));
    }
    proof {
        assert(texts(out@) =~= texts(old(out)@) + list_tag(cs@));
    }
}

fn push_inline_tags(out: &mut Vec<String>, cs: &[char])
    ensures
        texts(final(out)@) == texts(old(out)@) + inline_tags(cs@),
{
    let t = trim_chars(cs);
    if t.len() == 0 || t[0] != '[' {
        proof {
            assert(texts(out@) =~= texts(old(out)@) + inline_tags(cs@));
        }
        return ;
    }
    let n: usize = crate::text::count_run(t, '[');
    let u = slice_subrange(t, n, t.len());
    proof {
        assert(u@ =~= t@.skip(n as int));
    }
    let inner = trim_chars(trim_run_end_chars(u, ']'));
    let parts: Vec<&[char]> = split_chars(inner, ',');
    let ghost ps = slices(parts@);
    let mut k: usize = 0;
    proof {
        assert(ps.skip(0) =~= ps);
    }
    while k < parts.len()
        invariant
            0 <= k <= parts@.len(),
            ps == slices(parts@),
            texts(old(out)@) + list_tags(ps) == texts(out@) + list_tags(ps.skip(k as int)),
        decreases parts@.len() - k,
    {
        let ghost before = texts(out@);
        proof {
            assert(ps.skip(k as int)[0] == parts@[k as int]@);
            assert(ps.skip(k as int).drop_first() =~= ps.skip(k + 1));
        }
        push_list_tag(out, parts[k]);
        proof {
            let x = list_tag(parts@[k as int]@);
            let rest = list_tags(ps.skip(k + 1));
            assert(texts(out@) + rest =~= before + (x + rest));
        }
        k = k + 1;
    }
    proof {
        assert(ps.skip(k as int) =~= Seq::<Seq<char>>::empty());
        assert(texts(out@) + list_tags(ps.skip(k as int)) =~= texts(out@));
    }
}

/// The tags of a note's front matter.
fn parse_frontmatter_tags(content: &[char]) -> (r: Vec<String>)
    ensures
        texts(r@) == front_tags(content@),
{
    let mut tags: Vec<String> = Vec::new();
    proof {
        reveal_strlit("---");
        reveal_strlit("\n---");
        reveal_strlit("tags:");
        reveal_strlit("- ");
        assert(texts(tags@) =~= Seq::<Seq<char>>::empty());
    }
    if !starts_with(content, "---") {
        return tags;
    }
    let rest = slice_subrange(content, 3, content.len());
    let mark: Vec<char> = chars_of("\n---");
    proof {
        assert(rest@ =~= content@.skip(3));
    }
    let end: usize = match find_chars(rest, mark.as_slice(), 0) {
        Some(e) => e,
        None => {
            return tags;
        },
    };
    let head = slice_subrange(rest, 0, end);
    proof {
        assert(head@ =~= rest@.take(end as int));
    }
    let lines: Vec<&[char]> = lines_chars(head);
    let ghost ls = slices(lines@);
    let mut inside: bool = false;
    let mut k: usize = 0;
    proof {
        assert(ls.skip(0) =~= ls);
        assert(texts(tags@) + matter_tags(ls, false) =~= matter_tags(ls, false));
    }
    while k < lines.len()
        invariant
            0 <= k <= lines@.len(),
            ls == slices(lines@),
            "tags:"@.len() == 5,
            "- "@.len() == 2,
            front_tags(content@) == matter_tags(ls, false),
            matter_tags(ls, false) == texts(tags@) + matter_tags(ls.skip(k as int), inside),
        decreases lines@.len() - k,
    {
        let ghost before = texts(tags@);
        proof {
            assert(ls.skip(k as int)[0] == lines@[k as int]@);
            assert(ls.skip(k as int).drop_first() =~= ls.skip(k + 1));
        }
        let l = trim_start_chars(lines[k]);
        if !inside {
            if starts_with(l, "tags:") {
                let after = slice_subrange(l, 5, l.len());
                proof {
                    assert(after@ =~= l@.skip(5));
                }
                push_inline_tags(&mut tags, after);
                inside = true;
                proof {
                    let x = inline_tags(l@.skip(5));
                    let more = matter_tags(ls.skip(k + 1), true);
                    assert(texts(tags@) + more =~= before + (x + more));
                }
            }
        } else if starts_with(l, "- ") {
            let after = slice_subrange(l, 2, l.len());
            proof {
                assert(after@ =~= l@.skip(2));
            }
            push_list_tag(&mut tags, after);
            proof {
                let x = list_tag(l@.skip(2));
                let more = matter_tags(ls.skip(k + 1), true);
                assert(texts(tags@) + more =~= before + (x + more));
            }
        } else if !(l.len() > 0 && l[0] == '-') {
            proof {
                assert(before + Seq::<Seq<char>>::empty() =~= before);
            }
            return tags;
        }
        k = k + 1;
    }
    proof {
        assert(ls.skip(k as int) =~= Seq::<Seq<char>>::empty());
        assert(texts(tags@) + matter_tags(ls.skip(k as int), inside) =~= texts(tags@));
    }
    tags
}

/// Appends the tags of a line.
pub fn collect_tags(line: &str, out: &mut Vec<String>)
    ensures
        texts(final(out)@) == texts(old(out)@) + line_tags(line@, 0),
{
    let cs: Vec<char> = chars_of(line);
    push_line_tags(cs.as_slice(), out);
}

fn push_line_tags(cs: &[char], out: &mut Vec<String>)
    ensures
        texts(final(out)@) == texts(old(out)@) + line_tags(cs@, 0),
{
    let mut i: usize = 0;
    while i < cs.len()
        invariant
            0 <= i <= cs@.len(),
            texts(old(out)@) + line_tags(cs@, 0) == texts(out@) + line_tags(cs@, i as int),
        decreases cs@.len() - i,
    {
        let ghost before = texts(out@);
        match tag_here(cs, i) {
            Some(j) => {
                push_text(out, string_of(slice_subrange(cs, i + 1, j)));
                proof {
                    let x = cs@.subrange(i + 1, j as int);
                    assert(texts(out@) + line_tags(cs@, j as int) =~= before + (seq![x] + line_tags(
                        cs@,
                        j as int,
                    )));
                }
                i = j;
            },
            None => {
                i = i + 1;
            },
        }
    }
    proof {
        assert(texts(out@) + line_tags(cs@, i as int) =~= texts(out@));
    }
}

/// Where the link closes that opens at index `i`.
fn link_end_at(cs: &[char], i: usize) -> (r: Option<usize>)
    requires
        i < cs@.len(),
    ensures
        match r {
            Some(j) => link_end(cs@, i as int) == Some(j as int) && i + 2 <= j && j + 2 <= cs@.len(),
            None => link_end(cs@, i as int) is None,
        },
{
    if cs.len() - i < 2 || cs[i] != '[' || cs[i + 1] != '[' {
        return None;
    }
    let mut close: Vec<char> = Vec::new();
    close.push(']');
    close.push(']');
    proof {
        assert(close@ =~= seq![']', ']']);
    }
    find_chars(cs, close.as_slice(), i + 2)
}

/// The note that a link names.
fn target_of<'a>(cs: &'a [char], i: usize, j: usize) -> (r: &'a [char])
    requires
        i + 2 <= j <= cs@.len(),
    ensures
        r@ == link_target(cs@, i as int, j as int),
{
    let inner = slice_subrange(cs, i + 2, j);
    let bar: usize = find_char(inner, '|');
    proof {
        assert(inner@.subrange(0, bar as int) =~= inner@.take(bar as int));
    }
    trim_chars(slice_subrange(inner, 0, bar))
}

/// Appends the notes that the links of a line name.
pub fn collect_wikilinks(line: &str, out: &mut Vec<String>)
    ensures
        texts(final(out)@) == texts(old(out)@) + line_links(line@, 0),
{
    let cs: Vec<char> = chars_of(line);
    push_line_links(cs.as_slice(), out);
}

fn push_line_links(cs: &[char], out: &mut Vec<String>)
    ensures
        texts(final(out)@) == texts(old(out)@) + line_links(cs@, 0),
{
    let mut i: usize = 0;
    while i < cs.len()
        invariant
            0 <= i <= cs@.len(),
            texts(old(out)@) + line_links(cs@, 0) == texts(out@) + line_links(cs@, i as int),
        decreases cs@.len() - i,
    {
        let ghost before = texts(out@);
        match link_end_at(cs, i) {
            Some(j) => {
                let t = target_of(cs, i, j);
                if t.len() > 0 {
                    push_text(out, string_of(t));
                }
                proof {
                    let rest = line_links(cs@, j + 2);
                    assert(texts(out@) =~= before + token_of(t@));
                    assert(texts(out@) + rest =~= before + (token_of(t@) + rest));
                }
                i = j + 2;
            },
            None => {
                i = i + 1;
            },
        }
    }
    proof {
        assert(texts(out@) + line_links(cs@, i as int) =~= texts(out@));
    }
}

/// Whether one of these names is `name` in lower case.
pub open spec fn some_is_lower(names: Seq<Seq<char>>, name: Seq<char>) -> bool {
    exists|k: int| 0 <= k < names.len() && lowercase(#[trigger] names[k]) == name
}

/// Whether a line links to a note, in upper or lower case: whether one of the notes that
/// its links name is this one.
pub fn line_contains_wikilink(line: &str, target: &str) -> (r: bool)
    ensures
        r == line_links_to(line@, target@),
        trim(target@).len() > 0 ==> r == some_is_lower(
            line_links(line@, 0),
            lowercase(trim(target@)),
        ),
{
    let cs: Vec<char> = chars_of(line);
    let tc: Vec<char> = chars_of(target);
    let low: Vec<char> = chars_of(&string_of(trim_chars(tc.as_slice())).to_lowercase());
    has_link_lower(cs.as_slice(), low.as_slice())
}

/// Whether a line links to a note of this lower-case name.
fn has_link_lower(cs: &[char], name: &[char]) -> (r: bool)
    ensures
        r == links_lower(cs@, name@, 0),
        name@.len() > 0 ==> r == some_is_lower(line_links(cs@, 0), name@),
{
    let mut i: usize = 0;
    let ghost mut seen = Seq::<Seq<char>>::empty();
    proof {
        assert(seen + line_links(cs@, 0) =~= line_links(cs@, 0));
    }
    while i < cs.len()
        invariant
            0 <= i <= cs@.len(),
            links_lower(cs@, name@, 0) == links_lower(cs@, name@, i as int),
            line_links(cs@, 0) == seen + line_links(cs@, i as int),
            name@.len() > 0 ==> !some_is_lower(seen, name@),
        decreases cs@.len() - i,
    {
        match link_end_at(cs, i) {
            Some(j) => {
                let t: String = string_of(target_of(cs, i, j));
                let low: Vec<char> = chars_of(&t.to_lowercase());
                let ghost rest = line_links(cs@, j + 2);
                let ghost more = seen + token_of(t@);
                proof {
                    assert(line_links(cs@, 0) =~= more + rest);
                }
                if same_chars(low.as_slice(), name) {
                    proof {
                        if name@.len() > 0 {
                            assert(more[seen.len() as int] == t@);
                            assert(line_links(cs@, 0)[seen.len() as int] == t@);
                        }
                    }
                    return true;
                }
                proof {
                    if name@.len() > 0 && some_is_lower(more, name@) {
                        let k = choose|k: int|
                            0 <= k < more.len() && lowercase(#[trigger] more[k]) == name@;
                        if k < seen.len() {
                            assert(seen[k] == more[k]);
                        }
                    }
                    seen = more;
                }
                i = j + 2;
            },
            None => {
                i = i + 1;
            },
        }
    }
    proof {
        assert(line_links(cs@, 0) =~= seen);
    }
    false
}

/// Whether `v` holds the text `s`.
pub(crate) fn holds_text(v: &Vec<String>, s: &str) -> (r: bool)
    ensures
        r == texts(v@).contains(s@),
{
    let mut k: usize = 0;
    while k < v.len()
        invariant
            0 <= k <= v@.len(),
            forall|j: int| 0 <= j < k ==> (#[trigger] v@[j])@ != s@,
        decreases v@.len() - k,
    {
        if same_text(&v[k], s) {
            proof {
                assert(texts(v@)[k as int] == s@);
            }
            return true;
        }
        k = k + 1;
    }
    proof {
        assert forall|j: int| 0 <= j < texts(v@).len() implies texts(v@)[j] != s@ by {
            assert(texts(v@)[j] == v@[j]@);
        }
    }
    false
}

/// Each text only where it stands first.
fn dedupe(v: &Vec<String>) -> (r: Vec<String>)
    ensures
        texts(r@) == firsts(texts(v@)),
{
    let mut out: Vec<String> = Vec::new();
    let ghost ts = texts(v@);
    let mut k: usize = 0;
    proof {
        assert(ts.take(0) =~= Seq::<Seq<char>>::empty());
        assert(texts(out@) =~= Seq::<Seq<char>>::empty());
    }
    while k < v.len()
        invariant
            0 <= k <= v@.len(),
            ts == texts(v@),
            texts(out@) == firsts(ts.take(k as int)),
        decreases v@.len() - k,
    {
        proof {
            assert(ts.take(k + 1).drop_last() =~= ts.take(k as int));
            assert(ts.take(k + 1).last() == v@[k as int]@);
        }
        if !holds_text(&out, &v[k]) {
            push_text(&mut out, v[k].clone());
        }
        k = k + 1;
    }
    proof {
        assert(ts.take(ts.len() as int) =~= ts);
    }
    out
}

/// What the note at `path` with this text says of itself.
pub fn analyze(path: &str, content: &str) -> (r: NoteMeta)
    ensures
        r@ == note_of(path@, content@),
{
    let cs: Vec<char> = chars_of(content);
    let lines: Vec<&[char]> = lines_chars(cs.as_slice());
    let ghost ls = slices(lines@);
    let mut tags: Vec<String> = parse_frontmatter_tags(cs.as_slice());
    let mut outgoing: Vec<String> = Vec::new();
    let mut k: usize = 0;
    proof {
        assert(ls.take(0) =~= Seq::<Seq<char>>::empty());
        assert(texts(tags@) =~= front_tags(content@) + all_line_tags(ls.take(0)));
        assert(texts(outgoing@) =~= Seq::<Seq<char>>::empty());
    }
    while k < lines.len()
        invariant
            0 <= k <= lines@.len(),
            ls == slices(lines@),
            texts(tags@) == front_tags(content@) + all_line_tags(ls.take(k as int)),
            texts(outgoing@) == all_line_links(ls.take(k as int)),
        decreases lines@.len() - k,
    {
        let ghost before = texts(tags@);
        push_line_tags(lines[k], &mut tags);
        push_line_links(lines[k], &mut outgoing);
        proof {
            assert(ls.take(k + 1).drop_last() =~= ls.take(k as int));
            assert(ls.take(k + 1).last() == lines@[k as int]@);
            assert(texts(tags@) =~= front_tags(content@) + all_line_tags(ls.take(k + 1)));
        }
        k = k + 1;
    }
    proof {
        assert(ls.take(ls.len() as int) =~= ls);
    }
    let name: String = match file_stem_of(path) {
        Some(s) => string_of(s.as_slice()),
        None => String::new(),
    };
    let r = NoteMeta {
        path: path.to_owned(),
        name,
        tags: dedupe(&tags),
        outgoing: dedupe(&outgoing),
    };
    r
}

// ---------- the index ----------

/// A note as it was read; no text if it could not be.
#[derive(Clone, Debug)]
pub struct NoteFile {
    pub path: String,
    pub text: Option<String>,
}

pub open spec fn opt_text(o: Option<String>) -> Option<Seq<char>> {
    match o {
        Some(s) => Some(s@),
        None => None,
    }
}

/// What the notes say that could be read, in order.
pub open spec fn notes_of(files: Seq<NoteFile>) -> Seq<NoteModel>
    decreases files.len(),
{
    if files.len() == 0 {
        Seq::empty()
    } else {
        let rest = notes_of(files.drop_last());
        match files.last().text {
            Some(t) => rest.push(note_of(files.last().path@, t@)),
            None => rest,
        }
    }
}

/// The index of a vault.
#[derive(Clone)]
pub struct VaultIndex {
    notes: Vec<NoteMeta>,
    /// The names of the notes in lower case.
    stems: Vec<String>,
}

impl View for VaultIndex {
    type V = Seq<NoteModel>;

    closed spec fn view(&self) -> Seq<NoteModel> {
        notes_model(self.notes@)
    }
}

/// The extensions of note files.
pub open spec fn is_note_extension(e: Seq<char>) -> bool {
    ||| same_ignoring_case(e, "md"@)
    ||| same_ignoring_case(e, "markdown"@)
    ||| same_ignoring_case(e, "mdx"@)
    ||| same_ignoring_case(e, "txt"@)
}

/// A link's target without the extension of a note file.
pub open spec fn target_stem(t: Seq<char>) -> Seq<char> {
    let k = last_index_of(t, '.');
    if k >= 0 && is_note_extension(t.skip(k + 1)) {
        t.take(k)
    } else {
        t
    }
}

/// The name that a link's target is looked up by.
pub open spec fn target_key(target: Seq<char>) -> Seq<char> {
    lowercase(target_stem(trim(target)))
}

/// The path of a note as links name it: in lower case, without the extension.
pub open spec fn path_key(path: Seq<char>) -> Seq<char> {
    lowercase(target_stem(path))
}

/// Among the first `n` notes whose path without its extension ends with `key`, the first
/// of those with the fewest parts.
pub open spec fn best_by_path(notes: Seq<NoteModel>, key: Seq<char>, n: int) -> Option<int>
    decreases n,
{
    if n <= 0 {
        None
    } else {
        let b = best_by_path(notes, key, n - 1);
        if key.is_suffix_of(path_key(notes[n - 1].path)) && (b is None || depth(notes[n - 1].path)
            < depth(notes[b->0].path)) {
            Some(n - 1)
        } else {
            b
        }
    }
}

/// The first note from `k` on of this lower-case name.
pub open spec fn first_by_name(notes: Seq<NoteModel>, key: Seq<char>, k: int) -> Option<int>
    decreases notes.len() - k,
{
    if k < 0 || k >= notes.len() {
        None
    } else if lowercase(notes[k].name) == key {
        Some(k)
    } else {
        first_by_name(notes, key, k + 1)
    }
}

/// The note that a link leads to: by the end of its path, if the link holds a `/`;
/// else, or failing that, by its name.
pub open spec fn resolved(notes: Seq<NoteModel>, target: Seq<char>) -> Option<int> {
    let key = target_key(target);
    if trim(target).len() == 0 {
        None
    } else if key.contains('/') && best_by_path(notes, key, notes.len() as int) is Some {
        best_by_path(notes, key, notes.len() as int)
    } else {
        first_by_name(notes, key, 0)
    }
}

pub proof fn lemma_best_by_path(notes: Seq<NoteModel>, key: Seq<char>, n: int)
    requires
        0 <= n <= notes.len(),
    ensures
        best_by_path(notes, key, n) matches Some(i) ==> 0 <= i < n && key.is_suffix_of(
            path_key(notes[i].path),
        ),
        forall|j: int|
            0 <= j < n && key.is_suffix_of(path_key((#[trigger] notes[j]).path)) ==> {
                let b = best_by_path(notes, key, n);
                b is Some && (depth(notes[b->0].path) < depth(notes[j].path) || (depth(
                    notes[b->0].path,
                ) == depth(notes[j].path) && b->0 <= j))
            },
    decreases n,
{
    if n > 0 {
        lemma_best_by_path(notes, key, n - 1);
    }
}

pub proof fn lemma_first_by_name(notes: Seq<NoteModel>, key: Seq<char>, k: int)
    requires
        0 <= k <= notes.len(),
    ensures
        first_by_name(notes, key, k) matches Some(i) ==> k <= i < notes.len() && lowercase(
            notes[i].name,
        ) == key,
        forall|j: int|
            k <= j < notes.len() && lowercase((#[trigger] notes[j]).name) == key ==> first_by_name(
                notes,
                key,
                k,
            ) is Some && first_by_name(notes, key, k)->0 <= j,
    decreases notes.len() - k,
{
    if k < notes.len() && lowercase(notes[k].name) != key {
        lemma_first_by_name(notes, key, k + 1);
    }
}


/// A link by name finds the note whatever the case of its letters, as far as lower
/// case takes it away.
pub proof fn links_ignore_case(notes: Seq<NoteModel>, a: Seq<char>, b: Seq<char>)
    requires
        target_key(a) == target_key(b),
        trim(a).len() > 0,
        trim(b).len() > 0,
    ensures
        resolved(notes, a) == resolved(notes, b),
{
}

/// A link with a `/` leads to a note whose path ends with it, whatever the case of the
/// letters and with or without the extension, if there is one; and to none with more
/// parts in its path than another such note.
pub proof fn links_lead_to_ends_of_paths(notes: Seq<NoteModel>, target: Seq<char>, j: int)
    requires
        trim(target).len() > 0,
        target_key(target).contains('/'),
        0 <= j < notes.len(),
        target_key(target).is_suffix_of(path_key(notes[j].path)),
    ensures
        resolved(notes, target) matches Some(i) && 0 <= i < notes.len()
            && target_key(target).is_suffix_of(path_key(notes[i].path)) && depth(notes[i].path)
            <= depth(notes[j].path),
{
    lemma_best_by_path(notes, target_key(target), notes.len() as int);
}

/// The path that a link leads to.
pub open spec fn resolved_path(notes: Seq<NoteModel>, target: Seq<char>) -> Option<Seq<char>> {
    match resolved(notes, target) {
        Some(i) => Some(notes[i].path),
        None => None,
    }
}

/// Whether a note links to `target`: to the same note, or, if there is none, by the
/// same words.
pub open spec fn note_links_to(notes: Seq<NoteModel>, note: NoteModel, target: Seq<char>) -> bool {
    exists|k: int|
        0 <= k < note.outgoing.len() && match resolved_path(notes, target) {
            Some(d) => resolved_path(notes, #[trigger] note.outgoing[k]) == Some(d),
            None => same_ignoring_case(note.outgoing[k], target),
        }
}

pub(crate) fn note_extension(cs: &[char]) -> (r: bool)
    ensures
        r == is_note_extension(cs@),
{
    let md: Vec<char> = chars_of("md");
    let markdown: Vec<char> = chars_of("markdown");
    let mdx: Vec<char> = chars_of("mdx");
    let txt: Vec<char> = chars_of("txt");
    eq_ignore_case(cs, md.as_slice()) || eq_ignore_case(cs, markdown.as_slice()) || eq_ignore_case(
        cs,
        mdx.as_slice(),
    ) || eq_ignore_case(cs, txt.as_slice())
}

/// A link's target or a path in lower case, without the extension of a note file.
fn key_of(t: &[char]) -> (r: Vec<char>)
    ensures
        r@ == lowercase(target_stem(t@)),
{
    let n: usize = t.len();
    let stem = match rfind_char(t, '.') {
        Some(k) => {
            let e = slice_subrange(t, k + 1, n);
            proof {
                assert(e@ =~= t@.skip(k + 1));
                assert(t@.subrange(0, k as int) =~= t@.take(k as int));
            }
            if note_extension(e) {
                slice_subrange(t, 0, k)
            } else {
                t
            }
        },
        None => t,
    };
    chars_of(&string_of(stem).to_lowercase())
}

impl VaultIndex {
    pub closed spec fn wf(&self) -> bool {
        &&& self.stems@.len() == self.notes@.len()
        &&& forall|k: int|
            0 <= k < self.notes@.len() ==> (#[trigger] self.stems@[k])@ == lowercase(
                self.notes@[k].name@,
            )
    }

    /// The index of these notes.
    pub fn from_notes(notes: Vec<NoteMeta>) -> (r: VaultIndex)
        ensures
            r.wf(),
            r@ == notes_model(notes@),
    {
        let mut stems: Vec<String> = Vec::new();
        let mut k: usize = 0;
        while k < notes.len()
            invariant
                0 <= k <= notes@.len(),
                stems@.len() == k,
                forall|j: int| 0 <= j < k ==> (#[trigger] stems@[j])@ == lowercase(notes@[j].name@),
            decreases notes@.len() - k,
        {
            stems.push(notes[k].name.to_lowercase());
            k = k + 1;
        }
        VaultIndex { notes, stems }
    }

    /// Builds the index from the notes as they were read.
    pub fn build(files: &Vec<NoteFile>) -> (r: VaultIndex)
        ensures
            r.wf(),
            r@ == notes_of(files@),
    {
        let mut notes: Vec<NoteMeta> = Vec::new();
        let mut k: usize = 0;
        proof {
            assert(notes_model(notes@) =~= notes_of(files@.take(0)));
        }
        while k < files.len()
            invariant
                0 <= k <= files@.len(),
                notes_model(notes@) == notes_of(files@.take(k as int)),
            decreases files@.len() - k,
        {
            proof {
                assert(files@.take(k + 1).drop_last() =~= files@.take(k as int));
                assert(files@.take(k + 1).last() == files@[k as int]);
            }
            match &files[k].text {
                Some(t) => {
                    let ghost before = notes@;
                    let n: NoteMeta = analyze(&files[k].path, t);
                    notes.push(n);
                    proof {
                        assert(notes_model(notes@) =~= notes_model(before).push(n@));
                    }
                },
                None => {},
            }
            k = k + 1;
        }
        proof {
            assert(files@.take(files@.len() as int) =~= files@);
        }
        VaultIndex::from_notes(notes)
    }

    /// Builds the index anew.
    pub fn rebuild(&mut self, files: &Vec<NoteFile>)
        ensures
            final(self).wf(),
            final(self)@ == notes_of(files@),
    {
        *self = VaultIndex::build(files);
    }

    pub fn notes(&self) -> (r: &[NoteMeta])
        ensures
            notes_model(r@) == self@,
    {
        self.notes.as_slice()
    }

    /// The index of the note that a link leads to.
    fn find_target(&self, target: &str) -> (r: Option<usize>)
        requires
            self.wf(),
        ensures
            match r {
                Some(i) => resolved(self@, target@) == Some(i as int) && i < self@.len(),
                None => resolved(self@, target@) is None,
            },
    {
        let cs: Vec<char> = chars_of(target);
        let t = trim_chars(cs.as_slice());
        if t.len() == 0 {
            return None;
        }
        let key: Vec<char> = key_of(t);
        let kc = key.as_slice();
        let n: usize = self.notes.len();
        proof {
            lemma_index_of(kc@, '/');
            assert(kc@.contains('/') == (index_of(kc@, '/') < kc@.len())) by {
                if kc@.contains('/') {
                    let j = choose|j: int| 0 <= j < kc@.len() && kc@[j] == '/';
                }
            }
        }
        if find_char(kc, '/') < kc.len() {
            let mut best: Option<usize> = None;
            let mut best_depth: usize = 0;
            let mut k: usize = 0;
            while k < n
                invariant
                    0 <= k <= n,
                    n == self@.len(),
                    n == self.notes@.len(),
                    self@ == notes_model(self.notes@),
                    match best {
                        Some(i) => best_by_path(self@, kc@, k as int) == Some(i as int) && i < k
                            && best_depth == depth(self@[i as int].path),
                        None => best_by_path(self@, kc@, k as int) is None,
                    },
                decreases n - k,
            {
                proof {
                    assert(self@[k as int].path == self.notes@[k as int].path@);
                }
                let pc: Vec<char> = chars_of(&self.notes[k].path);
                let low: Vec<char> = key_of(pc.as_slice());
                if ends_with(low.as_slice(), kc) {
                    let d: usize = depth_of(&self.notes[k].path);
                    if best.is_none() || d < best_depth {
                        best = Some(k);
                        best_depth = d;
                    }
                }
                k = k + 1;
            }
            if best.is_some() {
                return best;
            }
        }
        let mut k: usize = 0;
        while k < n
            invariant
                0 <= k <= n,
                n == self@.len(),
                n == self.notes@.len(),
                self.wf(),
                self@ == notes_model(self.notes@),
                first_by_name(self@, kc@, 0) == first_by_name(self@, kc@, k as int),
                resolved(self@, target@) == first_by_name(self@, kc@, 0),
            decreases n - k,
        {
            let stem: Vec<char> = chars_of(&self.stems[k]);
            proof {
                assert(self.stems@[k as int]@ == lowercase(self.notes@[k as int].name@));
                assert(self@[k as int].name == self.notes@[k as int].name@);
            }
            if same_chars(stem.as_slice(), kc) {
                return Some(k);
            }
            k = k + 1;
        }
        None
    }

    /// The path of the note that a link leads to.
    pub fn resolve(&self, target: &str) -> (r: Option<&str>)
        requires
            self.wf(),
        ensures
            crate::block::opt_str(r) == resolved_path(self@, target@),
    {
        match self.find_target(target) {
            Some(i) => Some(self.notes[i].path.as_str()),
            None => None,
        }
    }

    /// Whether a note links to `target`.
    fn links_to(&self, k: usize, target: &str) -> (r: bool)
        requires
            self.wf(),
            k < self@.len(),
        ensures
            r == note_links_to(self@, self@[k as int], target@),
    {
        let dest = self.resolve(target);
        let tc: Vec<char> = chars_of(target);
        let out: &Vec<String> = &self.notes[k].outgoing;
        let ghost note = self@[k as int];
        let mut j: usize = 0;
        while j < out.len()
            invariant
                0 <= j <= out@.len(),
                self.wf(),
                k < self@.len(),
                note == self@[k as int],
                note.outgoing == texts(out@),
                tc@ == target@,
                crate::block::opt_str(dest) == resolved_path(self@, target@),
                forall|i: int|
                    0 <= i < j ==> !(match resolved_path(self@, target@) {
                        Some(d) => resolved_path(self@, #[trigger] note.outgoing[i]) == Some(d),
                        None => same_ignoring_case(note.outgoing[i], target@),
                    }),
            decreases out@.len() - j,
        {
            proof {
                assert(note.outgoing[j as int] == out@[j as int]@);
            }
            let hit: bool = match dest {
                Some(d) => match self.resolve(&out[j]) {
                    Some(e) => same_text(d, e),
                    None => false,
                },
                None => {
                    let oc: Vec<char> = chars_of(&out[j]);
                    eq_ignore_case(oc.as_slice(), tc.as_slice())
                },
            };
            if hit {
                return true;
            }
            j = j + 1;
        }
        false
    }

    /// The name of the note at `path`; the file name if there is no such note.
    pub fn name_of(&self, path: &str) -> (r: String)
        ensures
            r@ == note_name(self@, path@),
    {
        let n: usize = self.notes.len();
        let mut k: usize = n;
        while k > 0
            invariant
                0 <= k <= n,
                n == self.notes@.len(),
                self@ == notes_model(self.notes@),
                last_at_path(self@, path@, n as int) == last_at_path(self@, path@, k as int),
            decreases k,
        {
            proof {
                assert(self@[k - 1].path == self.notes@[k - 1].path@);
                assert(self@[k - 1].name == self.notes@[k - 1].name@);
            }
            if same_text(&self.notes[k - 1].path, path) {
                return self.notes[k - 1].name.clone();
            }
            k = k - 1;
        }
        match file_name_of(path) {
            Some(s) => string_of(s.as_slice()),
            None => String::new(),
        }
    }
}

/// The last of the first `n` notes at this path.
pub open spec fn last_at_path(notes: Seq<NoteModel>, path: Seq<char>, n: int) -> Option<int>
    decreases n,
{
    if n <= 0 {
        None
    } else if notes[n - 1].path == path {
        Some(n - 1)
    } else {
        last_at_path(notes, path, n - 1)
    }
}

/// The name of the note at a path.
pub open spec fn note_name(notes: Seq<NoteModel>, path: Seq<char>) -> Seq<char> {
    match last_at_path(notes, path, notes.len() as int) {
        Some(i) => notes[i].name,
        None => match file_name(path) {
            Some(n) => n,
            None => Seq::empty(),
        },
    }
}

// ---------- backlinks ----------

/// A place where one note links to another.
#[derive(Clone, Debug)]
pub struct LinkRef {
    pub source: String,
    pub source_name: String,
    /// The line of the link, from zero.
    pub line: usize,
    /// That line without the white space at its end.
    pub snippet: String,
}

/// A place in a note: a link, or something found.
pub struct PlaceModel {
    pub path: Seq<char>,
    pub name: Seq<char>,
    pub line: int,
    pub snippet: Seq<char>,
}

impl View for LinkRef {
    type V = PlaceModel;

    open spec fn view(&self) -> PlaceModel {
        PlaceModel {
            path: self.source@,
            name: self.source_name@,
            line: self.line as int,
            snippet: self.snippet@,
        }
    }
}

pub open spec fn refs_model(v: Seq<LinkRef>) -> Seq<PlaceModel> {
    v.map_values(|x: LinkRef| x@)
}

/// The text of note `k` as it was read.
pub open spec fn text_at(read: Seq<Option<String>>, k: int) -> Option<Seq<char>> {
    if 0 <= k < read.len() {
        opt_text(read[k])
    } else {
        None
    }
}

/// The lines from line `i` on that link to `target`.
pub open spec fn link_lines(
    note: NoteModel,
    lines: Seq<Seq<char>>,
    target: Seq<char>,
    i: int,
) -> Seq<PlaceModel>
    decreases lines.len() - i,
{
    if i < 0 || i >= lines.len() {
        Seq::empty()
    } else {
        let rest = link_lines(note, lines, target, i + 1);
        if line_links_to(lines[i], target) {
            seq![
                PlaceModel { path: note.path, name: note.name, line: i, snippet: trim_end(lines[i]) },
            ] + rest
        } else {
            rest
        }
    }
}

/// The places where a note links to `path`, through its links from the one at `j` on.
pub open spec fn note_refs(
    notes: Seq<NoteModel>,
    note: NoteModel,
    text: Option<Seq<char>>,
    path: Seq<char>,
    j: int,
) -> Seq<PlaceModel>
    decreases note.outgoing.len() - j,
{
    if j < 0 || j >= note.outgoing.len() {
        Seq::empty()
    } else {
        let rest = note_refs(notes, note, text, path, j + 1);
        match text {
            Some(t) if resolved_path(notes, note.outgoing[j]) == Some(path) => link_lines(
                note,
                lines_of(t),
                note.outgoing[j],
                0,
            ) + rest,
            _ => rest,
        }
    }
}

/// The places where the notes from `k` on link to `path`.
pub open spec fn refs_from(
    notes: Seq<NoteModel>,
    read: Seq<Option<String>>,
    path: Seq<char>,
    k: int,
) -> Seq<PlaceModel>
    decreases notes.len() - k,
{
    if k < 0 || k >= notes.len() {
        Seq::empty()
    } else {
        let rest = refs_from(notes, read, path, k + 1);
        if notes[k].path == path {
            rest
        } else {
            note_refs(notes, notes[k], text_at(read, k), path, 0) + rest
        }
    }
}

impl VaultIndex {
    /// Appends the lines of a note that link to `target`.
    fn push_link_lines(&self, out: &mut Vec<LinkRef>, k: usize, text: &str, target: &str)
        requires
            self.wf(),
            k < self@.len(),
        ensures
            refs_model(final(out)@) == refs_model(old(out)@) + link_lines(
                self@[k as int],
                lines_of(text@),
                target@,
                0,
            ),
    {
        let cs: Vec<char> = chars_of(text);
        let lines: Vec<&[char]> = lines_chars(cs.as_slice());
        let tc: Vec<char> = chars_of(target);
        let low: Vec<char> = chars_of(&string_of(trim_chars(tc.as_slice())).to_lowercase());
        let ghost ls = slices(lines@);
        let ghost note = self@[k as int];
        let mut i: usize = 0;
        while i < lines.len()
            invariant
                0 <= i <= lines@.len(),
                self.wf(),
                k < self@.len(),
                note == self@[k as int],
                ls == slices(lines@),
                low@ == lowercase(trim(target@)),
                refs_model(old(out)@) + link_lines(note, ls, target@, 0) == refs_model(out@)
                    + link_lines(note, ls, target@, i as int),
            decreases lines@.len() - i,
        {
            let l = lines[i];
            let ghost before = refs_model(out@);
            let ghost rest = link_lines(note, ls, target@, i + 1);
            proof {
                assert(ls[i as int] == l@);
            }
            if has_link_lower(l, low.as_slice()) {
                let ghost old_out = out@;
                let x = LinkRef {
                    source: self.notes[k].path.clone(),
                    source_name: self.notes[k].name.clone(),
                    line: i,
                    snippet: string_of(trim_end_chars(l)),
                };
                let ghost xm = x@;
                out.push(x);
                proof {
                    assert(refs_model(out@) =~= refs_model(old_out).push(xm));
                    assert(refs_model(out@) + rest =~= before + (seq![xm] + rest));
                }
            }
            i = i + 1;
        }
        proof {
            assert(refs_model(out@) + link_lines(note, ls, target@, i as int) =~= refs_model(out@));
        }
    }

    /// All places where other notes link to the note at `path`. `read` holds the text
    /// of each note as it is now.
    pub fn backlinks(&self, path: &str, read: &Vec<Option<String>>) -> (r: Vec<LinkRef>)
        requires
            self.wf(),
        ensures
            refs_model(r@) == refs_from(self@, read@, path@, 0),
    {
        let mut out: Vec<LinkRef> = Vec::new();
        let n: usize = self.notes.len();
        let mut k: usize = 0;
        proof {
            assert(refs_model(out@) + refs_from(self@, read@, path@, 0) =~= refs_from(
                self@,
                read@,
                path@,
                0,
            ));
        }
        while k < n
            invariant
                0 <= k <= n,
                n == self@.len(),
                n == self.notes@.len(),
                self.wf(),
                self@ == notes_model(self.notes@),
                refs_from(self@, read@, path@, 0) == refs_model(out@) + refs_from(
                    self@,
                    read@,
                    path@,
                    k as int,
                ),
            decreases n - k,
        {
            proof {
                assert(self@[k as int] == self.notes@[k as int]@);
            }
            if !same_text(&self.notes[k].path, path) {
                let ghost before = refs_model(out@);
                self.push_note_refs(&mut out, k, path, read);
                proof {
                    let x = note_refs(self@, self@[k as int], text_at(read@, k as int), path@, 0);
                    let rest = refs_from(self@, read@, path@, k + 1);
                    assert(refs_model(out@) + rest =~= before + (x + rest));
                }
            }
            k = k + 1;
        }
        proof {
            assert(refs_model(out@) + refs_from(self@, read@, path@, k as int) =~= refs_model(out@));
        }
        out
    }

    /// Appends the places where a note links to `path`.
    fn push_note_refs(
        &self,
        out: &mut Vec<LinkRef>,
        k: usize,
        path: &str,
        read: &Vec<Option<String>>,
    )
        requires
            self.wf(),
            k < self@.len(),
        ensures
            refs_model(final(out)@) == refs_model(old(out)@) + note_refs(
                self@,
                self@[k as int],
                text_at(read@, k as int),
                path@,
                0,
            ),
    {
        let ghost note = self@[k as int];
        let ghost text = text_at(read@, k as int);
        let links: &Vec<String> = &self.notes[k].outgoing;
        let mut j: usize = 0;
        while j < links.len()
            invariant
                0 <= j <= links@.len(),
                self.wf(),
                k < self@.len(),
                note == self@[k as int],
                note.outgoing == texts(links@),
                text == text_at(read@, k as int),
                refs_model(old(out)@) + note_refs(self@, note, text, path@, 0) == refs_model(out@)
                    + note_refs(self@, note, text, path@, j as int),
            decreases links@.len() - j,
        {
            let ghost before = refs_model(out@);
            let ghost rest = note_refs(self@, note, text, path@, j + 1);
            proof {
                assert(note.outgoing[j as int] == links@[j as int]@);
            }
            let leads: bool = match self.resolve(&links[j]) {
                Some(d) => same_text(d, path),
                None => false,
            };
            if leads && k < read.len() {
                match &read[k] {
                    Some(t) => {
                        self.push_link_lines(out, k, t, &links[j]);
                        proof {
                            let x = link_lines(note, lines_of(t@), note.outgoing[j as int], 0);
                            assert(refs_model(out@) + rest =~= before + (x + rest));
                        }
                    },
                    None => {},
                }
            }
            j = j + 1;
        }
        proof {
            assert(refs_model(out@) + note_refs(self@, note, text, path@, j as int) =~= refs_model(
                out@,
            ));
        }
    }
}

// ---------- tags ----------

/// The tags of the first `n` notes, one note after the other.
pub open spec fn tags_upto(notes: Seq<NoteModel>, n: int) -> Seq<Seq<char>>
    decreases n,
{
    if n <= 0 {
        Seq::empty()
    } else {
        tags_upto(notes, n - 1) + notes[n - 1].tags
    }
}

/// The tags of all notes.
pub open spec fn tags_of(notes: Seq<NoteModel>) -> Seq<Seq<char>> {
    tags_upto(notes, notes.len() as int)
}

/// How often `t` stands in `v`.
pub open spec fn times(v: Seq<Seq<char>>, t: Seq<char>) -> nat
    decreases v.len(),
{
    if v.len() == 0 {
        0
    } else {
        times(v.drop_last(), t) + if v.last() == t {
            1nat
        } else {
            0
        }
    }
}

/// The order of tags: more frequent ones first, equally frequent ones by name.
pub open spec fn tag_order(a: (String, usize), b: (String, usize)) -> bool {
    a.1 > b.1 || (a.1 == b.1 && text_before(a.0@, b.0@))
}

proof fn lemma_times(v: Seq<Seq<char>>, t: Seq<char>)
    ensures
        times(v, t) <= v.len(),
        times(v, t) > 0 <==> v.contains(t),
    decreases v.len(),
{
    if v.len() > 0 {
        let w = v.drop_last();
        lemma_times(w, t);
        if w.contains(t) {
            let k = choose|k: int| 0 <= k < w.len() && w[k] == t;
            assert(v[k] == t);
        }
        if v.contains(t) && v.last() != t {
            let k = choose|k: int| 0 <= k < v.len() && v[k] == t;
            assert(w[k] == t);
        }
        if v.last() == t {
            assert(v[v.len() - 1] == t);
        }
    }
}

fn count_times(v: &Vec<String>, t: &str) -> (r: usize)
    ensures
        r == times(texts(v@), t@),
{
    let ghost ts = texts(v@);
    let mut n: usize = 0;
    let mut k: usize = 0;
    proof {
        assert(ts.take(0) =~= Seq::<Seq<char>>::empty());
    }
    while k < v.len()
        invariant
            0 <= k <= v@.len(),
            ts == texts(v@),
            n <= k,
            n == times(ts.take(k as int), t@),
        decreases v@.len() - k,
    {
        proof {
            assert(ts.take(k + 1).drop_last() =~= ts.take(k as int));
            assert(ts.take(k + 1).last() == v@[k as int]@);
        }
        if same_text(&v[k], t) {
            n = n + 1;
        }
        k = k + 1;
    }
    proof {
        assert(ts.take(ts.len() as int) =~= ts);
    }
    n
}

fn tag_comes_before(a: &(String, usize), b: &(String, usize)) -> (r: bool)
    ensures
        r == tag_order(*a, *b),
{
    if a.1 > b.1 {
        return true;
    }
    if a.1 < b.1 {
        return false;
    }
    let x: Vec<char> = chars_of(&a.0);
    let y: Vec<char> = chars_of(&b.0);
    comes_before(x.as_slice(), y.as_slice())
}

/// Whether the tags stand in order.
pub open spec fn tags_sorted(v: Seq<(String, usize)>) -> bool {
    forall|j: int, k: int| 0 <= j < k < v.len() ==> tag_order(#[trigger] v[j], #[trigger] v[k])
}

/// Puts a tag that is not there yet where it belongs.
fn insert_tag(v: &mut Vec<(String, usize)>, x: (String, usize))
    requires
        tags_sorted(old(v)@),
        forall|k: int| 0 <= k < old(v)@.len() ==> (#[trigger] old(v)@[k]).0@ != x.0@,
    ensures
        tags_sorted(final(v)@),
        exists|p: int| 0 <= p <= old(v)@.len() && final(v)@ == old(v)@.insert(p, x),
{
    let mut p: usize = 0;
    while p < v.len() && tag_comes_before(&v[p], &x)
        invariant
            0 <= p <= v@.len(),
            v@ == old(v)@,
            forall|k: int| 0 <= k < p ==> tag_order(#[trigger] v@[k], x),
        decreases v@.len() - p,
    {
        p = p + 1;
    }
    let ghost s = v@;
    v.insert(p, x);
    proof {
        assert(v@ == s.insert(p as int, x));
        assert forall|k: int| p <= k < s.len() implies tag_order(x, #[trigger] s[k]) by {
            lemma_text_order_total(x.0@, s[p as int].0@);
            assert(tag_order(x, s[p as int]));
            if k > p {
                lemma_tag_order_transitive(x, s[p as int], s[k]);
            }
        }
        assert forall|j: int, k: int| 0 <= j < k < v@.len() implies tag_order(
            #[trigger] v@[j],
            #[trigger] v@[k],
        ) by {
            let jj = if j < p {
                j
            } else {
                j - 1
            };
            let kk = if k < p {
                k
            } else {
                k - 1
            };
            if j == p {
                assert(v@[k] == s[k - 1]);
            } else if k == p {
                assert(v@[j] == s[j]);
            } else {
                assert(v@[j] == s[jj]);
                assert(v@[k] == s[kk]);
            }
        }
    }
}

proof fn lemma_tag_order_transitive(a: (String, usize), b: (String, usize), c: (String, usize))
    requires
        tag_order(a, b),
        tag_order(b, c),
    ensures
        tag_order(a, c),
{
    if a.1 == b.1 && b.1 == c.1 {
        lemma_text_order_transitive(a.0@, b.0@, c.0@);
    }
}

impl VaultIndex {
    /// All tags with how often each is used, the most frequent ones first.
    pub fn all_tags(&self) -> (r: Vec<(String, usize)>)
        ensures
            tags_sorted(r@),
            forall|k: int|
                0 <= k < r@.len() ==> (#[trigger] r@[k]).1 == times(tags_of(self@), r@[k].0@)
                    && r@[k].1 > 0,
            forall|t: Seq<char>| #[trigger]
                tags_of(self@).contains(t) ==> exists|k: int|
                    0 <= k < r@.len() && (#[trigger] r@[k]).0@ == t,
    {
        let n: usize = self.notes.len();
        let mut flat: Vec<String> = Vec::new();
        let mut k: usize = 0;
        proof {
            assert(texts(flat@) =~= tags_upto(self@, 0));
        }
        while k < n
            invariant
                0 <= k <= n,
                n == self.notes@.len(),
                self@ == notes_model(self.notes@),
                texts(flat@) == tags_upto(self@, k as int),
            decreases n - k,
        {
            proof {
                assert(self@[k as int] == self.notes@[k as int]@);
            }
            push_texts(&mut flat, &self.notes[k].tags);
            k = k + 1;
        }
        let ghost ts = texts(flat@);
        let mut out: Vec<(String, usize)> = Vec::new();
        let mut i: usize = 0;
        while i < flat.len()
            invariant
                0 <= i <= flat@.len(),
                ts == texts(flat@),
                ts == tags_of(self@),
                tags_sorted(out@),
                forall|k: int|
                    0 <= k < out@.len() ==> (#[trigger] out@[k]).1 == times(ts, out@[k].0@)
                        && out@[k].1 > 0,
                forall|j: int|
                    0 <= j < i ==> has_tag(out@, #[trigger] ts[j]),
            decreases flat@.len() - i,
        {
            let t: &String = &flat[i];
            proof {
                assert(ts[i as int] == t@);
            }
            if !knows_tag(&out, t) {
                let c: usize = count_times(&flat, t);
                proof {
                    lemma_times(ts, t@);
                    assert(ts.contains(ts[i as int]));
                }
                let ghost before = out@;
                let x: (String, usize) = (t.clone(), c);
                insert_tag(&mut out, x);
                proof {
                    let p = choose|p: int|
                        0 <= p <= before.len() && out@ == before.insert(p, x);
                    assert(out@[p] == x);
                    assert forall|k: int| 0 <= k < out@.len() implies (#[trigger] out@[k]).1 == times(
                        ts,
                        out@[k].0@,
                    ) && out@[k].1 > 0 by {
                        if k < p {
                            assert(out@[k] == before[k]);
                        } else if k > p {
                            assert(out@[k] == before[k - 1]);
                        }
                    }
                    assert forall|j: int| 0 <= j < i implies has_tag(out@, #[trigger] ts[j]) by {
                        assert(has_tag(before, ts[j]));
                        let m = choose|m: int|
                            0 <= m < before.len() && (#[trigger] before[m]).0@ == ts[j];
                        if m < p {
                            assert(out@[m] == before[m]);
                        } else {
                            assert(out@[m + 1] == before[m]);
                        }
                    }
                    assert(has_tag(out@, ts[i as int]));
                }
            }
            i = i + 1;
        }
        proof {
            assert forall|t: Seq<char>| #[trigger] tags_of(self@).contains(t) implies exists|k: int|
                0 <= k < out@.len() && (#[trigger] out@[k]).0@ == t by {
                let j = choose|j: int| 0 <= j < ts.len() && ts[j] == t;
                assert(has_tag(out@, ts[j]));
            }
        }
        out
    }
}

spec fn has_tag(v: Seq<(String, usize)>, t: Seq<char>) -> bool {
    exists|k: int| 0 <= k < v.len() && (#[trigger] v[k]).0@ == t
}

fn knows_tag(v: &Vec<(String, usize)>, t: &str) -> (r: bool)
    ensures
        r == has_tag(v@, t@),
{
    let mut k: usize = 0;
    while k < v.len()
        invariant
            0 <= k <= v@.len(),
            forall|j: int| 0 <= j < k ==> (#[trigger] v@[j]).0@ != t@,
        decreases v@.len() - k,
    {
        if same_text(&v[k].0, t) {
            return true;
        }
        k = k + 1;
    }
    false
}

/// Appends texts.
pub(crate) fn push_texts(v: &mut Vec<String>, more: &Vec<String>)
    ensures
        texts(final(v)@) == texts(old(v)@) + texts(more@),
{
    let ghost ms = texts(more@);
    let mut k: usize = 0;
    proof {
        assert(texts(v@) =~= texts(v@) + ms.take(0));
    }
    while k < more.len()
        invariant
            0 <= k <= more@.len(),
            ms == texts(more@),
            texts(v@) == texts(old(v)@) + ms.take(k as int),
        decreases more@.len() - k,
    {
        push_text(v, more[k].clone());
        proof {
            assert(texts(v@) =~= texts(old(v)@) + ms.take(k + 1));
        }
        k = k + 1;
    }
    proof {
        assert(ms.take(ms.len() as int) =~= ms);
    }
}

// ---------- search ----------

/// Something found.
#[derive(Clone, Debug)]
pub struct SearchHit {
    pub path: String,
    pub name: String,
    /// The line, from zero.
    pub line: usize,
    pub snippet: String,
}

impl View for SearchHit {
    type V = PlaceModel;

    open spec fn view(&self) -> PlaceModel {
        PlaceModel {
            path: self.path@,
            name: self.name@,
            line: self.line as int,
            snippet: self.snippet@,
        }
    }
}

pub open spec fn hits_model(v: Seq<SearchHit>) -> Seq<PlaceModel> {
    v.map_values(|x: SearchHit| x@)
}

/// The lines from line `i` on that hold `q`, when `per` lines of this note and `have`
/// places in all were found before. It ends where either number is as great as it may be.
pub open spec fn line_hits(
    note: NoteModel,
    lines: Seq<Seq<char>>,
    q: Seq<char>,
    max_per: int,
    max_total: int,
    i: int,
    per: int,
    have: int,
) -> Seq<PlaceModel>
    decreases lines.len() - i,
{
    if i < 0 || i >= lines.len() || have >= max_total || per >= max_per {
        Seq::empty()
    } else if has_text(lowercase(lines[i]), q) {
        seq![PlaceModel { path: note.path, name: note.name, line: i, snippet: trim(lines[i]) }]
            + line_hits(note, lines, q, max_per, max_total, i + 1, per + 1, have + 1)
    } else {
        line_hits(note, lines, q, max_per, max_total, i + 1, per, have)
    }
}

/// What is found in a note, as far as there may be more: its name, or lines of its text.
pub open spec fn note_hits(
    note: NoteModel,
    text: Option<Seq<char>>,
    q: Seq<char>,
    max_per: int,
    max_total: int,
    have: int,
) -> Seq<PlaceModel> {
    if max_per <= 0 {
        Seq::empty()
    } else if has_text(lowercase(note.name), q) {
        seq![PlaceModel { path: note.path, name: note.name, line: 0, snippet: note.name }]
    } else {
        match text {
            Some(t) => line_hits(note, lines_of(t), q, max_per, max_total, 0, 0, have),
            None => Seq::empty(),
        }
    }
}

/// What is found in the notes from `k` on, when `have` places were found before.
pub open spec fn hits_from(
    notes: Seq<NoteModel>,
    read: Seq<Option<String>>,
    q: Seq<char>,
    max_per: int,
    max_total: int,
    k: int,
    have: int,
) -> Seq<PlaceModel>
    decreases notes.len() - k,
{
    if k < 0 || k >= notes.len() || have >= max_total {
        Seq::empty()
    } else {
        let hs = note_hits(notes[k], text_at(read, k), q, max_per, max_total, have);
        hs + hits_from(notes, read, q, max_per, max_total, k + 1, have + hs.len())
    }
}

/// What a search finds.
pub open spec fn found(
    notes: Seq<NoteModel>,
    read: Seq<Option<String>>,
    query: Seq<char>,
    max_per: int,
    max_total: int,
) -> Seq<PlaceModel> {
    let q = lowercase(trim(query));
    if q.len() == 0 {
        Seq::empty()
    } else {
        hits_from(notes, read, q, max_per, max_total, 0, 0)
    }
}

proof fn lemma_line_hits_bound(
    note: NoteModel,
    lines: Seq<Seq<char>>,
    q: Seq<char>,
    max_per: int,
    max_total: int,
    i: int,
    per: int,
    have: int,
)
    requires
        have <= max_total,
        per <= max_per,
    ensures
        have + line_hits(note, lines, q, max_per, max_total, i, per, have).len() <= max_total,
        per + line_hits(note, lines, q, max_per, max_total, i, per, have).len() <= max_per,
    decreases lines.len() - i,
{
    if 0 <= i < lines.len() && have < max_total && per < max_per {
        if has_text(lowercase(lines[i]), q) {
            lemma_line_hits_bound(note, lines, q, max_per, max_total, i + 1, per + 1, have + 1);
        } else {
            lemma_line_hits_bound(note, lines, q, max_per, max_total, i + 1, per, have);
        }
    }
}

proof fn lemma_note_hits_bound(
    note: NoteModel,
    text: Option<Seq<char>>,
    q: Seq<char>,
    max_per: int,
    max_total: int,
    have: int,
)
    requires
        have < max_total,
        0 <= max_per,
    ensures
        have + note_hits(note, text, q, max_per, max_total, have).len() <= max_total,
        note_hits(note, text, q, max_per, max_total, have).len() <= max_per,
{
    match text {
        Some(t) => lemma_line_hits_bound(note, lines_of(t), q, max_per, max_total, 0, 0, have),
        None => {},
    }
}

proof fn lemma_hits_bound(
    notes: Seq<NoteModel>,
    read: Seq<Option<String>>,
    q: Seq<char>,
    max_per: int,
    max_total: int,
    k: int,
    have: int,
)
    requires
        have <= max_total,
        0 <= max_per,
    ensures
        have + hits_from(notes, read, q, max_per, max_total, k, have).len() <= max_total,
    decreases notes.len() - k,
{
    if 0 <= k < notes.len() && have < max_total {
        lemma_note_hits_bound(notes[k], text_at(read, k), q, max_per, max_total, have);
        let hs = note_hits(notes[k], text_at(read, k), q, max_per, max_total, have);
        lemma_hits_bound(notes, read, q, max_per, max_total, k + 1, have + hs.len());
    }
}

/// A search finds no more places than it may.
pub proof fn search_keeps_its_limit(
    notes: Seq<NoteModel>,
    read: Seq<Option<String>>,
    query: Seq<char>,
    max_per: nat,
    max_total: nat,
)
    ensures
        found(notes, read, query, max_per as int, max_total as int).len() <= max_total,
{
    lemma_hits_bound(
        notes,
        read,
        lowercase(trim(query)),
        max_per as int,
        max_total as int,
        0,
        0,
    );
}

/// Whether a place is one of a note where `q` occurs: in its name, or in a line of its
/// text.
pub open spec fn is_hit_in(note: NoteModel, text: Option<Seq<char>>, q: Seq<char>, h: PlaceModel) -> bool {
    &&& h.path == note.path && h.name == note.name
    &&& {
        ||| h.line == 0 && h.snippet == note.name && has_text(lowercase(note.name), q)
        ||| text is Some && 0 <= h.line < lines_of(text->0).len() && h.snippet == trim(
            lines_of(text->0)[h.line],
        ) && has_text(lowercase(lines_of(text->0)[h.line]), q)
    }
}

proof fn lemma_line_hits_hold(
    note: NoteModel,
    text: Seq<char>,
    q: Seq<char>,
    max_per: int,
    max_total: int,
    i: int,
    per: int,
    have: int,
)
    ensures
        forall|j: int|
            0 <= j < line_hits(note, lines_of(text), q, max_per, max_total, i, per, have).len()
                ==> is_hit_in(
                note,
                Some(text),
                q,
                #[trigger] line_hits(note, lines_of(text), q, max_per, max_total, i, per, have)[j],
            ),
    decreases lines_of(text).len() - i,
{
    let lines = lines_of(text);
    if 0 <= i < lines.len() && have < max_total && per < max_per {
        if has_text(lowercase(lines[i]), q) {
            lemma_line_hits_hold(note, text, q, max_per, max_total, i + 1, per + 1, have + 1);
            let h = PlaceModel { path: note.path, name: note.name, line: i, snippet: trim(lines[i]) };
            let rest = line_hits(note, lines, q, max_per, max_total, i + 1, per + 1, have + 1);
            let all = line_hits(note, lines, q, max_per, max_total, i, per, have);
            assert(all == seq![h] + rest);
            assert(is_hit_in(note, Some(text), q, h));
            assert forall|j: int| 0 <= j < all.len() implies is_hit_in(
                note,
                Some(text),
                q,
                #[trigger] all[j],
            ) by {
                if j > 0 {
                    assert(all[j] == rest[j - 1]);
                }
            }
        } else {
            lemma_line_hits_hold(note, text, q, max_per, max_total, i + 1, per, have);
            assert(line_hits(note, lines, q, max_per, max_total, i, per, have) == line_hits(
                note,
                lines,
                q,
                max_per,
                max_total,
                i + 1,
                per,
                have,
            ));
        }
    } else {
        assert(line_hits(note, lines, q, max_per, max_total, i, per, have).len() == 0);
    }
}

proof fn lemma_hits_hold(
    notes: Seq<NoteModel>,
    read: Seq<Option<String>>,
    q: Seq<char>,
    max_per: int,
    max_total: int,
    k: int,
    have: int,
)
    requires
        0 <= k,
    ensures
        forall|j: int|
            0 <= j < hits_from(notes, read, q, max_per, max_total, k, have).len() ==> exists|n: int|
                k <= n < notes.len() && is_hit_in(
                    #[trigger] notes[n],
                    text_at(read, n),
                    q,
                    #[trigger] hits_from(notes, read, q, max_per, max_total, k, have)[j],
                ),
    decreases notes.len() - k,
{
    if k < notes.len() && have < max_total {
        let text = text_at(read, k);
        let hs = note_hits(notes[k], text, q, max_per, max_total, have);
        let rest = hits_from(notes, read, q, max_per, max_total, k + 1, have + hs.len());
        if text is Some {
            lemma_line_hits_hold(notes[k], text->0, q, max_per, max_total, 0, 0, have);
        }
        lemma_hits_hold(notes, read, q, max_per, max_total, k + 1, have + hs.len());
        assert forall|j: int| 0 <= j < (hs + rest).len() implies exists|n: int|
            k <= n < notes.len() && is_hit_in(
                #[trigger] notes[n],
                text_at(read, n),
                q,
                #[trigger] (hs + rest)[j],
            ) by {
            if j < hs.len() {
                assert(is_hit_in(notes[k], text, q, hs[j]));
                assert((hs + rest)[j] == hs[j]);
            } else {
                assert((hs + rest)[j] == rest[j - hs.len()]);
            }
        }
    }
}

/// Whatever a search finds holds the words that it asks for, in the name of the note or
/// in the line that it leads to. A search for nothing finds nothing.
pub proof fn search_finds_what_is_there(
    notes: Seq<NoteModel>,
    read: Seq<Option<String>>,
    query: Seq<char>,
    max_per: nat,
    max_total: nat,
)
    ensures
        lowercase(trim(query)).len() == 0 ==> found(
            notes,
            read,
            query,
            max_per as int,
            max_total as int,
        ).len() == 0,
        forall|j: int|
            0 <= j < found(notes, read, query, max_per as int, max_total as int).len() ==> exists|
                n: int,
            |
                0 <= n < notes.len() && is_hit_in(
                    #[trigger] notes[n],
                    text_at(read, n),
                    lowercase(trim(query)),
                    #[trigger] found(notes, read, query, max_per as int, max_total as int)[j],
                ),
{
    lemma_hits_hold(
        notes,
        read,
        lowercase(trim(query)),
        max_per as int,
        max_total as int,
        0,
        0,
    );
}

/// How many of the places are in the note at a path.
pub open spec fn places_at(v: Seq<PlaceModel>, path: Seq<char>) -> nat
    decreases v.len(),
{
    if v.len() == 0 {
        0
    } else {
        places_at(v.drop_last(), path) + if v.last().path == path {
            1nat
        } else {
            0
        }
    }
}

proof fn lemma_places_at_most(v: Seq<PlaceModel>, path: Seq<char>)
    ensures
        places_at(v, path) <= v.len(),
        (forall|j: int| 0 <= j < v.len() ==> (#[trigger] v[j]).path != path) ==> places_at(v, path)
            == 0,
    decreases v.len(),
{
    if v.len() > 0 {
        lemma_places_at_most(v.drop_last(), path);
        if forall|j: int| 0 <= j < v.len() ==> (#[trigger] v[j]).path != path {
            assert forall|j: int| 0 <= j < v.drop_last().len() implies (#[trigger] v.drop_last()[j]).path
                != path by {
                assert(v.drop_last()[j] == v[j]);
            }
            assert(v[v.len() - 1].path != path);
        }
    }
}

proof fn lemma_places_add(a: Seq<PlaceModel>, b: Seq<PlaceModel>, path: Seq<char>)
    ensures
        places_at(a + b, path) == places_at(a, path) + places_at(b, path),
    decreases b.len(),
{
    if b.len() == 0 {
        assert(a + b =~= a);
    } else {
        lemma_places_add(a, b.drop_last(), path);
        assert((a + b).drop_last() =~= a + b.drop_last());
        assert((a + b).last() == b.last());
    }
}

/// No two notes stand at the same path.
pub open spec fn paths_differ(notes: Seq<NoteModel>) -> bool {
    forall|i: int, j: int|
        0 <= i < j < notes.len() ==> (#[trigger] notes[i]).path != (#[trigger] notes[j]).path
}

proof fn lemma_hits_per_note(
    notes: Seq<NoteModel>,
    read: Seq<Option<String>>,
    q: Seq<char>,
    max_per: int,
    max_total: int,
    k: int,
    have: int,
    path: Seq<char>,
)
    requires
        0 <= k,
        0 <= max_per,
        have <= max_total,
        paths_differ(notes),
    ensures
        places_at(hits_from(notes, read, q, max_per, max_total, k, have), path) <= max_per,
    decreases notes.len() - k,
{
    if k < notes.len() && have < max_total {
        let text = text_at(read, k);
        let hs = note_hits(notes[k], text, q, max_per, max_total, have);
        let rest = hits_from(notes, read, q, max_per, max_total, k + 1, have + hs.len());
        lemma_note_hits_bound(notes[k], text, q, max_per, max_total, have);
        lemma_places_add(hs, rest, path);
        lemma_places_at_most(hs, path);
        if notes[k].path == path {
            lemma_hits_hold(notes, read, q, max_per, max_total, k + 1, have + hs.len());
            assert forall|j: int| 0 <= j < rest.len() implies (#[trigger] rest[j]).path != path by {
                let n = choose|n: int|
                    k + 1 <= n < notes.len() && is_hit_in(
                        #[trigger] notes[n],
                        text_at(read, n),
                        q,
                        rest[j],
                    );
            }
            lemma_places_at_most(rest, path);
        } else {
            if text is Some {
                lemma_line_hits_hold(notes[k], text->0, q, max_per, max_total, 0, 0, have);
            }
            assert forall|j: int| 0 <= j < hs.len() implies (#[trigger] hs[j]).path != path by {
                assert(is_hit_in(notes[k], text, q, hs[j]));
            }
            lemma_hits_per_note(
                notes,
                read,
                q,
                max_per,
                max_total,
                k + 1,
                have + hs.len(),
                path,
            );
        }
    }
}

/// A search finds no more places in one note than it may.
pub proof fn search_keeps_its_limit_per_note(
    notes: Seq<NoteModel>,
    read: Seq<Option<String>>,
    query: Seq<char>,
    max_per: nat,
    max_total: nat,
    path: Seq<char>,
)
    requires
        paths_differ(notes),
    ensures
        places_at(found(notes, read, query, max_per as int, max_total as int), path) <= max_per,
{
    lemma_hits_per_note(
        notes,
        read,
        lowercase(trim(query)),
        max_per as int,
        max_total as int,
        0,
        0,
        path,
    );
}

fn push_hit(out: &mut Vec<SearchHit>, x: SearchHit)
    ensures
        hits_model(final(out)@) == hits_model(old(out)@).push(x@),
        final(out)@.len() == old(out)@.len() + 1,
{
    out.push(x);
    proof {
        assert(hits_model(out@) =~= hits_model(old(out)@).push(x@));
    }
}

impl VaultIndex {
    /// Appends the lines of a note that hold `q`.
    fn push_line_hits(
        &self,
        out: &mut Vec<SearchHit>,
        k: usize,
        text: &str,
        q: &[char],
        max_per: usize,
        max_total: usize,
    )
        requires
            k < self@.len(),
        ensures
            hits_model(final(out)@) == hits_model(old(out)@) + line_hits(
                self@[k as int],
                lines_of(text@),
                q@,
                max_per as int,
                max_total as int,
                0,
                0,
                old(out)@.len() as int,
            ),
    {
        let cs: Vec<char> = chars_of(text);
        let lines: Vec<&[char]> = lines_chars(cs.as_slice());
        let ghost ls = slices(lines@);
        let ghost note = self@[k as int];
        let ghost all = hits_model(out@) + line_hits(
            note,
            ls,
            q@,
            max_per as int,
            max_total as int,
            0,
            0,
            out@.len() as int,
        );
        let mut per: usize = 0;
        let mut i: usize = 0;
        while i < lines.len()
            invariant
                0 <= i <= lines@.len(),
                per <= i,
                k < self@.len(),
                note == self@[k as int],
                ls == slices(lines@),
                ls == lines_of(text@),
                all == hits_model(out@) + line_hits(
                    note,
                    ls,
                    q@,
                    max_per as int,
                    max_total as int,
                    i as int,
                    per as int,
                    out@.len() as int,
                ),
                all == hits_model(old(out)@) + line_hits(
                    note,
                    ls,
                    q@,
                    max_per as int,
                    max_total as int,
                    0,
                    0,
                    old(out)@.len() as int,
                ),
            decreases lines@.len() - i,
        {
            if out.len() >= max_total || per >= max_per {
                proof {
                    assert(all =~= hits_model(out@));
                }
                return ;
            }
            let l = lines[i];
            proof {
                assert(ls[i as int] == l@);
            }
            let low: Vec<char> = chars_of(&string_of(l).to_lowercase());
            if contains_text(low.as_slice(), q) {
                let ghost before = hits_model(out@);
                let ghost have = out@.len() as int;
                let x = SearchHit {
                    path: self.notes[k].path.clone(),
                    name: self.notes[k].name.clone(),
                    line: i,
                    snippet: string_of(trim_chars(l)),
                };
                let ghost xm = x@;
                push_hit(out, x);
                let ghost rest = line_hits(
                    note,
                    ls,
                    q@,
                    max_per as int,
                    max_total as int,
                    i + 1,
                    per + 1,
                    have + 1,
                );
                per = per + 1;
                proof {
                    assert(hits_model(out@) + rest =~= before + (seq![xm] + rest));
                }
            }
            i = i + 1;
        }
        proof {
            assert(all =~= hits_model(out@));
        }
    }

    /// Searches names and texts of all notes, whatever the case of the letters.
    /// `read` holds the text of each note as it is now.
    pub fn search(
        &self,
        query: &str,
        max_per_note: usize,
        max_total: usize,
        read: &Vec<Option<String>>,
    ) -> (r: Vec<SearchHit>)
        requires
            self.wf(),
        ensures
            hits_model(r@) == found(
                self@,
                read@,
                query@,
                max_per_note as int,
                max_total as int,
            ),
    {
        let qc: Vec<char> = chars_of(query);
        let low: Vec<char> = chars_of(&string_of(trim_chars(qc.as_slice())).to_lowercase());
        let q = low.as_slice();
        let mut out: Vec<SearchHit> = Vec::new();
        proof {
            assert(hits_model(out@) =~= Seq::<PlaceModel>::empty());
        }
        if q.len() == 0 {
            return out;
        }
        let n: usize = self.notes.len();
        let ghost all = hits_from(
            self@,
            read@,
            q@,
            max_per_note as int,
            max_total as int,
            0,
            0,
        );
        let mut k: usize = 0;
        proof {
            assert(hits_model(out@) + all =~= all);
        }
        while k < n
            invariant
                0 <= k <= n,
                n == self.notes@.len(),
                self.wf(),
                self@ == notes_model(self.notes@),
                q@ == lowercase(trim(query@)),
                q@.len() > 0,
                all == hits_from(self@, read@, q@, max_per_note as int, max_total as int, 0, 0),
                all == hits_model(out@) + hits_from(
                    self@,
                    read@,
                    q@,
                    max_per_note as int,
                    max_total as int,
                    k as int,
                    out@.len() as int,
                ),
            decreases n - k,
        {
            if out.len() >= max_total {
                proof {
                    assert(all =~= hits_model(out@));
                }
                return out;
            }
            let ghost before = hits_model(out@);
            let ghost have = out@.len() as int;
            let ghost note = self@[k as int];
            let ghost hs = note_hits(
                note,
                text_at(read@, k as int),
                q@,
                max_per_note as int,
                max_total as int,
                have,
            );
            proof {
                assert(note == self.notes@[k as int]@);
                assert(self.stems@[k as int]@ == lowercase(self.notes@[k as int].name@));
            }
            let stem: Vec<char> = chars_of(&self.stems[k]);
            if max_per_note == 0 {
                proof {
                    assert(hs =~= Seq::empty());
                }
            } else if contains_text(stem.as_slice(), q) {
                push_hit(
                    &mut out,
                    SearchHit {
                        path: self.notes[k].path.clone(),
                        name: self.notes[k].name.clone(),
                        line: 0,
                        snippet: self.notes[k].name.clone(),
                    },
                );
            } else if k < read.len() {
                match &read[k] {
                    Some(t) => {
                        self.push_line_hits(&mut out, k, t, q, max_per_note, max_total);
                    },
                    None => {},
                }
            }
            proof {
                assert(hits_model(out@) =~= before + hs);
                assert(out@.len() == hits_model(out@).len());
                let rest = hits_from(
                    self@,
                    read@,
                    q@,
                    max_per_note as int,
                    max_total as int,
                    k + 1,
                    have + hs.len(),
                );
                assert(before + (hs + rest) =~= (before + hs) + rest);
            }
            k = k + 1;
        }
        proof {
            assert(all =~= hits_model(out@));
        }
        out
    }
}

// ---------- running queries ----------

/// Whether `t` is among `tags`, but for the case of ASCII letters.
pub open spec fn has_tag_like(tags: Seq<Seq<char>>, t: Seq<char>) -> bool {
    exists|j: int| 0 <= j < tags.len() && same_ignoring_case(#[trigger] tags[j], t)
}

pub open spec fn has_all_tags(note: NoteModel, tags: Seq<Seq<char>>) -> bool {
    forall|i: int| 0 <= i < tags.len() ==> has_tag_like(note.tags, #[trigger] tags[i])
}

pub open spec fn has_all_links(notes: Seq<NoteModel>, note: NoteModel, links: Seq<Seq<char>>) -> bool {
    forall|i: int| 0 <= i < links.len() ==> note_links_to(notes, note, #[trigger] links[i])
}

/// Whether a word occurs in a note's text or in its name.
pub open spec fn has_term(note: NoteModel, text: Option<Seq<char>>, term: Seq<char>) -> bool {
    ||| text is Some && has_text(lowercase(text->0), lowercase(term))
    ||| has_text(lowercase(note.name), lowercase(term))
}

pub open spec fn has_all_terms(
    note: NoteModel,
    text: Option<Seq<char>>,
    terms: Seq<Seq<char>>,
) -> bool {
    forall|i: int| 0 <= i < terms.len() ==> has_term(note, text, #[trigger] terms[i])
}

/// How many line breaks `s` holds.
pub open spec fn breaks_in(s: Seq<char>) -> int
    decreases s.len(),
{
    if s.len() == 0 {
        0
    } else {
        breaks_in(s.drop_last()) + if s.last() == '\n' {
            1int
        } else {
            0
        }
    }
}

/// The line in which the first word stands; the first line if it does not occur.
pub open spec fn hit_line(text: Option<Seq<char>>, terms: Seq<Seq<char>>) -> int {
    if terms.len() > 0 && text is Some {
        match find_from(lowercase(text->0), lowercase(terms[0]), 0) {
            Some(p) => breaks_in(lowercase(text->0).take(p)),
            None => 0,
        }
    } else {
        0
    }
}

/// The text that a query looks at: none if it names no words.
pub open spec fn looked_at(text: Option<Seq<char>>, terms: Seq<Seq<char>>) -> Option<Seq<char>> {
    if terms.len() == 0 {
        None
    } else {
        text
    }
}

/// What is shown of a note that a query finds.
pub open spec fn query_hit(note: NoteModel, text: Option<Seq<char>>, terms: Seq<Seq<char>>) -> PlaceModel {
    let line = hit_line(text, terms);
    let snippet = if text is Some && line < lines_of(text->0).len() {
        trim(lines_of(text->0)[line])
    } else {
        Seq::empty()
    };
    PlaceModel {
        path: note.path,
        name: note.name,
        line,
        snippet: if snippet.len() == 0 {
            note.name
        } else {
            snippet
        },
    }
}

/// Whether a query finds a note.
pub open spec fn query_matches(
    notes: Seq<NoteModel>,
    note: NoteModel,
    text: Option<Seq<char>>,
    q: QueryModel,
) -> bool {
    has_all_tags(note, q.tags) && has_all_links(notes, note, q.links) && has_all_terms(
        note,
        looked_at(text, q.terms),
        q.terms,
    )
}

/// What a query finds in the notes from `k` on, when it found `have` notes before.
pub open spec fn query_from(
    notes: Seq<NoteModel>,
    read: Seq<Option<String>>,
    q: QueryModel,
    k: int,
    have: int,
) -> Seq<PlaceModel>
    decreases notes.len() - k,
{
    if k < 0 || k >= notes.len() || have >= q.limit {
        Seq::empty()
    } else if query_matches(notes, notes[k], text_at(read, k), q) {
        seq![query_hit(notes[k], looked_at(text_at(read, k), q.terms), q.terms)] + query_from(
            notes,
            read,
            q,
            k + 1,
            have + 1,
        )
    } else {
        query_from(notes, read, q, k + 1, have)
    }
}

/// What a query finds. A query that asks for nothing finds nothing.
pub open spec fn query_result(
    notes: Seq<NoteModel>,
    read: Seq<Option<String>>,
    q: QueryModel,
) -> Seq<PlaceModel> {
    if is_empty_query(q) {
        Seq::empty()
    } else {
        query_from(notes, read, q, 0, 0)
    }
}

proof fn lemma_query_bound(
    notes: Seq<NoteModel>,
    read: Seq<Option<String>>,
    q: QueryModel,
    k: int,
    have: int,
)
    requires
        have <= q.limit,
    ensures
        have + query_from(notes, read, q, k, have).len() <= q.limit,
    decreases notes.len() - k,
{
    if 0 <= k < notes.len() && have < q.limit {
        if query_matches(notes, notes[k], text_at(read, k), q) {
            lemma_query_bound(notes, read, q, k + 1, have + 1);
        } else {
            lemma_query_bound(notes, read, q, k + 1, have);
        }
    }
}

/// A query finds no more notes than it asks for.
pub proof fn query_keeps_its_limit(
    notes: Seq<NoteModel>,
    read: Seq<Option<String>>,
    q: QueryModel,
)
    requires
        q.limit >= 0,
    ensures
        query_result(notes, read, q).len() <= q.limit,
{
    lemma_query_bound(notes, read, q, 0, 0);
}

fn count_breaks(cs: &[char]) -> (r: usize)
    ensures
        r == breaks_in(cs@),
        r <= cs@.len(),
{
    let mut n: usize = 0;
    let mut i: usize = 0;
    proof {
        assert(cs@.take(0) =~= Seq::<char>::empty());
    }
    while i < cs.len()
        invariant
            0 <= i <= cs@.len(),
            n <= i,
            n == breaks_in(cs@.take(i as int)),
        decreases cs@.len() - i,
    {
        proof {
            assert(cs@.take(i + 1).drop_last() =~= cs@.take(i as int));
            assert(cs@.take(i + 1).last() == cs@[i as int]);
        }
        if cs[i] == '\n' {
            n = n + 1;
        }
        i = i + 1;
    }
    proof {
        assert(cs@.take(cs@.len() as int) =~= cs@);
    }
    n
}

fn tag_like(have: &Vec<String>, want: &str) -> (r: bool)
    ensures
        r == has_tag_like(texts(have@), want@),
{
    let ghost hs = texts(have@);
    let w: Vec<char> = chars_of(want);
    let mut j: usize = 0;
    while j < have.len()
        invariant
            0 <= j <= have@.len(),
            hs == texts(have@),
            w@ == want@,
            forall|b: int| 0 <= b < j ==> !same_ignoring_case(#[trigger] hs[b], want@),
        decreases have@.len() - j,
    {
        let h: Vec<char> = chars_of(&have[j]);
        proof {
            assert(hs[j as int] == h@);
        }
        if eq_ignore_case(h.as_slice(), w.as_slice()) {
            return true;
        }
        j = j + 1;
    }
    false
}

impl VaultIndex {
    fn tags_fit(&self, k: usize, want: &Vec<String>) -> (r: bool)
        requires
            k < self@.len(),
        ensures
            r == has_all_tags(self@[k as int], texts(want@)),
    {
        let ghost ws = texts(want@);
        let ghost note = self@[k as int];
        proof {
            assert(note == self.notes@[k as int]@);
        }
        let mut i: usize = 0;
        while i < want.len()
            invariant
                0 <= i <= want@.len(),
                k < self.notes@.len(),
                note == self.notes@[k as int]@,
                note == self@[k as int],
                ws == texts(want@),
                forall|a: int| 0 <= a < i ==> has_tag_like(note.tags, #[trigger] ws[a]),
            decreases want@.len() - i,
        {
            proof {
                assert(ws[i as int] == want@[i as int]@);
            }
            if !tag_like(&self.notes[k].tags, &want[i]) {
                return false;
            }
            i = i + 1;
        }
        true
    }

    fn links_fit(&self, k: usize, want: &Vec<String>) -> (r: bool)
        requires
            self.wf(),
            k < self@.len(),
        ensures
            r == has_all_links(self@, self@[k as int], texts(want@)),
    {
        let ghost ws = texts(want@);
        let mut i: usize = 0;
        while i < want.len()
            invariant
                0 <= i <= want@.len(),
                self.wf(),
                k < self@.len(),
                ws == texts(want@),
                forall|a: int|
                    0 <= a < i ==> note_links_to(self@, self@[k as int], #[trigger] ws[a]),
            decreases want@.len() - i,
        {
            proof {
                assert(ws[i as int] == want@[i as int]@);
            }
            if !self.links_to(k, &want[i]) {
                return false;
            }
            i = i + 1;
        }
        true
    }

    fn terms_fit(&self, k: usize, low: &Option<Vec<char>>, want: &Vec<String>, Ghost(text): Ghost<
        Option<Seq<char>>,
    >) -> (r: bool)
        requires
            self.wf(),
            k < self@.len(),
            match low {
                Some(v) => text is Some && v@ == lowercase(text->0),
                None => text is None,
            },
        ensures
            r == has_all_terms(self@[k as int], text, texts(want@)),
    {
        let ghost ws = texts(want@);
        let ghost note = self@[k as int];
        let stem: Vec<char> = chars_of(&self.stems[k]);
        proof {
            assert(self.stems@[k as int]@ == lowercase(self.notes@[k as int].name@));
            assert(note == self.notes@[k as int]@);
        }
        let mut i: usize = 0;
        while i < want.len()
            invariant
                0 <= i <= want@.len(),
                ws == texts(want@),
                note == self@[k as int],
                stem@ == lowercase(note.name),
                match low {
                    Some(v) => text is Some && v@ == lowercase(text->0),
                    None => text is None,
                },
                forall|a: int| 0 <= a < i ==> has_term(note, text, #[trigger] ws[a]),
            decreases want@.len() - i,
        {
            proof {
                assert(ws[i as int] == want@[i as int]@);
            }
            let t: Vec<char> = chars_of(&want[i].to_lowercase());
            let in_text: bool = match low {
                Some(v) => contains_text(v.as_slice(), t.as_slice()),
                None => false,
            };
            if !in_text && !contains_text(stem.as_slice(), t.as_slice()) {
                proof {
                    assert(!has_term(note, text, ws[i as int]));
                }
                return false;
            }
            i = i + 1;
        }
        true
    }

    /// What is shown of a note that a query finds.
    fn make_hit(
        &self,
        k: usize,
        content: &Option<Vec<char>>,
        low: &Option<Vec<char>>,
        terms: &Vec<String>,
        Ghost(text): Ghost<Option<Seq<char>>>,
    ) -> (r: SearchHit)
        requires
            k < self@.len(),
            match content {
                Some(v) => text == Some(v@) && low is Some && low->0@ == lowercase(v@),
                None => text is None && low is None,
            },
        ensures
            r@ == query_hit(self@[k as int], text, texts(terms@)),
    {
        let ghost note = self@[k as int];
        proof {
            assert(note == self.notes@[k as int]@);
        }
        let mut line: usize = 0;
        if terms.len() > 0 {
            match low {
                Some(v) => {
                    let t: Vec<char> = chars_of(&terms[0].to_lowercase());
                    proof {
                        assert(texts(terms@)[0] == terms@[0]@);
                    }
                    match find_chars(v.as_slice(), t.as_slice(), 0) {
                        Some(p) => {
                            let head = slice_subrange(v.as_slice(), 0, p);
                            proof {
                                assert(head@ =~= v@.take(p as int));
                            }
                            line = count_breaks(head);
                        },
                        None => {},
                    }
                },
                None => {},
            }
        }
        proof {
            assert(line == hit_line(text, texts(terms@)));
        }
        let mut snippet: String = String::new();
        match content {
            Some(v) => {
                let lines: Vec<&[char]> = lines_chars(v.as_slice());
                proof {
                    assert(slices(lines@).len() == lines@.len());
                }
                if line < lines.len() {
                    proof {
                        assert(slices(lines@)[line as int] == lines@[line as int]@);
                    }
                    snippet = string_of(trim_chars(lines[line]));
                }
            },
            None => {},
        }
        if snippet.as_str().is_empty() {
            snippet = self.notes[k].name.clone();
        }
        SearchHit {
            path: self.notes[k].path.clone(),
            name: self.notes[k].name.clone(),
            line,
            snippet,
        }
    }

    /// Runs a query: notes that have all its tags, links and words. `read` holds the
    /// text of each note as it is now.
    pub fn query(&self, spec: &QuerySpec, read: &Vec<Option<String>>) -> (r: Vec<SearchHit>)
        requires
            self.wf(),
        ensures
            hits_model(r@) == query_result(self@, read@, spec@),
    {
        let mut out: Vec<SearchHit> = Vec::new();
        proof {
            assert(hits_model(out@) =~= Seq::<PlaceModel>::empty());
        }
        if spec.is_empty() {
            return out;
        }
        let n: usize = self.notes.len();
        let ghost all = query_from(self@, read@, spec@, 0, 0);
        let mut k: usize = 0;
        proof {
            assert(hits_model(out@) + all =~= all);
        }
        while k < n
            invariant
                0 <= k <= n,
                n == self.notes@.len(),
                self.wf(),
                self@ == notes_model(self.notes@),
                !is_empty_query(spec@),
                all == query_from(self@, read@, spec@, 0, 0),
                all == hits_model(out@) + query_from(
                    self@,
                    read@,
                    spec@,
                    k as int,
                    out@.len() as int,
                ),
            decreases n - k,
        {
            if out.len() >= spec.limit {
                proof {
                    assert(all =~= hits_model(out@));
                }
                return out;
            }
            let ghost note = self@[k as int];
            let ghost text = text_at(read@, k as int);
            let ghost seen = looked_at(text, spec@.terms);
            proof {
                assert(note == self.notes@[k as int]@);
            }
            if self.tags_fit(k, &spec.tags) && self.links_fit(k, &spec.links) {
                let content: Option<Vec<char>> = if spec.terms.len() > 0 && k < read.len() {
                    match &read[k] {
                        Some(t) => Some(chars_of(t)),
                        None => None,
                    }
                } else {
                    None
                };
                let low: Option<Vec<char>> = match &content {
                    Some(v) => Some(chars_of(&string_of(v.as_slice()).to_lowercase())),
                    None => None,
                };
                proof {
                    assert(seen == match content {
                        Some(v) => Some(v@),
                        None => None,
                    });
                }
                if self.terms_fit(k, &low, &spec.terms, Ghost(seen)) {
                    let ghost before = hits_model(out@);
                    let ghost have = out@.len() as int;
                    let x: SearchHit = self.make_hit(k, &content, &low, &spec.terms, Ghost(seen));
                    let ghost xm = x@;
                    push_hit(&mut out, x);
                    proof {
                        assert(query_matches(self@, note, text, spec@));
                        let rest = query_from(self@, read@, spec@, k + 1, have + 1);
                        assert(hits_model(out@) =~= before + seq![xm]);
                        assert(hits_model(out@) + rest =~= before + (seq![xm] + rest));
                    }
                }
            }
            k = k + 1;
        }
        proof {
            assert(all =~= hits_model(out@));
        }
        out
    }
}

// ---------- the graph of notes ----------

/// A note of the graph.
#[derive(Clone, Debug)]
pub struct GraphNode {
    pub path: String,
    pub name: String,
    /// How many other notes it is linked with, in either direction.
    pub degree: usize,
}

/// A link of the graph, by the places of its notes among the graph's nodes.
#[derive(Clone, Copy, Debug, PartialEq, Eq, Structural)]
pub struct GraphEdge {
    pub from: usize,
    pub to: usize,
}

#[derive(Clone, Debug)]
pub struct Graph {
    pub nodes: Vec<GraphNode>,
    pub edges: Vec<GraphEdge>,
}

/// Whether the two are linked, in either direction.
pub open spec fn has_pair(raw: Seq<(int, int)>, i: int, j: int) -> bool {
    raw.contains((i, j)) || raw.contains((j, i))
}

/// One link more, unless it leads back to where it starts or is there already.
pub open spec fn with_pair(raw: Seq<(int, int)>, i: int, j: int) -> Seq<(int, int)> {
    if i == j || has_pair(raw, i, j) {
        raw
    } else {
        raw.push((i, j))
    }
}

/// The note that link `k` of note `i` leads to.
pub open spec fn link_slot(notes: Seq<NoteModel>, i: int, k: int) -> Option<int> {
    match resolved_path(notes, notes[i].outgoing[k]) {
        Some(p) => last_at_path(notes, p, notes.len() as int),
        None => None,
    }
}

/// The links so far, with those of note `i` from its link `k` on.
pub open spec fn with_note_links(
    notes: Seq<NoteModel>,
    i: int,
    k: int,
    raw: Seq<(int, int)>,
) -> Seq<(int, int)>
    decreases notes[i].outgoing.len() - k,
{
    if k < 0 || k >= notes[i].outgoing.len() {
        raw
    } else {
        match link_slot(notes, i, k) {
            Some(j) => with_note_links(notes, i, k + 1, with_pair(raw, i, j)),
            None => with_note_links(notes, i, k + 1, raw),
        }
    }
}

/// The links of the first `n` notes.
pub open spec fn links_upto(notes: Seq<NoteModel>, n: int) -> Seq<(int, int)>
    decreases n,
{
    if n <= 0 {
        Seq::empty()
    } else {
        with_note_links(notes, n - 1, 0, links_upto(notes, n - 1))
    }
}

/// How many links touch note `i`.
pub open spec fn degree_in(raw: Seq<(int, int)>, i: int) -> nat
    decreases raw.len(),
{
    if raw.len() == 0 {
        0
    } else {
        degree_in(raw.drop_last(), i) + if raw.last().0 == i || raw.last().1 == i {
            1nat
        } else {
            0
        }
    }
}

/// Whether note `a` comes before note `b`: by the number of its links, then by its
/// name, then by its place in the index.
pub open spec fn busier(notes: Seq<NoteModel>, deg: Seq<usize>, a: int, b: int) -> bool {
    ||| deg[a] > deg[b]
    ||| deg[a] == deg[b] && text_before(notes[a].name, notes[b].name)
    ||| deg[a] == deg[b] && notes[a].name == notes[b].name && a < b
}

/// Whether note `a` comes before note `b` by name; notes of one name as `busier` has
/// them.
pub open spec fn before_by_name(notes: Seq<NoteModel>, deg: Seq<usize>, a: int, b: int) -> bool {
    text_before(notes[a].name, notes[b].name) || (notes[a].name == notes[b].name && busier(
        notes,
        deg,
        a,
        b,
    ))
}

pub open spec fn slot_order(
    notes: Seq<NoteModel>,
    deg: Seq<usize>,
    named: bool,
    a: int,
    b: int,
) -> bool {
    if named {
        before_by_name(notes, deg, a, b)
    } else {
        busier(notes, deg, a, b)
    }
}

/// Whether slots stand in order.
pub open spec fn slots_sorted(
    notes: Seq<NoteModel>,
    deg: Seq<usize>,
    named: bool,
    v: Seq<usize>,
) -> bool {
    forall|j: int, k: int|
        0 <= j < k < v.len() ==> slot_order(
            notes,
            deg,
            named,
            #[trigger] v[j] as int,
            #[trigger] v[k] as int,
        )
}

/// The place of a note among the picked ones.
pub open spec fn place_of(picks: Seq<usize>, x: int, k: int) -> Option<int>
    decreases picks.len() - k,
{
    if k < 0 || k >= picks.len() {
        None
    } else if picks[k] == x {
        Some(k)
    } else {
        place_of(picks, x, k + 1)
    }
}

/// The links between picked notes, by their places.
pub open spec fn edges_among(raw: Seq<(int, int)>, picks: Seq<usize>) -> Seq<(int, int)>
    decreases raw.len(),
{
    if raw.len() == 0 {
        Seq::empty()
    } else {
        let rest = edges_among(raw.drop_last(), picks);
        match (place_of(picks, raw.last().0, 0), place_of(picks, raw.last().1, 0)) {
            (Some(a), Some(b)) => rest.push((a, b)),
            _ => rest,
        }
    }
}

/// The picked notes: as many as there may be, those with the most links, by name.
pub open spec fn picked(notes: Seq<NoteModel>, deg: Seq<usize>, max_nodes: int, picks: Seq<usize>) -> bool {
    let most = if max_nodes < 1 {
        1
    } else {
        max_nodes
    };
    &&& picks.len() == if most < notes.len() {
        most
    } else {
        notes.len() as int
    }
    &&& forall|k: int| 0 <= k < picks.len() ==> #[trigger] picks[k] < notes.len()
    &&& slots_sorted(notes, deg, true, picks)
    &&& forall|a: usize, b: usize|
        #![trigger picks.contains(a), picks.contains(b)]
        picks.contains(a) && !picks.contains(b) && b < notes.len() ==> busier(
            notes,
            deg,
            a as int,
            b as int,
        )
}

/// The numbers of links of all notes.
pub open spec fn degrees_of(notes: Seq<NoteModel>, deg: Seq<usize>) -> bool {
    deg.len() == notes.len() && forall|i: int|
        0 <= i < deg.len() ==> #[trigger] deg[i] == degree_in(
            links_upto(notes, notes.len() as int),
            i,
        )
}

/// Whether `g` is the graph of the notes that `picks` names.
pub open spec fn graph_of(
    notes: Seq<NoteModel>,
    deg: Seq<usize>,
    picks: Seq<usize>,
    g: Graph,
) -> bool {
    &&& g.nodes@.len() == picks.len()
    &&& forall|k: int|
        0 <= k < picks.len() ==> {
            let node = #[trigger] g.nodes@[k];
            let note = notes[picks[k] as int];
            node.path@ == note.path && node.name@ == note.name && node.degree == deg[picks[k] as int]
        }
    &&& pairs(g.edges@) == edges_among(links_upto(notes, notes.len() as int), picks)
}

pub open spec fn pairs(v: Seq<GraphEdge>) -> Seq<(int, int)> {
    v.map_values(|e: GraphEdge| (e.from as int, e.to as int))
}

spec fn int_pairs(v: Seq<(usize, usize)>) -> Seq<(int, int)> {
    v.map_values(|e: (usize, usize)| (e.0 as int, e.1 as int))
}

proof fn lemma_slot_order_total(
    notes: Seq<NoteModel>,
    deg: Seq<usize>,
    named: bool,
    a: int,
    b: int,
)
    requires
        a != b,
    ensures
        slot_order(notes, deg, named, a, b) || slot_order(notes, deg, named, b, a),
        !(slot_order(notes, deg, named, a, b) && slot_order(notes, deg, named, b, a)),
{
    lemma_text_order_total(notes[a].name, notes[b].name);
}

proof fn lemma_slot_order_transitive(
    notes: Seq<NoteModel>,
    deg: Seq<usize>,
    named: bool,
    a: int,
    b: int,
    c: int,
)
    requires
        slot_order(notes, deg, named, a, b),
        slot_order(notes, deg, named, b, c),
    ensures
        slot_order(notes, deg, named, a, c),
{
    if text_before(notes[a].name, notes[b].name) && text_before(notes[b].name, notes[c].name) {
        lemma_text_order_transitive(notes[a].name, notes[b].name, notes[c].name);
    }
}

impl VaultIndex {
    fn slot_before(&self, deg: &Vec<usize>, named: bool, a: usize, b: usize) -> (r: bool)
        requires
            a < self@.len(),
            b < self@.len(),
            deg@.len() == self@.len(),
        ensures
            r == slot_order(self@, deg@, named, a as int, b as int),
    {
        proof {
            assert(self@[a as int] == self.notes@[a as int]@);
            assert(self@[b as int] == self.notes@[b as int]@);
        }
        let x: Vec<char> = chars_of(&self.notes[a].name);
        let y: Vec<char> = chars_of(&self.notes[b].name);
        let before: bool = comes_before(x.as_slice(), y.as_slice());
        let same: bool = same_chars(x.as_slice(), y.as_slice());
        let busy: bool = deg[a] > deg[b] || (deg[a] == deg[b] && before) || (deg[a] == deg[b] && same
            && a < b);
        if named {
            before || (same && busy)
        } else {
            busy
        }
    }

    /// Puts a slot that is not there yet where it belongs.
    fn insert_slot(&self, v: &mut Vec<usize>, x: usize, deg: &Vec<usize>, named: bool)
        requires
            x < self@.len(),
            deg@.len() == self@.len(),
            slots_sorted(self@, deg@, named, old(v)@),
            !old(v)@.contains(x),
            forall|k: int| 0 <= k < old(v)@.len() ==> #[trigger] old(v)@[k] < self@.len(),
        ensures
            slots_sorted(self@, deg@, named, final(v)@),
            exists|p: int| 0 <= p <= old(v)@.len() && final(v)@ == old(v)@.insert(p, x),
    {
        let mut p: usize = 0;
        while p < v.len() && self.slot_before(deg, named, v[p], x)
            invariant
                0 <= p <= v@.len(),
                v@ == old(v)@,
                x < self@.len(),
                deg@.len() == self@.len(),
                forall|k: int| 0 <= k < v@.len() ==> #[trigger] v@[k] < self@.len(),
                forall|k: int|
                    0 <= k < p ==> slot_order(self@, deg@, named, #[trigger] v@[k] as int, x as int),
            decreases v@.len() - p,
        {
            p = p + 1;
        }
        let ghost s = v@;
        v.insert(p, x);
        proof {
            assert(v@ == s.insert(p as int, x));
            assert forall|k: int| p <= k < s.len() implies slot_order(
                self@,
                deg@,
                named,
                x as int,
                #[trigger] s[k] as int,
            ) by {
                assert(s.contains(s[p as int]));
                lemma_slot_order_total(self@, deg@, named, x as int, s[p as int] as int);
                if k > p {
                    lemma_slot_order_transitive(
                        self@,
                        deg@,
                        named,
                        x as int,
                        s[p as int] as int,
                        s[k] as int,
                    );
                }
            }
            assert forall|j: int, k: int| 0 <= j < k < v@.len() implies slot_order(
                self@,
                deg@,
                named,
                #[trigger] v@[j] as int,
                #[trigger] v@[k] as int,
            ) by {
                if j == p {
                    assert(v@[k] == s[k - 1]);
                } else if k == p {
                    assert(v@[j] == s[j]);
                } else {
                    let jj = if j < p {
                        j
                    } else {
                        j - 1
                    };
                    let kk = if k < p {
                        k
                    } else {
                        k - 1
                    };
                    assert(v@[j] == s[jj]);
                    assert(v@[k] == s[kk]);
                }
            }
        }
    }

    /// Sorts slots, each of which stands there once.
    fn sort_slots(&self, from: &Vec<usize>, deg: &Vec<usize>, named: bool) -> (r: Vec<usize>)
        requires
            deg@.len() == self@.len(),
            from@.no_duplicates(),
            forall|k: int| 0 <= k < from@.len() ==> #[trigger] from@[k] < self@.len(),
        ensures
            slots_sorted(self@, deg@, named, r@),
            r@.len() == from@.len(),
            forall|x: usize| r@.contains(x) <==> from@.contains(x),
    {
        let mut out: Vec<usize> = Vec::new();
        let mut i: usize = 0;
        while i < from.len()
            invariant
                0 <= i <= from@.len(),
                deg@.len() == self@.len(),
                from@.no_duplicates(),
                forall|k: int| 0 <= k < from@.len() ==> #[trigger] from@[k] < self@.len(),
                slots_sorted(self@, deg@, named, out@),
                out@.len() == i,
                forall|x: usize| out@.contains(x) <==> from@.take(i as int).contains(x),
            decreases from@.len() - i,
        {
            let x: usize = from[i];
            proof {
                if out@.contains(x) {
                    assert(from@.take(i as int).contains(x));
                    let j = choose|j: int| 0 <= j < i && from@.take(i as int)[j] == x;
                    assert(from@[j] == from@[i as int]);
                }
                assert forall|k: int| 0 <= k < out@.len() implies #[trigger] out@[k] < self@.len() by {
                    assert(out@.contains(out@[k]));
                    assert(from@.take(i as int).contains(out@[k]));
                    let j = choose|j: int| 0 <= j < i && from@.take(i as int)[j] == out@[k];
                    assert(from@[j] == out@[k]);
                }
            }
            let ghost before = out@;
            self.insert_slot(&mut out, x, deg, named);
            proof {
                let p = choose|p: int| 0 <= p <= before.len() && out@ == before.insert(p, x);
                lemma_insert_contains(before, p, x);
                assert(from@.take(i + 1) =~= from@.take(i as int).push(x));
                assert forall|y: usize| out@.contains(y) <==> from@.take(i + 1).contains(y) by {
                    let w = from@.take(i as int);
                    assert(out@.contains(y) <==> before.contains(y) || y == x);
                    lemma_push_contains(w, x, y);
                    assert(before.contains(y) <==> w.contains(y));
                }
            }
            i = i + 1;
        }
        proof {
            assert(from@.take(from@.len() as int) =~= from@);
        }
        out
    }

    /// The links between notes and how many each note has.
    fn all_links(&self) -> (r: (Vec<(usize, usize)>, Vec<usize>))
        requires
            self.wf(),
        ensures
            int_pairs(r.0@) == links_upto(self@, self@.len() as int),
            degrees_of(self@, r.1@),
            forall|k: int|
                0 <= k < r.0@.len() ==> (#[trigger] r.0@[k]).0 < self@.len() && r.0@[k].1
                    < self@.len(),
    {
        let n: usize = self.notes.len();
        let mut raw: Vec<(usize, usize)> = Vec::new();
        let mut deg: Vec<usize> = Vec::new();
        let mut i: usize = 0;
        while i < n
            invariant
                0 <= i <= n,
                deg@.len() == i,
                forall|j: int| 0 <= j < i ==> #[trigger] deg@[j] == 0,
            decreases n - i,
        {
            deg.push(0);
            i = i + 1;
        }
        let mut i: usize = 0;
        proof {
            assert(int_pairs(raw@) =~= Seq::<(int, int)>::empty());
        }
        while i < n
            invariant
                0 <= i <= n,
                n == self@.len(),
                n == self.notes@.len(),
                deg@.len() == n,
                self.wf(),
                self@ == notes_model(self.notes@),
                int_pairs(raw@) == links_upto(self@, i as int),
                forall|j: int| 0 <= j < n ==> #[trigger] deg@[j] == degree_in(int_pairs(raw@), j),
                forall|k: int|
                    0 <= k < raw@.len() ==> (#[trigger] raw@[k]).0 < n && raw@[k].1 < n,
            decreases n - i,
        {
            self.push_note_links(i, &mut raw, &mut deg);
            i = i + 1;
        }
        (raw, deg)
    }

    fn push_note_links(&self, i: usize, raw: &mut Vec<(usize, usize)>, deg: &mut Vec<usize>)
        requires
            self.wf(),
            i < self@.len(),
            old(deg)@.len() == self@.len(),
            forall|j: int|
                0 <= j < self@.len() ==> #[trigger] old(deg)@[j] == degree_in(
                    int_pairs(old(raw)@),
                    j,
                ),
            forall|k: int|
                0 <= k < old(raw)@.len() ==> (#[trigger] old(raw)@[k]).0 < self@.len() && old(raw)@[k].1 < self@.len(),
        ensures
            int_pairs(final(raw)@) == with_note_links(self@, i as int, 0, int_pairs(old(raw)@)),
            final(deg)@.len() == self@.len(),
            forall|j: int|
                0 <= j < self@.len() ==> #[trigger] final(deg)@[j] == degree_in(
                    int_pairs(final(raw)@),
                    j,
                ),
            forall|k: int|
                0 <= k < final(raw)@.len() ==> (#[trigger] final(raw)@[k]).0 < self@.len() && final(raw)@[k].1 < self@.len(),
    {
        let out: &Vec<String> = &self.notes[i].outgoing;
        let ghost all = with_note_links(self@, i as int, 0, int_pairs(raw@));
        let mut k: usize = 0;
        proof {
            assert(self@[i as int] == self.notes@[i as int]@);
        }
        while k < out.len()
            invariant
                0 <= k <= out@.len(),
                self.wf(),
                i < self@.len(),
                self@[i as int].outgoing == texts(out@),
                all == with_note_links(self@, i as int, k as int, int_pairs(raw@)),
                deg@.len() == self@.len(),
                forall|j: int|
                    0 <= j < self@.len() ==> #[trigger] deg@[j] == degree_in(int_pairs(raw@), j),
                forall|m: int|
                    0 <= m < raw@.len() ==> (#[trigger] raw@[m]).0 < self@.len() && raw@[m].1
                        < self@.len(),
            decreases out@.len() - k,
        {
            proof {
                assert(self@[i as int].outgoing[k as int] == out@[k as int]@);
            }
            let slot: Option<usize> = match self.resolve(&out[k]) {
                Some(p) => self.slot_of(p),
                None => None,
            };
            match slot {
                Some(j) => {
                    let known: bool = pair_known(raw, i, j);
                    if i != j && !known {
                        let ghost before = raw@;
                        raw.push((i, j));
                        let m: usize = raw.len();
                        proof {
                            assert(int_pairs(raw@) =~= int_pairs(before).push((i as int, j as int)));
                            let w = int_pairs(raw@);
                            assert(w.drop_last() =~= int_pairs(before));
                            lemma_degree_bound(int_pairs(before), i as int);
                            lemma_degree_bound(int_pairs(before), j as int);
                        }
                        let di: usize = deg[i] + 1;
                        deg.set(i, di);
                        let dj: usize = deg[j] + 1;
                        deg.set(j, dj);
                    }
                },
                None => {},
            }
            k = k + 1;
        }
    }

    /// The last note at a path.
    fn slot_of(&self, path: &str) -> (r: Option<usize>)
        ensures
            match r {
                Some(i) => last_at_path(self@, path@, self@.len() as int) == Some(i as int) && i
                    < self@.len(),
                None => last_at_path(self@, path@, self@.len() as int) is None,
            },
    {
        let n: usize = self.notes.len();
        let mut k: usize = n;
        while k > 0
            invariant
                0 <= k <= n,
                n == self.notes@.len(),
                n == self@.len(),
                self@ == notes_model(self.notes@),
                last_at_path(self@, path@, n as int) == last_at_path(self@, path@, k as int),
            decreases k,
        {
            proof {
                assert(self@[k - 1].path == self.notes@[k - 1].path@);
            }
            if same_text(&self.notes[k - 1].path, path) {
                return Some(k - 1);
            }
            k = k - 1;
        }
        None
    }

    /// The graph of the notes and their links, with at most `max_nodes` notes: those
    /// with the most links.
    pub fn graph(&self, max_nodes: usize) -> (r: Graph)
        requires
            self.wf(),
        ensures
            exists|deg: Seq<usize>, picks: Seq<usize>|
                #![trigger graph_of(self@, deg, picks, r)]
                degrees_of(self@, deg) && picked(self@, deg, max_nodes as int, picks) && graph_of(
                    self@,
                    deg,
                    picks,
                    r,
                ),
    {
        let n: usize = self.notes.len();
        let (raw, deg) = self.all_links();
        let mut slots: Vec<usize> = Vec::new();
        let mut i: usize = 0;
        while i < n
            invariant
                0 <= i <= n,
                slots@.len() == i,
                forall|k: int| 0 <= k < i ==> #[trigger] slots@[k] == k,
            decreases n - i,
        {
            slots.push(i);
            i = i + 1;
        }
        let mut busy: Vec<usize> = self.sort_slots(&slots, &deg, false);
        let ghost all = busy@;
        let most: usize = if max_nodes < 1 {
            1
        } else {
            max_nodes
        };
        busy.truncate(most);
        proof {
            lemma_sorted_distinct(self@, deg@, false, all);
            assert(busy@ =~= all.take(busy@.len() as int));
            assert forall|k: int| 0 <= k < busy@.len() implies #[trigger] busy@[k] < self@.len() by {
                assert(all.contains(all[k]));
                assert(slots@.contains(all[k]));
            }
        }
        let picks: Vec<usize> = self.sort_slots(&busy, &deg, true);
        proof {
            assert forall|k: int| 0 <= k < picks@.len() implies #[trigger] picks@[k] < self@.len() by {
                assert(picks@.contains(picks@[k]));
                assert(busy@.contains(picks@[k]));
                let j = choose|j: int| 0 <= j < busy@.len() && busy@[j] == picks@[k];
                assert(busy@[j] < self@.len());
            }
            assert forall|a: usize, b: usize|
                #![trigger picks@.contains(a), picks@.contains(b)]
                picks@.contains(a) && !picks@.contains(b) && b < self@.len() implies busier(
                self@,
                deg@,
                a as int,
                b as int,
            ) by {
                assert(busy@.contains(a));
                assert(!busy@.contains(b));
                let j = choose|j: int| 0 <= j < busy@.len() && busy@[j] == a;
                assert(slots@[b as int] == b);
                assert(slots@.contains(b));
                assert(all.contains(b));
                let k = choose|k: int| 0 <= k < all.len() && all[k] == b;
                if k < busy@.len() {
                    assert(busy@[k] == b);
                }
                assert(all[j] == a);
                assert(slot_order(self@, deg@, false, all[j] as int, all[k] as int));
            }
            assert(picked(self@, deg@, max_nodes as int, picks@));
        }
        let nodes: Vec<GraphNode> = self.make_nodes(&picks, &deg);
        let mut edges: Vec<GraphEdge> = Vec::new();
        let ghost rs = int_pairs(raw@);
        let mut k: usize = 0;
        proof {
            assert(rs.take(0) =~= Seq::<(int, int)>::empty());
            assert(pairs(edges@) =~= Seq::<(int, int)>::empty());
        }
        while k < raw.len()
            invariant
                0 <= k <= raw@.len(),
                rs == int_pairs(raw@),
                pairs(edges@) == edges_among(rs.take(k as int), picks@),
            decreases raw@.len() - k,
        {
            proof {
                assert(rs.take(k + 1).drop_last() =~= rs.take(k as int));
                assert(rs.take(k + 1).last() == (raw@[k as int].0 as int, raw@[k as int].1 as int));
            }
            let a: Option<usize> = place(&picks, raw[k].0);
            let b: Option<usize> = place(&picks, raw[k].1);
            match a {
                Some(x) => match b {
                    Some(y) => {
                        let ghost before = edges@;
                        edges.push(GraphEdge { from: x, to: y });
                        proof {
                            assert(pairs(edges@) =~= pairs(before).push((x as int, y as int)));
                        }
                    },
                    None => {},
                },
                None => {},
            }
            k = k + 1;
        }
        proof {
            assert(rs.take(rs.len() as int) =~= rs);
        }
        let g = Graph { nodes, edges };
        proof {
            assert(graph_of(self@, deg@, picks@, g));
        }
        g
    }

    fn make_nodes(&self, picks: &Vec<usize>, deg: &Vec<usize>) -> (r: Vec<GraphNode>)
        requires
            deg@.len() == self@.len(),
            forall|k: int| 0 <= k < picks@.len() ==> #[trigger] picks@[k] < self@.len(),
        ensures
            r@.len() == picks@.len(),
            forall|k: int|
                0 <= k < picks@.len() ==> {
                    let node = #[trigger] r@[k];
                    let note = self@[picks@[k] as int];
                    node.path@ == note.path && node.name@ == note.name && node.degree
                        == deg@[picks@[k] as int]
                },
    {
        let mut out: Vec<GraphNode> = Vec::new();
        let mut k: usize = 0;
        while k < picks.len()
            invariant
                0 <= k <= picks@.len(),
                deg@.len() == self@.len(),
                self@ == notes_model(self.notes@),
                forall|j: int| 0 <= j < picks@.len() ==> #[trigger] picks@[j] < self@.len(),
                out@.len() == k,
                forall|j: int|
                    0 <= j < k ==> {
                        let node = #[trigger] out@[j];
                        let note = self@[picks@[j] as int];
                        node.path@ == note.path && node.name@ == note.name && node.degree
                            == deg@[picks@[j] as int]
                    },
            decreases picks@.len() - k,
        {
            let i: usize = picks[k];
            proof {
                assert(self@[i as int] == self.notes@[i as int]@);
            }
            out.push(
                GraphNode {
                    path: self.notes[i].path.clone(),
                    name: self.notes[i].name.clone(),
                    degree: deg[i],
                },
            );
            k = k + 1;
        }
        out
    }
}

proof fn lemma_sorted_distinct(
    notes: Seq<NoteModel>,
    deg: Seq<usize>,
    named: bool,
    v: Seq<usize>,
)
    requires
        slots_sorted(notes, deg, named, v),
    ensures
        v.no_duplicates(),
{
    assert forall|j: int, k: int| 0 <= j < v.len() && 0 <= k < v.len() && j != k implies v[j] != v[k] by {
        let (x, y) = if j < k {
            (j, k)
        } else {
            (k, j)
        };
        assert(slot_order(notes, deg, named, v[x] as int, v[y] as int));
        lemma_text_order_total(notes[v[x] as int].name, notes[v[y] as int].name);
    }
}

proof fn lemma_insert_contains(s: Seq<usize>, p: int, x: usize)
    requires
        0 <= p <= s.len(),
    ensures
        forall|y: usize| #[trigger] s.insert(p, x).contains(y) <==> s.contains(y) || y == x,
{
    let t = s.insert(p, x);
    assert(t[p] == x);
    assert forall|y: usize| #[trigger] t.contains(y) <==> s.contains(y) || y == x by {
        if s.contains(y) {
            let k = choose|k: int| 0 <= k < s.len() && s[k] == y;
            if k < p {
                assert(t[k] == y);
            } else {
                assert(t[k + 1] == y);
            }
        }
        if t.contains(y) && y != x {
            let k = choose|k: int| 0 <= k < t.len() && t[k] == y;
            if k < p {
                assert(s[k] == y);
            } else {
                assert(s[k - 1] == y);
            }
        }
    }
}

proof fn lemma_push_contains(s: Seq<usize>, x: usize, y: usize)
    ensures
        s.push(x).contains(y) <==> s.contains(y) || y == x,
{
    let t = s.push(x);
    assert(t[s.len() as int] == x);
    if s.contains(y) {
        let k = choose|k: int| 0 <= k < s.len() && s[k] == y;
        assert(t[k] == y);
    }
    if t.contains(y) && y != x {
        let k = choose|k: int| 0 <= k < t.len() && t[k] == y;
        assert(s[k] == y);
    }
}

proof fn lemma_degree_bound(raw: Seq<(int, int)>, i: int)
    ensures
        degree_in(raw, i) <= raw.len(),
    decreases raw.len(),
{
    if raw.len() > 0 {
        lemma_degree_bound(raw.drop_last(), i);
    }
}

fn pair_known(raw: &Vec<(usize, usize)>, i: usize, j: usize) -> (r: bool)
    ensures
        r == has_pair(int_pairs(raw@), i as int, j as int),
{
    let ghost rs = int_pairs(raw@);
    let mut k: usize = 0;
    while k < raw.len()
        invariant
            0 <= k <= raw@.len(),
            rs == int_pairs(raw@),
            forall|m: int|
                0 <= m < k ==> #[trigger] rs[m] != (i as int, j as int) && rs[m] != (
                    j as int,
                    i as int,
                ),
        decreases raw@.len() - k,
    {
        let (a, b) = raw[k];
        proof {
            assert(rs[k as int] == (a as int, b as int));
        }
        if (a == i && b == j) || (a == j && b == i) {
            proof {
                assert(rs.contains(rs[k as int]));
            }
            return true;
        }
        k = k + 1;
    }
    false
}

fn place(picks: &Vec<usize>, x: usize) -> (r: Option<usize>)
    ensures
        match r {
            Some(k) => place_of(picks@, x as int, 0) == Some(k as int) && k < picks@.len(),
            None => place_of(picks@, x as int, 0) is None,
        },
{
    let mut k: usize = 0;
    while k < picks.len()
        invariant
            0 <= k <= picks@.len(),
            place_of(picks@, x as int, 0) == place_of(picks@, x as int, k as int),
        decreases picks@.len() - k,
    {
        if picks[k] == x {
            return Some(k);
        }
        k = k + 1;
    }
    None
}

proof fn lemma_place_of(picks: Seq<usize>, x: int, k: int)
    requires
        0 <= k <= picks.len(),
    ensures
        place_of(picks, x, k) matches Some(p) ==> k <= p < picks.len() && picks[p] == x,
    decreases picks.len() - k,
{
    if k < picks.len() && picks[k] != x {
        lemma_place_of(picks, x, k + 1);
    }
}

/// Every link of a graph joins two of its nodes.
pub proof fn graph_edges_join_nodes(raw: Seq<(int, int)>, picks: Seq<usize>)
    ensures
        forall|k: int|
            0 <= k < edges_among(raw, picks).len() ==> 0 <= (#[trigger] edges_among(
                raw,
                picks,
            )[k]).0 < picks.len() && 0 <= edges_among(raw, picks)[k].1 < picks.len(),
    decreases raw.len(),
{
    if raw.len() > 0 {
        graph_edges_join_nodes(raw.drop_last(), picks);
        lemma_place_of(picks, raw.last().0, 0);
        lemma_place_of(picks, raw.last().1, 0);
        let rest = edges_among(raw.drop_last(), picks);
        assert forall|k: int| 0 <= k < edges_among(raw, picks).len() implies 0 <= (
        #[trigger] edges_among(raw, picks)[k]).0 < picks.len() && 0 <= edges_among(raw, picks)[k].1
            < picks.len() by {
            if k < rest.len() {
                assert(edges_among(raw, picks)[k] == rest[k]);
            }
        }
    }
}

/// No pair joins a thing with itself, and no two join the same things, in either direction.
pub open spec fn pairs_differ(v: Seq<(int, int)>) -> bool {
    &&& forall|k: int| 0 <= k < v.len() ==> (#[trigger] v[k]).0 != v[k].1
    &&& forall|j: int, k: int|
        0 <= j < k < v.len() ==> #[trigger] v[j] != #[trigger] v[k] && v[j] != (v[k].1, v[k].0)
}

proof fn lemma_pair_put(v: Seq<(int, int)>, i: int, j: int)
    requires
        pairs_differ(v),
        i != j,
        !has_pair(v, i, j),
    ensures
        pairs_differ(v.push((i, j))),
{
    let w = v.push((i, j));
    assert forall|a: int, b: int| 0 <= a < b < w.len() implies #[trigger] w[a] != #[trigger] w[b]
        && w[a] != (w[b].1, w[b].0) by {
        assert(w[a] == v[a]);
        assert(v.contains(v[a]));
    }
}

proof fn lemma_note_links_differ(notes: Seq<NoteModel>, i: int, k: int, raw: Seq<(int, int)>)
    requires
        pairs_differ(raw),
    ensures
        pairs_differ(with_note_links(notes, i, k, raw)),
    decreases notes[i].outgoing.len() - k,
{
    if 0 <= k < notes[i].outgoing.len() {
        match link_slot(notes, i, k) {
            Some(j) => {
                if i != j && !has_pair(raw, i, j) {
                    lemma_pair_put(raw, i, j);
                }
                lemma_note_links_differ(notes, i, k + 1, with_pair(raw, i, j));
            },
            None => lemma_note_links_differ(notes, i, k + 1, raw),
        }
    }
}

proof fn lemma_links_differ(notes: Seq<NoteModel>, n: int)
    ensures
        pairs_differ(links_upto(notes, n)),
    decreases n,
{
    if n > 0 {
        lemma_links_differ(notes, n - 1);
        lemma_note_links_differ(notes, n - 1, 0, links_upto(notes, n - 1));
    }
}

/// A link between picked notes comes from a link between those notes.
proof fn lemma_edge_from(raw: Seq<(int, int)>, picks: Seq<usize>, a: int, b: int)
    requires
        edges_among(raw, picks).contains((a, b)),
    ensures
        0 <= a < picks.len(),
        0 <= b < picks.len(),
        raw.contains((picks[a] as int, picks[b] as int)),
    decreases raw.len(),
{
    if raw.len() > 0 {
        let rest = edges_among(raw.drop_last(), picks);
        lemma_place_of(picks, raw.last().0, 0);
        lemma_place_of(picks, raw.last().1, 0);
        if rest.contains((a, b)) {
            lemma_edge_from(raw.drop_last(), picks, a, b);
            let x = (picks[a] as int, picks[b] as int);
            let k = choose|k: int| 0 <= k < raw.drop_last().len() && raw.drop_last()[k] == x;
            assert(raw[k] == x);
        } else {
            let k = choose|k: int|
                0 <= k < edges_among(raw, picks).len() && edges_among(raw, picks)[k] == (a, b);
            if k < rest.len() {
                assert(rest[k] == (a, b));
            }
            assert(raw[raw.len() - 1] == (picks[a] as int, picks[b] as int));
        }
    }
}

proof fn lemma_edges_differ(raw: Seq<(int, int)>, picks: Seq<usize>)
    requires
        pairs_differ(raw),
    ensures
        pairs_differ(edges_among(raw, picks)),
    decreases raw.len(),
{
    if raw.len() > 0 {
        let front = raw.drop_last();
        assert forall|j: int, k: int| 0 <= j < k < front.len() implies #[trigger] front[j]
            != #[trigger] front[k] && front[j] != (front[k].1, front[k].0) by {
            assert(front[j] == raw[j]);
            assert(front[k] == raw[k]);
        }
        lemma_edges_differ(front, picks);
        let (x, y) = raw.last();
        lemma_place_of(picks, x, 0);
        lemma_place_of(picks, y, 0);
        let rest = edges_among(front, picks);
        match (place_of(picks, x, 0), place_of(picks, y, 0)) {
            (Some(a), Some(b)) => {
                assert(raw[raw.len() - 1] == (x, y));
                if has_pair(rest, a, b) {
                    let (p, q) = if rest.contains((a, b)) {
                        (a, b)
                    } else {
                        (b, a)
                    };
                    lemma_edge_from(front, picks, p, q);
                    let z = (picks[p] as int, picks[q] as int);
                    let k = choose|k: int| 0 <= k < front.len() && front[k] == z;
                    assert(raw[k] == z);
                }
                lemma_pair_put(rest, a, b);
            },
            _ => {},
        }
    }
}

/// The links of a graph join different notes, each two of them once.
pub proof fn graph_edges_differ(
    notes: Seq<NoteModel>,
    deg: Seq<usize>,
    picks: Seq<usize>,
    g: Graph,
)
    requires
        graph_of(notes, deg, picks, g),
    ensures
        forall|k: int|
            0 <= k < g.edges@.len() ==> (#[trigger] g.edges@[k]).from < g.nodes@.len()
                && g.edges@[k].to < g.nodes@.len() && g.edges@[k].from != g.edges@[k].to,
        forall|j: int, k: int|
            0 <= j < k < g.edges@.len() ==> {
                let (a, b) = (#[trigger] g.edges@[j], #[trigger] g.edges@[k]);
                !(a.from == b.from && a.to == b.to) && !(a.from == b.to && a.to == b.from)
            },
{
    let raw = links_upto(notes, notes.len() as int);
    let v = pairs(g.edges@);
    lemma_links_differ(notes, notes.len() as int);
    lemma_edges_differ(raw, picks);
    graph_edges_join_nodes(raw, picks);
    assert forall|k: int| 0 <= k < g.edges@.len() implies (#[trigger] g.edges@[k]).from
        < g.nodes@.len() && g.edges@[k].to < g.nodes@.len() && g.edges@[k].from
        != g.edges@[k].to by {
        assert(v[k] == (g.edges@[k].from as int, g.edges@[k].to as int));
    }
    assert forall|j: int, k: int| 0 <= j < k < g.edges@.len() implies {
        let (a, b) = (#[trigger] g.edges@[j], #[trigger] g.edges@[k]);
        !(a.from == b.from && a.to == b.to) && !(a.from == b.to && a.to == b.from)
    } by {
        assert(v[j] == (g.edges@[j].from as int, g.edges@[j].to as int));
        assert(v[k] == (g.edges@[k].from as int, g.edges@[k].to as int));
    }
}

/// A graph shows as many notes as it may, in the order of their names, and no note is left
/// out that has more links than one that is shown.
pub proof fn graph_shows_the_busiest(
    notes: Seq<NoteModel>,
    deg: Seq<usize>,
    max_nodes: int,
    picks: Seq<usize>,
    g: Graph,
)
    requires
        max_nodes >= 1,
        picked(notes, deg, max_nodes, picks),
        graph_of(notes, deg, picks, g),
    ensures
        g.nodes@.len() == if max_nodes < notes.len() {
            max_nodes
        } else {
            notes.len() as int
        },
        forall|j: int, k: int|
            0 <= j < k < g.nodes@.len() ==> !text_before(
                (#[trigger] g.nodes@[k]).name@,
                (#[trigger] g.nodes@[j]).name@,
            ),
        forall|k: int, b: usize|
            0 <= k < g.nodes@.len() && b < notes.len() && !picks.contains(b) ==> #[trigger] deg[b as int]
                <= (#[trigger] g.nodes@[k]).degree,
{
    assert forall|j: int, k: int| 0 <= j < k < g.nodes@.len() implies !text_before(
        (#[trigger] g.nodes@[k]).name@,
        (#[trigger] g.nodes@[j]).name@,
    ) by {
        let (a, b) = (picks[j] as int, picks[k] as int);
        assert(slot_order(notes, deg, true, a, b));
        lemma_text_order_total(notes[a].name, notes[b].name);
    }
    assert forall|k: int, b: usize|
        0 <= k < g.nodes@.len() && b < notes.len() && !picks.contains(
            b,
        ) implies #[trigger] deg[b as int] <= (#[trigger] g.nodes@[k]).degree by {
        assert(picks.contains(picks[k]));
        assert(busier(notes, deg, picks[k] as int, b as int));
    }
}

} // verus!
