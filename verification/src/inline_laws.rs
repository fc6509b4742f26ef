//! What inline Markdown means: tags, links to notes, styles, and the places in the source that
//! shown text comes from.
use crate::block_laws::{is_white, lemma_cut_ends};
use crate::inline::{
    code_start, empty_model, event_step, faithful, gap, has_marker, inline_of, inline_ok, is_marker, is_word,
    lemma_word_end, rendered_at, seg_step, segs_fold, segs_from, source_at, span_ok, tag_at, walk, wiki_at, with_text,
    word_end, EventModel, InlineModel, MarkModel, PieceModel, SegModel, SpanModel, WalkModel,
};
use crate::text::{
    blen, find_from, is_space, lemma_blen_bounds, lemma_blen_concat, lemma_find_from,
    lemma_index_of_is, off,
};
use vstd::prelude::*;

verus! {

// ---------- tags ----------

/// A letter of ASCII in either case, a digit, `_`, or a common Chinese character.
pub open spec fn names_tags(c: char) -> bool {
    ('a' <= c && c <= 'z') || ('A' <= c && c <= 'Z') || ('0' <= c && c <= '9') || c == '_' || (
    '\u{4e00}' <= c && c <= '\u{9fff}')
}

pub open spec fn is_tag_name(s: Seq<char>) -> bool {
    forall|k: int| 0 <= k < s.len() ==> names_tags(#[trigger] s[k])
}

/// Where a run of such characters ends.
proof fn lemma_name_end(pre: Seq<char>, word: Seq<char>, post: Seq<char>)
    requires
        is_tag_name(word),
        post.len() == 0 || !names_tags(post[0]),
    ensures
        word_end(pre + word + post, pre.len() as int) == pre.len() + word.len(),
    decreases word.len(),
{
    let s = pre + word + post;
    if word.len() == 0 {
        if post.len() > 0 {
            assert(s[pre.len() as int] == post[0]);
        }
    } else {
        assert(names_tags(word[0]));
        assert(s[pre.len() as int] == word[0]);
        let rest = word.drop_first();
        assert forall|k: int| 0 <= k < rest.len() implies names_tags(#[trigger] rest[k]) by {
            assert(rest[k] == word[k + 1]);
        }
        lemma_name_end(pre.push(word[0]), rest, post);
        assert(pre.push(word[0]) + rest + post =~= s);
    }
}

/// A `#` makes a tag of all the letters, digits, `_` and Chinese characters behind it, if
/// there are any and none of them stands before it.
pub proof fn tags_are_words_behind_a_hash(pre: Seq<char>, word: Seq<char>, post: Seq<char>)
    requires
        is_tag_name(word),
        post.len() == 0 || !names_tags(post[0]),
    ensures
        tag_at(pre + seq!['#'] + word + post, pre.len() as int) == if word.len() > 0 && (pre.len()
            == 0 || !names_tags(pre.last())) {
            Some(pre.len() as int + 1 + word.len())
        } else {
            None
        },
{
    let s = pre + seq!['#'] + word + post;
    lemma_name_end(pre + seq!['#'], word, post);
    assert(s[pre.len() as int] == '#');
    if pre.len() > 0 {
        assert(s[pre.len() - 1] == pre.last());
    }
}

proof fn lemma_all_words(s: Seq<char>, i: int, k: int)
    requires
        0 <= i <= k < word_end(s, i),
    ensures
        k < s.len(),
        is_word(s[k]),
    decreases k - i,
{
    if i < k {
        lemma_all_words(s, i + 1, k);
    }
}

proof fn lemma_word_stops(s: Seq<char>, i: int)
    requires
        0 <= i <= s.len(),
    ensures
        word_end(s, i) == s.len() || (word_end(s, i) < s.len() && !is_word(s[word_end(s, i)])),
    decreases s.len() - i,
{
    if i < s.len() && is_word(s[i]) {
        lemma_word_stops(s, i + 1);
    }
}

/// Nothing but a `#` makes a tag.
pub proof fn only_a_hash_makes_a_tag(s: Seq<char>, i: int)
    ensures
        tag_at(s, i) matches Some(j) ==> 0 <= i && i + 1 < j <= s.len() && s[i] == '#'
            && is_tag_name(s.subrange(i + 1, j)) && (j == s.len() || !names_tags(s[j])),
{
    lemma_word_end(s, i + 1);
    if tag_at(s, i) is Some {
        let j = word_end(s, i + 1);
        lemma_word_stops(s, i + 1);
        assert forall|k: int| 0 <= k < s.subrange(i + 1, j).len() implies names_tags(
            #[trigger] s.subrange(i + 1, j)[k],
        ) by {
            lemma_all_words(s, i + 1, i + 1 + k);
        }
    }
}

proof fn lemma_segs_plain(s: Seq<char>, i: int, c: int)
    requires
        0 <= c <= i <= s.len(),
        forall|k: int| i <= k < s.len() ==> #[trigger] s[k] != '#' && s[k] != '[',
    ensures
        segs_from(s, i, c) == gap(c, s.len() as int),
    decreases s.len() - i,
{
    if i < s.len() {
        assert(s[i] != '#' && s[i] != '[');
        lemma_segs_plain(s, i + 1, c);
    }
}

/// A text that cannot start anything: no character of it is one of Markdown's.
pub open spec fn is_plain(s: Seq<char>) -> bool {
    forall|k: int|
        0 <= k < s.len() ==> #[trigger] s[k] != '*' && s[k] != '_' && s[k] != '`' && s[k] != '['
            && s[k] != '!' && s[k] != '~' && s[k] != '<' && s[k] != '&' && s[k] != '\\' && s[k]
            != '#'
}

/// Plain text is shown as it is, in one span, without links and tags.
pub proof fn plain_text_is_shown_as_it_is(s: Seq<char>)
    requires
        is_plain(s),
    ensures
        ({
            let m = inline_of(s);
            &&& m.text == s
            &&& m.links.len() == 0 && m.wikilinks.len() == 0 && m.tags.len() == 0
            &&& s.len() > 0 ==> m.spans == seq![
                SpanModel {
                    lo: 0,
                    hi: blen(s) as int,
                    src_lo: 0,
                    src_hi: blen(s) as int,
                    style: 0,
                },
            ]
        }),
{
    if has_marker(s) {
        let k = choose|k: int| 0 <= k < s.len() && is_marker(#[trigger] s[k]);
        assert(s[k] != '*' && s[k] != '_');
    }
}

/// A line of a tag and plain text behind it: the tag is one, with all of its name, and all of
/// the line is shown.
pub proof fn a_tag_is_read_as_one(word: Seq<char>, post: Seq<char>)
    requires
        word.len() > 0,
        is_tag_name(word),
        is_plain(post),
        post.len() > 0 ==> !names_tags(post[0]),
    ensures
        ({
            let s = seq!['#'] + word + post;
            let n = blen(seq!['#'] + word) as int;
            let m = inline_of(s);
            &&& m.text == s
            &&& m.tags == seq![MarkModel { lo: 0, hi: n, name: word }]
            &&& m.links.len() == 0 && m.wikilinks.len() == 0
            &&& m.spans[0] == (SpanModel { lo: 0, hi: n, src_lo: 0, src_hi: n, style: 64 })
            &&& post.len() == 0 ==> m.spans.len() == 1
            &&& post.len() > 0 ==> m.spans.len() == 2 && m.spans[1] == (SpanModel {
                lo: n,
                hi: blen(s) as int,
                src_lo: n,
                src_hi: blen(s) as int,
                style: 0,
            })
        }),
{
    let s = seq!['#'] + word + post;
    let j = 1 + word.len() as int;
    let m0 = empty_model();
    assert(s[0] == '#');
    assert(is_marker(s[0]));
    assert(Seq::<char>::empty() + seq!['#'] + word + post =~= s);
    tags_are_words_behind_a_hash(Seq::empty(), word, post);
    assert(wiki_at(s, 0) is None);
    assert forall|k: int| j <= k < s.len() implies #[trigger] s[k] != '#' && s[k] != '[' by {
        assert(s[k] == post[k - j]);
    }
    lemma_segs_plain(s, j, j);
    let v = segs_from(s, 0, 0);
    let tail = gap(j, s.len() as int);
    let t = SegModel::Tag { i: 0, j };
    assert(v =~= seq![t] + tail);
    let m1 = seg_step(m0, s, t);
    assert(s.subrange(0, j) =~= seq!['#'] + word);
    assert(s.subrange(1, j) =~= word);
    assert(s.take(j) =~= seq!['#'] + word);
    assert(s.take(0) =~= Seq::<char>::empty());
    assert(m0.text + (seq!['#'] + word) =~= seq!['#'] + word);
    assert(v.drop_first() =~= tail);
    assert(m1.tags =~= seq![MarkModel { lo: 0, hi: blen(seq!['#'] + word) as int, name: word }]);
    if post.len() == 0 {
        assert(tail =~= Seq::<SegModel>::empty());
        assert(s =~= seq!['#'] + word);
        assert(segs_fold(m1, s, tail) == m1);
    } else {
        let g = SegModel::Plain { i: j, j: s.len() as int };
        assert(tail =~= seq![g]);
        assert(tail.drop_first() =~= Seq::<SegModel>::empty());
        assert(s.subrange(j, s.len() as int) =~= post);
        assert(!has_marker(post)) by {
            if has_marker(post) {
                let k = choose|k: int| 0 <= k < post.len() && is_marker(#[trigger] post[k]);
                assert(post[k] != '*');
            }
        }
        let m2 = seg_step(m1, s, g);
        assert(segs_fold(m2, s, tail.drop_first()) == m2);
        assert(segs_fold(m1, s, tail) == m2);
        assert(m1.text + post =~= s);
        assert(s.take(s.len() as int) =~= s);
        lemma_blen_concat(seq!['#'] + word, post);
    }
    assert(segs_fold(m0, s, v) == segs_fold(m1, s, tail));
}

// ---------- links to notes ----------

proof fn lemma_find_close(s: Seq<char>, i: int, j: int)
    requires
        0 <= i <= j,
        j + 2 <= s.len(),
        s[j] == ']',
        s[j + 1] == ']',
        forall|k: int| i <= k < j ==> #[trigger] s[k] != ']',
    ensures
        find_from(s, seq![']', ']'], i) == Some(j),
    decreases j - i,
{
    let pat = seq![']', ']'];
    if i == j {
        assert(s.subrange(i, i + 2) =~= pat);
    } else {
        assert(s.subrange(i, i + 2)[0] == s[i]);
        assert(pat[0] == ']');
        lemma_find_close(s, i + 1, j);
    }
}

/// `[[name]]` is a link to that note, shown by its name; `[[name|words]]` is shown by the
/// words. White space around either does not count.
pub proof fn links_name_a_note(
    pre: Seq<char>,
    a: Seq<char>,
    name: Seq<char>,
    b: Seq<char>,
    c: Seq<char>,
    shown: Seq<char>,
    d: Seq<char>,
    post: Seq<char>,
)
    requires
        is_white(a) && is_white(b) && is_white(c) && is_white(d),
        name.len() > 0,
        !is_space(name[0]) && !is_space(name.last()),
        !name.contains(']') && !name.contains('|'),
        shown.len() > 0,
        !is_space(shown[0]) && !is_space(shown.last()),
        !shown.contains(']'),
    ensures
        wiki_at(pre + seq!['[', '['] + (a + name + b) + seq![']', ']'] + post, pre.len() as int)
            == Some((pre.len() as int + 4 + (a + name + b).len(), name, name)),
        wiki_at(
            pre + seq!['[', '['] + ((a + name + b) + seq!['|'] + (c + shown + d)) + seq![']', ']']
                + post,
            pre.len() as int,
        ) == Some(
            (pre.len() as int + 4 + ((a + name + b) + seq!['|'] + (c + shown + d)).len(), name, shown),
        ),
{
    let left = a + name + b;
    let right = c + shown + d;
    lemma_cut_ends(a, name, b);
    lemma_cut_ends(c, shown, d);
    assert forall|k: int| 0 <= k < left.len() implies #[trigger] left[k] != ']' && left[k]
        != '|' by {
        lemma_no_close(a, name, b, k);
        if a.len() <= k < a.len() + name.len() {
            assert(left[k] == name[k - a.len()]);
            assert(name.contains(name[k - a.len()]));
        } else if k < a.len() {
            assert(is_space(a[k]));
        } else {
            assert(left[k] == b[k - a.len() - name.len()]);
            assert(is_space(b[k - a.len() - name.len()]));
        }
    }
    assert forall|k: int| 0 <= k < right.len() implies #[trigger] right[k] != ']' by {
        lemma_no_close(c, shown, d, k);
    }
    lemma_wiki(pre, left, post);
    lemma_index_of_is(left, '|', left.len() as int);
    assert(left.take(left.len() as int) =~= left);
    let both = left + seq!['|'] + right;
    assert forall|k: int| 0 <= k < both.len() implies #[trigger] both[k] != ']' by {
        if k < left.len() {
            assert(both[k] == left[k]);
        } else if k > left.len() {
            assert(both[k] == right[k - left.len() - 1]);
        }
    }
    lemma_wiki(pre, both, post);
    assert forall|k: int| 0 <= k < left.len() implies #[trigger] both[k] != '|' by {
        assert(both[k] == left[k]);
    }
    assert(both[left.len() as int] == '|');
    lemma_index_of_is(both, '|', left.len() as int);
    assert(both.take(left.len() as int) =~= left);
    assert(both.skip(left.len() as int + 1) =~= right);
}

proof fn lemma_no_close(a: Seq<char>, name: Seq<char>, b: Seq<char>, k: int)
    requires
        is_white(a) && is_white(b),
        !name.contains(']'),
        0 <= k < (a + name + b).len(),
    ensures
        (a + name + b)[k] != ']',
{
    let left = a + name + b;
    if k < a.len() {
        assert(is_space(a[k]));
    } else if k < a.len() + name.len() {
        assert(left[k] == name[k - a.len()]);
        assert(name.contains(name[k - a.len()]));
    } else {
        assert(left[k] == b[k - a.len() - name.len()]);
        assert(is_space(b[k - a.len() - name.len()]));
    }
}

/// Where the two brackets close, and what stands between.
proof fn lemma_wiki(pre: Seq<char>, inner: Seq<char>, post: Seq<char>)
    requires
        forall|k: int| 0 <= k < inner.len() ==> #[trigger] inner[k] != ']',
    ensures
        ({
            let s = pre + seq!['[', '['] + inner + seq![']', ']'] + post;
            let i = pre.len() as int;
            let j = i + 2 + inner.len();
            &&& 0 <= i && i + 1 < s.len() && s[i] == '[' && s[i + 1] == '['
            &&& find_from(s, seq![']', ']'], i + 2) == Some(j)
            &&& s.subrange(i + 2, j) == inner
        }),
{
    let s = pre + seq!['[', '['] + inner + seq![']', ']'] + post;
    let i = pre.len() as int;
    let j = i + 2 + inner.len();
    assert(s[i] == '[' && s[i + 1] == '[');
    assert(s[j] == ']' && s[j + 1] == ']');
    assert forall|k: int| i + 2 <= k < j implies #[trigger] s[k] != ']' by {
        assert(s[k] == inner[k - i - 2]);
    }
    lemma_find_close(s, i + 2, j);
    assert(s.subrange(i + 2, j) =~= inner);
}

/// A link to a note is shown by its words, in the style of such links, and leads to the note.
pub proof fn links_are_shown_by_their_words(m: InlineModel, s: Seq<char>, i: int, j: int, name: Seq<char>, shown: Seq<char>)
    ensures
        ({
            let w = seg_step(m, s, SegModel::Wiki { i, j, target: name, shown });
            let (a, b) = (blen(m.text) as int, blen(m.text) + blen(shown) as int);
            &&& w.text == m.text + shown
            &&& w.wikilinks == m.wikilinks.push(MarkModel { lo: a, hi: b, name })
            &&& w.spans == m.spans.push(
                SpanModel { lo: a, hi: b, src_lo: off(s, i) as int, src_hi: off(s, j) as int, style: 32 },
            )
            &&& w.links == m.links && w.tags == m.tags
        }),
{
}

/// In the order of the text: each link and each tag is read where it stands, and the text
/// between is read as Markdown by itself.
pub proof fn parts_are_read_in_order(s: Seq<char>, i: int, c: int)
    requires
        0 <= c <= i < s.len(),
    ensures
        wiki_at(s, i) matches Some((j, name, shown)) ==> segs_from(s, i, c) == gap(c, i) + seq![
            SegModel::Wiki { i, j, target: name, shown },
        ] + segs_from(s, j, j),
        wiki_at(s, i) is None ==> (tag_at(s, i) matches Some(j) ==> segs_from(s, i, c) == gap(c, i)
            + seq![SegModel::Tag { i, j }] + segs_from(s, j, j)),
        s[i] != '#' && s[i] != '[' ==> segs_from(s, i, c) == segs_from(s, i + 1, c),
{
    lemma_word_end(s, i + 1);
    lemma_find_from(s, seq![']', ']'], i + 2);
}

// ---------- styles ----------

pub open spec fn piece(p: PieceModel, lo: int, hi: int) -> EventModel {
    EventModel { lo, hi, piece: p }
}

/// Strong, emphasised and struck out text, and the text of a link, have that style on top of
/// what they stand in, and behind them all is as before.
pub proof fn styles_hold_between_their_ends(
    w: WalkModel,
    sub: Seq<char>,
    base: int,
    t: Seq<char>,
    lo: int,
    hi: int,
    url: Seq<char>,
)
    requires
        t.len() > 0,
    ensures
        ({
            let said = |p: PieceModel, q: PieceModel|
                event_step(
                    event_step(
                        event_step(w, sub, base, piece(p, lo, hi)),
                        sub,
                        base,
                        piece(PieceModel::Words(t), lo, hi),
                    ),
                    sub,
                    base,
                    piece(q, lo, hi),
                );
            let a = blen(w.out.text) as int;
            let bold = said(PieceModel::Bold, PieceModel::EndBold);
            let italic = said(PieceModel::Italic, PieceModel::EndItalic);
            let struck = said(PieceModel::Struck, PieceModel::EndStruck);
            let link = said(PieceModel::Address(url), PieceModel::EndAddress);
            let image = said(PieceModel::Picture(url), PieceModel::EndPicture);
            &&& bold.out.text == w.out.text + t && italic.out.text == w.out.text + t
            &&& struck.out.text == w.out.text + t && link.out.text == w.out.text + t
            &&& image.out.text == w.out.text + t
            &&& bold.out.spans.last().style == w.style | 1
            &&& italic.out.spans.last().style == w.style | 2
            &&& struck.out.spans.last().style == w.style | 8
            &&& link.out.spans.last().style == w.style | 16
            &&& image.out.spans.last().style == w.style
            &&& bold.style == w.style && italic.style == w.style && struck.style == w.style
            &&& link.style == w.style && image.style == w.style
            &&& bold.stack == w.stack && italic.stack == w.stack && struck.stack == w.stack
            &&& link.stack == w.stack && image.stack == w.stack
            &&& bold.out.links == w.out.links && italic.out.links == w.out.links
            &&& struck.out.links == w.out.links
            &&& link.out.links == w.out.links.push(
                MarkModel { lo: a, hi: a + blen(t) as int, name: url },
            )
            &&& image.out.links == w.out.links.push(
                MarkModel { lo: a, hi: a + blen(t) as int, name: url },
            )
            &&& bold.out.spans.last().src_hi == base + hi
            &&& bold.out.spans.last().hi == a + blen(t)
        }),
{
    lemma_blen_concat(w.out.text, t);
    lemma_blen_bounds(t);
    assert(w.stack.push(w.style).drop_last() =~= w.stack);
}

/// Text, tags and HTML are shown as they are, breaks as breaks, code in the style of code.
pub proof fn pieces_are_shown(w: WalkModel, sub: Seq<char>, base: int, t: Seq<char>, lo: int, hi: int)
    requires
        t.len() > 0,
    ensures
        ({
            let step = |p: PieceModel| event_step(w, sub, base, piece(p, lo, hi));
            &&& step(PieceModel::Words(t)).out.text == w.out.text + t
            &&& step(PieceModel::Tag(t)) == step(PieceModel::Words(t))
            &&& step(PieceModel::Markup(t)) == step(PieceModel::Words(t))
            &&& step(PieceModel::Words(t)).out.spans.last().style == w.style
            &&& step(PieceModel::Verbatim(t)).out.text == w.out.text + t
            &&& step(PieceModel::Verbatim(t)).out.spans.last().style == w.style | 4
            &&& step(PieceModel::Soft).out.text == w.out.text.push('\n')
            &&& step(PieceModel::Hard) == step(PieceModel::Soft)
            &&& step(PieceModel::Other) == w
        }),
{
    assert(w.out.text + seq!['\n'] =~= w.out.text.push('\n'));
}

/// Text that goes on in style and place makes one span; else there is a span more, for just
/// that text and that source.
pub proof fn spans_go_on_where_they_can(m: InlineModel, s: Seq<char>, style: u8, lo: int, hi: int)
    requires
        s.len() > 0,
    ensures
        ({
            let r = with_text(m, s, style, lo, hi);
            let n = m.spans.len() as int;
            let (a, b) = (blen(m.text) as int, blen(m.text) + blen(s) as int);
            let goes_on = n > 0 && m.spans[n - 1].style == style && m.spans[n - 1].hi == a
                && m.spans[n - 1].src_hi == lo;
            &&& r.spans.len() == if goes_on {
                n
            } else {
                n + 1
            }
            &&& r.spans.last().hi == b && r.spans.last().src_hi == hi && r.spans.last().style
                == style
            &&& goes_on ==> r.spans.last().lo == m.spans[n - 1].lo && r.spans.last().src_lo
                == m.spans[n - 1].src_lo
            &&& !goes_on ==> r.spans.last().lo == a && r.spans.last().src_lo == lo
        }),
{
}

// ---------- places ----------

/// A place inside a span comes from the place in its source at the same distance from the
/// start, as far as the source reaches.
pub proof fn places_keep_their_distance(m: InlineModel, n: int, k: int, r: int)
    requires
        inline_ok(m, n),
        0 <= k < m.spans.len(),
        m.spans[k].lo < r <= m.spans[k].hi,
    ensures
        ({
            let sp = m.spans[k];
            let room = sp.src_hi - sp.src_lo;
            source_at(m.spans, r, 0) == sp.src_lo + if r - sp.lo < room {
                r - sp.lo
            } else {
                room
            }
        }),
{
    assert(span_ok(m.spans, k, n));
    lemma_source_from(m, n, k, r, 0);
}

proof fn lemma_source_from(m: InlineModel, n: int, k: int, r: int, j: int)
    requires
        inline_ok(m, n),
        0 <= j <= k < m.spans.len(),
        m.spans[k].lo < r <= m.spans[k].hi,
    ensures
        source_at(m.spans, r, j) == source_at(m.spans, r, k),
    decreases k - j,
{
    assert(span_ok(m.spans, j, n));
    if j < k {
        lemma_span_order(m, n, j, k);
        lemma_source_from(m, n, k, r, j + 1);
    } else {
        assert(span_ok(m.spans, k, n));
    }
}

proof fn lemma_span_order(m: InlineModel, n: int, j: int, k: int)
    requires
        inline_ok(m, n),
        0 <= j < k < m.spans.len(),
    ensures
        m.spans[j].hi <= m.spans[k].lo,
    decreases k - j,
{
    assert(span_ok(m.spans, k, n));
    if j < k - 1 {
        lemma_span_order(m, n, j, k - 1);
        assert(span_ok(m.spans, k - 1, n));
    }
}

/// A place in the source of a span is shown at the same distance from its start, as far as what
/// is shown reaches.
pub proof fn shown_places_keep_their_distance(m: InlineModel, n: int, k: int, b: int)
    requires
        inline_ok(m, n),
        faithful(m.spans),
        0 <= k < m.spans.len(),
        m.spans[k].src_lo < b <= m.spans[k].src_hi,
    ensures
        ({
            let sp = m.spans[k];
            let room = sp.hi - sp.lo;
            rendered_at(m, b, 0) == sp.lo + if b - sp.src_lo < room {
                b - sp.src_lo
            } else {
                room
            }
        }),
{
    assert(span_ok(m.spans, k, n));
    lemma_rendered_from(m, n, k, b, 0);
}

proof fn lemma_rendered_from(m: InlineModel, n: int, k: int, b: int, j: int)
    requires
        inline_ok(m, n),
        faithful(m.spans),
        0 <= j <= k < m.spans.len(),
        m.spans[k].src_lo < b <= m.spans[k].src_hi,
    ensures
        rendered_at(m, b, j) == rendered_at(m, b, k),
    decreases k - j,
{
    if j < k {
        assert(m.spans[j].src_hi <= m.spans[k].src_lo);
        assert(span_ok(m.spans, j, n));
        lemma_rendered_from(m, n, k, b, j + 1);
    }
}

/// Where code stands in its source: behind what marks it.
pub proof fn code_comes_from_between_its_marks(
    a: Seq<char>,
    x: Seq<char>,
    t: Seq<char>,
    y: Seq<char>,
    b: Seq<char>,
)
    requires
        t.len() > 0,
        !x.contains(t[0]),
    ensures
        code_start(
            a + (x + t + y) + b,
            blen(a) as int,
            blen(a) + blen(x + t + y) as int,
            t,
        ) == blen(a) + blen(x),
{
    let sub = a + (x + t + y) + b;
    let mid = x + t + y;
    let (i, j) = (a.len() as int, a.len() + mid.len() as int);
    assert(sub.take(i) =~= a);
    assert(sub.take(j) =~= a + mid);
    lemma_blen_concat(a, mid);
    crate::text::lemma_floor_index_off(sub, i);
    crate::text::lemma_floor_index_off(sub, j);
    assert(sub.subrange(i, j) =~= mid);
    let n = x.len() as int;
    assert(mid.subrange(n, n + t.len()) =~= t);
    assert forall|k: int| 0 <= k < n implies #[trigger] mid[k] != t[0] by {
        assert(mid[k] == x[k]);
        assert(x.contains(x[k]));
    }
    lemma_first_found(mid, t, 0, n);
    assert(mid.take(n) =~= x);
}

proof fn lemma_first_found(s: Seq<char>, t: Seq<char>, i: int, n: int)
    requires
        0 <= i <= n,
        t.len() > 0,
        n + t.len() <= s.len(),
        s.subrange(n, n + t.len()) == t,
        forall|k: int| 0 <= k < n ==> #[trigger] s[k] != t[0],
    ensures
        find_from(s, t, i) == Some(n),
    decreases n - i,
{
    if i < n {
        assert(s.subrange(i, i + t.len())[0] == s[i]);
        assert(s[i] != t[0]);
        lemma_first_found(s, t, i + 1, n);
    }
}

// ---------- all of a text ----------

/// The parts of a text, and the pieces of each, are taken in turn, one after the other, all of
/// them.
pub proof fn pieces_are_taken_in_turn(
    m: InlineModel,
    s: Seq<char>,
    a: Seq<SegModel>,
    g: SegModel,
    w: WalkModel,
    base: int,
    es: Seq<EventModel>,
    e: EventModel,
)
    ensures
        segs_fold(m, s, Seq::empty()) == m,
        segs_fold(m, s, a.push(g)) == seg_step(segs_fold(m, s, a), s, g),
        walk(w, s, base, Seq::empty()) == w,
        walk(w, s, base, es.push(e)) == event_step(walk(w, s, base, es), s, base, e),
{
    lemma_fold_push(m, s, a, g);
    lemma_walk_push(w, s, base, es, e);
}

proof fn lemma_fold_push(m: InlineModel, s: Seq<char>, a: Seq<SegModel>, g: SegModel)
    ensures
        segs_fold(m, s, a.push(g)) == seg_step(segs_fold(m, s, a), s, g),
    decreases a.len(),
{
    let v = a.push(g);
    if a.len() == 0 {
        assert(v.drop_first() =~= Seq::<SegModel>::empty());
        assert(segs_fold(seg_step(m, s, g), s, Seq::empty()) == seg_step(m, s, g));
    } else {
        assert(v.drop_first() =~= a.drop_first().push(g));
        assert(v[0] == a[0]);
        lemma_fold_push(seg_step(m, s, a[0]), s, a.drop_first(), g);
    }
}

proof fn lemma_walk_push(w: WalkModel, s: Seq<char>, base: int, a: Seq<EventModel>, e: EventModel)
    ensures
        walk(w, s, base, a.push(e)) == event_step(walk(w, s, base, a), s, base, e),
    decreases a.len(),
{
    let v = a.push(e);
    if a.len() == 0 {
        assert(v.drop_first() =~= Seq::<EventModel>::empty());
        assert(walk(event_step(w, s, base, e), s, base, Seq::empty()) == event_step(w, s, base, e));
    } else {
        assert(v.drop_first() =~= a.drop_first().push(e));
        assert(v[0] == a[0]);
        lemma_walk_push(event_step(w, s, base, a[0]), s, base, a.drop_first(), e);
    }
}

/// Text with any of Markdown's characters is read as Markdown, from a start without style.
pub proof fn marked_text_is_read_as_markdown(s: Seq<char>, k: int)
    requires
        0 <= k < s.len(),
        s[k] == '*' || s[k] == '_' || s[k] == '`' || s[k] == '!' || s[k] == '~' || s[k] == '<' || s[k]
            == '&' || s[k] == '\\',
        forall|j: int| 0 <= j < s.len() ==> #[trigger] s[j] != '#' && s[j] != '[',
    ensures
        inline_of(s) == walk(
            WalkModel { out: empty_model(), style: 0, stack: Seq::empty(), link: None },
            s,
            0,
            crate::inline::markdown_events(s),
        ).out,
{
    assert(is_marker(s[k]));
    lemma_segs_plain(s, 0, 0);
    let n = s.len() as int;
    let g = SegModel::Plain { i: 0, j: n };
    let v = gap(0, n);
    assert(v =~= Seq::<SegModel>::empty().push(g));
    lemma_fold_push(empty_model(), s, Seq::empty(), g);
    assert(segs_fold(empty_model(), s, Seq::empty()) == empty_model());
    assert(s.subrange(0, n) =~= s);
    assert(s.take(0) =~= Seq::<char>::empty());
}

/// A link to a note with nothing but white space for its words is shown by its name.
pub proof fn links_without_words_show_their_name(pre: Seq<char>, name: Seq<char>, a: Seq<char>, post: Seq<char>)
    requires
        is_white(a),
        name.len() > 0,
        !is_space(name[0]) && !is_space(name.last()),
        !name.contains(']') && !name.contains('|'),
    ensures
        wiki_at(pre + seq!['[', '['] + (name + seq!['|'] + a) + seq![']', ']'] + post, pre.len() as int)
            == Some((pre.len() as int + 5 + name.len() + a.len(), name, name)),
{
    let inner = name + seq!['|'] + a;
    let n = name.len() as int;
    assert forall|k: int| 0 <= k < inner.len() implies #[trigger] inner[k] != ']' by {
        if k < n {
            assert(name.contains(name[k]));
        } else if k > n {
            assert(is_space(a[k - n - 1]));
        }
    }
    lemma_wiki(pre, inner, post);
    assert forall|k: int| 0 <= k < n implies #[trigger] inner[k] != '|' by {
        assert(name.contains(name[k]));
    }
    assert(inner[n] == '|');
    lemma_index_of_is(inner, '|', n);
    let none = Seq::<char>::empty();
    lemma_cut_ends(none, name, none);
    assert(inner.take(n) =~= none + name + none);
    assert(inner.skip(n + 1) =~= a);
    crate::talk_laws::lemma_white(a);
}

/// A link around nothing leads nowhere.
pub proof fn empty_links_lead_nowhere(w: WalkModel, sub: Seq<char>, base: int, lo: int, hi: int, url: Seq<char>)
    ensures
        ({
            let v = event_step(
                event_step(w, sub, base, piece(PieceModel::Address(url), lo, hi)),
                sub,
                base,
                piece(PieceModel::EndAddress, lo, hi),
            );
            v.out == w.out && v.style == w.style && v.stack == w.stack
        }),
{
    assert(w.stack.push(w.style).drop_last() =~= w.stack);
}

/// What opens with two brackets and does not close, or names nothing, is no link.
pub proof fn unclosed_brackets_are_no_link(pre: Seq<char>, rest: Seq<char>, a: Seq<char>)
    requires
        !rest.contains(']'),
        is_white(a),
    ensures
        wiki_at(pre + seq!['[', '['] + rest, pre.len() as int) is None,
        wiki_at(pre + seq!['[', '['] + a + seq![']', ']'] + rest, pre.len() as int) is None,
{
    let s = pre + seq!['[', '['] + rest;
    let i = pre.len() as int;
    lemma_find_from(s, seq![']', ']'], i + 2);
    if let Some(j) = find_from(s, seq![']', ']'], i + 2) {
        assert(s.subrange(j, j + 2)[0] == s[j]);
        assert(s[j] == rest[j - i - 2]);
        assert(rest.contains(']'));
    }
    assert forall|k: int| 0 <= k < a.len() implies #[trigger] a[k] != ']' by {
        assert(is_space(a[k]));
    }
    lemma_wiki(pre, a, rest);
    assert forall|k: int| 0 <= k < a.len() implies #[trigger] a[k] != '|' by {
        assert(is_space(a[k]));
    }
    lemma_index_of_is(a, '|', a.len() as int);
    assert(a.take(a.len() as int) =~= a);
    crate::talk_laws::lemma_white(a);
}

} // verus!
