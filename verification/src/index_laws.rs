//! What the index promises: which tags and links a note has, which note a link leads to, and
//! what queries and searches find.
use crate::block_laws::{is_white, lemma_cut_ends, lemma_cut_start};
use crate::index::{
    all_line_links, all_line_tags, firsts, front_tags, inline_tags, line_links, line_tags, link_end,
    list_tag, list_tags, matter_tags, note_of, notes_of, token_of, NoteFile,
};
use crate::inline::{lemma_word_end, tag_at};
use crate::inline_laws::{is_tag_name, names_tags, tags_are_words_behind_a_hash};
use crate::text::{
    find_from, index_of, is_space, join, lemma_find_from, lemma_index_of_is, lemma_run_of_is,
    lemma_split_join, lines_of, trim, trim_run, trim_run_end, trim_start,
};
use vstd::prelude::*;

verus! {

// ---------- tags and links of a line ----------

proof fn lemma_tags_from(s: Seq<char>, i: int, t: Seq<char>, k: int)
    requires
        0 <= k <= t.len() <= s.len(),
        i == s.len() - t.len() + k,
        forall|j: int| k <= j < t.len() ==> s[s.len() - t.len() + j] == #[trigger] t[j],
        k == 0 || s[i - 1] == t[k - 1],
        k == 0 && t.len() > 0 ==> t[0] != '#',
    ensures
        line_tags(s, i) == line_tags(t, k),
    decreases t.len() - k,
{
    let d = s.len() - t.len();
    if k < t.len() {
        assert(s[i] == t[k]);
        lemma_word_end(s, i + 1);
        lemma_word_end(t, k + 1);
        lemma_word_end_from(s, i + 1, t, k + 1);
        match tag_at(t, k) {
            Some(j) => {
                assert(tag_at(s, i) == Some(j + d));
                assert(s.subrange(i + 1, j + d) =~= t.subrange(k + 1, j));
                assert(s[j + d - 1] == t[j - 1]);
                lemma_tags_from(s, j + d, t, j);
            },
            None => {
                assert(tag_at(s, i) is None);
                lemma_tags_from(s, i + 1, t, k + 1);
            },
        }
    }
}

proof fn lemma_word_end_from(s: Seq<char>, i: int, t: Seq<char>, k: int)
    requires
        0 <= k <= t.len() <= s.len(),
        i == s.len() - t.len() + k,
        forall|j: int| k <= j < t.len() ==> s[s.len() - t.len() + j] == #[trigger] t[j],
    ensures
        crate::inline::word_end(s, i) == crate::inline::word_end(t, k) + (s.len() - t.len()),
    decreases t.len() - k,
{
    if k < t.len() {
        assert(s[i] == t[k]);
        if crate::inline::is_word(t[k]) {
            lemma_word_end_from(s, i + 1, t, k + 1);
        }
    }
}

proof fn lemma_tags_skip(s: Seq<char>, i: int, n: int)
    requires
        0 <= i <= n <= s.len(),
        forall|k: int| i <= k < n ==> #[trigger] s[k] != '#',
    ensures
        line_tags(s, i) == line_tags(s, n),
    decreases n - i,
{
    if i < n {
        assert(s[i] != '#');
        lemma_tags_skip(s, i + 1, n);
    }
}

/// The tags of a line: a `#` with letters, digits, `_` or Chinese characters behind it is one
/// with all of them, and then come those of the rest of the line.
pub proof fn tags_of_a_line(pre: Seq<char>, word: Seq<char>, post: Seq<char>)
    requires
        !pre.contains('#'),
        pre.len() == 0 || !names_tags(pre.last()),
        word.len() > 0,
        is_tag_name(word),
        post.len() == 0 || (!names_tags(post[0]) && post[0] != '#'),
    ensures
        line_tags(pre + seq!['#'] + word + post, 0) == seq![word] + line_tags(post, 0),
        line_tags(pre, 0) == Seq::<Seq<char>>::empty(),
{
    let s = pre + seq!['#'] + word + post;
    let i = pre.len() as int;
    let j = i + 1 + word.len();
    assert forall|k: int| 0 <= k < pre.len() implies #[trigger] pre[k] != '#' by {
        assert(pre.contains(pre[k]));
    }
    assert forall|k: int| 0 <= k < i implies #[trigger] s[k] != '#' by {
        assert(s[k] == pre[k]);
    }
    lemma_tags_skip(s, 0, i);
    lemma_tags_skip(pre, 0, i);
    tags_are_words_behind_a_hash(pre, word, post);
    lemma_word_end(s, i + 1);
    assert(s.subrange(i + 1, j) =~= word);
    assert forall|k: int| 0 <= k < post.len() implies s[s.len() - post.len() + k]
        == #[trigger] post[k] by {}
    lemma_tags_from(s, j, post, 0);
}

proof fn lemma_find_from_tail(s: Seq<char>, i: int, t: Seq<char>, k: int)
    requires
        0 <= k,
        s.len() >= t.len(),
        i == s.len() - t.len() + k,
        forall|j: int| k <= j < t.len() ==> s[s.len() - t.len() + j] == #[trigger] t[j],
    ensures
        find_from(s, seq![']', ']'], i) == match find_from(t, seq![']', ']'], k) {
            Some(j) => Some(j + (s.len() - t.len())),
            None => None,
        },
    decreases t.len() + 1 - k,
{
    if k + 2 <= t.len() {
        assert(s.subrange(i, i + 2) =~= t.subrange(k, k + 2)) by {
            assert(s[i] == t[k] && s[i + 1] == t[k + 1]);
        }
        lemma_find_from_tail(s, i + 1, t, k + 1);
    }
}

proof fn lemma_links_from(s: Seq<char>, i: int, t: Seq<char>, k: int)
    requires
        0 <= k,
        s.len() >= t.len(),
        i == s.len() - t.len() + k,
        forall|j: int| k <= j < t.len() ==> s[s.len() - t.len() + j] == #[trigger] t[j],
    ensures
        line_links(s, i) == line_links(t, k),
    decreases t.len() - k,
{
    let d = s.len() - t.len();
    if k < t.len() {
        assert(s[i] == t[k]);
        if k + 1 < t.len() {
            assert(s[i + 1] == t[k + 1]);
        }
        lemma_find_from(s, seq![']', ']'], i + 2);
        lemma_find_from(t, seq![']', ']'], k + 2);
        lemma_find_from_tail(s, i + 2, t, k + 2);
        match link_end(t, k) {
            Some(j) => {
                assert(link_end(s, i) == Some(j + d));
                assert(s.subrange(i + 2, j + d) =~= t.subrange(k + 2, j));
                lemma_links_from(s, j + d + 2, t, j + 2);
            },
            None => {
                assert(link_end(s, i) is None);
                lemma_links_from(s, i + 1, t, k + 1);
            },
        }
    }
}

proof fn lemma_links_skip(s: Seq<char>, i: int, n: int)
    requires
        0 <= i <= n <= s.len(),
        forall|k: int| i <= k < n ==> #[trigger] s[k] != '[',
    ensures
        line_links(s, i) == line_links(s, n),
    decreases n - i,
{
    if i < n {
        assert(s[i] != '[');
        lemma_links_skip(s, i + 1, n);
    }
}

proof fn lemma_find_close(s: Seq<char>, i: int, j: int)
    requires
        0 <= i <= j,
        j + 2 <= s.len(),
        s[j] == ']',
        s[j + 1] == ']',
        forall|k: int| i <= k < j ==> #[trigger] s[k] != ']',
    ensures
        find_from(s, seq![']', ']'], i) == Some(j),
    decreases j - i,
{
    let pat = seq![']', ']'];
    if i == j {
        assert(s.subrange(i, i + 2) =~= pat);
    } else {
        assert(s.subrange(i, i + 2)[0] == s[i]);
        assert(pat[0] == ']');
        lemma_find_close(s, i + 1, j);
    }
}

/// The links of a line: what stands between two brackets on each side, up to a bar, names a
/// note, if it is not blank; and then come those of the rest of the line.
pub proof fn links_of_a_line(
    pre: Seq<char>,
    a: Seq<char>,
    name: Seq<char>,
    b: Seq<char>,
    words: Seq<char>,
    post: Seq<char>,
)
    requires
        !pre.contains('['),
        is_white(a) && is_white(b),
        name.len() > 0 && !is_space(name[0]) && !is_space(name.last()),
        !name.contains(']') && !name.contains('|'),
        words.len() > 0 ==> words[0] == '|',
        !words.contains(']'),
    ensures
        line_links(pre + seq!['[', '['] + (a + name + b + words) + seq![']', ']'] + post, 0)
            == seq![name] + line_links(post, 0),
        line_links(pre + seq!['[', '['] + a + seq![']', ']'] + post, 0) == line_links(post, 0),
        line_links(pre, 0) == Seq::<Seq<char>>::empty(),
{
    let inner = a + name + b + words;
    assert forall|k: int| 0 <= k < inner.len() implies #[trigger] inner[k] != ']' by {
        let x = a.len() as int;
        let y = x + name.len();
        let z = y + b.len();
        if k < x {
            assert(is_space(a[k]));
        } else if k < y {
            assert(inner[k] == name[k - x]);
            assert(name.contains(name[k - x]));
        } else if k < z {
            assert(inner[k] == b[k - y]);
            assert(is_space(b[k - y]));
        } else {
            assert(inner[k] == words[k - z]);
            assert(words.contains(words[k - z]));
        }
    }
    lemma_link_first(pre, inner, post);
    let left = a + name + b;
    assert forall|k: int| 0 <= k < left.len() implies #[trigger] inner[k] != '|' by {
        let x = a.len() as int;
        let y = x + name.len();
        if k < x {
            assert(is_space(a[k]));
        } else if k < y {
            assert(inner[k] == name[k - x]);
            assert(name.contains(name[k - x]));
        } else {
            assert(inner[k] == b[k - y]);
            assert(is_space(b[k - y]));
        }
    }
    if words.len() > 0 {
        assert(inner[left.len() as int] == words[0]);
    }
    lemma_index_of_is(inner, '|', left.len() as int);
    assert(inner.take(left.len() as int) =~= left);
    lemma_cut_ends(a, name, b);
    assert forall|k: int| 0 <= k < a.len() implies #[trigger] a[k] != ']' && a[k] != '|' by {
        assert(is_space(a[k]));
    }
    lemma_link_first(pre, a, post);
    lemma_index_of_is(a, '|', a.len() as int);
    assert(a.take(a.len() as int) =~= a);
    crate::block_laws::blank_lines_are_white(a);
    assert(token_of(trim(a)) + line_links(post, 0) =~= line_links(post, 0));
    assert forall|k: int| 0 <= k < pre.len() implies #[trigger] pre[k] != '[' by {
        assert(pre.contains(pre[k]));
    }
    lemma_links_skip(pre, 0, pre.len() as int);
}

proof fn lemma_link_first(pre: Seq<char>, inner: Seq<char>, post: Seq<char>)
    requires
        !pre.contains('['),
        forall|k: int| 0 <= k < inner.len() ==> #[trigger] inner[k] != ']',
    ensures
        line_links(pre + seq!['[', '['] + inner + seq![']', ']'] + post, 0) == token_of(
            trim(inner.take(index_of(inner, '|'))),
        ) + line_links(post, 0),
{
    let s = pre + seq!['[', '['] + inner + seq![']', ']'] + post;
    let i = pre.len() as int;
    let j = i + 2 + inner.len();
    assert forall|k: int| 0 <= k < i implies #[trigger] s[k] != '[' by {
        assert(s[k] == pre[k]);
        assert(pre.contains(pre[k]));
    }
    lemma_links_skip(s, 0, i);
    assert(s[i] == '[' && s[i + 1] == '[');
    assert(s[j] == ']' && s[j + 1] == ']');
    assert forall|k: int| i + 2 <= k < j implies #[trigger] s[k] != ']' by {
        assert(s[k] == inner[k - i - 2]);
    }
    lemma_find_close(s, i + 2, j);
    assert(s.subrange(i + 2, j) =~= inner);
    lemma_links_from(s, j + 2, post, 0);
}

// ---------- tags and links of a note ----------

/// A list without repetitions stays in front as it is.
pub proof fn firsts_keep_the_order(a: Seq<Seq<char>>, b: Seq<Seq<char>>)
    requires
        a.no_duplicates(),
    ensures
        a.is_prefix_of(firsts(a + b)),
        firsts(a) == a,
    decreases b.len(), a.len(),
{
    if b.len() > 0 {
        firsts_keep_the_order(a, b.drop_last());
        assert((a + b).drop_last() =~= a + b.drop_last());
        let f = firsts(a + b.drop_last());
        let g = f.push((a + b).last());
        assert(f.take(a.len() as int) =~= a);
        assert(g.take(a.len() as int) =~= a);
    } else {
        assert(a + b =~= a);
        if a.len() > 0 {
            let c = a.drop_last();
            assert(c.no_duplicates()) by {
                assert forall|i: int, j: int| 0 <= i < c.len() && 0 <= j < c.len() && i != j implies c[i]
                    != c[j] by {
                    assert(a[i] != a[j]);
                }
            }
            firsts_keep_the_order(c, Seq::empty());
            if c.contains(a.last()) {
                let k = choose|k: int| 0 <= k < c.len() && c[k] == a.last();
                assert(a[k] == a[a.len() - 1]);
            }
            assert(c.push(a.last()) =~= a);
        }
        assert(a.take(a.len() as int) =~= a);
    }
}

proof fn lemma_all_tags(lines: Seq<Seq<char>>, t: Seq<char>)
    ensures
        all_line_tags(lines).contains(t) <==> exists|k: int|
            0 <= k < lines.len() && line_tags(#[trigger] lines[k], 0).contains(t),
    decreases lines.len(),
{
    if lines.len() > 0 {
        let front = lines.drop_last();
        lemma_all_tags(front, t);
        lemma_plus_contains(all_line_tags(front), line_tags(lines.last(), 0), t);
        if all_line_tags(front).contains(t) {
            let k = choose|k: int|
                0 <= k < front.len() && line_tags(#[trigger] front[k], 0).contains(t);
            assert(lines[k] == front[k]);
        }
        assert(lines[lines.len() - 1] == lines.last());
        if exists|k: int| 0 <= k < lines.len() && line_tags(#[trigger] lines[k], 0).contains(t) {
            let k = choose|k: int|
                0 <= k < lines.len() && line_tags(#[trigger] lines[k], 0).contains(t);
            if k < front.len() {
                assert(front[k] == lines[k]);
            }
        }
    }
}

proof fn lemma_all_links(lines: Seq<Seq<char>>, t: Seq<char>)
    ensures
        all_line_links(lines).contains(t) <==> exists|k: int|
            0 <= k < lines.len() && line_links(#[trigger] lines[k], 0).contains(t),
    decreases lines.len(),
{
    if lines.len() > 0 {
        let front = lines.drop_last();
        lemma_all_links(front, t);
        lemma_plus_contains(all_line_links(front), line_links(lines.last(), 0), t);
        if all_line_links(front).contains(t) {
            let k = choose|k: int|
                0 <= k < front.len() && line_links(#[trigger] front[k], 0).contains(t);
            assert(lines[k] == front[k]);
        }
        assert(lines[lines.len() - 1] == lines.last());
        if exists|k: int| 0 <= k < lines.len() && line_links(#[trigger] lines[k], 0).contains(t) {
            let k = choose|k: int|
                0 <= k < lines.len() && line_links(#[trigger] lines[k], 0).contains(t);
            if k < front.len() {
                assert(front[k] == lines[k]);
            }
        }
    }
}

proof fn lemma_plus_contains(a: Seq<Seq<char>>, b: Seq<Seq<char>>, t: Seq<char>)
    ensures
        (a + b).contains(t) <==> a.contains(t) || b.contains(t),
{
    if a.contains(t) {
        let k = choose|k: int| 0 <= k < a.len() && a[k] == t;
        assert((a + b)[k] == t);
    }
    if b.contains(t) {
        let k = choose|k: int| 0 <= k < b.len() && b[k] == t;
        assert((a + b)[a.len() + k] == t);
    }
    if (a + b).contains(t) {
        let k = choose|k: int| 0 <= k < (a + b).len() && (a + b)[k] == t;
        if k < a.len() {
            assert(a[k] == t);
        } else {
            assert(b[k - a.len()] == t);
        }
    }
}

/// A note has the tags of its front matter and of all its lines, and no others; those of the
/// front matter come first, in their order. Its links are those of all its lines. Nothing is
/// there twice.
pub proof fn notes_have_the_tags_and_links_of_their_lines(
    path: Seq<char>,
    content: Seq<char>,
    t: Seq<char>,
)
    ensures
        ({
            let n = note_of(path, content);
            let lines = lines_of(content);
            &&& n.path == path
            &&& n.tags.contains(t) <==> front_tags(content).contains(t) || exists|k: int|
                0 <= k < lines.len() && line_tags(#[trigger] lines[k], 0).contains(t)
            &&& n.outgoing.contains(t) <==> exists|k: int|
                0 <= k < lines.len() && line_links(#[trigger] lines[k], 0).contains(t)
            &&& n.tags.no_duplicates() && n.outgoing.no_duplicates()
            &&& front_tags(content).no_duplicates() ==> front_tags(content).is_prefix_of(n.tags)
        }),
{
    let lines = lines_of(content);
    let all = front_tags(content) + all_line_tags(lines);
    lemma_plus_contains(front_tags(content), all_line_tags(lines), t);
    lemma_all_tags(lines, t);
    lemma_all_links(lines, t);
    crate::index::firsts_has_no_duplicates(all);
    crate::index::firsts_has_no_duplicates(all_line_links(lines));
    if front_tags(content).no_duplicates() {
        firsts_keep_the_order(front_tags(content), all_line_tags(lines));
    }
}

/// Every file that could be read is a note of the index, in the order of the files.
pub proof fn every_file_is_a_note(files: Seq<NoteFile>)
    requires
        forall|k: int| 0 <= k < files.len() ==> (#[trigger] files[k]).text is Some,
    ensures
        notes_of(files).len() == files.len(),
        forall|k: int|
            0 <= k < files.len() ==> #[trigger] notes_of(files)[k] == note_of(
                files[k].path@,
                files[k].text->0@,
            ),
    decreases files.len(),
{
    if files.len() > 0 {
        let front = files.drop_last();
        assert forall|k: int| 0 <= k < front.len() implies (#[trigger] front[k]).text is Some by {
            assert(front[k] == files[k]);
        }
        every_file_is_a_note(front);
        assert(files[files.len() - 1] == files.last());
        assert forall|k: int| 0 <= k < files.len() implies #[trigger] notes_of(files)[k] == note_of(
            files[k].path@,
            files[k].text->0@,
        ) by {
            if k < front.len() {
                assert(notes_of(files)[k] == notes_of(front)[k]);
                assert(front[k] == files[k]);
            }
        }
    }
}

// ---------- front matter ----------

/// A name that can stand in a list as it is: not blank, and neither white space nor quotation
/// marks at its ends.
pub open spec fn is_clean(name: Seq<char>) -> bool {
    &&& name.len() > 0
    &&& !is_space(name[0]) && name[0] != '"' && name[0] != '\''
    &&& !is_space(name.last()) && name.last() != '"' && name.last() != '\''
}

/// Whether `x` is a name with white space around it, in quotation marks or not.
pub open spec fn says(x: Seq<char>, name: Seq<char>) -> bool {
    is_clean(name) && exists|a: Seq<char>, q: Seq<char>, b: Seq<char>|
        is_white(a) && is_white(b) && (q.len() == 0 || q == seq!['"'] || q == seq!['\'']) && x
            == #[trigger] (a + (q + name + q) + b)
}

proof fn lemma_unrun(q: Seq<char>, name: Seq<char>, c: char)
    requires
        name.len() > 0,
        name[0] != c,
        name.last() != c,
        q.len() == 0 || q == seq![c],
    ensures
        trim_run(q + name + q, c) == name,
{
    let s = q + name + q;
    let n = q.len() as int;
    assert(s[n] == name[0]);
    lemma_run_of_is(s, c, n);
    let u = s.skip(n);
    assert(u =~= name + q);
    if n > 0 {
        assert(u.last() == c);
        assert(u.drop_last() =~= name);
        assert(trim_run_end(name, c) == name);
    } else {
        assert(u =~= name);
    }
}

/// An item of a list is the name that it says.
pub proof fn items_say_names(x: Seq<char>, name: Seq<char>)
    requires
        says(x, name),
    ensures
        list_tag(x) == seq![name],
{
    let (a, q, b) = choose|a: Seq<char>, q: Seq<char>, b: Seq<char>|
        is_white(a) && is_white(b) && (q.len() == 0 || q == seq!['"'] || q == seq!['\'']) && x
            == #[trigger] (a + (q + name + q) + b);
    let m = q + name + q;
    if q.len() == 0 {
        assert(m =~= name);
    }
    assert(m[0] == if q.len() == 0 {
        name[0]
    } else {
        q[0]
    });
    lemma_cut_ends(a, m, b);
    let e = Seq::<char>::empty();
    if q == seq!['"'] {
        lemma_unrun(q, name, '"');
    } else {
        assert(e + m + e =~= m);
        lemma_unrun(e, m, '"');
    }
    if q == seq!['\''] {
        lemma_unrun(q, name, '\'');
    } else {
        assert(e + name + e =~= name);
        lemma_unrun(e, name, '\'');
    }
}

pub open spec fn tags_word() -> Seq<char> {
    seq!['t', 'a', 'g', 's', ':']
}

/// Whether a line starts, behind white space, with the word that tags are listed under.
pub open spec fn heads_tags(l: Seq<char>) -> bool {
    trim_start(l).len() >= 5 && trim_start(l).take(5) == tags_word()
}

/// A line with a dash and a blank, and then `x`.
pub open spec fn dash_item(ind: Seq<char>, x: Seq<char>) -> Seq<char> {
    ind + (seq!['-', ' '] + x)
}

/// Whether a line is an item that says a name: a dash and a blank, and then the name.
pub open spec fn lists(l: Seq<char>, name: Seq<char>) -> bool {
    exists|ind: Seq<char>, x: Seq<char>|
        is_white(ind) && says(x, name) && l == #[trigger] dash_item(ind, x)
}

proof fn lemma_head(l: Seq<char>)
    ensures
        "tags:"@.is_prefix_of(trim_start(l)) == heads_tags(l),
{
    reveal_strlit("tags:");
    assert("tags:"@ =~= tags_word());
}

proof fn lemma_items(items: Seq<Seq<char>>, names: Seq<Seq<char>>, after: Seq<Seq<char>>)
    requires
        items.len() == names.len(),
        forall|k: int| 0 <= k < items.len() ==> lists(#[trigger] items[k], names[k]),
        after.len() > 0 ==> trim_start(after[0]).len() == 0 || trim_start(after[0])[0] != '-',
    ensures
        matter_tags(items + after, true) == names,
    decreases items.len(),
{
    reveal_strlit("- ");
    let all = items + after;
    if items.len() == 0 {
        assert(all =~= after);
        if after.len() > 0 {
            let l = trim_start(after[0]);
            if l.len() >= 2 {
                assert(l.take(2)[0] == l[0]);
            }
        }
        assert(names =~= Seq::empty());
    } else {
        let l = items[0];
        assert(lists(l, names[0]));
        let (ind, x) = choose|ind: Seq<char>, x: Seq<char>|
            is_white(ind) && says(x, names[0]) && l == #[trigger] dash_item(ind, x);
        let t = seq!['-', ' '] + x;
        assert(t[0] == '-');
        lemma_cut_start(ind, t);
        assert(t.take(2) =~= "- "@);
        assert(t.skip(2) =~= x);
        items_say_names(x, names[0]);
        let (i2, n2) = (items.drop_first(), names.drop_first());
        assert forall|k: int| 0 <= k < i2.len() implies lists(#[trigger] i2[k], n2[k]) by {
            assert(i2[k] == items[k + 1] && n2[k] == names[k + 1]);
            assert(lists(items[k + 1], names[k + 1]));
        }
        lemma_items(i2, n2, after);
        assert(all.drop_first() =~= i2 + after);
        assert(all[0] == l);
        assert(seq![names[0]] + n2 =~= names);
    }
}

/// Under a line `tags:` all items of the list are read, in their order, up to the first line
/// that is none; what stands before that line does not count.
pub proof fn listed_tags_are_all_read(
    before: Seq<Seq<char>>,
    ind: Seq<char>,
    gap: Seq<char>,
    items: Seq<Seq<char>>,
    names: Seq<Seq<char>>,
    after: Seq<Seq<char>>,
)
    requires
        forall|k: int| 0 <= k < before.len() ==> !heads_tags(#[trigger] before[k]),
        is_white(ind),
        is_white(gap),
        items.len() == names.len(),
        forall|k: int| 0 <= k < items.len() ==> lists(#[trigger] items[k], names[k]),
        after.len() > 0 ==> trim_start(after[0]).len() == 0 || trim_start(after[0])[0] != '-',
    ensures
        matter_tags(before + seq![ind + (tags_word() + gap)] + items + after, false) == names,
    decreases before.len(),
{
    let head = ind + (tags_word() + gap);
    let all = before + seq![head] + items + after;
    if before.len() > 0 {
        assert(!heads_tags(before[0]));
        lemma_head(before[0]);
        let b2 = before.drop_first();
        assert forall|k: int| 0 <= k < b2.len() implies !heads_tags(#[trigger] b2[k]) by {
            assert(b2[k] == before[k + 1]);
        }
        listed_tags_are_all_read(b2, ind, gap, items, names, after);
        assert(all.drop_first() =~= b2 + seq![head] + items + after);
        assert(all[0] == before[0]);
    } else {
        assert(all =~= seq![head] + (items + after));
        assert(all[0] == head);
        assert(all.drop_first() =~= items + after);
        let t = tags_word() + gap;
        assert(t[0] == 't');
        lemma_cut_start(ind, t);
        assert(t.take(5) =~= tags_word());
        lemma_head(head);
        assert(t.skip(5) =~= gap);
        crate::block_laws::blank_lines_are_white(gap);
        lemma_items(items, names, after);
        assert(inline_tags(gap) =~= Seq::empty());
        assert(Seq::<Seq<char>>::empty() + names =~= names);
    }
}

/// Tags between brackets are read one by one, in their order.
pub proof fn tags_between_brackets_are_all_read(
    a: Seq<char>,
    parts: Seq<Seq<char>>,
    names: Seq<Seq<char>>,
    b: Seq<char>,
)
    requires
        is_white(a) && is_white(b),
        parts.len() > 0,
        parts.len() == names.len(),
        forall|k: int|
            0 <= k < parts.len() ==> says(#[trigger] parts[k], names[k]) && !parts[k].contains(','),
        ({
            let j = join(parts, ',');
            j.len() > 0 && j[0] != '[' && !is_space(j[0]) && j.last() != ']' && !is_space(j.last())
        }),
    ensures
        inline_tags(a + (seq!['['] + join(parts, ',') + seq![']']) + b) == names,
{
    let j = join(parts, ',');
    let t = seq!['['] + j + seq![']'];
    assert(t[0] == '[' && t.last() == ']');
    lemma_cut_ends(a, t, b);
    assert(t[1] == j[0]);
    lemma_run_of_is(t, '[', 1);
    let u = t.skip(1);
    assert(u =~= j + seq![']']);
    assert(u.drop_last() =~= j);
    assert(trim_run_end(j, ']') == j);
    let e = Seq::<char>::empty();
    lemma_cut_ends(e, j, e);
    assert(e + j + e =~= j);
    lemma_split_join(parts, ',');
    lemma_list_tags(parts, names);
}

proof fn lemma_list_tags(parts: Seq<Seq<char>>, names: Seq<Seq<char>>)
    requires
        parts.len() == names.len(),
        forall|k: int| 0 <= k < parts.len() ==> says(#[trigger] parts[k], names[k]),
    ensures
        list_tags(parts) == names,
    decreases parts.len(),
{
    if parts.len() == 0 {
        assert(names =~= Seq::empty());
    } else {
        assert(says(parts[0], names[0]));
        items_say_names(parts[0], names[0]);
        let (p2, n2) = (parts.drop_first(), names.drop_first());
        assert forall|k: int| 0 <= k < p2.len() implies says(#[trigger] p2[k], n2[k]) by {
            assert(p2[k] == parts[k + 1] && n2[k] == names[k + 1]);
            assert(says(parts[k + 1], names[k + 1]));
        }
        lemma_list_tags(p2, n2);
        assert(seq![names[0]] + n2 =~= names);
    }
}

pub open spec fn dashes() -> Seq<char> {
    seq!['-', '-', '-']
}

/// Whether these can be the lines of front matter.
pub open spec fn are_matter(lines: Seq<Seq<char>>) -> bool {
    &&& lines.len() > 0
    &&& lines.last().len() > 0
    &&& forall|k: int|
        0 <= k < lines.len() ==> !(#[trigger] lines[k]).contains('\n') && (lines[k].len() == 0
            || lines[k].last() != '\r') && !(lines[k].len() >= 3 && lines[k].take(3) == dashes())
}

pub open spec fn end_mark() -> Seq<char> {
    seq!['\n', '-', '-', '-']
}

proof fn lemma_find_shift(a: Seq<char>, b: Seq<char>, pat: Seq<char>, i: int)
    requires
        0 <= i,
    ensures
        find_from(a + b, pat, a.len() + i) == match find_from(b, pat, i) {
            Some(k) => Some(a.len() + k),
            None => None,
        },
    decreases b.len() + 1 - i,
{
    let t = a + b;
    let n = a.len() + i;
    if n + pat.len() <= t.len() {
        assert(t.subrange(n, n + pat.len()) =~= b.subrange(i, i + pat.len()));
        if b.subrange(i, i + pat.len()) != pat {
            lemma_find_shift(a, b, pat, i + 1);
        }
    }
}

proof fn lemma_no_break(s: Seq<char>, i: int, n: int)
    requires
        0 <= i <= n <= s.len(),
        forall|k: int| i <= k < n ==> #[trigger] s[k] != '\n',
    ensures
        find_from(s, end_mark(), i) == find_from(s, end_mark(), n),
    decreases n - i,
{
    if i < n {
        assert(s[i] != '\n');
        if i + 4 <= s.len() {
            assert(s.subrange(i, i + 4)[0] == s[i]);
            assert(end_mark()[0] == '\n');
            lemma_no_break(s, i + 1, n);
        } else {
            lemma_short(s, n);
        }
    }
}

proof fn lemma_short(s: Seq<char>, n: int)
    requires
        n + 4 > s.len(),
    ensures
        find_from(s, end_mark(), n) is None,
{
}

/// Where front matter ends.
proof fn lemma_matter_end(lines: Seq<Seq<char>>, post: Seq<char>)
    requires
        lines.len() > 0,
        forall|k: int|
            0 <= k < lines.len() ==> !(#[trigger] lines[k]).contains('\n') && !(lines[k].len() >= 3
                && lines[k].take(3) == dashes()),
    ensures
        find_from(seq!['\n'] + join(lines, '\n') + end_mark() + post, end_mark(), 0) == Some(
            1 + join(lines, '\n').len() as int,
        ),
    decreases lines.len(),
{
    let l = lines[0];
    assert(!lines[0].contains('\n'));
    let head = seq!['\n'] + l;
    let more = lines.drop_first();
    let tail = if lines.len() == 1 {
        end_mark() + post
    } else {
        seq!['\n'] + join(more, '\n') + end_mark() + post
    };
    let s = seq!['\n'] + join(lines, '\n') + end_mark() + post;
    if lines.len() == 1 {
        assert(s =~= head + tail);
    } else {
        assert(join(lines, '\n') =~= l + (seq!['\n'] + join(more, '\n')));
        assert(s =~= head + tail);
    }
    let n = head.len() as int;
    assert(tail[0] == '\n');
    assert(s[n] == '\n');
    assert(s.subrange(0, 4) != end_mark()) by {
        if s.subrange(0, 4) == end_mark() {
            let u = s.subrange(0, 4);
            assert(u[1] == '-' && u[2] == '-' && u[3] == '-');
            assert(s[1] == u[1] && s[2] == u[2] && s[3] == u[3]);
            if l.len() >= 3 {
                assert(s[1] == l[0] && s[2] == l[1] && s[3] == l[2]);
                assert(l.take(3) =~= dashes());
            } else {
                assert(s[1 + l.len() as int] == '\n');
            }
        }
    }
    assert forall|k: int| 1 <= k < n implies #[trigger] s[k] != '\n' by {
        assert(s[k] == l[k - 1]);
        assert(l.contains(l[k - 1]));
    }
    assert(s.len() >= 4);
    lemma_no_break(s, 1, n);
    lemma_find_shift(head, tail, end_mark(), 0);
    if lines.len() == 1 {
        assert(tail.subrange(0, 4) =~= end_mark());
        assert(find_from(tail, end_mark(), 0) == Some(0int));
    } else {
        assert forall|k: int| 0 <= k < more.len() implies !(#[trigger] more[k]).contains('\n') && !(
        more[k].len() >= 3 && more[k].take(3) == dashes()) by {
            assert(more[k] == lines[k + 1]);
        }
        lemma_matter_end(more, post);
    }
}

/// Lines that were joined are read as the same lines.
pub proof fn joined_lines_are_read_back(lines: Seq<Seq<char>>)
    requires
        lines.len() > 0,
        lines.last().len() > 0,
        forall|k: int|
            0 <= k < lines.len() ==> !(#[trigger] lines[k]).contains('\n') && (lines[k].len() == 0
                || lines[k].last() != '\r'),
    ensures
        lines_of(join(lines, '\n')) == lines,
    decreases lines.len(),
{
    let l = lines[0];
    let s = join(lines, '\n');
    assert(!lines[0].contains('\n'));
    assert forall|k: int| 0 <= k < l.len() implies #[trigger] l[k] != '\n' by {
        assert(l.contains(l[k]));
    }
    if lines.len() == 1 {
        lemma_index_of_is(s, '\n', s.len() as int);
        assert(seq![s] =~= lines);
    } else {
        let more = lines.drop_first();
        assert forall|k: int| 0 <= k < more.len() implies !(#[trigger] more[k]).contains('\n') && (
        more[k].len() == 0 || more[k].last() != '\r') by {
            assert(more[k] == lines[k + 1]);
        }
        joined_lines_are_read_back(more);
        assert forall|k: int| 0 <= k < l.len() implies #[trigger] s[k] != '\n' by {
            assert(s[k] == l[k]);
        }
        assert(s[l.len() as int] == '\n');
        lemma_index_of_is(s, '\n', l.len() as int);
        assert(s.take(l.len() as int) =~= l);
        assert(s.skip(l.len() as int + 1) =~= join(more, '\n'));
        assert(seq![l] + more =~= lines);
    }
}

/// A line ends at a line feed, and a carriage return before that does not belong to it.
pub proof fn lines_are_read_one_by_one(l: Seq<char>, rest: Seq<char>)
    requires
        !l.contains('\n'),
        l.len() == 0 || l.last() != '\r',
    ensures
        lines_of(l + seq!['\n'] + rest) == seq![l] + lines_of(rest),
        lines_of(l + seq!['\r', '\n'] + rest) == seq![l] + lines_of(rest),
        l.len() > 0 ==> lines_of(l) == seq![l],
        lines_of(Seq::empty()).len() == 0,
{
    assert forall|k: int| 0 <= k < l.len() implies #[trigger] l[k] != '\n' by {
        assert(l.contains(l[k]));
    }
    let n = l.len() as int;
    lemma_index_of_is(l, '\n', n);
    let a = l + seq!['\n'] + rest;
    assert forall|k: int| 0 <= k < n implies #[trigger] a[k] != '\n' by {
        assert(a[k] == l[k]);
    }
    lemma_index_of_is(a, '\n', n);
    assert(a.take(n) =~= l);
    assert(a.skip(n + 1) =~= rest);
    let b = l + seq!['\r', '\n'] + rest;
    assert forall|k: int| 0 <= k < n + 1 implies #[trigger] b[k] != '\n' by {
        if k < n {
            assert(b[k] == l[k]);
        } else {
            assert(b[k] == '\r');
        }
    }
    assert(b[n + 1] == '\n');
    lemma_index_of_is(b, '\n', n + 1);
    assert(b.take(n + 1) =~= l.push('\r'));
    assert(l.push('\r').drop_last() =~= l);
    assert(b.skip(n + 2) =~= rest);
}

/// The tags of front matter are those of the lines between two lines of dashes at the start
/// of the text.
pub proof fn front_matter_stands_between_dashes(lines: Seq<Seq<char>>, post: Seq<char>)
    requires
        are_matter(lines),
    ensures
        front_tags(dashes() + seq!['\n'] + join(lines, '\n') + end_mark() + post) == matter_tags(
            lines,
            false,
        ),
{
    reveal_strlit("---");
    reveal_strlit("\n---");
    reveal_strlit("tags:");
    let j = join(lines, '\n');
    let content = dashes() + seq!['\n'] + j + end_mark() + post;
    assert(content.take(3) =~= "---"@);
    assert("\n---"@ =~= end_mark());
    let rest = content.skip(3);
    assert(rest =~= seq!['\n'] + j + end_mark() + post);
    lemma_matter_end(lines, post);
    let m = rest.take(1 + j.len() as int);
    assert(m =~= seq!['\n'] + j);
    lemma_index_of_is(m, '\n', 0);
    assert(m.take(0) =~= Seq::<char>::empty());
    assert(m.skip(1) =~= j);
    joined_lines_are_read_back(lines);
    let e = Seq::<char>::empty();
    assert(lines_of(m) == seq![e] + lines);
    lemma_cut_start(e, e);
    assert(e + e =~= e);
    assert((seq![e] + lines).drop_first() =~= lines);
    assert((seq![e] + lines)[0] == e);
    assert(trim_start(e).len() == 0);
}

/// A note whose front matter lists tags has all of them, before all others and in their order.
pub proof fn listed_tags_are_tags_of_the_note(
    path: Seq<char>,
    before: Seq<Seq<char>>,
    ind: Seq<char>,
    gap: Seq<char>,
    items: Seq<Seq<char>>,
    names: Seq<Seq<char>>,
    after: Seq<Seq<char>>,
    post: Seq<char>,
)
    requires
        forall|k: int| 0 <= k < before.len() ==> !heads_tags(#[trigger] before[k]),
        is_white(ind),
        is_white(gap),
        items.len() == names.len(),
        forall|k: int| 0 <= k < items.len() ==> lists(#[trigger] items[k], names[k]),
        after.len() > 0 ==> trim_start(after[0]).len() == 0 || trim_start(after[0])[0] != '-',
        are_matter(before + seq![ind + (tags_word() + gap)] + items + after),
        names.no_duplicates(),
    ensures
        names.is_prefix_of(
            note_of(
                path,
                dashes() + seq!['\n'] + join(
                    before + seq![ind + (tags_word() + gap)] + items + after,
                    '\n',
                ) + end_mark() + post,
            ).tags,
        ),
{
    let lines = before + seq![ind + (tags_word() + gap)] + items + after;
    let content = dashes() + seq!['\n'] + join(lines, '\n') + end_mark() + post;
    listed_tags_are_all_read(before, ind, gap, items, names, after);
    front_matter_stands_between_dashes(lines, post);
    notes_have_the_tags_and_links_of_their_lines(path, content, Seq::empty());
}

} // verus!
