//! Templates: notes below `templates/` with places to fill in.
//!
//! A place is written `{{name}}`. Known names are `date`, `time`, `datetime`,
//! `title`, `year`, `month`, `day`, `weekday` and `cursor`; a place with another
//! name is left as it is.
use crate::date::{
    clock_at_offset, date_at_offset, padded, parse_ymd, parsed_ymd, push_padded, push_year,
    time_with_offset, today, weekday_cn, weekday_of, year_text, DEFAULT_OFFSET_MINUTES,
};
use crate::paths::{file_stem, file_stem_of};
use crate::sorting::{int_indices, sort_order, stable_order, vec_keys};
use crate::text::{
    blen, chars_of, extend, extend_str, find_chars, find_from, lemma_find_from, lowercase,
    same_chars, string_of, trim, trim_chars,
};
use crate::vault::{is_note, is_note_path};
use vstd::prelude::*;
use vstd::slice::slice_subrange;

verus! {

/// The directory of templates below a vault's root.
pub const TEMPLATE_DIR: &'static str = "templates";

/// The place where the cursor goes.
pub const CURSOR: &'static str = "{{cursor}}";

/// The name of the template that a new vault starts with.
pub const SEED_NAME: &'static str = "会议记录.md";

/// The text of the template that a new vault starts with.
pub const SEED_BODY: &'static str = "# {{date}} {{weekday}} 会议记录\n\n- 时间：{{time}}\n- 参会：\n- 议题：\n\n## 结论\n\n{{cursor}}\n\n## 后续行动\n\n- [ ] \n";

/// What places are filled with.
#[derive(Clone, Debug, PartialEq, Eq)]
pub struct Ctx {
    pub date: String,
    pub time: String,
    pub title: String,
}

pub struct CtxModel {
    pub date: Seq<char>,
    pub time: Seq<char>,
    pub title: Seq<char>,
}

impl View for Ctx {
    type V = CtxModel;

    open spec fn view(&self) -> CtxModel {
        CtxModel { date: self.date@, time: self.time@, title: self.title@ }
    }
}

impl Ctx {
    /// The present date and time in the default time zone.
    pub fn now(title: String) -> (r: Ctx)
        ensures
            r@.title == title@,
            exists|secs: i64| date_at_offset(secs, DEFAULT_OFFSET_MINUTES, r@.date),
            exists|secs: i64| clock_at_offset(secs, DEFAULT_OFFSET_MINUTES, r@.time),
    {
        let date: String = today();
        let time: String = time_with_offset(DEFAULT_OFFSET_MINUTES);
        let r = Ctx { date, time, title };
        proof {
            let a = choose|secs: i64| date_at_offset(secs, DEFAULT_OFFSET_MINUTES, date@);
            let b = choose|secs: i64| clock_at_offset(secs, DEFAULT_OFFSET_MINUTES, time@);
            assert(date_at_offset(a, DEFAULT_OFFSET_MINUTES, r@.date));
            assert(clock_at_offset(b, DEFAULT_OFFSET_MINUTES, r@.time));
        }
        r
    }

    /// A given date, with the present time.
    pub fn on(date: String, title: String) -> (r: Ctx)
        ensures
            r@.date == date@,
            r@.title == title@,
            exists|secs: i64| clock_at_offset(secs, DEFAULT_OFFSET_MINUTES, r@.time),
    {
        let time: String = time_with_offset(DEFAULT_OFFSET_MINUTES);
        let r = Ctx { date, time, title };
        proof {
            let b = choose|secs: i64| clock_at_offset(secs, DEFAULT_OFFSET_MINUTES, time@);
            assert(clock_at_offset(b, DEFAULT_OFFSET_MINUTES, r@.time));
        }
        r
    }
}

/// What stands for the place with this text between its braces.
pub open spec fn value_of(raw: Seq<char>, c: CtxModel) -> Seq<char> {
    let key = trim(raw);
    let ymd = parsed_ymd(c.date);
    if key == "date"@ {
        c.date
    } else if key == "time"@ {
        c.time
    } else if key == "datetime"@ {
        c.date.push(' ') + c.time
    } else if key == "title"@ {
        c.title
    } else if key == "year"@ {
        match ymd {
            Some((y, _, _)) => year_text(y as int),
            None => Seq::empty(),
        }
    } else if key == "month"@ {
        match ymd {
            Some((_, m, _)) => padded(m as nat, 2),
            None => Seq::empty(),
        }
    } else if key == "day"@ {
        match ymd {
            Some((_, _, d)) => padded(d as nat, 2),
            None => Seq::empty(),
        }
    } else if key == "weekday"@ {
        weekday_of(c.date)
    } else if key == "cursor"@ {
        Seq::empty()
    } else {
        seq!['{', '{'] + raw + seq!['}', '}']
    }
}

/// The text with its places filled. Behind braces that do not close it is left as it is.
pub open spec fn expanded(body: Seq<char>, c: CtxModel) -> Seq<char>
    decreases body.len(),
{
    proof {
        lemma_find_from(body, seq!['{', '{'], 0);
    }
    match find_from(body, seq!['{', '{'], 0) {
        Some(s) => {
            let after = body.skip(s + 2);
            proof {
                lemma_find_from(after, seq!['}', '}'], 0);
            }
            match find_from(after, seq!['}', '}'], 0) {
                Some(e) => body.take(s) + value_of(after.take(e), c) + expanded(
                    after.skip(e + 2),
                    c,
                ),
                None => body,
            }
        },
        None => body,
    }
}

/// Text without braces is left as it is.
pub proof fn plain_text_stays(body: Seq<char>, c: CtxModel)
    requires
        find_from(body, seq!['{', '{'], 0) is None,
    ensures
        expanded(body, c) == body,
{
}

fn two(a: char) -> (r: Vec<char>)
    ensures
        r@ == seq![a, a],
{
    let mut v: Vec<char> = Vec::new();
    v.push(a);
    v.push(a);
    proof {
        assert(v@ =~= seq![a, a]);
    }
    v
}

fn is_key(key: &[char], name: &str) -> (r: bool)
    ensures
        r == (key@ == name@),
{
    let n: Vec<char> = chars_of(name);
    same_chars(key, n.as_slice())
}

/// Appends what stands for a place.
fn push_value(out: &mut Vec<char>, raw: &[char], c: &Ctx)
    ensures
        final(out)@ == old(out)@ + value_of(raw@, c@),
{
    let ghost start = out@;
    let key = trim_chars(raw);
    if is_key(key, "date") {
        extend_str(out, &c.date);
    } else if is_key(key, "time") {
        extend_str(out, &c.time);
    } else if is_key(key, "datetime") {
        extend_str(out, &c.date);
        out.push(' ');
        extend_str(out, &c.time);
        proof {
            assert(out@ =~= start + (c@.date.push(' ') + c@.time));
        }
    } else if is_key(key, "title") {
        extend_str(out, &c.title);
    } else if is_key(key, "year") {
        match parse_ymd(&c.date) {
            Some((y, _, _)) => {
                push_year(out, y);
            },
            None => {
                proof {
                    assert(out@ =~= start + Seq::<char>::empty());
                }
            },
        }
    } else if is_key(key, "month") {
        match parse_ymd(&c.date) {
            Some((_, m, _)) => {
                push_padded(out, m as u64, 2);
            },
            None => {
                proof {
                    assert(out@ =~= start + Seq::<char>::empty());
                }
            },
        }
    } else if is_key(key, "day") {
        match parse_ymd(&c.date) {
            Some((_, _, d)) => {
                push_padded(out, d as u64, 2);
            },
            None => {
                proof {
                    assert(out@ =~= start + Seq::<char>::empty());
                }
            },
        }
    } else if is_key(key, "weekday") {
        extend_str(out, &weekday_cn(&c.date));
    } else if is_key(key, "cursor") {
        proof {
            assert(out@ =~= start + Seq::<char>::empty());
        }
    } else {
        let open: Vec<char> = two('{');
        let close: Vec<char> = two('}');
        extend(out, open.as_slice());
        extend(out, raw);
        extend(out, close.as_slice());
        proof {
            assert(out@ =~= start + (seq!['{', '{'] + raw@ + seq!['}', '}']));
        }
    }
}

fn expand_chars(body: &[char], c: &Ctx) -> (r: Vec<char>)
    ensures
        r@ == expanded(body@, c@),
{
    let open: Vec<char> = two('{');
    let close: Vec<char> = two('}');
    let mut out: Vec<char> = Vec::new();
    let mut rest = body;
    proof {
        assert(out@ + expanded(rest@, c@) =~= expanded(body@, c@));
    }
    loop
        invariant
            open@ == seq!['{', '{'],
            close@ == seq!['}', '}'],
            out@ + expanded(rest@, c@) == expanded(body@, c@),
        ensures
            out@ + expanded(rest@, c@) == expanded(body@, c@),
            expanded(rest@, c@) == rest@,
        decreases rest@.len(),
    {
        let n: usize = rest.len();
        let s: usize = match find_chars(rest, open.as_slice(), 0) {
            Some(s) => s,
            None => {
                break;
            },
        };
        let after = slice_subrange(rest, s + 2, n);
        proof {
            assert(after@ =~= rest@.skip(s + 2));
        }
        let m: usize = after.len();
        let e: usize = match find_chars(after, close.as_slice(), 0) {
            Some(e) => e,
            None => {
                break;
            },
        };
        let ghost before = out@;
        let head = slice_subrange(rest, 0, s);
        let raw = slice_subrange(after, 0, e);
        let tail = slice_subrange(after, e + 2, m);
        proof {
            assert(head@ =~= rest@.take(s as int));
            assert(raw@ =~= after@.take(e as int));
            assert(tail@ =~= after@.skip(e + 2));
        }
        extend(&mut out, head);
        push_value(&mut out, raw, c);
        proof {
            assert(out@ + expanded(tail@, c@) =~= before + (head@ + value_of(raw@, c@) + expanded(
                tail@,
                c@,
            )));
        }
        rest = tail;
    }
    extend(&mut out, rest);
    out
}

/// Fills the places of a template.
pub fn expand(body: &str, ctx: &Ctx) -> (r: String)
    ensures
        r@ == expanded(body@, ctx@),
{
    let cs: Vec<char> = chars_of(body);
    let out: Vec<char> = expand_chars(cs.as_slice(), ctx);
    string_of(out.as_slice())
}

/// Where the cursor goes: behind the filled text before the first place for it.
pub open spec fn cursor_at(body: Seq<char>, c: CtxModel) -> Option<int> {
    match find_from(body, CURSOR@, 0) {
        Some(k) => Some(blen(expanded(body.take(k), c)) as int),
        None => None,
    }
}

/// The byte of the filled text where the cursor goes; none if there is no place for it.
pub fn cursor_offset(body: &str, ctx: &Ctx) -> (r: Option<usize>)
    ensures
        match r {
            Some(n) => cursor_at(body@, ctx@) == Some(n as int),
            None => cursor_at(body@, ctx@) is None,
        },
{
    let cs: Vec<char> = chars_of(body);
    let mark: Vec<char> = chars_of(CURSOR);
    match find_chars(cs.as_slice(), mark.as_slice(), 0) {
        Some(k) => {
            let head = slice_subrange(cs.as_slice(), 0, k);
            proof {
                assert(head@ =~= body@.take(k as int));
            }
            let out: Vec<char> = expand_chars(head, ctx);
            let s: String = string_of(out.as_slice());
            Some(crate::text::byte_len(&s))
        },
        None => None,
    }
}

// ---------- the templates of a vault ----------

#[derive(Clone, Debug, PartialEq, Eq)]
pub struct Template {
    /// The file name without its extension.
    pub name: String,
    pub path: String,
    pub body: String,
}

pub struct TemplateModel {
    pub name: Seq<char>,
    pub path: Seq<char>,
    pub body: Seq<char>,
}

impl View for Template {
    type V = TemplateModel;

    open spec fn view(&self) -> TemplateModel {
        TemplateModel { name: self.name@, path: self.path@, body: self.body@ }
    }
}

pub open spec fn templates_model(v: Seq<Template>) -> Seq<TemplateModel> {
    v.map_values(|t: Template| t@)
}

/// A file of the template directory as it was read; no text if it could not be.
#[derive(Clone, Debug)]
pub struct TemplateFile {
    pub path: String,
    pub text: Option<String>,
}

/// The templates among the first `n` files: notes that could be read.
pub open spec fn templates_upto(files: Seq<TemplateFile>, n: int) -> Seq<TemplateModel>
    decreases n,
{
    if n <= 0 {
        Seq::empty()
    } else {
        let rest = templates_upto(files, n - 1);
        let f = files[n - 1];
        match (f.text, file_stem(f.path@)) {
            (Some(t), Some(name)) if is_note(f.path@) => rest.push(
                TemplateModel { name, path: f.path@, body: t@ },
            ),
            _ => rest,
        }
    }
}

pub open spec fn template_keys(v: Seq<TemplateModel>) -> Seq<Seq<char>> {
    v.map_values(|t: TemplateModel| lowercase(t.name))
}

/// The templates by name, whatever the case of the letters.
pub open spec fn templates_of(files: Seq<TemplateFile>) -> Seq<TemplateModel> {
    let v = templates_upto(files, files.len() as int);
    stable_order(template_keys(v)).map_values(|i: int| v[i])
}

/// The templates of a vault, by name.
pub fn load_all(files: &Vec<TemplateFile>) -> (r: Vec<Template>)
    ensures
        templates_model(r@) == templates_of(files@),
{
    let mut v: Vec<Template> = Vec::new();
    let mut keys: Vec<Vec<char>> = Vec::new();
    let mut k: usize = 0;
    proof {
        assert(templates_model(v@) =~= templates_upto(files@, 0));
        assert(vec_keys(keys@) =~= template_keys(templates_model(v@)));
    }
    while k < files.len()
        invariant
            0 <= k <= files@.len(),
            templates_model(v@) == templates_upto(files@, k as int),
            vec_keys(keys@) == template_keys(templates_model(v@)),
        decreases files@.len() - k,
    {
        let f: &TemplateFile = &files[k];
        match &f.text {
            Some(t) => match file_stem_of(&f.path) {
                Some(s) => {
                    if is_note_path(&f.path) {
                        let ghost before = v@;
                        let ghost keys0 = keys@;
                        let name: String = string_of(s.as_slice());
                        let key: Vec<char> = chars_of(&name.to_lowercase());
                        let ghost km = key@;
                        let x = Template { name, path: f.path.clone(), body: t.clone() };
                        let ghost xm = x@;
                        v.push(x);
                        keys.push(key);
                        proof {
                            assert(templates_model(v@) =~= templates_model(before).push(xm));
                            assert(vec_keys(keys@) =~= vec_keys(keys0).push(km));
                            assert(template_keys(templates_model(v@)) =~= template_keys(
                                templates_model(before),
                            ).push(km));
                        }
                    }
                },
                None => {},
            },
            None => {},
        }
        k = k + 1;
    }
    let ghost vm = templates_model(v@);
    let order: Vec<usize> = sort_order(&keys);
    let ghost os = stable_order(template_keys(vm));
    let ghost sorted = templates_of(files@);
    let mut out: Vec<Template> = Vec::new();
    let mut j: usize = 0;
    proof {
        assert(vec_keys(keys@).len() == keys@.len());
        assert(template_keys(vm).len() == vm.len());
        assert(int_indices(order@).len() == order@.len());
        assert(templates_model(out@) =~= sorted.take(0));
    }
    while j < order.len()
        invariant
            0 <= j <= order@.len(),
            vm == templates_model(v@),
            os == stable_order(template_keys(vm)),
            int_indices(order@) == os,
            sorted == os.map_values(|i: int| vm[i]),
            sorted.len() == order@.len(),
            keys@.len() == v@.len(),
            forall|k: int| 0 <= k < order@.len() ==> #[trigger] order@[k] < keys@.len(),
            templates_model(out@) == sorted.take(j as int),
        decreases order@.len() - j,
    {
        let i: usize = order[j];
        let ghost before = out@;
        let x = Template {
            name: v[i].name.clone(),
            path: v[i].path.clone(),
            body: v[i].body.clone(),
        };
        let ghost xm = x@;
        out.push(x);
        proof {
            assert(os[j as int] == i as int);
            assert(sorted[j as int] == vm[i as int]);
            assert(vm[i as int] == v@[i as int]@);
            assert(templates_model(out@) =~= templates_model(before).push(xm));
            assert(templates_model(out@) =~= sorted.take(j + 1));
        }
        j = j + 1;
    }
    proof {
        assert(sorted.take(j as int) =~= sorted);
    }
    out
}

// ---------- laws ----------

proof fn lemma_find_in_front(a: Seq<char>, b: Seq<char>, pat: Seq<char>, i: int)
    requires
        0 <= i,
        find_from(a, pat, i) is Some,
    ensures
        find_from(a + b, pat, i) == find_from(a, pat, i),
    decreases a.len() + 1 - i,
{
    let t = a + b;
    if i + pat.len() <= a.len() {
        assert(t.subrange(i, i + pat.len()) =~= a.subrange(i, i + pat.len()));
        if a.subrange(i, i + pat.len()) != pat {
            lemma_find_in_front(a, b, pat, i + 1);
        }
    }
}

proof fn lemma_find_shifted(a: Seq<char>, b: Seq<char>, pat: Seq<char>, i: int)
    requires
        0 <= i,
    ensures
        find_from(a + b, pat, a.len() + i) == match find_from(b, pat, i) {
            Some(k) => Some(a.len() + k),
            None => None,
        },
    decreases b.len() + 1 - i,
{
    let t = a + b;
    let n = a.len() + i;
    if n + pat.len() <= t.len() {
        assert(t.subrange(n, n + pat.len()) =~= b.subrange(i, i + pat.len()));
        if b.subrange(i, i + pat.len()) != pat {
            lemma_find_shifted(a, b, pat, i + 1);
        }
    }
}

/// Without two braces in `a`, and none at its end, the first two are in `b`.
proof fn lemma_find_behind(a: Seq<char>, b: Seq<char>, i: int)
    requires
        0 <= i <= a.len(),
        find_from(a, seq!['{', '{'], i) is None,
        a.len() == 0 || a.last() != '{',
    ensures
        find_from(a + b, seq!['{', '{'], i) == match find_from(b, seq!['{', '{'], 0) {
            Some(k) => Some(a.len() + k),
            None => None,
        },
    decreases a.len() - i,
{
    let pat = seq!['{', '{'];
    let t = a + b;
    if i == a.len() {
        lemma_find_shifted(a, b, pat, 0);
    } else if i + 2 <= t.len() {
        assert(t.subrange(i, i + 2)[0] == a[i]);
        if i + 2 <= a.len() {
            assert(t.subrange(i, i + 2) =~= a.subrange(i, i + 2));
        } else {
            assert(a[i] == a.last());
            assert(pat[0] == '{');
        }
        lemma_find_behind(a, b, i + 1);
    } else {
        assert(b.len() == 0);
        assert(find_from(b, pat, 0) is None);
    }
}

/// Whether every two braces that open are closed, and there is no brace at the end.
pub open spec fn all_closed(a: Seq<char>) -> bool
    decreases a.len(),
{
    proof {
        lemma_find_from(a, seq!['{', '{'], 0);
    }
    match find_from(a, seq!['{', '{'], 0) {
        Some(s) => {
            let after = a.skip(s + 2);
            proof {
                lemma_find_from(after, seq!['}', '}'], 0);
            }
            match find_from(after, seq!['}', '}'], 0) {
                Some(e) => all_closed(after.skip(e + 2)),
                None => false,
            }
        },
        None => a.len() == 0 || a.last() != '{',
    }
}

/// Behind a text whose braces are closed, what follows is filled by itself.
pub proof fn parts_are_filled_by_themselves(a: Seq<char>, b: Seq<char>, c: CtxModel)
    requires
        all_closed(a),
    ensures
        expanded(a + b, c) == expanded(a, c) + expanded(b, c),
    decreases a.len(),
{
    let pat = seq!['{', '{'];
    let end = seq!['}', '}'];
    let t = a + b;
    lemma_find_from(a, pat, 0);
    match find_from(a, pat, 0) {
        Some(s) => {
            let after = a.skip(s + 2);
            lemma_find_in_front(a, b, pat, 0);
            assert(t.skip(s + 2) =~= after + b);
            lemma_find_from(after, end, 0);
            let e = find_from(after, end, 0)->0;
            lemma_find_in_front(after, b, end, 0);
            let rest = after.skip(e + 2);
            assert((after + b).take(e) =~= after.take(e));
            assert((after + b).skip(e + 2) =~= rest + b);
            assert(t.take(s) =~= a.take(s));
            parts_are_filled_by_themselves(rest, b, c);
            let head = a.take(s) + value_of(after.take(e), c);
            assert(head + (expanded(rest, c) + expanded(b, c)) =~= (head + expanded(rest, c))
                + expanded(b, c));
        },
        None => {
            lemma_find_behind(a, b, 0);
            lemma_find_from(b, pat, 0);
            match find_from(b, pat, 0) {
                Some(s) => {
                    let after = b.skip(s + 2);
                    assert(t.skip(a.len() + s + 2) =~= after);
                    assert(t.take(a.len() + s) =~= a + b.take(s));
                    lemma_find_from(after, end, 0);
                    match find_from(after, end, 0) {
                        Some(e) => {
                            let v = value_of(after.take(e), c);
                            let rest = expanded(after.skip(e + 2), c);
                            assert(a + b.take(s) + v + rest =~= a + (b.take(s) + v + rest));
                        },
                        None => {},
                    }
                },
                None => {},
            }
        },
    }
}

proof fn lemma_cursor_splits(a: Seq<char>, b: Seq<char>, c: CtxModel)
    requires
        all_closed(a),
        find_from(a + CURSOR@ + b, CURSOR@, 0) == Some(a.len() as int),
    ensures
        expanded(a + CURSOR@ + b, c) == expanded(a, c) + expanded(b, c),
        cursor_at(a + CURSOR@ + b, c) == Some(blen(expanded(a, c)) as int),
{
    reveal_strlit("{{cursor}}");
    let t = CURSOR@ + b;
    assert(a + CURSOR@ + b =~= a + t);
    parts_are_filled_by_themselves(a, t, c);
    assert((a + CURSOR@ + b).take(a.len() as int) =~= a);
    let pat = seq!['{', '{'];
    let end = seq!['}', '}'];
    assert(t.subrange(0, 2) =~= pat);
    assert(find_from(t, pat, 0) == Some(0int));
    let after = t.skip(2);
    let word = seq!['c', 'u', 'r', 's', 'o', 'r'];
    assert(after.take(6) =~= word);
    assert(after.subrange(6, 8) =~= end);
    assert(after.subrange(0, 2)[0] == 'c');
    assert(after.subrange(1, 3)[0] == 'u');
    assert(after.subrange(2, 4)[0] == 'r');
    assert(after.subrange(3, 5)[0] == 's');
    assert(after.subrange(4, 6)[0] == 'o');
    assert(after.subrange(5, 7)[0] == 'r');
    assert(end[0] == '}');
    assert(find_from(after, end, 6) == Some(6int));
    assert(find_from(after, end, 5) == Some(6int));
    assert(find_from(after, end, 4) == Some(6int));
    assert(find_from(after, end, 3) == Some(6int));
    assert(find_from(after, end, 2) == Some(6int));
    assert(find_from(after, end, 1) == Some(6int));
    assert(find_from(after, end, 0) == Some(6int));
    assert(after.skip(8) =~= b);
    assert(trim(word) == word) by {
        crate::text::lemma_lead_spaces_is(word, 0);
        assert(word.skip(0) =~= word);
        crate::text::lemma_trim_end_is(word, 6);
        assert(word.take(6) =~= word);
    }
    reveal_strlit("date");
    reveal_strlit("time");
    reveal_strlit("datetime");
    reveal_strlit("title");
    reveal_strlit("year");
    reveal_strlit("month");
    reveal_strlit("day");
    reveal_strlit("weekday");
    reveal_strlit("cursor");
    assert("cursor"@ =~= word);
    assert(value_of(word, c) == Seq::<char>::empty());
    assert(t.take(0) + value_of(word, c) + expanded(b, c) =~= expanded(b, c));
}

/// Whether the two characters `c` stand at index `i` of `s`.
pub open spec fn pair_at(s: Seq<char>, i: int, c: char) -> bool {
    0 <= i && i + 1 < s.len() && s[i] == c && s[i + 1] == c
}

/// Whether behind every two braces that open in `s` there are two that close, and `s` does
/// not end with a brace that opens.
pub open spec fn braces_close(s: Seq<char>) -> bool {
    &&& s.len() == 0 || s.last() != '{'
    &&& forall|i: int|
        #[trigger] pair_at(s, i, '{') ==> exists|j: int| i < j && #[trigger] pair_at(s, j, '}')
}

proof fn lemma_pair_is_found(s: Seq<char>, c: char, i: int, j: int)
    requires
        0 <= i <= j,
        pair_at(s, j, c),
    ensures
        find_from(s, seq![c, c], i) is Some,
        find_from(s, seq![c, c], i)->0 <= j,
    decreases j - i,
{
    if i == j {
        assert(s.subrange(i, i + 2) =~= seq![c, c]);
    } else if s.subrange(i, i + 2) != seq![c, c] {
        lemma_pair_is_found(s, c, i + 1, j);
    }
}

proof fn lemma_braces_close(a: Seq<char>)
    requires
        braces_close(a),
    ensures
        all_closed(a),
    decreases a.len(),
{
    let (pat, end) = (seq!['{', '{'], seq!['}', '}']);
    lemma_find_from(a, pat, 0);
    match find_from(a, pat, 0) {
        Some(s) => {
            assert(a[s] == a.subrange(s, s + 2)[0]);
            assert(a[s + 1] == a.subrange(s, s + 2)[1]);
            assert(pair_at(a, s, '{'));
            let j = choose|j: int| s < j && #[trigger] pair_at(a, j, '}');
            let after = a.skip(s + 2);
            assert(pair_at(after, j - s - 2, '}'));
            lemma_pair_is_found(after, '}', 0, j - s - 2);
            lemma_find_from(after, end, 0);
            let e = find_from(after, end, 0)->0;
            let rest = after.skip(e + 2);
            let n = s + e + 4;
            assert forall|i: int| #[trigger] pair_at(rest, i, '{') implies exists|k: int|
                i < k && #[trigger] pair_at(rest, k, '}') by {
                assert(pair_at(a, i + n, '{'));
                let k = choose|k: int| i + n < k && #[trigger] pair_at(a, k, '}');
                assert(pair_at(rest, k - n, '}'));
            }
            assert(rest.len() > 0 ==> rest.last() == a.last());
            lemma_braces_close(rest);
        },
        None => {},
    }
}

/// No place for the cursor starts in a text without one and goes on behind it.
proof fn lemma_cursor_found(a: Seq<char>, b: Seq<char>, i: int)
    requires
        0 <= i <= a.len(),
        a.len() == 0 || a.last() != '{',
        find_from(a, CURSOR@, i) is None,
    ensures
        find_from(a + CURSOR@ + b, CURSOR@, i) == Some(a.len() as int),
    decreases a.len() - i,
{
    reveal_strlit("{{cursor}}");
    let t = a + CURSOR@ + b;
    let n = CURSOR@.len() as int;
    assert(n == 10);
    let here = t.subrange(i, i + n);
    if i == a.len() {
        assert(here =~= CURSOR@);
    } else {
        if i + n <= a.len() {
            assert(here =~= a.subrange(i, i + n));
        } else {
            let k = a.len() - i;
            assert(here[k] == t[a.len() as int]);
            assert(t[a.len() as int] == CURSOR@[0]);
            assert(here[0] == a[i]);
            if here == CURSOR@ {
                assert(k == 1);
                assert(a.last() == a[i]);
            }
            assert(find_from(a, CURSOR@, i + 1) is None);
        }
        lemma_cursor_found(a, b, i + 1);
    }
}

/// The cursor goes where its place stood: between the filled text before it and the filled
/// text behind it. Without a place for it, it goes nowhere.
pub proof fn cursor_splits_the_text(a: Seq<char>, b: Seq<char>, c: CtxModel)
    requires
        braces_close(a),
        find_from(a, CURSOR@, 0) is None,
    ensures
        expanded(a + CURSOR@ + b, c) == expanded(a, c) + expanded(b, c),
        cursor_at(a + CURSOR@ + b, c) == Some(blen(expanded(a, c)) as int),
        cursor_at(a, c) is None,
{
    lemma_braces_close(a);
    lemma_cursor_found(a, b, 0);
    lemma_cursor_splits(a, b, c);
}

} // verus!
