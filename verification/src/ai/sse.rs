//! Reading a streamed reply: a line for each event.
use crate::block::opt_str;
use crate::text::{
    chars_of, glue3, lemma_lead_spaces, lemma_word_len, same_chars, starts_with, string_of, trim,
    trim_chars, trim_start, trim_start_chars, word_len,
};
use vstd::prelude::*;
use vstd::slice::slice_subrange;
use vstd::utf8::{decode_utf8, valid_utf8};

verus! {

// ---------- JSON ----------

/// A JSON value. What number a number is does not matter here.
pub enum Json {
    Null,
    Bool(bool),
    Number,
    Text(Seq<char>),
    Array(Seq<Json>),
    Object(Map<Seq<char>, Json>),
}

/// `serde_json::Value`, a tree of JSON values.
#[verifier::external_type_specification]
#[verifier::external_body]
pub struct ExValue(serde_json::Value);

/// What a `serde_json::Value` holds.
pub uninterp spec fn json_of(v: serde_json::Value) -> Json;

/// What `serde_json::from_str` makes of a text; none if it is an error.
pub uninterp spec fn json_text(s: Seq<char>) -> Option<Json>;

pub open spec fn opt_json(v: Option<serde_json::Value>) -> Option<Json> {
    match v {
        Some(v) => Some(json_of(v)),
        None => None,
    }
}

pub open spec fn opt_json_ref(v: Option<&serde_json::Value>) -> Option<Json> {
    match v {
        Some(v) => Some(json_of(*v)),
        None => None,
    }
}

/// The value under a key; none if there is no such key, or if this is no object.
pub open spec fn field_of(j: Json, key: Seq<char>) -> Option<Json> {
    match j {
        Json::Object(m) => if m.contains_key(key) {
            Some(m[key])
        } else {
            None
        },
        _ => None,
    }
}

/// The value at a place; none if there is no such place, or if this is no array.
pub open spec fn item_of(j: Json, i: int) -> Option<Json> {
    match j {
        Json::Array(v) => if 0 <= i < v.len() {
            Some(v[i])
        } else {
            None
        },
        _ => None,
    }
}

/// The text that a value is; none if it is none.
pub open spec fn text_of(j: Json) -> Option<Seq<char>> {
    match j {
        Json::Text(s) => Some(s),
        _ => None,
    }
}

pub open spec fn field_in(j: Option<Json>, key: Seq<char>) -> Option<Json> {
    match j {
        Some(j) => field_of(j, key),
        None => None,
    }
}

pub open spec fn text_in(j: Option<Json>) -> Option<Seq<char>> {
    match j {
        Some(j) => text_of(j),
        None => None,
    }
}

/// `serde_json::from_str` for a `serde_json::Value`. Claimed: what comes back is a
/// function of the text alone.
#[verifier::external_body]
fn parse_json(s: &str) -> (r: Option<serde_json::Value>)
    ensures
        opt_json(r) == json_text(s@),
{
    serde_json::from_str::<serde_json::Value>(s).ok()
}

/// `serde_json::Value::get` with a text: the value under that key of an object.
#[verifier::external_body]
fn json_field<'a>(v: &'a serde_json::Value, key: &str) -> (r: Option<&'a serde_json::Value>)
    ensures
        opt_json_ref(r) == field_of(json_of(*v), key@),
{
    v.get(key)
}

/// `serde_json::Value::get` with a number: the value at that place of an array.
#[verifier::external_body]
fn json_item<'a>(v: &'a serde_json::Value, i: usize) -> (r: Option<&'a serde_json::Value>)
    ensures
        opt_json_ref(r) == item_of(json_of(*v), i as int),
{
    v.get(i)
}

/// `serde_json::Value::as_str`: the text of a text value, and none of any other.
pub assume_specification[ serde_json::Value::as_str ](v: &serde_json::Value) -> (r: Option<&str>)
    ensures
        opt_str(r) == text_of(json_of(*v)),
;

/// `serde_json::Value::is_null`: whether the value is `null`.
pub assume_specification[ serde_json::Value::is_null ](v: &serde_json::Value) -> (r: bool)
    ensures
        r == (json_of(*v) == Json::Null),
;

fn field_text<'a>(v: Option<&'a serde_json::Value>, key: &str) -> (r: Option<&'a serde_json::Value>)
    ensures
        opt_json_ref(r) == field_in(opt_json_ref(v), key@),
{
    match v {
        Some(v) => json_field(v, key),
        None => None,
    }
}

fn text_value<'a>(v: Option<&'a serde_json::Value>) -> (r: Option<&'a str>)
    ensures
        opt_str(r) == text_in(opt_json_ref(v)),
{
    match v {
        Some(v) => v.as_str(),
        None => None,
    }
}

// ---------- one line ----------

/// What a line of a reply says.
#[derive(Clone, Debug, PartialEq, Eq)]
pub enum SseLine {
    /// Nothing.
    Skip,
    /// The reply ends here.
    Done,
    /// More of the reply.
    Delta(String),
}

pub enum SseModel {
    Skip,
    Done,
    Delta(Seq<char>),
}

impl View for SseLine {
    type V = SseModel;

    open spec fn view(&self) -> SseModel {
        match *self {
            SseLine::Skip => SseModel::Skip,
            SseLine::Done => SseModel::Done,
            SseLine::Delta(s) => SseModel::Delta(s@),
        }
    }
}

/// The text of a choice: of its `delta`, or else of its `message`.
pub open spec fn content_of(c: Json) -> Seq<char> {
    let d = field_in(field_of(c, "delta"@), "content"@);
    let m = field_in(field_of(c, "message"@), "content"@);
    match text_in(
        if d is Some {
            d
        } else {
            m
        },
    ) {
        Some(s) => s,
        None => Seq::empty(),
    }
}

/// What a packet says: an error, if it holds one; or else what its first choice says.
pub open spec fn packet_of(v: Json) -> SseModel {
    match field_of(v, "error"@) {
        Some(err) => SseModel::Delta(
            "\n[错误] "@ + (match text_in(field_of(err, "message"@)) {
                Some(m) => m,
                None => "上游返回错误"@,
            }) + "\n"@,
        ),
        None => match field_of(v, "choices"@) {
            Some(list) => match item_of(list, 0) {
                Some(c) => if content_of(c).len() > 0 {
                    SseModel::Delta(content_of(c))
                } else {
                    match field_of(c, "finish_reason"@) {
                        Some(f) => if f == Json::Null {
                            SseModel::Skip
                        } else {
                            SseModel::Done
                        },
                        None => SseModel::Skip,
                    }
                },
                None => SseModel::Skip,
            },
            None => SseModel::Skip,
        },
    }
}

/// What a packet says.
pub fn packet_line(v: &serde_json::Value) -> (r: SseLine)
    ensures
        r@ == packet_of(json_of(*v)),
{
    if let Some(err) = json_field(v, "error") {
        let msg: &str = match text_value(json_field(err, "message")) {
            Some(m) => m,
            None => "上游返回错误",
        };
        return SseLine::Delta(glue3("\n[错误] ", msg, "\n"));
    }
    let choice = match json_field(v, "choices") {
        Some(list) => json_item(list, 0),
        None => None,
    };
    if let Some(c) = choice {
        let delta = field_text(json_field(c, "delta"), "content");
        let content = match delta {
            Some(d) => Some(d),
            None => field_text(json_field(c, "message"), "content"),
        };
        if let Some(t) = text_value(content) {
            if !t.is_empty() {
                return SseLine::Delta(t.to_owned());
            }
        }
        if let Some(f) = json_field(c, "finish_reason") {
            if !f.is_null() {
                return SseLine::Done;
            }
        }
    }
    SseLine::Skip
}

/// What stands behind `data:` on a line; the whole line if that is missing.
pub open spec fn payload_of(line: Seq<char>) -> Seq<char> {
    let l = trim(line);
    if "data:"@.is_prefix_of(l) {
        trim(l.skip("data:"@.len() as int))
    } else {
        l
    }
}

/// What a line says: nothing if it is blank or a comment, the end if it says so, or else
/// what its packet says. `v` is the packet, if there is one.
pub open spec fn line_of(line: Seq<char>, v: Option<Json>) -> SseModel {
    let l = trim(line);
    let p = payload_of(line);
    if l.len() == 0 || l[0] == ':' {
        SseModel::Skip
    } else if p == "[DONE]"@ {
        SseModel::Done
    } else if p.len() == 0 || p[0] != '{' {
        SseModel::Skip
    } else {
        match v {
            Some(v) => packet_of(v),
            None => SseModel::Skip,
        }
    }
}

/// What a line of a reply says. Packets are taken with or without `data:` before them.
pub fn parse_sse_line(line: &str) -> (r: SseLine)
    ensures
        r@ == line_of(line@, json_text(payload_of(line@))),
{
    let cs: Vec<char> = chars_of(line);
    let l = trim_chars(cs.as_slice());
    if l.len() == 0 || l[0] == ':' {
        return SseLine::Skip;
    }
    proof {
        reveal_strlit("data:");
    }
    let payload = if starts_with(l, "data:") {
        let t = slice_subrange(l, 5, l.len());
        proof {
            assert(t@ =~= l@.skip(5));
        }
        trim_chars(t)
    } else {
        l
    };
    let done: Vec<char> = chars_of("[DONE]");
    if same_chars(payload, done.as_slice()) {
        return SseLine::Done;
    }
    if payload.len() == 0 || payload[0] != '{' {
        return SseLine::Skip;
    }
    match parse_json(&string_of(payload)) {
        Some(v) => packet_line(&v),
        None => SseLine::Skip,
    }
}

// ---------- the stream ----------

/// What a reply brings, piece by piece.
#[derive(Clone, Debug, PartialEq, Eq)]
pub enum AiEvent {
    /// More of the reply.
    Delta(String),
    /// The reply is complete.
    Done,
    /// It failed.
    Error(String),
}

pub enum EventModel {
    Delta(Seq<char>),
    Done,
    Error(Seq<char>),
}

impl View for AiEvent {
    type V = EventModel;

    open spec fn view(&self) -> EventModel {
        match *self {
            AiEvent::Delta(s) => EventModel::Delta(s@),
            AiEvent::Done => EventModel::Done,
            AiEvent::Error(s) => EventModel::Error(s@),
        }
    }
}

pub open spec fn events_model(v: Seq<AiEvent>) -> Seq<EventModel> {
    v.map_values(|e: AiEvent| e@)
}

/// What `String::from_utf8_lossy` makes of bytes.
pub uninterp spec fn lossy_text(bytes: Seq<u8>) -> Seq<char>;

/// `String::from_utf8_lossy`. Claimed: what comes back is a function of the bytes alone,
/// and bytes that are UTF-8 give the text that they stand for.
#[verifier::external_body]
fn decode_lossy(bytes: &[u8]) -> (r: String)
    ensures
        r@ == lossy_text(bytes@),
        valid_utf8(bytes@) ==> r@ == decode_utf8(bytes@),
{
    String::from_utf8_lossy(bytes).into_owned()
}

/// Where the first line of `b` ends; the length of `b` if it does not end.
pub open spec fn line_end(b: Seq<u8>) -> int
    decreases b.len(),
{
    if b.len() == 0 || b[0] == 10 {
        0
    } else {
        1 + line_end(b.drop_first())
    }
}

proof fn lemma_line_end(b: Seq<u8>)
    ensures
        0 <= line_end(b) <= b.len(),
        line_end(b) < b.len() ==> b[line_end(b)] == 10,
        forall|k: int| 0 <= k < line_end(b) ==> #[trigger] b[k] != 10,
    decreases b.len(),
{
    if b.len() > 0 && b[0] != 10 {
        let t = b.drop_first();
        lemma_line_end(t);
        assert forall|k: int| 0 <= k < line_end(b) implies #[trigger] b[k] != 10 by {
            if k > 0 {
                assert(t[k - 1] == b[k]);
            }
        }
    }
}

proof fn lemma_line_end_is(b: Seq<u8>, n: int)
    requires
        0 <= n <= b.len(),
        forall|k: int| 0 <= k < n ==> #[trigger] b[k] != 10,
        n < b.len() ==> b[n] == 10,
    ensures
        line_end(b) == n,
    decreases b.len(),
{
    if n > 0 {
        let t = b.drop_first();
        assert forall|k: int| 0 <= k < n - 1 implies #[trigger] t[k] != 10 by {
            assert(b[k + 1] != 10);
        }
        assert(b[0] != 10);
        lemma_line_end_is(t, n - 1);
    }
}

/// What a line in bytes says.
pub open spec fn bytes_say(b: Seq<u8>) -> SseModel {
    let s = lossy_text(b);
    line_of(s, json_text(payload_of(s)))
}

/// What was read: events, the bytes of a line that is not complete, and whether the
/// reply has ended.
pub struct Read {
    pub events: Seq<EventModel>,
    pub pending: Seq<u8>,
    pub over: bool,
}

/// What the lines of `b` say, up to the end of the reply.
pub open spec fn read_of(b: Seq<u8>) -> Read
    decreases b.len(),
{
    let n = line_end(b);
    if 0 <= n < b.len() {
        let rest = read_of(b.skip(n + 1));
        match bytes_say(b.take(n)) {
            SseModel::Skip => rest,
            SseModel::Done => Read {
                events: seq![EventModel::Done],
                pending: Seq::empty(),
                over: true,
            },
            SseModel::Delta(d) => if d.len() == 0 {
                rest
            } else {
                Read { events: seq![EventModel::Delta(d)] + rest.events, ..rest }
            },
        }
    } else {
        Read { events: Seq::empty(), pending: b, over: false }
    }
}

/// `a`, and then what is read of `b` behind it.
pub open spec fn read_on(a: Read, b: Seq<u8>) -> Read {
    if a.over {
        a
    } else {
        let r = read_of(a.pending + b);
        Read { events: a.events + r.events, ..r }
    }
}

/// How a reply is cut into chunks does not matter: what two chunks say is what they say
/// as one.
pub proof fn chunks_do_not_matter(a: Seq<u8>, b: Seq<u8>)
    ensures
        read_of(a + b) == read_on(read_of(a), b),
    decreases a.len(),
{
    let n = line_end(a);
    lemma_line_end(a);
    if n < a.len() {
        let t = a + b;
        assert forall|k: int| 0 <= k < n implies #[trigger] t[k] != 10 by {
            assert(a[k] != 10);
        }
        lemma_line_end_is(t, n);
        assert(t.take(n) =~= a.take(n));
        assert(t.skip(n + 1) =~= a.skip(n + 1) + b);
        chunks_do_not_matter(a.skip(n + 1), b);
        let (x, y) = (read_of(t), read_on(read_of(a), b));
        assert(x.events =~= y.events);
        assert(x.pending =~= y.pending);
    } else {
        assert(read_on(read_of(a), b).events =~= read_of(a + b).events);
    }
}

/// Reads a reply, chunk by chunk.
pub struct SseReader {
    pending: Vec<u8>,
    over: bool,
}

impl SseReader {
    /// The bytes of the line that is not complete.
    pub closed spec fn pending(&self) -> Seq<u8> {
        self.pending@
    }

    /// Whether the reply has ended.
    pub closed spec fn over(&self) -> bool {
        self.over
    }

    /// A reader before the first chunk.
    pub fn new() -> (r: SseReader)
        ensures
            r.pending() == Seq::<u8>::empty(),
            !r.over(),
    {
        let pending: Vec<u8> = Vec::new();
        proof {
            assert(pending@ =~= Seq::<u8>::empty());
        }
        SseReader { pending, over: false }
    }

    /// Whether the reply has ended.
    pub fn is_over(&self) -> (r: bool)
        ensures
            r == self.over(),
    {
        self.over
    }

    /// What the lines say that this chunk completes. Nothing is read behind the end of
    /// the reply.
    pub fn feed(&mut self, chunk: &[u8]) -> (r: Vec<AiEvent>)
        ensures
            old(self).over() ==> r@.len() == 0 && *final(self) == *old(self),
            !old(self).over() ==> ({
                let read = read_of(old(self).pending() + chunk@);
                &&& events_model(r@) == read.events
                &&& final(self).pending() == read.pending
                &&& final(self).over() == read.over
            }),
    {
        let mut out: Vec<AiEvent> = Vec::new();
        if self.over {
            return out;
        }
        let mut all: Vec<u8> = self.pending.clone();
        all.extend_from_slice(chunk);
        let ghost b = self.pending@ + chunk@;
        let ghost goal = read_of(b);
        let n: usize = all.len();
        let mut from: usize = 0;
        let mut i: usize = 0;
        proof {
            assert(all@ =~= b);
            assert(events_model(out@) =~= Seq::empty());
            assert(b.skip(0) =~= b);
            assert(goal.events =~= events_model(out@) + read_of(b.skip(0)).events);
        }
        while i < n
            invariant
                n == all@.len(),
                all@ == b,
                *self == *old(self),
                !old(self).over(),
                b == old(self).pending() + chunk@,
                goal == read_of(b),
                0 <= from <= i <= n,
                forall|k: int| from <= k < i ==> #[trigger] b[k] != 10,
                goal.events == events_model(out@) + read_of(b.skip(from as int)).events,
                goal.pending == read_of(b.skip(from as int)).pending,
                goal.over == read_of(b.skip(from as int)).over,
            decreases n - i,
        {
            if all[i] == 10 {
                let ghost t = b.skip(from as int);
                let line = slice_subrange(all.as_slice(), from, i);
                proof {
                    lemma_line_end_is(t, i - from);
                    assert(line@ =~= t.take(i - from));
                    assert(t.skip(i - from + 1) =~= b.skip(i + 1));
                }
                let ghost before = events_model(out@);
                let ghost rest = read_of(b.skip(i + 1));
                match parse_sse_line(&decode_lossy(line)) {
                    SseLine::Skip => {},
                    SseLine::Done => {
                        out.push(AiEvent::Done);
                        self.pending = Vec::new();
                        self.over = true;
                        proof {
                            assert(self.pending@ =~= Seq::<u8>::empty());
                            assert(events_model(out@) =~= before + seq![EventModel::Done]);
                        }
                        return out;
                    },
                    SseLine::Delta(d) => {
                        if !d.as_str().is_empty() {
                            let ghost dm = d@;
                            out.push(AiEvent::Delta(d));
                            proof {
                                assert(events_model(out@) =~= before.push(EventModel::Delta(dm)));
                                assert(before + (seq![EventModel::Delta(dm)] + rest.events)
                                    =~= before.push(EventModel::Delta(dm)) + rest.events);
                            }
                        }
                    },
                }
                from = i + 1;
            }
            i = i + 1;
        }
        let tail = slice_subrange(all.as_slice(), from, n);
        proof {
            let t = b.skip(from as int);
            assert(tail@ =~= t);
            lemma_line_end_is(t, t.len() as int);
            assert(events_model(out@) + Seq::<EventModel>::empty() =~= events_model(out@));
        }
        self.pending = vstd::slice::slice_to_vec(tail);
        out
    }

    /// What is said where the connection ends: that the reply is complete, if it has not
    /// said so itself.
    pub fn finish(&mut self) -> (r: Option<AiEvent>)
        ensures
            r is Some == !old(self).over(),
            r matches Some(e) ==> e@ == EventModel::Done,
            final(self).over(),
            final(self).pending() == old(self).pending(),
    {
        if self.over {
            return None;
        }
        self.over = true;
        Some(AiEvent::Done)
    }
}

// ---------- errors ----------

/// `s` with one blank between each two words, and none at the ends.
pub open spec fn one_line(s: Seq<char>) -> Seq<char>
    decreases s.len(),
    via one_line_decreases
{
    let t = trim_start(s);
    let n = word_len(t);
    if n <= 0 {
        Seq::empty()
    } else {
        let rest = one_line(t.skip(n));
        if rest.len() == 0 {
            t.take(n)
        } else {
            t.take(n).push(' ') + rest
        }
    }
}

#[via_fn]
proof fn one_line_decreases(s: Seq<char>) {
    lemma_lead_spaces(s);
    lemma_word_len(trim_start(s));
}

fn one_line_chars(cs: &[char]) -> (r: Vec<char>)
    ensures
        r@ == one_line(cs@),
{
    let mut out: Vec<char> = Vec::new();
    let mut rest = cs;
    let ghost all = one_line(cs@);
    loop
        invariant
            all == (if one_line(rest@).len() == 0 {
                out@
            } else if out@.len() == 0 {
                one_line(rest@)
            } else {
                out@.push(' ') + one_line(rest@)
            }),
        ensures
            out@ == all,
        decreases rest@.len(),
    {
        let t = trim_start_chars(rest);
        let word = crate::text::first_word_chars(rest);
        proof {
            lemma_lead_spaces(rest@);
            lemma_word_len(t@);
        }
        if word.len() == 0 {
            break ;
        }
        let ghost before = out@;
        if out.len() > 0 {
            out.push(' ');
        }
        crate::text::extend(&mut out, word);
        let next = slice_subrange(t, word.len(), t.len());
        proof {
            assert(next@ =~= t@.skip(word@.len() as int));
            if before.len() == 0 {
                assert(out@ =~= word@);
            } else {
                assert(out@ =~= before.push(' ') + word@);
                assert(before.push(' ') + (word@.push(' ') + one_line(next@)) =~= out@.push(' ')
                    + one_line(next@));
            }
        }
        rest = next;
    }
    out
}

/// How much is shown of an error that has no message.
pub const ERROR_CHARS: usize = 200;

/// A reply that is an error, in one line: its message, or else the start of it. `v` is
/// the reply as JSON, if it is that.
pub open spec fn summary_of(body: Seq<char>, v: Option<Json>) -> Seq<char> {
    match text_in(field_in(field_in(v, "error"@), "message"@)) {
        Some(m) => m,
        None => {
            let l = one_line(body);
            l.take(
                if l.len() < ERROR_CHARS {
                    l.len() as int
                } else {
                    ERROR_CHARS as int
                },
            )
        },
    }
}

/// The message of an error, where `v` is the reply as JSON.
pub fn error_summary(body: &str, v: Option<serde_json::Value>) -> (r: String)
    ensures
        r@ == summary_of(body@, opt_json(v)),
{
    if let Some(v) = &v {
        if let Some(m) = text_value(field_text(json_field(v, "error"), "message")) {
            return m.to_owned();
        }
    }
    let cs: Vec<char> = chars_of(body);
    let l: Vec<char> = one_line_chars(cs.as_slice());
    let n: usize = if l.len() < ERROR_CHARS {
        l.len()
    } else {
        ERROR_CHARS
    };
    proof {
        assert(l@.subrange(0, n as int) =~= l@.take(n as int));
    }
    string_of(slice_subrange(l.as_slice(), 0, n))
}

/// A reply that is an error, in one line that can be shown.
pub fn summarize_error(body: &str) -> (r: String)
    ensures
        r@ == summary_of(body@, json_text(body@)),
{
    error_summary(body, parse_json(body))
}

} // verus!
