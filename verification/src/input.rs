//! Input of text from an input method, which counts in UTF-16 code units.
use crate::document::{bytes_between, clamp_to, newline_of, fresh_doc, Document};
use crate::editor::{
    fresh_editor, inserted, room, sel_hi, sel_lo, selection_replaced, Editor, EditorModel,
};
use crate::rope::{rope_text, units, utf16_len};
use crate::text::{
    blen, byte_len, floor_index, lemma_floor_end, lemma_floor_index, lemma_floor_index_off,
    lemma_off_ends, lemma_off_mono, off, on_boundary,
};
use ropey::Rope;
use std::ops::Range;
use vstd::prelude::*;

verus! {

// ---------- code units and bytes ----------

/// The first index from `i` on whose character holds or lies behind code unit `u`.
pub open spec fn unit_index_from(s: Seq<char>, u: int, i: int) -> int
    decreases s.len() - i,
{
    if i >= s.len() || u < utf16_len(s.take(i + 1)) {
        i
    } else {
        unit_index_from(s, u, i + 1)
    }
}

/// The index of the character that code unit `u` belongs to; the length of `s` for units
/// behind the last.
pub open spec fn unit_index(s: Seq<char>, u: int) -> int {
    unit_index_from(s, u, 0)
}

/// The byte at which the character of code unit `u` starts.
pub open spec fn unit_byte(s: Seq<char>, u: int) -> int {
    off(s, unit_index(s, u)) as int
}

/// How many code units stand before the character of byte `b`.
pub open spec fn byte_unit(s: Seq<char>, b: int) -> int {
    utf16_len(s.take(floor_index(s, b))) as int
}

proof fn lemma_units_mono(s: Seq<char>, i: int, j: int)
    requires
        0 <= i <= j <= s.len(),
    ensures
        utf16_len(s.take(i)) + (j - i) <= utf16_len(s.take(j)),
    decreases j,
{
    if i < j {
        lemma_units_mono(s, i, j - 1);
        assert(s.take(j).drop_last() =~= s.take(j - 1));
    }
}

proof fn lemma_unit_index_from(s: Seq<char>, u: int, i: int, n: int)
    requires
        0 <= i <= n <= s.len(),
        utf16_len(s.take(n)) <= u,
        n < s.len() ==> u < utf16_len(s.take(n + 1)),
    ensures
        unit_index_from(s, u, i) == n,
    decreases n - i,
{
    if i < n {
        lemma_units_mono(s, i + 1, n);
        lemma_unit_index_from(s, u, i + 1, n);
    }
}

proof fn lemma_unit_index(s: Seq<char>, u: int, i: int)
    requires
        0 <= i <= s.len(),
        0 <= u,
    ensures
        i <= unit_index_from(s, u, i) <= s.len(),
    decreases s.len() - i,
{
    if i < s.len() {
        lemma_unit_index(s, u, i + 1);
    }
}

/// A code unit is taken to the start of a character, and from there back to the first
/// unit of that character.
pub proof fn units_lead_to_characters(s: Seq<char>, u: int)
    requires
        0 <= u,
    ensures
        on_boundary(s, unit_byte(s, u)),
        unit_byte(s, u) <= blen(s),
        byte_unit(s, unit_byte(s, u)) == utf16_len(s.take(unit_index(s, u))),
{
    lemma_unit_index(s, u, 0);
    let i = unit_index(s, u);
    assert(off(s, i) == unit_byte(s, u));
    lemma_off_mono(s, i, s.len() as int);
    lemma_off_ends(s);
    lemma_floor_index_off(s, i);
}

/// A byte at which a character starts is found again from its code unit.
pub proof fn bytes_come_back(s: Seq<char>, i: int)
    requires
        0 <= i <= s.len(),
    ensures
        unit_byte(s, byte_unit(s, off(s, i) as int)) == off(s, i),
{
    lemma_floor_index_off(s, i);
    let u = utf16_len(s.take(i)) as int;
    if i < s.len() {
        lemma_units_mono(s, i, i + 1);
    }
    lemma_unit_index_from(s, u, 0, i);
}

fn rope_unit_byte(r: &Rope, u: usize) -> (b: usize)
    ensures
        b == unit_byte(rope_text(*r), u as int),
        b <= blen(rope_text(*r)),
{
    let ghost s = rope_text(*r);
    let n: usize = r.len_utf16_cu();
    let cu: usize = if u < n {
        u
    } else {
        n
    };
    let c: usize = r.utf16_cu_to_char(cu);
    proof {
        assert(s.take(s.len() as int) =~= s);
        if c < s.len() {
            lemma_units_mono(s, c + 1, s.len() as int);
        }
        lemma_unit_index_from(s, u as int, 0, c as int);
        lemma_off_mono(s, c as int, s.len() as int);
        lemma_off_ends(s);
    }
    r.char_to_byte(c)
}

fn rope_byte_unit(r: &Rope, b: usize) -> (u: usize)
    ensures
        u == byte_unit(rope_text(*r), b as int),
{
    let ghost s = rope_text(*r);
    let n: usize = r.len_bytes();
    let at: usize = if b < n {
        b
    } else {
        n
    };
    proof {
        lemma_floor_index(s, at as int);
        if b >= n {
            lemma_floor_end(s, b as int);
            lemma_floor_end(s, n as int);
        }
    }
    let c: usize = r.byte_to_char(at);
    r.char_to_utf16_cu(c)
}

// ---------- the input ----------

/// An editor that takes its text from an input method.
pub struct InputField {
    pub editor: Editor,
    /// The bytes that are still being composed.
    pub marked: Option<Range<usize>>,
}

pub open spec fn opt_range(r: Option<Range<usize>>) -> Option<(int, int)> {
    match r {
        Some(r) => Some((r.start as int, r.end as int)),
        None => None,
    }
}

/// The editor with these bytes selected.
pub open spec fn with_selection(e: EditorModel, r: Option<(int, int)>) -> EditorModel {
    match r {
        Some((a, b)) => EditorModel {
            anchor: clamp_to(a, blen(e.doc.text) as int),
            cursor: clamp_to(b, blen(e.doc.text) as int),
            goal: None,
            ..e
        },
        None => e,
    }
}

/// The bytes that text goes in place of: the range that is named, or else what is still
/// being composed.
pub open spec fn target_of(t: Seq<char>, units: Option<(int, int)>, marked: Option<(int, int)>) -> Option<
    (int, int),
> {
    match units {
        Some((a, b)) => Some((unit_byte(t, a), unit_byte(t, b))),
        None => marked,
    }
}

/// The editor after text was put in place of the selection, or typed if there is none.
pub open spec fn text_put(e: EditorModel, s: Seq<char>, soon: bool) -> EditorModel {
    if e.cursor != e.anchor {
        selection_replaced(e, s)
    } else {
        inserted(e, s, soon)
    }
}

/// The selection that an input method asks for, in bytes: code units of the new text, which
/// starts at byte `start`.
pub open spec fn asked_selection(start: int, s: Seq<char>, units: Option<(int, int)>) -> Option<
    (int, int),
> {
    match units {
        Some((a, b)) => Some((start + unit_byte(s, a), start + unit_byte(s, b))),
        None => None,
    }
}

impl InputField {
    pub open spec fn wf(&self) -> bool {
        self.editor.wf()
    }

    /// What the field would be asked to change.
    pub open spec fn aimed(&self, units: Option<Range<usize>>) -> EditorModel {
        with_selection(
            self.editor@,
            target_of(self.editor@.doc.text, opt_range(units), opt_range(self.marked)),
        )
    }

    /// A field without text.
    pub fn new() -> (r: InputField)
        ensures
            r.wf(),
            r.editor@ == fresh_editor(fresh_doc(Seq::empty(), None, newline_of(Seq::empty()))),
            r.marked is None,
    {
        proof {
            reveal_strlit("");
            assert(""@ =~= Seq::<char>::empty());
        }
        InputField { editor: Editor::new(Document::from_str("")), marked: None }
    }

    /// The text of the field.
    pub fn text(&self) -> (r: String)
        ensures
            r@ == self.editor@.doc.text,
    {
        let end: usize = self.editor.document().len_bytes();
        let r: String = self.editor.document().slice_to_string(0..end);
        proof {
            let t = self.editor@.doc.text;
            lemma_off_ends(t);
            lemma_floor_end(t, end as int);
            lemma_floor_index_off(t, 0);
            assert(t.subrange(0, t.len() as int) =~= t);
        }
        r
    }

    /// Puts another text into the field.
    pub fn set_text(&mut self, s: &str)
        ensures
            final(self).wf(),
            final(self).editor@ == fresh_editor(fresh_doc(s@, None, newline_of(s@))),
            final(self).marked is None,
    {
        self.editor = Editor::new(Document::from_str(s));
        self.marked = None;
    }

    /// The byte at which the character of a code unit starts.
    pub fn utf16_to_byte(&self, u: usize) -> (r: usize)
        ensures
            r == unit_byte(self.editor@.doc.text, u as int),
            r <= blen(self.editor@.doc.text),
    {
        rope_unit_byte(self.editor.document().rope(), u)
    }

    /// How many code units stand before the character of a byte.
    pub fn byte_to_utf16(&self, b: usize) -> (r: usize)
        ensures
            r == byte_unit(self.editor@.doc.text, b as int),
    {
        rope_byte_unit(self.editor.document().rope(), b)
    }

    /// A range of code units in bytes.
    pub fn range_from_utf16(&self, r: &Range<usize>) -> (b: Range<usize>)
        ensures
            b.start == unit_byte(self.editor@.doc.text, r.start as int),
            b.end == unit_byte(self.editor@.doc.text, r.end as int),
    {
        let start: usize = self.utf16_to_byte(r.start);
        let end: usize = self.utf16_to_byte(r.end);
        start..end
    }

    /// A range of bytes in code units.
    pub fn range_to_utf16(&self, r: &Range<usize>) -> (u: Range<usize>)
        ensures
            u.start == byte_unit(self.editor@.doc.text, r.start as int),
            u.end == byte_unit(self.editor@.doc.text, r.end as int),
    {
        let start: usize = self.byte_to_utf16(r.start);
        let end: usize = self.byte_to_utf16(r.end);
        start..end
    }

    /// The text of a range of code units, and the range that it really is: whole
    /// characters.
    pub fn text_for_range(&self, range_utf16: &Range<usize>) -> (r: (String, Range<usize>))
        ensures
            ({
                let t = self.editor@.doc.text;
                let (a, b) = (
                    unit_byte(t, range_utf16.start as int),
                    unit_byte(t, range_utf16.end as int),
                );
                &&& r.0@ == bytes_between(t, a, b)
                &&& r.1.start == byte_unit(t, a)
                &&& r.1.end == byte_unit(t, b)
            }),
    {
        let b: Range<usize> = self.range_from_utf16(range_utf16);
        let actual: Range<usize> = self.range_to_utf16(&b);
        (self.editor.document().slice_to_string(b), actual)
    }

    /// The selection in code units, and whether the cursor is at its start.
    pub fn selected_text_range(&self) -> (r: (Range<usize>, bool))
        ensures
            r.0.start == byte_unit(self.editor@.doc.text, sel_lo(self.editor@)),
            r.0.end == byte_unit(self.editor@.doc.text, sel_hi(self.editor@)),
            r.1 == (self.editor@.cursor < self.editor@.anchor),
    {
        let sel: Range<usize> = self.editor.selection();
        let reversed: bool = self.editor.cursor() == sel.start && self.editor.has_selection();
        (self.range_to_utf16(&sel), reversed)
    }

    /// What is still being composed, in code units.
    pub fn marked_text_range(&self) -> (r: Option<Range<usize>>)
        ensures
            match self.marked {
                Some(m) => r matches Some(u) && u.start == byte_unit(
                    self.editor@.doc.text,
                    m.start as int,
                ) && u.end == byte_unit(self.editor@.doc.text, m.end as int),
                None => r is None,
            },
    {
        match &self.marked {
            Some(m) => Some(self.range_to_utf16(m)),
            None => None,
        }
    }

    /// What was being composed stays as it is.
    pub fn unmark_text(&mut self)
        ensures
            final(self).editor == old(self).editor,
            final(self).marked is None,
    {
        self.marked = None;
    }

    /// Selects what text is to go in place of.
    fn aim(&mut self, range_utf16: &Option<Range<usize>>)
        requires
            old(self).wf(),
        ensures
            final(self).wf(),
            final(self).editor@ == old(self).aimed(*range_utf16),
            final(self).marked == old(self).marked,
    {
        match range_utf16 {
            Some(u) => {
                let b: Range<usize> = self.range_from_utf16(u);
                self.editor.select(b);
            },
            None => if let Some(m) = &self.marked {
                let b: Range<usize> = m.start..m.end;
                self.editor.select(b);
            },
        }
    }

    /// Puts text in place of the selection, or types it if there is none.
    fn put_text(&mut self, new_text: &str)
        requires
            old(self).wf(),
            room(old(self).editor@, blen(new_text@)),
        ensures
            final(self).wf(),
            exists|soon: bool| final(self).editor@ == text_put(old(self).editor@, new_text@, soon),
            final(self).marked == old(self).marked,
    {
        let ghost e = self.editor@;
        if self.editor.has_selection() {
            self.editor.replace_selection(new_text);
            proof {
                assert(self.editor@ == text_put(e, new_text@, true));
            }
        } else {
            self.editor.insert(new_text);
            proof {
                let soon = choose|soon: bool| self.editor@ == inserted(e, new_text@, soon);
                assert(self.editor@ == text_put(e, new_text@, soon));
            }
        }
    }

    /// Takes in text, in place of a range of code units or of what is still being
    /// composed. Nothing is being composed then.
    pub fn replace_text_in_range(&mut self, range_utf16: Option<Range<usize>>, new_text: &str)
        requires
            old(self).wf(),
            room(old(self).aimed(range_utf16), blen(new_text@)),
        ensures
            final(self).wf(),
            exists|soon: bool|
                final(self).editor@ == text_put(old(self).aimed(range_utf16), new_text@, soon),
            final(self).marked is None,
    {
        self.aim(&range_utf16);
        self.marked = None;
        self.put_text(new_text);
    }

    /// Takes in text that is still being composed, in place of a range of code units or of
    /// what was being composed before. The selection is asked for in code units of the new
    /// text.
    pub fn replace_and_mark_text_in_range(
        &mut self,
        range_utf16: Option<Range<usize>>,
        new_text: &str,
        new_selected_range_utf16: Option<Range<usize>>,
    )
        requires
            old(self).wf(),
            room(old(self).aimed(range_utf16), blen(new_text@)),
        ensures
            final(self).wf(),
            ({
                let e = old(self).aimed(range_utf16);
                let start = sel_lo(e);
                &&& exists|soon: bool|
                    final(self).editor@ == with_selection(
                        text_put(e, new_text@, soon),
                        asked_selection(start, new_text@, opt_range(new_selected_range_utf16)),
                    )
                &&& opt_range(final(self).marked) == if new_text@.len() == 0 {
                    None
                } else {
                    Some((start, start + blen(new_text@)))
                }
            }),
    {
        self.aim(&range_utf16);
        let ghost e = self.editor@;
        let start: usize = self.editor.selection().start;
        self.put_text(new_text);
        let ghost soon = choose|soon: bool| self.editor@ == text_put(e, new_text@, soon);
        if new_text.is_empty() {
            self.marked = None;
        } else {
            let end: usize = start + byte_len(new_text);
            self.marked = Some(start..end);
        }
        if let Some(sel) = &new_selected_range_utf16 {
            let text: Rope = Rope::from_str(new_text);
            let a: usize = rope_unit_byte(&text, sel.start);
            let b: usize = rope_unit_byte(&text, sel.end);
            self.editor.select(start + a..start + b);
        }
        proof {
            assert(self.editor@ == with_selection(
                text_put(e, new_text@, soon),
                asked_selection(start as int, new_text@, opt_range(new_selected_range_utf16)),
            ));
        }
    }
}

} // verus!
