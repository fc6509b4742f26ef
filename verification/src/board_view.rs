//! Working on a board: what clicks, drags and commands do to its cards and lines.
//!
//! Where a card is drawn depends on the canvas, and so on fractions, which are the
//! caller's: places are passed on as the bits of numbers in single precision.
use crate::board::{
    adding_keeps_consistency, can_connect, connecting_keeps_consistency, consistent, has_node,
    moved, node_at, retexted, with_node, without_node, Board, BoardModel,
};
use crate::paths::{
    bare, bare_chars, extension, extension_of_path, file_name, file_name_of, join_path, joined,
    parent, parent_of,
};
use crate::text::{
    chars_of, digits_of, glue, is_blank, string_of, trim, trim_chars, wide_number_chars,
};
use vstd::prelude::*;

verus! {

/// Where the next of `n` cards goes, in hundredths of the canvas: five to a row, and four
/// rows, from the start again behind the last.
pub fn slot_for(n: usize) -> (r: (u32, u32))
    ensures
        r.0 == 30 + n % 5 * 10,
        r.1 == 25 + n / 5 % 4 * 16,
{
    let col: u32 = (n % 5) as u32;
    let row: u32 = (n / 5 % 4) as u32;
    (30 + col * 10, 25 + row * 16)
}

/// A card on its way.
#[derive(Clone, Copy, Debug, PartialEq, Eq)]
pub struct Drag {
    pub id: u32,
    /// Where the mouse went down.
    pub start: (u32, u32),
    /// Where the card was then.
    pub from: (u32, u32),
}

/// The note that a card leads to: below the directory of the board's note, and a note if
/// nothing else is said.
pub open spec fn card_target(note: Seq<char>, name: Seq<char>) -> Seq<char> {
    let dir = match parent(note) {
        Some(d) => d,
        None => "."@,
    };
    let p = joined(dir, name);
    if file_name(p) is Some && extension(p) is None {
        bare(p) + ".md"@
    } else {
        p
    }
}

/// The note that a card leads to.
pub fn resolve(note: &str, name: &str) -> (r: String)
    ensures
        r@ == card_target(note@, name@),
{
    let dir: String = match parent_of(note) {
        Some(d) => d,
        None => ".".to_owned(),
    };
    let p: String = join_path(&dir, name);
    if file_name_of(&p).is_some() && extension_of_path(&p).is_none() {
        let cs: Vec<char> = chars_of(&p);
        return glue(&string_of(bare_chars(cs.as_slice())), ".md");
    }
    p
}

/// Whether what was typed makes a new card: if there is no card selected for it.
pub open spec fn adds_card(b: BoardViewModel, typed: Seq<char>) -> bool {
    trim(typed).len() > 0 && match b.selected {
        Some(id) => !has_node(b.board, id),
        None => true,
    }
}

/// What a click on a card leads to.
#[derive(Clone, Debug, PartialEq, Eq)]
pub enum CardClick {
    /// A line was drawn: the board is to be saved.
    Joined,
    /// No line could be drawn.
    NotJoined,
    /// A note is to be opened.
    Open(String),
    /// The card can be moved.
    Dragging,
}

pub enum ClickModel {
    Joined,
    NotJoined,
    Open(Seq<char>),
    Dragging,
}

impl View for CardClick {
    type V = ClickModel;

    open spec fn view(&self) -> ClickModel {
        match *self {
            CardClick::Joined => ClickModel::Joined,
            CardClick::NotJoined => ClickModel::NotJoined,
            CardClick::Open(p) => ClickModel::Open(p@),
            CardClick::Dragging => ClickModel::Dragging,
        }
    }
}

/// A board that is being worked on.
pub struct BoardView {
    pub board: Board,
    /// The note that it is in.
    pub note: String,
    pub drag: Option<Drag>,
    pub selected: Option<u32>,
    /// The card that a line is to be drawn from.
    pub link_from: Option<u32>,
    /// Whether something has changed that is not saved.
    pub dirty: bool,
}

pub struct BoardViewModel {
    pub board: BoardModel,
    pub note: Seq<char>,
    pub drag: Option<Drag>,
    pub selected: Option<u32>,
    pub link_from: Option<u32>,
    pub dirty: bool,
}

impl View for BoardView {
    type V = BoardViewModel;

    open spec fn view(&self) -> BoardViewModel {
        BoardViewModel {
            board: self.board@,
            note: self.note@,
            drag: self.drag,
            selected: self.selected,
            link_from: self.link_from,
            dirty: self.dirty,
        }
    }
}

/// A new card, which is then selected.
pub open spec fn card_added(v: BoardViewModel, x: u32, y: u32, text: Seq<char>) -> BoardViewModel {
    let board = with_node(v.board, x, y, text);
    BoardViewModel {
        board,
        selected: Some(board.last_id),
        link_from: None,
        dirty: true,
        ..v
    }
}

/// The note that a card names.
pub open spec fn card_note(b: BoardModel, id: u32) -> Option<Seq<char>> {
    match node_at(b.nodes, id, 0) {
        Some(k) => b.nodes[k].note,
        None => None,
    }
}

/// Where a card is.
pub open spec fn card_place(b: BoardModel, id: u32) -> (u32, u32) {
    match node_at(b.nodes, id, 0) {
        Some(k) => (b.nodes[k].x, b.nodes[k].y),
        None => (0, 0),
    }
}

/// What a click on a card does: it draws the line that was begun at another card; twice on
/// a card that names a note it opens the note; or else the card can be moved.
pub open spec fn card_clicked(v: BoardViewModel, id: u32, twice: bool, at: (u32, u32)) -> (
    BoardViewModel,
    ClickModel,
) {
    let s = BoardViewModel { selected: Some(id), ..v };
    match v.link_from {
        Some(from) if from != id => {
            let joins = can_connect(v.board, from, id);
            (
                BoardViewModel {
                    link_from: None,
                    board: if joins {
                        BoardModel {
                            edges: v.board.edges.push(crate::board::Edge { from, to: id }),
                            ..v.board
                        }
                    } else {
                        v.board
                    },
                    ..s
                },
                if joins {
                    ClickModel::Joined
                } else {
                    ClickModel::NotJoined
                },
            )
        },
        _ => match card_note(v.board, id) {
            Some(name) if twice => (s, ClickModel::Open(card_target(v.note, name))),
            _ => (
                BoardViewModel {
                    drag: Some(Drag { id, start: at, from: card_place(v.board, id) }),
                    ..s
                },
                ClickModel::Dragging,
            ),
        },
    }
}

impl BoardView {
    /// Starts to work on the board of a note.
    pub fn new(note: String, board: Board) -> (r: BoardView)
        ensures
            r@ == (BoardViewModel {
                board: board@,
                note: note@,
                drag: None,
                selected: None,
                link_from: None,
                dirty: false,
            }),
    {
        BoardView { board, note, drag: None, selected: None, link_from: None, dirty: false }
    }

    /// The board was saved.
    pub fn saved(&mut self)
        ensures
            final(self)@ == (BoardViewModel { dirty: false, ..old(self)@ }),
    {
        self.dirty = false;
    }

    /// Adds a card and selects it.
    pub fn add_node(&mut self, x: u32, y: u32, text: String)
        requires
            old(self)@.board.last_id < u32::MAX,
        ensures
            final(self)@ == card_added(old(self)@, x, y, text@),
    {
        let id: u32 = self.board.add_node(x, y, text);
        self.selected = Some(id);
        self.link_from = None;
        self.dirty = true;
    }

    /// The text of a new card.
    pub fn new_card_text(&self) -> (r: String)
        ensures
            r@ == "新节点 "@ + digits_of(self@.board.nodes.len() + 1),
    {
        let n: Vec<char> = wide_number_chars(self.board.nodes.len() as u128 + 1);
        glue("新节点 ", &string_of(n.as_slice()))
    }

    /// A click on a card, `twice` if it is the second one; `at` is where the mouse is.
    pub fn on_node_down(&mut self, id: u32, twice: bool, at: (u32, u32)) -> (r: CardClick)
        ensures
            (final(self)@, r@) == card_clicked(old(self)@, id, twice, at),
    {
        self.selected = Some(id);
        if let Some(from) = self.link_from {
            if from != id {
                self.link_from = None;
                if self.board.connect(from, id) {
                    return CardClick::Joined;
                } else {
                    return CardClick::NotJoined;
                }
            }
        }
        let mut place: (u32, u32) = (0, 0);
        if let Some(n) = self.board.node(id) {
            if twice {
                if let Some(name) = &n.note {
                    return CardClick::Open(resolve(&self.note, name));
                }
            }
            place = (n.x, n.y);
        }
        self.drag = Some(Drag { id, start: at, from: place });
        CardClick::Dragging
    }

    /// The card on its way is moved there.
    pub fn on_canvas_move(&mut self, x: u32, y: u32)
        ensures
            final(self)@ == match old(self)@.drag {
                Some(d) => BoardViewModel {
                    board: moved(old(self)@.board, d.id, x, y),
                    dirty: true,
                    ..old(self)@
                },
                None => old(self)@,
            },
    {
        if let Some(d) = self.drag {
            self.board.move_node(d.id, x, y);
            self.dirty = true;
        }
    }

    /// The mouse is let go; says whether the board is to be saved.
    pub fn on_canvas_up(&mut self) -> (r: bool)
        ensures
            r == (old(self)@.drag is Some && old(self)@.dirty),
            final(self)@ == (BoardViewModel { drag: None, ..old(self)@ }),
    {
        let moving: bool = self.drag.is_some();
        self.drag = None;
        moving && self.dirty
    }

    /// A click beside all cards; says whether anything was selected or begun.
    pub fn on_canvas_down(&mut self) -> (r: bool)
        ensures
            r == (old(self)@.selected is Some || old(self)@.link_from is Some),
            final(self)@ == (BoardViewModel {
                drag: None,
                selected: None,
                link_from: None,
                ..old(self)@
            }),
    {
        let r: bool = self.selected.is_some() || self.link_from.is_some();
        self.drag = None;
        self.selected = None;
        self.link_from = None;
        r
    }

    /// Takes in what was typed: the text of the selected card, or else of a new one at this
    /// place. Says whether anything was done.
    pub fn apply_input(&mut self, typed: &str, x: u32, y: u32) -> (r: bool)
        requires
            adds_card(old(self)@, typed@) ==> old(self)@.board.last_id < u32::MAX,
        ensures
            r == (trim(typed@).len() > 0),
            final(self)@ == if !r {
                old(self)@
            } else {
                match old(self)@.selected {
                    Some(id) if has_node(old(self)@.board, id) => BoardViewModel {
                        board: retexted(old(self)@.board, id, trim(typed@)),
                        dirty: true,
                        ..old(self)@
                    },
                    _ => card_added(old(self)@, x, y, trim(typed@)),
                }
            },
    {
        if is_blank(typed) {
            return false;
        }
        let cs: Vec<char> = chars_of(typed);
        let text: String = string_of(trim_chars(cs.as_slice()));
        if let Some(id) = self.selected {
            if self.board.node(id).is_some() {
                self.board.set_text(id, text);
                self.dirty = true;
                return true;
            }
        }
        self.add_node(x, y, text);
        true
    }

    /// Takes the selected card away, with its lines; says whether there was one.
    pub fn delete_selected(&mut self) -> (r: bool)
        ensures
            r == (old(self)@.selected is Some),
            final(self)@ == match old(self)@.selected {
                Some(id) => BoardViewModel {
                    board: without_node(old(self)@.board, id),
                    selected: None,
                    link_from: None,
                    dirty: true,
                    ..old(self)@
                },
                None => old(self)@,
            },
    {
        match self.selected {
            Some(id) => {
                self.selected = None;
                self.board.remove_node(id);
                self.link_from = None;
                self.dirty = true;
                true
            },
            None => false,
        }
    }

    /// Begins a line at the selected card.
    pub fn start_link(&mut self)
        ensures
            final(self)@ == (BoardViewModel { link_from: old(self)@.selected, ..old(self)@ }),
    {
        self.link_from = self.selected;
    }
}

/// Clicks on cards and new cards keep the lines of a board between cards that exist, none
/// twice; a new card is the selected one.
pub proof fn working_keeps_consistency(
    v: BoardViewModel,
    id: u32,
    twice: bool,
    at: (u32, u32),
    text: Seq<char>,
)
    requires
        consistent(v.board),
        v.board.last_id < u32::MAX,
    ensures
        consistent(card_clicked(v, id, twice, at).0.board),
        consistent(card_added(v, at.0, at.1, text).board),
        card_added(v, at.0, at.1, text).selected matches Some(new) && has_node(
            card_added(v, at.0, at.1, text).board,
            new,
        ) && !has_node(v.board, new),
{
    adding_keeps_consistency(v.board, at.0, at.1, text);
    match v.link_from {
        Some(from) if from != id => {
            if can_connect(v.board, from, id) {
                connecting_keeps_consistency(v.board, from, id);
            }
        },
        _ => {},
    }
}

} // verus!
