//! What boards promise: how they stand in a note, and what becomes of their cards.
use crate::block_laws::{is_white, lemma_cut_ends, times};
use crate::board::{
    board_block, can_connect, clamped, closes_board, edges_without, extracted, greatest_id,
    has_node, joined, lemma_closing_is, lemma_lines_concat, lemma_one_line, lemma_opening_is,
    lines_make_the_text, moved, node_at, nodes_without, numbered, opens_board, retexted,
    spliced, whole_lines, with_node, without_node, BoardModel, Edge, NodeModel,
};
use crate::board_view::{adds_card, card_clicked, card_target, BoardViewModel, ClickModel};
use crate::file_laws::{
    files_lie_in_their_directory, is_file_name, names_follow_the_directory,
    names_part_at_the_last_dot, names_without_a_dot_have_no_ending,
};
use crate::paths::bare;
use crate::talk_laws::lemma_white;
use crate::text::{is_space, lemma_lead_spaces, lemma_trim_end, trim, trim_start};
use vstd::prelude::*;

verus! {

// ---------- boards in notes ----------

/// A line opens a board if it holds three backticks and the word `board` behind them, with
/// white space around the two or without.
pub proof fn boards_open_by_name(a: Seq<char>, b: Seq<char>, c: Seq<char>)
    requires
        is_white(a) && is_white(b) && is_white(c),
    ensures
        opens_board(
            a + (seq!['`', '`', '`'] + b + seq!['b', 'o', 'a', 'r', 'd']) + c,
        ),
        !closes_board(a + (seq!['`', '`', '`'] + b + seq!['b', 'o', 'a', 'r', 'd']) + c),
{
    let name = seq!['b', 'o', 'a', 'r', 'd'];
    let ticks = seq!['`', '`', '`'];
    let core = ticks + b + name;
    lemma_cut_ends(a, core, c);
    reveal_strlit("```");
    reveal_strlit("board");
    assert("```"@ =~= ticks);
    assert("board"@ =~= name);
    assert(ticks.is_prefix_of(core));
    let none = Seq::<char>::empty();
    lemma_cut_ends(b, name, none);
    assert(core.skip(3) =~= b + name + none);
    assert(core[core.len() - 1] == 'd');
}

/// A line closes a board if it holds nothing but three or more backticks, with white space
/// around them or without.
pub proof fn boards_close_by_backticks(a: Seq<char>, n: nat, c: Seq<char>)
    requires
        is_white(a) && is_white(c),
        n > 0,
    ensures
        closes_board(a + times('`', n) + c) <==> n >= 3,
        !opens_board(a + times('`', n) + c),
{
    let t = times('`', n);
    lemma_cut_ends(a, t, c);
    reveal_strlit("```");
    reveal_strlit("board");
    assert(t[0] == '`' && t.last() == '`');
    if opens_board(a + t + c) {
        let u = t.skip(3);
        lemma_lead_spaces(u);
        lemma_trim_end(trim_start(u));
        assert(trim(u)[0] == 'b');
        assert(trim(u)[0] == trim_start(u)[0]);
        assert(trim_start(u)[0] == u[crate::text::lead_spaces(u)]);
    }
}

/// A line that shows anything but backticks closes no board, and one that does not start with
/// a backtick opens none.
pub proof fn other_lines_bound_no_board(a: Seq<char>, t: Seq<char>, c: Seq<char>, k: int)
    requires
        is_white(a) && is_white(c),
        0 <= k < t.len(),
        t[k] != '`',
        !is_space(t[0]),
        !is_space(t.last()),
    ensures
        !closes_board(a + t + c),
        t[0] != '`' ==> !opens_board(a + t + c),
{
    lemma_cut_ends(a, t, c);
    reveal_strlit("```");
    if "```"@.is_prefix_of(t) {
        assert(t[0] == "```"@[0]);
    }
}

/// Whether a text is one line with its break.
pub open spec fn is_a_line(l: Seq<char>) -> bool {
    l.len() > 0 && l.last() == '\n' && forall|k: int| 0 <= k < l.len() - 1 ==> #[trigger] l[k] != '\n'
}

/// Whether no line of a text is such.
pub open spec fn opens_none(s: Seq<char>) -> bool {
    forall|k: int| 0 <= k < whole_lines(s).len() ==> !opens_board(#[trigger] whole_lines(s)[k])
}

pub open spec fn closes_none(s: Seq<char>) -> bool {
    forall|k: int| 0 <= k < whole_lines(s).len() ==> !closes_board(#[trigger] whole_lines(s)[k])
}

pub open spec fn ends_a_line(s: Seq<char>) -> bool {
    s.len() == 0 || s.last() == '\n'
}

proof fn lemma_line_alone(l: Seq<char>)
    requires
        is_a_line(l),
    ensures
        whole_lines(l) == seq![l],
{
    let s = l.drop_last();
    assert(l =~= s.push('\n'));
    assert forall|k: int| 0 <= k < s.len() implies #[trigger] s[k] != '\n' by {
        assert(s[k] == l[k]);
    }
    lemma_one_line(s);
}

/// The board of a note is what stands between the first line that opens one and the next that
/// closes one; and another is put in just there.
pub proof fn boards_stand_between_their_lines(
    before: Seq<char>,
    open: Seq<char>,
    body: Seq<char>,
    close: Seq<char>,
    behind: Seq<char>,
    json: Seq<char>,
)
    requires
        ends_a_line(before),
        opens_none(before),
        is_a_line(open),
        opens_board(open),
        ends_a_line(body),
        closes_none(body),
        is_a_line(close),
        closes_board(close),
    ensures
        extracted(before + open + body + close + behind) == Some(body),
        spliced(before + open + body + close + behind, json) == before + board_block(json) + behind,
{
    let md = before + open + body + close + behind;
    let (x, y, z) = (before + open, before + open + body, before + open + body + close);
    lemma_lines_concat(before, open);
    assert(x.last() == '\n');
    lemma_lines_concat(x, body);
    assert(ends_a_line(y)) by {
        if body.len() > 0 {
            assert(y.last() == body.last());
        } else {
            assert(y =~= x);
        }
    }
    lemma_lines_concat(y, close);
    assert(z.last() == '\n');
    lemma_lines_concat(z, behind);
    lemma_line_alone(open);
    lemma_line_alone(close);
    let (ps, js, rs) = (whole_lines(before), whole_lines(body), whole_lines(behind));
    let ls = whole_lines(md);
    assert(ls =~= ps + seq![open] + js + seq![close] + rs);
    let o = ps.len() as int;
    let c = o + 1 + js.len();
    assert(ls[o] == open);
    assert forall|j: int| 0 <= j < o implies !opens_board(#[trigger] ls[j]) by {
        assert(ls[j] == ps[j]);
    }
    lemma_opening_is(ls, 0, o);
    assert(ls[c] == close);
    assert forall|j: int| o + 1 <= j < c implies !closes_board(#[trigger] ls[j]) by {
        assert(ls[j] == js[j - o - 1]);
    }
    lemma_closing_is(ls, o + 1, c);
    assert(ls.take(o) =~= ps);
    assert(ls.subrange(o + 1, c) =~= js);
    assert(ls.skip(c + 1) =~= rs);
    lines_make_the_text(before);
    lines_make_the_text(body);
    lines_make_the_text(behind);
}

/// A board that no line closes goes on to the end of the note, and a note in which no line
/// opens one has none: then a board is put at its end, behind an empty line.
pub proof fn boards_are_added_at_the_end(
    before: Seq<char>,
    open: Seq<char>,
    body: Seq<char>,
    md: Seq<char>,
    json: Seq<char>,
)
    requires
        ends_a_line(before),
        opens_none(before),
        is_a_line(open),
        opens_board(open),
        closes_none(body),
        opens_none(md),
    ensures
        extracted(before + open + body) == Some(body),
        extracted(md) is None,
        md.len() == 0 ==> spliced(md, json) == board_block(json),
        md.len() > 0 && md.last() == '\n' ==> spliced(md, json) == md + seq!['\n'] + board_block(json),
        md.len() > 0 && md.last() != '\n' ==> spliced(md, json) == md + seq!['\n', '\n']
            + board_block(json),
        board_block(json) == seq!['`', '`', '`', 'b', 'o', 'a', 'r', 'd', '\n'] + json + seq![
            '\n',
            '`',
            '`',
            '`',
            '\n',
        ],
{
    let whole = before + open + body;
    let x = before + open;
    lemma_lines_concat(before, open);
    assert(x.last() == '\n');
    lemma_lines_concat(x, body);
    lemma_line_alone(open);
    let (ps, js) = (whole_lines(before), whole_lines(body));
    let ls = whole_lines(whole);
    assert(ls =~= ps + seq![open] + js);
    let o = ps.len() as int;
    assert(ls[o] == open);
    assert forall|j: int| 0 <= j < o implies !opens_board(#[trigger] ls[j]) by {
        assert(ls[j] == ps[j]);
    }
    lemma_opening_is(ls, 0, o);
    assert forall|j: int| o + 1 <= j < ls.len() implies !closes_board(#[trigger] ls[j]) by {
        assert(ls[j] == js[j - o - 1]);
    }
    lemma_closing_is(ls, o + 1, ls.len() as int);
    assert(ls.skip(o + 1) =~= js);
    lines_make_the_text(body);
    let ms = whole_lines(md);
    lemma_opening_is(ms, 0, ms.len() as int);
    assert(md.push('\n') =~= md + seq!['\n']);
    assert(md.push('\n').push('\n') =~= md + seq!['\n', '\n']);
    reveal_strlit("```");
    reveal_strlit("board");
    assert(board_block(json) =~= seq!['`', '`', '`', 'b', 'o', 'a', 'r', 'd', '\n'] + json + seq![
        '\n',
        '`',
        '`',
        '`',
        '\n',
    ]);
}

// ---------- cards ----------

/// A new card gets a number that no card has, stands last, and changes nothing else.
pub proof fn new_cards_are_numbered_on(b: BoardModel, x: u32, y: u32, text: Seq<char>)
    requires
        numbered(b),
        b.last_id < u32::MAX,
    ensures
        ({
            let w = with_node(b, x, y, text);
            &&& w.nodes.len() == b.nodes.len() + 1
            &&& w.nodes.take(b.nodes.len() as int) == b.nodes
            &&& w.edges == b.edges
            &&& w.nodes.last().id == w.last_id
            &&& forall|k: int| 0 <= k < b.nodes.len() ==> (#[trigger] b.nodes[k]).id < w.last_id
            &&& w.nodes.last().text == text
            &&& w.nodes.last().note is None
            &&& x <= 0x3f80_0000 ==> w.nodes.last().x == x
            &&& y <= 0x3f80_0000 ==> w.nodes.last().y == y
        }),
{
    let w = with_node(b, x, y, text);
    assert(w.nodes.take(b.nodes.len() as int) =~= b.nodes);
}

/// A place left of the board or above it is brought to nought, one beyond it to one, and one
/// on it stays.
pub proof fn places_are_brought_onto_the_board(bits: u32)
    ensures
        0x8000_0000 < bits <= 0xff80_0000 ==> clamped(bits) == 0,
        0x3f80_0000 <= bits <= 0x7f80_0000 ==> clamped(bits) == 0x3f80_0000,
        bits <= 0x3f80_0000 ==> clamped(bits) == bits,
{
}

/// Numbers go on from the greatest that a card has.
pub proof fn numbers_go_on_from_the_greatest(nodes: Seq<NodeModel>)
    ensures
        forall|k: int| 0 <= k < nodes.len() ==> (#[trigger] nodes[k]).id <= greatest_id(nodes),
        nodes.len() == 0 ==> greatest_id(nodes) == 0,
        greatest_id(nodes) > 0 ==> exists|k: int|
            0 <= k < nodes.len() && (#[trigger] nodes[k]).id == greatest_id(nodes),
    decreases nodes.len(),
{
    if nodes.len() > 0 {
        let d = nodes.drop_last();
        numbers_go_on_from_the_greatest(d);
        assert forall|k: int| 0 <= k < nodes.len() implies (#[trigger] nodes[k]).id <= greatest_id(
            nodes,
        ) by {
            if k < d.len() {
                assert(nodes[k] == d[k]);
            }
        }
        if greatest_id(nodes) > 0 {
            if greatest_id(nodes) == nodes.last().id {
                assert(nodes[nodes.len() - 1].id == greatest_id(nodes));
            } else {
                let k = choose|k: int| 0 <= k < d.len() && (#[trigger] d[k]).id == greatest_id(d);
                assert(nodes[k] == d[k]);
            }
        }
    }
}

/// Whether a card is the first of its number.
pub open spec fn is_first(nodes: Seq<NodeModel>, id: u32, k: int) -> bool {
    0 <= k < nodes.len() && nodes[k].id == id && forall|j: int|
        0 <= j < k ==> (#[trigger] nodes[j]).id != id
}

proof fn lemma_first(nodes: Seq<NodeModel>, id: u32, k: int, i: int)
    requires
        is_first(nodes, id, k),
        0 <= i <= k,
    ensures
        node_at(nodes, id, i) == Some(k),
    decreases k - i,
{
    if i < k {
        assert(nodes[i].id != id);
        lemma_first(nodes, id, k, i + 1);
    }
}

proof fn lemma_absent(nodes: Seq<NodeModel>, id: u32, i: int)
    requires
        0 <= i <= nodes.len(),
        forall|j: int| 0 <= j < nodes.len() ==> (#[trigger] nodes[j]).id != id,
    ensures
        node_at(nodes, id, i) is None,
    decreases nodes.len() - i,
{
    if i < nodes.len() {
        assert(nodes[i].id != id);
        lemma_absent(nodes, id, i + 1);
    }
}

/// Moving a card changes its place and nothing else, and giving it a text its text and nothing
/// else.
pub proof fn one_card_is_changed(
    b: BoardModel,
    id: u32,
    k: int,
    x: u32,
    y: u32,
    text: Seq<char>,
)
    requires
        is_first(b.nodes, id, k),
    ensures
        ({
            let w = moved(b, id, x, y);
            &&& w.edges == b.edges && w.last_id == b.last_id
            &&& w.nodes.len() == b.nodes.len()
            &&& forall|j: int| 0 <= j < b.nodes.len() && j != k ==> #[trigger] w.nodes[j] == b.nodes[j]
            &&& w.nodes[k].id == id
            &&& w.nodes[k].text == b.nodes[k].text
            &&& w.nodes[k].note == b.nodes[k].note
            &&& x <= 0x3f80_0000 ==> w.nodes[k].x == x
            &&& y <= 0x3f80_0000 ==> w.nodes[k].y == y
        }),
        ({
            let w = retexted(b, id, text);
            &&& w.edges == b.edges && w.last_id == b.last_id
            &&& w.nodes.len() == b.nodes.len()
            &&& forall|j: int| 0 <= j < b.nodes.len() && j != k ==> #[trigger] w.nodes[j] == b.nodes[j]
            &&& w.nodes[k].id == id
            &&& w.nodes[k].text == text
            &&& w.nodes[k].note == b.nodes[k].note
            &&& w.nodes[k].x == b.nodes[k].x
            &&& w.nodes[k].y == b.nodes[k].y
        }),
{
    lemma_first(b.nodes, id, k, 0);
}

/// A number that no card has changes nothing.
pub proof fn missing_cards_change_nothing(b: BoardModel, id: u32, x: u32, y: u32, text: Seq<char>)
    requires
        forall|j: int| 0 <= j < b.nodes.len() ==> (#[trigger] b.nodes[j]).id != id,
    ensures
        moved(b, id, x, y) == b,
        retexted(b, id, text) == b,
{
    lemma_absent(b.nodes, id, 0);
}

/// Removing a card takes the cards of its number and the lines to and from it, and leaves all
/// the others, in their order.
pub proof fn removing_takes_the_card_and_its_lines(
    a: Seq<NodeModel>,
    n: NodeModel,
    c: Seq<NodeModel>,
    e: Seq<Edge>,
    f: Edge,
    g: Seq<Edge>,
    id: u32,
)
    ensures
        nodes_without(a + seq![n] + c, id) == nodes_without(a, id) + (if n.id == id {
            Seq::empty()
        } else {
            seq![n]
        }) + nodes_without(c, id),
        edges_without(e + seq![f] + g, id) == edges_without(e, id) + (if f.from == id || f.to == id {
            Seq::empty()
        } else {
            seq![f]
        }) + edges_without(g, id),
        nodes_without(Seq::empty(), id).len() == 0,
        edges_without(Seq::empty(), id).len() == 0,
{
    lemma_nodes_part(a + seq![n], c, id);
    lemma_nodes_part(a, seq![n], id);
    assert(seq![n].drop_last() =~= Seq::<NodeModel>::empty());
    assert(nodes_without(Seq::<NodeModel>::empty(), id) =~= Seq::<NodeModel>::empty());
    assert(nodes_without(seq![n], id) =~= if n.id == id {
        Seq::empty()
    } else {
        seq![n]
    });
    lemma_edges_part(e + seq![f], g, id);
    lemma_edges_part(e, seq![f], id);
    assert(seq![f].drop_last() =~= Seq::<Edge>::empty());
    assert(edges_without(Seq::<Edge>::empty(), id) =~= Seq::<Edge>::empty());
    assert(edges_without(seq![f], id) =~= if f.from == id || f.to == id {
        Seq::empty()
    } else {
        seq![f]
    });
}

proof fn lemma_nodes_part(a: Seq<NodeModel>, b: Seq<NodeModel>, id: u32)
    ensures
        nodes_without(a + b, id) == nodes_without(a, id) + nodes_without(b, id),
    decreases b.len(),
{
    if b.len() == 0 {
        assert(a + b =~= a);
        assert(nodes_without(a, id) + nodes_without(b, id) =~= nodes_without(a, id));
    } else {
        assert((a + b).drop_last() =~= a + b.drop_last());
        lemma_nodes_part(a, b.drop_last(), id);
        assert(nodes_without(a + b, id) =~= nodes_without(a, id) + nodes_without(b, id));
    }
}

proof fn lemma_edges_part(a: Seq<Edge>, b: Seq<Edge>, id: u32)
    ensures
        edges_without(a + b, id) == edges_without(a, id) + edges_without(b, id),
    decreases b.len(),
{
    if b.len() == 0 {
        assert(a + b =~= a);
        assert(edges_without(a, id) + edges_without(b, id) =~= edges_without(a, id));
    } else {
        assert((a + b).drop_last() =~= a + b.drop_last());
        lemma_edges_part(a, b.drop_last(), id);
        assert(edges_without(a + b, id) =~= edges_without(a, id) + edges_without(b, id));
    }
}

/// Removing a card changes the cards and the lines alone, and takes no number back.
pub proof fn removing_takes_no_number_back(b: BoardModel, id: u32)
    ensures
        without_node(b, id).nodes == nodes_without(b.nodes, id),
        without_node(b, id).edges == edges_without(b.edges, id),
        without_node(b, id).last_id == b.last_id,
        forall|k: int|
            0 <= k < without_node(b, id).nodes.len() ==> (#[trigger] without_node(b, id).nodes[k]).id
                != id,
{
    lemma_none_left(b.nodes, id);
}

proof fn lemma_none_left(nodes: Seq<NodeModel>, id: u32)
    ensures
        forall|k: int|
            0 <= k < nodes_without(nodes, id).len() ==> (#[trigger] nodes_without(nodes, id)[k]).id
                != id,
    decreases nodes.len(),
{
    if nodes.len() > 0 {
        lemma_none_left(nodes.drop_last(), id);
    }
}

/// Two cards can be joined if they are two, both on the board, and not joined yet, in either
/// direction.
pub proof fn cards_are_joined_once(b: BoardModel, from: u32, to: u32)
    ensures
        can_connect(b, from, to) <==> {
            &&& from != to
            &&& exists|k: int| 0 <= k < b.nodes.len() && (#[trigger] b.nodes[k]).id == from
            &&& exists|k: int| 0 <= k < b.nodes.len() && (#[trigger] b.nodes[k]).id == to
            &&& forall|k: int|
                0 <= k < b.edges.len() ==> !((#[trigger] b.edges[k]).from == from && b.edges[k].to
                    == to) && !(b.edges[k].from == to && b.edges[k].to == from)
        },
        ({
            let w = BoardModel { edges: b.edges.push(Edge { from, to }), ..b };
            !can_connect(w, from, to) && !can_connect(w, to, from)
        }),
{
    assert forall|id: u32| #[trigger] has_node(b, id) <==> exists|k: int|
        0 <= k < b.nodes.len() && (#[trigger] b.nodes[k]).id == id by {
        if exists|k: int| 0 <= k < b.nodes.len() && (#[trigger] b.nodes[k]).id == id {
            let k = choose|k: int| 0 <= k < b.nodes.len() && (#[trigger] b.nodes[k]).id == id;
            lemma_found(b.nodes, id, 0, k);
        } else {
            lemma_absent(b.nodes, id, 0);
        }
    }
    assert(has_node(b, from) || !has_node(b, from));
    assert(has_node(b, to) || !has_node(b, to));
    let es = b.edges.push(Edge { from, to });
    assert(es[b.edges.len() as int].from == from && es[b.edges.len() as int].to == to);
    assert(joined(es, from, to));
    assert(joined(es, to, from));
}

proof fn lemma_found(nodes: Seq<NodeModel>, id: u32, i: int, k: int)
    requires
        0 <= i <= k < nodes.len(),
        nodes[k].id == id,
    ensures
        node_at(nodes, id, i) is Some,
    decreases k - i,
{
    if nodes[i].id != id {
        lemma_found(nodes, id, i + 1, k);
    }
}

// ---------- working on a board ----------

/// A card that names a note leads to the file of that name beside the note of the board.
pub proof fn cards_lead_to_notes_beside(dir: Seq<char>, note: Seq<char>, name: Seq<char>, ext: Seq<char>)
    requires
        dir.len() > 0,
        dir.last() != '/' && dir.last() != '.',
        is_file_name(note),
        note.last() != '.',
        is_file_name(name),
        name.last() != '.',
        !name.contains('.'),
        !ext.contains('/') && !ext.contains('.'),
        ext.len() > 0,
    ensures
        card_target(dir + seq!['/'] + note, name) == dir + seq!['/'] + name + seq!['.', 'm', 'd'],
        card_target(dir + seq!['/'] + note, name + seq!['.'] + ext) == dir + seq!['/'] + (name + seq![
            '.',
        ] + ext),
{
    names_follow_the_directory(dir, note);
    files_lie_in_their_directory(dir, note);
    names_follow_the_directory(dir, name);
    assert(!name.skip(1).contains('.')) by {
        if name.skip(1).contains('.') {
            let k = choose|k: int| 0 <= k < name.skip(1).len() && name.skip(1)[k] == '.';
            assert(name[k + 1] == '.');
        }
    }
    names_without_a_dot_have_no_ending(dir, name);
    let p = dir + seq!['/'] + name;
    assert(p.last() == name.last());
    assert(name.contains(name.last()));
    assert(bare(p) == p);
    reveal_strlit(".md");
    assert(".md"@ =~= seq!['.', 'm', 'd']);
    let full = name + seq!['.'] + ext;
    assert(full != seq!['.', '.']) by {
        assert(full[0] == name[0]);
        assert(name.contains(name[0]));
    }
    names_part_at_the_last_dot(dir, name, ext);
    assert(is_file_name(full)) by {
        if full.contains('/') {
            let k = choose|k: int| 0 <= k < full.len() && full[k] == '/';
            if k < name.len() {
                assert(name[k] == '/');
            } else if k > name.len() {
                assert(ext[k - name.len() - 1] == '/');
            }
        }
        assert(full.len() >= 3);
    }
    names_follow_the_directory(dir, full);
}

/// A click on a card selects it. While a line is drawn from another it ends there; a double
/// click on one that names a note opens that note; any other click takes hold of the card.
pub proof fn clicks_select_the_card(v: BoardViewModel, id: u32, k: int, twice: bool, at: (u32, u32))
    requires
        is_first(v.board.nodes, id, k),
    ensures
        ({
            let (w, r) = card_clicked(v, id, twice, at);
            let joins = v.link_from is Some && v.link_from != Some(id);
            &&& w.selected == Some(id)
            &&& w.note == v.note && w.dirty == v.dirty
            &&& joins && can_connect(v.board, v.link_from->0, id) ==> {
                &&& r == ClickModel::Joined
                &&& w.link_from is None
                &&& w.board.edges == v.board.edges.push(Edge { from: v.link_from->0, to: id })
                &&& w.board.nodes == v.board.nodes
            }
            &&& joins && !can_connect(v.board, v.link_from->0, id) ==> {
                r == ClickModel::NotJoined && w.link_from is None && w.board == v.board
            }
            &&& !joins ==> w.board == v.board && w.link_from == v.link_from
            &&& !joins && twice ==> (v.board.nodes[k].note matches Some(name) ==> r
                == ClickModel::Open(card_target(v.note, name)))
            &&& !joins && (!twice || v.board.nodes[k].note is None) ==> {
                &&& r == ClickModel::Dragging
                &&& w.drag matches Some(g) && g.id == id && g.start == at && g.from == (
                    v.board.nodes[k].x,
                    v.board.nodes[k].y,
                )
            }
        }),
{
    lemma_first(v.board.nodes, id, k, 0);
}

/// What is typed makes a card if it is more than white space and no card is selected.
pub proof fn typing_makes_a_card(b: BoardViewModel, typed: Seq<char>)
    ensures
        is_white(typed) ==> !adds_card(b, typed),
        !is_white(typed) && b.selected is None ==> adds_card(b, typed),
        b.selected matches Some(id) ==> (adds_card(b, typed) <==> !is_white(typed) && forall|k: int|
            0 <= k < b.board.nodes.len() ==> (#[trigger] b.board.nodes[k]).id != id),
{
    lemma_white(typed);
    if let Some(id) = b.selected {
        if exists|k: int| 0 <= k < b.board.nodes.len() && (#[trigger] b.board.nodes[k]).id == id {
            let k = choose|k: int|
                0 <= k < b.board.nodes.len() && (#[trigger] b.board.nodes[k]).id == id;
            lemma_found(b.board.nodes, id, 0, k);
        } else {
            lemma_absent(b.board.nodes, id, 0);
        }
    }
}

} // verus!
