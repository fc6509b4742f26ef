use fastnote::board::{Board, Node};
use fastnote::board_view::{resolve, slot_for, BoardView, CardClick};

fn view() -> BoardView {
    let node = |id: u32, note: Option<&str>| Node {
        id,
        x: 1,
        y: 2,
        text: "t".into(),
        note: note.map(|s| s.to_string()),
    };
    BoardView::new(
        "v/d/白板.md".into(),
        Board::from_parts(vec![node(1, None), node(2, Some("计划")), node(3, None)], Vec::new()),
    )
}

fn near(got: (u32, u32), want: (f32, f32), what: &str) {
    let got = (got.0 as f32 / 100., got.1 as f32 / 100.);
    assert!(
        (got.0 - want.0).abs() < 1e-6 && (got.1 - want.1).abs() < 1e-6,
        "{what}: 落点 {got:?} 与期望 {want:?} 不符"
    );
}

#[test]
fn new_nodes_are_laid_out_on_a_grid() {
    near(slot_for(0), (0.3, 0.25), "第一个节点");
    near(slot_for(1), (0.4, 0.25), "同一行往右排");
    near(slot_for(4), (0.7, 0.25), "第一行最后一格");
    near(slot_for(5), (0.3, 0.41), "第 6 个换行");
    near(slot_for(20), (0.3, 0.25), "20 个之后回到网格起点");
}

#[test]
fn every_slot_stays_inside_the_canvas() {
    for n in 0..200 {
        let (x, y) = slot_for(n);
        assert!(x <= 100 && y <= 100, "n={n}");
        // half a card fits beside every place: 132 of 880 and 30 of 520 pixels
        assert!(x * 880 >= 66 * 100 && x * 880 + 66 * 100 <= 880 * 100);
        assert!(y * 520 >= 15 * 100 && y * 520 + 15 * 100 <= 520 * 100);
    }
}

#[test]
fn cards_are_dragged() {
    let mut v = view();
    assert_eq!(v.on_node_down(1, false, (7, 8)), CardClick::Dragging);
    assert_eq!(v.drag.unwrap().from, (1, 2));
    assert!(!v.on_canvas_up(), "nothing was moved");
    v.on_canvas_move(5, 6);
    assert_eq!(v.board.node(1).unwrap().x, 1, "no card is on its way");
    v.on_node_down(1, false, (7, 8));
    v.on_canvas_move(5, 6);
    assert_eq!((v.board.node(1).unwrap().x, v.board.node(1).unwrap().y), (5, 6));
    assert!(v.on_canvas_up());
    v.saved();
    assert!(!v.dirty);
}

#[test]
fn cards_are_joined() {
    let mut v = view();
    v.on_node_down(1, false, (0, 0));
    v.start_link();
    assert_eq!(v.on_node_down(3, false, (0, 0)), CardClick::Joined);
    assert_eq!(v.link_from, None);
    assert_eq!(v.board.edges.len(), 1);
    v.start_link();
    assert_eq!(v.on_node_down(1, false, (0, 0)), CardClick::NotJoined);
    v.start_link();
    assert_eq!(v.on_node_down(1, false, (0, 0)), CardClick::Dragging, "not with itself");
}

#[test]
fn cards_lead_to_notes() {
    let mut v = view();
    assert_eq!(v.on_node_down(2, true, (0, 0)), CardClick::Open("v/d/计划.md".into()));
    assert_eq!(v.on_node_down(1, true, (0, 0)), CardClick::Dragging);
    assert_eq!(resolve("白板.md", "a/b"), "a/b.md");
    assert_eq!(resolve("v/x.md", "y.txt"), "v/y.txt");
    assert_eq!(resolve("/x.md", "y"), "/y.md");
}

#[test]
fn typing_renames_or_adds() {
    let mut v = view();
    assert!(!v.apply_input("  ", 0, 0));
    v.selected = Some(1);
    assert!(v.apply_input(" 新名 ", 0, 0));
    assert_eq!(v.board.node(1).unwrap().text, "新名");
    v.selected = Some(99);
    assert!(v.apply_input("又一张", 3, 4));
    assert_eq!(v.selected, Some(4));
    assert_eq!(v.new_card_text(), "新节点 5");
    v.add_node(0, 0, "x".into());
    assert_eq!(v.selected, Some(5));
}

#[test]
fn a_click_beside_cards_drops_everything() {
    let mut v = view();
    v.on_node_down(1, false, (0, 0));
    v.start_link();
    assert!(v.on_canvas_down());
    assert_eq!((v.selected, v.link_from, v.drag), (None, None, None));
    assert!(!v.on_canvas_down());
}

#[test]
fn deleting_takes_the_lines_along() {
    let mut v = view();
    assert!(v.board.connect(1, 2));
    assert!(!v.delete_selected());
    v.selected = Some(2);
    assert!(v.delete_selected());
    assert!(v.board.edges.is_empty());
    assert_eq!(v.board.nodes.len(), 2);
}

#[test]
fn names_of_cards_are_taken_as_paths() {
    assert_eq!(resolve("d/n.md", "."), "d.md");
    assert_eq!(resolve("/", "x"), "./x.md");
    for note in ["d/n.md", "n.md", "/n.md", "a//b/n.md", "n/", "/"] {
        for name in [".", "..", "a", "a/", "a/.", "a.txt", ".a", "a/..", "/z", "", "./q", "a//b//"] {
            let base = std::path::Path::new(note).parent().unwrap_or(std::path::Path::new("."));
            let mut p = base.join(name);
            if p.extension().is_none() {
                p.set_extension("md");
            }
            assert_eq!(resolve(note, name), p.to_str().unwrap(), "{note} {name}");
        }
    }
}

#[test]
fn renaming_needs_no_free_number() {
    let mut v = view();
    v.board.last_id = u32::MAX;
    v.selected = Some(1);
    assert!(v.apply_input("新", 0, 0));
    assert!(!v.apply_input(" ", 0, 0));
    assert_eq!(v.board.node(1).unwrap().text, "新");
}
