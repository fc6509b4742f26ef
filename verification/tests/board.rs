use fastnote::board::{extract, splice, Board, Edge, Node};
use serde_json::Value;

fn bits(v: f32) -> u32 {
    v.to_bits()
}

fn board_of(json: &str) -> Option<Board> {
    let v: Value = serde_json::from_str(json).ok()?;
    let mut nodes = Vec::new();
    for n in v.get("nodes")?.as_array()? {
        nodes.push(Node {
            id: n.get("id")?.as_u64()? as u32,
            x: bits(n.get("x")?.as_f64()? as f32),
            y: bits(n.get("y")?.as_f64()? as f32),
            text: n.get("text")?.as_str()?.to_string(),
            note: n.get("note").and_then(|s| s.as_str()).map(|s| s.to_string()),
        });
    }
    let mut edges = Vec::new();
    if let Some(list) = v.get("edges").and_then(|e| e.as_array()) {
        for e in list {
            edges.push(Edge {
                from: e.get("from")?.as_u64()? as u32,
                to: e.get("to")?.as_u64()? as u32,
            });
        }
    }
    Some(Board::from_parts(nodes, edges))
}

fn json_of(b: &Board) -> String {
    let nodes: Vec<String> = b
        .nodes
        .iter()
        .map(|n| {
            format!(
                "{{\"id\":{},\"x\":{},\"y\":{},\"text\":\"{}\"}}",
                n.id,
                f32::from_bits(n.x),
                f32::from_bits(n.y),
                n.text
            )
        })
        .collect();
    format!("{{\n  \"nodes\": [{}]\n}}", nodes.join(","))
}

#[test]
fn add_move_remove_keep_ids_stable() {
    let mut b = Board::new();
    let a = b.add_node(bits(0.1), bits(0.2), "A".into());
    let c = b.add_node(bits(0.3), bits(0.4), "B".into());
    assert_ne!(a, c);

    b.move_node(a, bits(0.9), bits(0.8));
    assert_eq!(f32::from_bits(b.node(a).unwrap().x), 0.9);

    b.remove_node(a);
    assert!(b.node(a).is_none());
    // id 不复用：删掉 a 后新节点不能拿到 a 的 id
    assert_ne!(b.add_node(bits(0.), bits(0.), "C".into()), a);
}

#[test]
fn the_number_of_the_last_card_is_not_given_again() {
    let mut b = Board::new();
    b.add_node(0, 0, "A".into());
    let last = b.add_node(0, 0, "B".into());
    b.remove_node(last);
    assert_ne!(b.add_node(0, 0, "C".into()), last);
}

#[test]
fn coordinates_are_clamped() {
    let mut b = Board::new();
    let id = b.add_node(bits(-3.), bits(7.5), "越界".into());
    let n = b.node(id).unwrap();
    assert_eq!((f32::from_bits(n.x), f32::from_bits(n.y)), (0., 1.));
}

#[test]
fn clamping_is_that_of_the_numbers() {
    for v in [0., -0., 1., 0.5, 1e-40, -1e-40, 2., -2., f32::INFINITY, f32::NEG_INFINITY, 1.0000001] {
        let mut b = Board::new();
        let id = b.add_node(bits(v), bits(0.), "x".into());
        assert_eq!(b.node(id).unwrap().x, bits(v.clamp(0., 1.)), "{v}");
        b.move_node(id, bits(0.5), bits(v));
        assert_eq!(b.node(id).unwrap().y, bits(v.clamp(0., 1.)), "{v}");
    }
    let mut b = Board::new();
    let id = b.add_node(bits(f32::NAN), 0, "x".into());
    assert!(f32::from_bits(b.node(id).unwrap().x).is_nan());
}

#[test]
fn remove_node_drops_dangling_edges() {
    let mut b = Board::new();
    let a = b.add_node(bits(0.), bits(0.), "A".into());
    let c = b.add_node(bits(1.), bits(1.), "B".into());
    assert!(b.connect(a, c));
    b.remove_node(a);
    assert!(b.edges.is_empty(), "悬空边必须一起清掉");
}

#[test]
fn connect_rejects_self_loop_duplicates_and_missing_nodes() {
    let mut b = Board::new();
    let a = b.add_node(bits(0.), bits(0.), "A".into());
    let c = b.add_node(bits(0.5), bits(0.5), "B".into());
    assert!(!b.connect(a, a), "自环不合法");
    assert!(b.connect(a, c));
    assert!(!b.connect(a, c), "重复边不合法");
    assert!(!b.connect(c, a), "反向重复边同样不合法");
    assert!(!b.connect(a, 999), "端点不存在不合法");
}

#[test]
fn extract_finds_board_block() {
    let md = "# 标题\n\n```board\n{\"nodes\":[{\"id\":1,\"x\":0.1,\"y\":0.2,\"text\":\"A\"}]}\n```\n\n尾巴\n";
    let b = extract(md).and_then(|j| board_of(&j)).unwrap();
    assert_eq!(b.nodes.len(), 1);
    assert_eq!(b.nodes[0].text, "A");
    assert_eq!(b.nodes[0].note, None, "缺省字段应能反序列化");
}

#[test]
fn extract_ignores_other_fences() {
    let md = "```rust\nfn main() {}\n```\n";
    assert!(extract(md).is_none());
}

#[test]
fn extract_returns_none_on_broken_json() {
    let md = "```board\n{不是 JSON}\n```\n";
    assert!(extract(md).and_then(|j| board_of(&j)).is_none());
}

#[test]
fn splice_replaces_existing_block_in_place() {
    let md = "# 标题\n\n```board\n{\"nodes\":[]}\n```\n\n尾巴\n";
    let mut b = Board::new();
    b.add_node(bits(0.5), bits(0.5), "新".into());

    let out = splice(md, &json_of(&b));
    assert!(out.starts_with("# 标题\n\n"), "块前内容要保持");
    assert!(out.ends_with("\n\n尾巴\n"), "块后内容要保持");
    let back = extract(&out).and_then(|j| board_of(&j)).unwrap();
    assert_eq!(back.nodes, b.nodes);
    assert_eq!(out.matches("```board").count(), 1, "不能出现两个块");
}

#[test]
fn splice_appends_when_missing() {
    let mut b = Board::new();
    b.add_node(bits(0.2), bits(0.2), "唯一".into());
    let out = splice("# 只有标题", &json_of(&b));
    assert!(out.starts_with("# 只有标题\n\n```board\n"));
    let back = extract(&out).and_then(|j| board_of(&j)).unwrap();
    assert_eq!(back.nodes, b.nodes);
}

#[test]
fn splice_into_empty_document_has_no_leading_blank() {
    let out = splice("", &json_of(&Board::new()));
    assert!(out.starts_with("```board\n"), "空文档不该先塞空行：{out:?}");
    assert!(extract(&out).is_some());
}

#[test]
fn splice_is_idempotent() {
    let mut b = Board::new();
    b.add_node(bits(0.3), bits(0.3), "稳定".into());
    let once = splice("# T\n", &json_of(&b));
    let twice = splice(&once, &json_of(&b));
    assert_eq!(once, twice);
}

#[test]
fn unterminated_block_is_still_replaced() {
    let md = "# T\n\n```board\n{\"nodes\":[]}\n";
    let mut b = Board::new();
    b.add_node(bits(0.1), bits(0.1), "x".into());
    let out = splice(md, &json_of(&b));
    assert_eq!(out.matches("```board").count(), 1);
    assert_eq!(out.matches("```").count(), 2, "应补上结束围栏");
    let back = extract(&out).and_then(|j| board_of(&j)).unwrap();
    assert_eq!(back.nodes, b.nodes);
}

#[test]
fn the_last_board_counts() {
    for md in ["", "文", "文\n", "前\n```board\n坏\n```\n后\n", "前\n```board\n未完", "```rs\nx\n```\n"] {
        let once = splice(md, "{\"a\":1}");
        let other = splice(md, "{\"b\":2}");
        assert_eq!(splice(&once, "{\"b\":2}"), other, "{md}");
        assert_eq!(extract(&other).as_deref(), Some("{\"b\":2}\n"), "{md}");
    }
}
