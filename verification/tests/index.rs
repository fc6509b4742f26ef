use fastnote::index::{
    analyze, collect_tags, collect_wikilinks, line_contains_wikilink, parse_query, Graph, NoteFile, NoteMeta, VaultIndex,
};

#[test]
fn collects_trailing_tag_without_panic() {
    let mut tags = Vec::new();
    collect_tags("#知识库", &mut tags);
    assert_eq!(tags, vec!["知识库".to_string()]);

    let mut tags2 = Vec::new();
    collect_tags("正文 #fastnote #知识库", &mut tags2);
    assert_eq!(tags2, vec!["fastnote".to_string(), "知识库".to_string()]);
}

#[test]
fn hash_inside_word_is_not_tag() {
    let mut tags = Vec::new();
    collect_tags("abc#def", &mut tags);
    assert!(tags.is_empty());
}

#[test]
fn resolve_matches_stem_case_insensitive() {
    let p = "笔记/项目计划.md";
    let idx = VaultIndex::from_notes(vec![NoteMeta {
        path: p.into(),
        name: "项目计划".into(),
        tags: Vec::new(),
        outgoing: Vec::new(),
    }]);
    assert_eq!(idx.resolve("项目计划"), Some(p));
    assert_eq!(idx.resolve("项目计划.md"), Some(p));
}

#[test]
fn query_spec_parses_tags_terms_and_limit() {
    let s = parse_query("#知识库 #待办 会议 \"项目 计划\" limit:5");
    assert_eq!(s.tags, vec!["知识库".to_string(), "待办".to_string()]);
    assert_eq!(s.terms, vec!["会议".to_string(), "项目 计划".to_string()]);
    assert_eq!(s.limit, 5);
    assert!(s.links.is_empty());
}

#[test]
fn query_spec_parses_link_constraint() {
    let s = parse_query("link:[[项目计划]] 风险");
    assert_eq!(s.links, vec!["项目计划".to_string()]);
    assert_eq!(s.terms, vec!["风险".to_string()]);
    assert_eq!(s.limit, 20, "未指定 limit 时用默认值");
}

#[test]
fn empty_query_is_empty_spec() {
    assert!(parse_query("   \n  ").is_empty());
    assert!(!parse_query("#a").is_empty());
}

fn note(name: &str, out: &[&str]) -> NoteMeta {
    NoteMeta {
        path: format!("{name}.md"),
        name: name.into(),
        tags: Vec::new(),
        outgoing: out.iter().map(|s| s.to_string()).collect(),
    }
}

/// A→B, A→C, B→C.
fn linked_notes() -> Vec<NoteMeta> {
    vec![note("A", &["B", "C"]), note("B", &["C"]), note("C", &[])]
}

fn degree(g: &Graph, name: &str) -> usize {
    g.nodes.iter().find(|n| n.name == name).unwrap().degree
}

#[test]
fn graph_builds_edges_and_normalized_coords() {
    let g = VaultIndex::from_notes(linked_notes()).graph(50);
    assert_eq!(g.nodes.len(), 3);
    assert_eq!(g.edges.len(), 3, "A→B、A→C、B→C 三条边");
    assert_eq!(degree(&g, "C"), 2);
    assert_eq!(degree(&g, "A"), 2);
    assert_eq!(degree(&g, "B"), 2);
}

#[test]
fn graph_layout_is_deterministic() {
    let idx = VaultIndex::from_notes(linked_notes());
    let a = idx.graph(50);
    let b = idx.graph(50);
    for (x, y) in a.nodes.iter().zip(b.nodes.iter()) {
        assert_eq!(x.path, y.path);
        assert_eq!(x.degree, y.degree);
    }
    assert_eq!(a.edges, b.edges);
}

#[test]
fn graph_truncates_to_max_nodes_keeping_busiest() {
    let mut notes = linked_notes();
    notes.push(note("孤立", &[]));
    let g = VaultIndex::from_notes(notes).graph(2);
    assert_eq!(g.nodes.len(), 2, "超过上限时截断");
    assert!(
        g.nodes.iter().all(|n| n.degree > 0),
        "应保留连接数高的节点，丢掉孤立点"
    );
}

#[test]
fn graph_of_empty_index_is_empty() {
    let g = VaultIndex::from_notes(Vec::new()).graph(50);
    assert!(g.nodes.is_empty() && g.edges.is_empty());
}

#[test]
fn edges_of_the_graph_join_its_nodes() {
    let g = VaultIndex::from_notes(linked_notes()).graph(2);
    for e in &g.edges {
        assert!(e.from < g.nodes.len() && e.to < g.nodes.len());
        assert_ne!(e.from, e.to);
    }
}

fn files() -> Vec<NoteFile> {
    vec![
        NoteFile {
            path: "v/计划.md".into(),
            text: Some("---\ntags: [工作, 重点]\n---\n# 计划\n见 [[会议]] #todo\n".into()),
        },
        NoteFile {
            path: "v/会议.md".into(),
            text: Some("# 会议\n\nAlpha 讨论\nalpha 结论 #todo\n".into()),
        },
        NoteFile {
            path: "v/坏.md".into(),
            text: None,
        },
    ]
}

fn read_now() -> Vec<Option<String>> {
    files()
        .into_iter()
        .filter(|f| f.text.is_some())
        .map(|f| f.text)
        .collect()
}

#[test]
fn notes_that_cannot_be_read_are_left_out() {
    let idx = VaultIndex::build(&files());
    let names: Vec<&str> = idx.notes().iter().map(|n| n.name.as_str()).collect();
    assert_eq!(names, vec!["计划", "会议"]);
    assert_eq!(idx.notes()[0].tags, vec!["工作", "重点", "todo"]);
    assert_eq!(idx.notes()[0].outgoing, vec!["会议"]);
}

#[test]
fn search_ignores_case_and_keeps_its_limits() {
    let idx = VaultIndex::build(&files());
    let read = read_now();
    let hits = idx.search("ALPHA", 5, 50, &read);
    assert_eq!(hits.len(), 2);
    assert_eq!((hits[0].line, hits[0].snippet.as_str()), (2, "Alpha 讨论"));
    assert_eq!((hits[1].line, hits[1].snippet.as_str()), (3, "alpha 结论 #todo"));
    assert_eq!(idx.search("alpha", 1, 50, &read).len(), 1);
    assert_eq!(idx.search("alpha", 5, 1, &read).len(), 1);
    assert!(idx.search("   ", 5, 50, &read).is_empty());
}

#[test]
fn links_lead_to_notes_and_back() {
    let idx = VaultIndex::build(&files());
    let read = read_now();
    assert_eq!(idx.resolve("会议"), Some("v/会议.md"));
    assert_eq!(idx.resolve("没有"), None);
    let back = idx.backlinks("v/会议.md", &read);
    assert_eq!(back.len(), 1);
    assert_eq!(back[0].source, "v/计划.md");
    assert_eq!(back[0].source_name, "计划");
    assert_eq!(back[0].line, 4);
    assert_eq!(idx.name_of("v/会议.md"), "会议");
}

#[test]
fn tags_are_counted() {
    let idx = VaultIndex::build(&files());
    let tags = idx.all_tags();
    assert_eq!(tags[0], ("todo".to_string(), 2));
    assert_eq!(tags.len(), 3);
}

#[test]
fn queries_ask_for_tags_links_and_words() {
    let idx = VaultIndex::build(&files());
    let read = read_now();
    let hits = idx.query(&parse_query("#todo alpha"), &read);
    assert_eq!(hits.len(), 1);
    assert_eq!(hits[0].path, "v/会议.md");
    assert_eq!(hits[0].line, 2);
    let linked = idx.query(&parse_query("link:会议"), &read);
    assert_eq!(linked.len(), 1);
    assert_eq!(linked[0].path, "v/计划.md");
    assert_eq!(idx.query(&parse_query("#todo limit:1"), &read).len(), 1);
    assert!(idx.query(&parse_query(""), &read).is_empty());
}

#[test]
fn a_note_says_what_it_links_to_once() {
    let m = analyze("a/b.md", "[[x]] 与 [[X]] 与 [[x]] #t #t");
    assert_eq!(m.name, "b");
    assert_eq!(m.tags, vec!["t"]);
    assert!(m.outgoing.contains(&"x".to_string()));
}

#[test]
fn an_index_is_built_again() {
    let mut idx = VaultIndex::build(&files());
    idx.rebuild(&vec![NoteFile {
        path: "v/新.md".into(),
        text: Some(String::new()),
    }]);
    assert_eq!(idx.notes().len(), 1);
    assert_eq!(idx.resolve("新"), Some("v/新.md"));
    assert_eq!(idx.resolve("会议"), None);
}

fn at(path: &str, name: &str, out: &[&str]) -> NoteMeta {
    NoteMeta {
        path: path.into(),
        name: name.into(),
        tags: Vec::new(),
        outgoing: out.iter().map(|s| s.to_string()).collect(),
    }
}

#[test]
fn links_with_a_path_match_the_end_of_a_path() {
    let p = "/v/sub/Plan.md";
    let idx = VaultIndex::from_notes(vec![at(p, "Plan", &[])]);
    for t in ["sub/plan", "sub/Plan.md", "plan", "PLAN.md", " v/sub/plan "] {
        assert_eq!(idx.resolve(t), Some(p), "{t}");
    }
    assert_eq!(idx.resolve("  "), None);
    assert_eq!(idx.resolve("other/plan"), None);
    let two = VaultIndex::from_notes(vec![
        at("/v/a/sub/plan.md", "plan", &[]),
        at("/v/sub/plan.md", "plan", &[]),
    ]);
    assert_eq!(two.resolve("sub/plan"), Some("/v/sub/plan.md"), "层级少的优先");
}

#[test]
fn searches_keep_both_limits() {
    let idx = VaultIndex::from_notes(vec![at("/v/x.md", "x", &[]), at("/v/y.md", "y", &[])]);
    let read = vec![Some("词\n词\n词".to_string()), Some("  词 \n无\n词".to_string())];
    for per in 0..4 {
        for total in 0..7 {
            let h = idx.search("词", per, total, &read);
            let whole = per.min(3) + per.min(2);
            assert_eq!(h.len(), whole.min(total));
            for p in ["/v/x.md", "/v/y.md"] {
                assert!(h.iter().filter(|x| x.path == p).count() <= per);
            }
        }
    }
    assert!(idx.search("X", 0, 5, &read).is_empty(), "标题命中也受限制");
    assert!(idx.search("X", 5, 0, &read).is_empty());
    assert_eq!(idx.search("X", 1, 1, &read).len(), 1);
    assert_eq!(idx.search("词", 3, 9, &read)[3].snippet, "词");
    assert!(idx.search("  ", 3, 9, &read).is_empty());
}

#[test]
fn queries_keep_a_limit_of_nothing() {
    let idx = VaultIndex::from_notes(vec![at("/v/x.md", "x", &[])]);
    let mut q = parse_query("x");
    let read = vec![Some(String::new())];
    assert_eq!(idx.query(&q, &read).len(), 1);
    q.limit = 0;
    assert!(idx.query(&q, &read).is_empty());
}

#[test]
fn backlinks_keep_the_indentation_of_their_line() {
    let idx = VaultIndex::from_notes(vec![at("/v/a.md", "a", &[]), at("/v/b.md", "b", &["A"])]);
    let read = vec![None, Some("头\n  - 见 [[A]]  \n".to_string())];
    let refs = idx.backlinks("/v/a.md", &read);
    assert_eq!(refs.len(), 1);
    assert_eq!(refs[0].line, 1);
    assert_eq!(refs[0].snippet, "  - 见 [[A]]");
}

#[test]
fn links_of_a_line_are_found_again_by_name() {
    let line = "[[ Plan |计划]] 与 [[]] 和 [[x]]";
    let mut out = Vec::new();
    collect_wikilinks(line, &mut out);
    assert_eq!(out, vec!["Plan".to_string(), "x".to_string()]);
    for w in ["plan", " PLAN ", "X"] {
        assert!(line_contains_wikilink(line, w));
    }
    assert!(!line_contains_wikilink(line, "计划"));
    assert!(!line_contains_wikilink("[[x]", "x"));
}

#[test]
fn links_of_a_graph_join_different_notes_once() {
    let idx = VaultIndex::from_notes(vec![
        at("/v/a.md", "a", &["b", "B.md", "a", "c"]),
        at("/v/b.md", "b", &["a"]),
        at("/v/c.md", "c", &["a"]),
        at("/v/d.md", "d", &[]),
    ]);
    let g = idx.graph(9);
    let pairs: Vec<_> = g.edges.iter().map(|e| (e.from, e.to)).collect();
    assert_eq!(pairs, vec![(0, 1), (0, 2)]);
    assert_eq!(g.nodes.iter().map(|n| n.degree).collect::<Vec<_>>(), vec![2, 1, 1, 0]);
    let small = idx.graph(2);
    let names: Vec<_> = small.nodes.iter().map(|n| n.name.as_str()).collect();
    assert_eq!(names, vec!["a", "b"]);
}
