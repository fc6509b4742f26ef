use fastnote::palette::{default_items, filter_indices, PaletteCmd, PaletteItem};

#[test]
fn default_items_have_unique_labels_across_groups() {
    let items = default_items();
    // 上下键是按可见顺序选的，重名会让"选中的到底是哪个"变得不确定
    let mut labels: Vec<String> = items.iter().map(|i| i.label.to_string()).collect();
    let total = labels.len();
    labels.sort();
    labels.dedup();
    assert_eq!(labels.len(), total, "命令面板里有重名条目");

    assert!(items.iter().any(|i| i.group == "AI"), "AI 分组不能为空");
    assert!(items.iter().any(|i| i.group == "命令"), "命令分组不能为空");
}

#[test]
fn search_hits_label_group_and_keywords() {
    let items = default_items();

    // 中文标签
    let by_label = filter_indices(&items, "图谱");
    assert_eq!(items[by_label[0]].label, "关系图谱");

    // 英文别名：中文输入法下打 graph 也能找到
    let by_kw = filter_indices(&items, "graph");
    assert!(!by_kw.is_empty());
    assert_eq!(items[by_kw[0]].label, "关系图谱");

    // 拼音别名的前缀
    assert!(!filter_indices(&items, "muban").is_empty());

    // 分组名
    assert!(filter_indices(&items, "命令").len() >= 10);

    // 空白查询返回全部；无命中返回空
    assert_eq!(filter_indices(&items, "   ").len(), items.len());
    assert!(filter_indices(&items, "zzz不存在的命令").is_empty());
}

#[test]
fn template_entries_land_in_their_own_group() {
    // 模板是运行时数据，构造条目时分组固定为「模板」
    let mut items = default_items();
    items.push(PaletteItem {
        label: "周会".into(),
        group: "模板",
        keywords: "template muban new",
        cmd: PaletteCmd::NewFromTemplate("templates/周会.md".to_string()),
    });
    let hit = filter_indices(&items, "周会");
    assert_eq!(hit.len(), 1);
    assert_eq!(items[hit[0]].group, "模板");
    // 也可以靠共用别名检索出来
    assert!(!filter_indices(&items, "template").is_empty());
}
