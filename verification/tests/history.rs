use fastnote::history::{
    format_stem, list, list_files, prune, snap_dir, snapshot_name, stamps, try_name,
    worth_keeping, Attempt, HistoryView, Snapshot, MAX_PER_FILE, STORE_DIR,
};
use fastnote::vault::{DirItem, Vault};

/// Paths of files, with what they hold.
struct Disk {
    root: String,
    files: Vec<(String, String)>,
}

impl Disk {
    fn new() -> Disk {
        Disk {
            root: "库".into(),
            files: Vec::new(),
        }
    }

    fn read(&self, path: &str) -> Option<String> {
        self.files.iter().find(|(f, _)| f == path).map(|(_, t)| t.clone())
    }

    fn write(&mut self, path: &str, body: &str) {
        self.files.retain(|(f, _)| f != path);
        self.files.push((path.to_string(), body.to_string()));
    }

    fn snapshots(&self, file: &str) -> Vec<Snapshot> {
        let dir = snap_dir(&self.root, file).unwrap();
        let paths: Vec<String> = self
            .files
            .iter()
            .map(|(f, _)| f.clone())
            .filter(|f| f.starts_with(&format!("{dir}/")))
            .collect();
        let files = list_files(&paths);
        let sizes: Vec<u64> = files
            .iter()
            .map(|f| self.read(f).unwrap().len() as u64)
            .collect();
        list(&files, &sizes)
    }

    fn snapshot(&mut self, file: &str, secs: i64) -> Option<String> {
        let content = self.read(file)?;
        let newest = self.snapshots(file).first().and_then(|s| self.read(&s.path));
        if !worth_keeping(&content, newest.as_deref()) {
            return None;
        }
        let dir = snap_dir(&self.root, file)?;
        let (compact, _) = stamps(secs);
        let mut n = 1;
        loop {
            let path = format!("{dir}/{}", snapshot_name(&compact, n));
            let there = self.read(&path);
            match try_name(&content, there.is_some(), there.as_deref()) {
                Attempt::Write => {
                    self.write(&path, &content);
                    return Some(path);
                }
                Attempt::Skip => return None,
                Attempt::Next => n += 1,
            }
        }
    }

    fn restore(&mut self, file: &str, snap: &str, secs: i64) {
        let body = self.read(snap).unwrap();
        self.snapshot(file, secs);
        self.write(file, &body);
    }
}

const NOW: i64 = 1_789_625_133;

#[test]
fn snapshot_skips_empty_and_missing_files() {
    let mut d = Disk::new();
    assert!(d.snapshot("库/没有这个文件.md", NOW).is_none());
    d.write("库/空.md", "   \n");
    assert!(d.snapshot("库/空.md", NOW).is_none());
    assert!(d.snapshots("库/空.md").is_empty());
}

#[test]
fn snapshot_then_restore_returns_previous_content() {
    let mut d = Disk::new();
    let f = "库/笔记.md";
    d.write(f, "第一版");
    d.snapshot(f, NOW);
    d.write(f, "第二版");

    let snaps = d.snapshots(f);
    assert_eq!(snaps.len(), 1, "只应有一份快照");
    assert_eq!(d.read(&snaps[0].path).unwrap(), "第一版");

    d.restore(f, &snaps[0].path, NOW);
    assert_eq!(d.read(f).unwrap(), "第一版");
}

#[test]
fn restore_is_itself_reversible() {
    let mut d = Disk::new();
    let f = "库/笔记.md";
    d.write(f, "A");
    d.snapshot(f, NOW);
    d.write(f, "B");

    let snaps = d.snapshots(f);
    d.restore(f, &snaps[0].path, NOW);
    assert_eq!(d.read(f).unwrap(), "A");

    // 恢复动作把 B 也留了档，所以还能再走回去
    let after = d.snapshots(f);
    assert!(after.len() >= 2, "恢复前应给当前版本留档，实际 {} 份", after.len());
    assert!(after.iter().any(|s| d.read(&s.path).unwrap() == "B"));
}

#[test]
fn identical_content_is_not_snapshotted_twice() {
    let mut d = Disk::new();
    let f = "库/稳定.md";
    d.write(f, "# 不变");
    assert!(d.snapshot(f, NOW).is_some());
    assert!(d.snapshot(f, NOW).is_none(), "内容没变不该再留一份");
    assert!(d.snapshot(f, NOW + 60).is_none());
    assert_eq!(d.snapshots(f).len(), 1);
}

#[test]
fn snapshots_are_kept_in_subdirectories_mirroring_the_rel_path() {
    let mut d = Disk::new();
    let f = "库/daily/2026-09-17.md";
    d.write(f, "# 今天");
    let at = d.snapshot(f, NOW).unwrap();
    assert!(at.starts_with(&format!("库/{STORE_DIR}/daily/2026-09-17.md.snap/")));

    // `.` 开头的目录不该被当成笔记扫出来
    let mut walk = Vault::open("库", &Vec::new()).walk_notes();
    walk.next_dir();
    walk.take_dir(
        0,
        &vec![DirItem {
            path: "库/.fastnote".into(),
            name: ".fastnote".into(),
            is_dir: true,
        }],
    );
    assert!(walk.next_dir().is_none() && walk.notes.is_empty(), "快照不能混进笔记列表");
}

#[test]
fn prune_keeps_only_the_newest_n() {
    let dir = format!("库/{STORE_DIR}");
    let mut paths: Vec<String> = Vec::new();
    for i in 0..MAX_PER_FILE + 5 {
        paths.push(format!("{dir}/2026010{i:02}-120000.md"));
    }
    let gone = prune(&paths);
    let left: Vec<String> = list_files(&paths)
        .into_iter()
        .filter(|p| !gone.contains(p))
        .collect();
    assert_eq!(left.len(), MAX_PER_FILE);
    // 留下的必须是文件名最大的那批（最旧的 5 份被删）
    assert!(left[0].contains("202601005"));
    assert!(left.last().unwrap().contains("202601044"));
}

#[test]
fn format_stem_renders_readable_timestamps() {
    assert_eq!(format_stem("20260917-140533"), "2026-09-17 14:05:33");
    assert_eq!(format_stem("20260917-140533-2"), "2026-09-17 14:05:33");
    // 认不出来就原样返回，不能 panic
    assert_eq!(format_stem("乱七八糟"), "乱七八糟");
}

#[test]
fn strange_names_are_shown_as_they_are() {
    assert_eq!(format_stem("a-b-c"), "a-b-c");
    assert_eq!(format_stem("中中中中-140533"), "中中中中-140533");
    assert_eq!(format_stem("中中ab-140533"), "中中ab-140533");
    assert_eq!(format_stem("20260917-1405"), "20260917-1405");
}

#[test]
fn times_make_file_names() {
    assert_eq!(
        stamps(0),
        ("19700101-080000".to_string(), "1970-01-01 08:00:00".to_string())
    );
    assert_eq!(snapshot_name("19700101-080000", 1), "19700101-080000.md");
    assert_eq!(snapshot_name("19700101-080000", 12), "19700101-080000-12.md");
}

#[test]
fn snapshots_of_one_second_are_listed_newest_first() {
    let mut d = Disk::new();
    let f = "库/快.md";
    for i in 1..=11 {
        d.write(f, &format!("第 {i} 版"));
        assert!(d.snapshot(f, NOW).is_some());
    }
    let texts: Vec<String> = d
        .snapshots(f)
        .iter()
        .map(|s| d.read(&s.path).unwrap())
        .collect();
    assert_eq!(texts[0], "第 11 版");
    assert_eq!(texts[1], "第 10 版");
    assert_eq!(texts[10], "第 1 版");
}

#[test]
fn only_files_below_the_root_have_snapshots() {
    assert_eq!(snap_dir("v", "w/a.md"), None);
    assert_eq!(snap_dir("v", "vv/a.md"), None);
    assert_eq!(
        snap_dir("v", "v/a\\b.md"),
        Some("v/.fastnote/history/a/b.md.snap".to_string())
    );
}

#[test]
fn other_files_are_no_snapshots() {
    let paths: Vec<String> = vec!["d/b.md".into(), "d/x.txt".into(), "d/a.md".into()];
    assert_eq!(list_files(&paths), vec!["d/a.md", "d/b.md"]);
    assert!(prune(&paths).is_empty());
}

fn snap(path: &str) -> Snapshot {
    Snapshot {
        path: path.into(),
        stamp: "s".into(),
        bytes: 1,
    }
}

#[test]
fn the_list_keeps_its_selection() {
    let mut v = HistoryView::open("v".into(), "v/a.md".into());
    assert!(v.current().is_none());
    v.reload(vec![snap("1"), snap("2"), snap("3")]);
    v.pick(2);
    assert_eq!(v.current().unwrap().path, "3");
    v.reload(vec![snap("1")]);
    assert_eq!(v.current().unwrap().path, "1");
    v.after_restore(vec![snap("1"), snap("0")], "好".into());
    assert_eq!(v.notice.as_deref(), Some("好"));
    v.load_preview(Some("x".repeat(3001)));
    assert_eq!(v.preview, format!("{}\n…（已截断）", "x".repeat(3000)));
    v.load_preview(None);
    assert_eq!(v.preview, "");
}

#[test]
fn names_show_the_time_and_keep_its_order() {
    let mut before = String::new();
    for secs in (0..4_000_000_000i64).step_by(1_234_567) {
        let (compact, show) = stamps(secs);
        assert_eq!(format_stem(&compact), show);
        assert_eq!(format_stem(&format!("{compact}-3")), show);
        assert!(before < compact);
        before = compact;
    }
}
