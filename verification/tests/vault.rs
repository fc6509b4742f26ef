use fastnote::template::TemplateFile;
use fastnote::vault::{is_note_path, DirItem, Vault};

/// Paths of files, with what they hold.
struct Disk {
    files: Vec<(String, String)>,
}

impl Disk {
    fn new(files: &[&str]) -> Disk {
        Disk {
            files: files.iter().map(|f| (f.to_string(), String::new())).collect(),
        }
    }

    fn list(&self, dir: &str) -> Vec<DirItem> {
        let prefix = format!("{dir}/");
        let mut out: Vec<DirItem> = Vec::new();
        for (f, _) in &self.files {
            if let Some(rest) = f.strip_prefix(&prefix) {
                let name = rest.split('/').next().unwrap().to_string();
                if out.iter().all(|i| i.name != name) {
                    out.push(DirItem {
                        path: format!("{prefix}{name}"),
                        is_dir: rest.contains('/'),
                        name,
                    });
                }
            }
        }
        out
    }

    fn has(&self, path: &str) -> bool {
        self.files.iter().any(|(f, _)| f == path)
    }

    fn read(&self, path: &str) -> String {
        self.files.iter().find(|(f, _)| f == path).unwrap().1.clone()
    }

    fn create(&mut self, v: &Vault, name: &str, body: &str) -> String {
        let mut taken: Vec<String> = Vec::new();
        loop {
            let p = v.create_note(name, &taken);
            if !self.has(&p) {
                self.files.push((p.clone(), body.to_string()));
                return p;
            }
            taken.push(p);
        }
    }

    fn ensure(&mut self, v: &Vault, rel: &str, body: &str) -> String {
        let known = self.has(&format!("{}/{rel}", v.root()));
        let (p, write) = v.ensure_note_at(rel, known);
        if write {
            self.files.push((p.clone(), body.to_string()));
        }
        p
    }

    fn write(&mut self, path: &str, body: &str) {
        for (f, text) in self.files.iter_mut() {
            if f == path {
                *text = body.to_string();
            }
        }
    }
}

#[test]
fn lists_dirs_first_then_notes_and_skips_non_notes() {
    let disk = Disk::new(&["v/b.md", "v/a.md", "v/image.png", "v/sub/x.md"]);
    let v = Vault::open("v", &disk.list("v"));
    let names: Vec<_> = v.entries().iter().map(|e| e.name.as_str()).collect();
    assert_eq!(names, vec!["sub", "a.md", "b.md"]);
}

#[test]
fn expand_and_collapse_subdirectory() {
    let disk = Disk::new(&["v/sub/inner.md"]);
    let mut v = Vault::open("v", &disk.list("v"));
    assert_eq!(v.entries().len(), 1);
    assert_eq!(v.wants_children(0), Some("v/sub"));
    v.toggle(0, &disk.list("v/sub"));
    assert_eq!(v.entries().len(), 2);
    assert_eq!(v.entries()[1].name, "inner.md");
    assert_eq!(v.entries()[1].depth, 1);
    assert_eq!(v.expanded_paths(), vec!["v/sub".to_string()]);
    v.toggle(0, &Vec::new());
    assert_eq!(v.entries().len(), 1);
}

#[test]
fn reloading_keeps_directories_unfolded() {
    let mut disk = Disk::new(&["v/sub/inner.md"]);
    let mut v = Vault::open("v", &disk.list("v"));
    v.toggle(0, &disk.list("v/sub"));
    disk.files.push(("v/sub/next.md".into(), String::new()));
    let levels: Vec<Vec<DirItem>> = v.expanded_paths().iter().map(|p| disk.list(p)).collect();
    v.reload(&disk.list("v"), &levels);
    let names: Vec<_> = v.entries().iter().map(|e| e.name.as_str()).collect();
    assert_eq!(names, vec!["sub", "inner.md", "next.md"]);
}

#[test]
fn create_note_avoids_overwriting_existing() {
    let mut disk = Disk::new(&[]);
    let v = Vault::open("v", &Vec::new());
    let p1 = disk.create(&v, "笔记", "");
    let p2 = disk.create(&v, "笔记", "");
    assert_ne!(p1, p2);
    assert!(disk.has(&p1) && disk.has(&p2));
    assert_eq!(p1, "v/笔记.md");
    assert_eq!(p2, "v/笔记 2.md");
    assert_eq!(disk.create(&v, "  ", ""), "v/未命名.md");
    assert_eq!(disk.create(&v, "x.txt", ""), "v/x.txt");
}

#[test]
fn walk_notes_is_recursive() {
    let disk = Disk::new(&["v/x.md", "v/a/y.md", "v/a/b/z.md", "v/.git/q.md", "v/target/t.md"]);
    let v = Vault::open("v", &disk.list("v"));
    let mut walk = v.walk_notes();
    while let Some((dir, depth)) = walk.next_dir() {
        walk.take_dir(depth, &disk.list(&dir));
    }
    assert_eq!(walk.notes.len(), 3);
}

#[test]
fn walks_do_not_go_deeper_than_their_limit() {
    let deep = format!("v/{}z.md", "d/".repeat(16));
    let deeper = format!("v/{}z.md", "d/".repeat(17));
    let disk = Disk::new(&[&deep, &deeper]);
    let mut walk = Vault::open("v", &Vec::new()).walk_notes();
    while let Some((dir, depth)) = walk.next_dir() {
        walk.take_dir(depth, &disk.list(&dir));
    }
    assert_eq!(walk.notes, vec![deep]);
}

#[test]
fn ensure_note_at_creates_once_and_reuses() {
    let mut disk = Disk::new(&[]);
    let v = Vault::open("v", &Vec::new());
    let p1 = disk.ensure(&v, "daily/2026-09-17.md", "");
    assert!(disk.has(&p1));
    disk.write(&p1, "# 今天的记录");
    let p2 = disk.ensure(&v, "daily/2026-09-17.md", "");
    assert_eq!(p1, p2);
    assert_eq!(disk.read(&p1), "# 今天的记录");
    assert!(!disk.has("v/daily/2026-09-17 2.md"));
}

#[test]
fn create_note_with_writes_initial_body() {
    let mut disk = Disk::new(&[]);
    let v = Vault::open("v", &Vec::new());
    let p = disk.create(&v, "周报", "# 周报\n\n正文");
    assert_eq!(disk.read(&p), "# 周报\n\n正文");
    // 重名保护依旧生效
    let p2 = disk.create(&v, "周报", "另一份");
    assert_ne!(p, p2);
    assert_eq!(disk.read(&p), "# 周报\n\n正文");
}

#[test]
fn ensure_note_at_with_does_not_touch_existing_file() {
    let mut disk = Disk::new(&[]);
    let v = Vault::open("v", &Vec::new());
    let p = disk.ensure(&v, "daily/2026-09-17.md", "# 模板内容");
    assert_eq!(disk.read(&p), "# 模板内容");
    // 已有记录时再调用，绝不能把当天的内容冲掉
    disk.write(&p, "# 手写的记录");
    let p2 = disk.ensure(&v, "daily/2026-09-17.md", "# 模板内容");
    assert_eq!(p, p2);
    assert_eq!(disk.read(&p), "# 手写的记录");
}

#[test]
fn templates_lists_template_dir() {
    let disk = Disk::new(&["v/templates/会议.md"]);
    let v = Vault::open("v", &disk.list("v"));
    let t = v.templates(&vec![TemplateFile {
        path: "v/templates/会议.md".into(),
        text: Some("# {{date}}".into()),
    }]);
    assert_eq!(t.len(), 1);
    assert_eq!(t[0].name, "会议");
    // 模板目录本身不能被当成笔记列出来（它是目录，只有里面的文件是笔记）
    assert!(v.entries().iter().any(|e| e.name == "templates" && e.is_dir));
}

#[test]
fn notes_are_known_by_their_extension() {
    assert!(is_note_path("a/b.MD"));
    assert!(!is_note_path("a/.md"));
    assert!(!is_note_path("a/b.png"));
}

#[test]
fn clicking_a_directory_twice_gives_the_tree_back() {
    let disk = Disk::new(&["v/a/b/z.md", "v/a/y.md", "v/c/x.md", "v/w.md"]);
    let mut v = Vault::open("v", &disk.list("v"));
    v.toggle(0, &disk.list("v/a"));
    let before = v.entries().to_vec();
    for i in [1, 3] {
        let dir = v.wants_children(i).unwrap().to_string();
        v.toggle(i, &disk.list(&dir));
        assert_eq!(v.entries()[i + 1].depth, before[i].depth + 1);
        v.toggle(i, &Vec::new());
        assert_eq!(v.entries(), before);
    }
    v.toggle(2, &disk.list("v"));
    v.toggle(99, &disk.list("v"));
    assert_eq!(v.entries(), before, "不是目录就什么都不变");
}

#[test]
fn reloading_an_unchanged_tree_changes_nothing() {
    let disk = Disk::new(&["v/a/b/z.md", "v/a/y.md", "v/c/x.md", "v/w.md"]);
    let mut v = Vault::open("v", &disk.list("v"));
    v.toggle(1, &disk.list("v/c"));
    v.toggle(0, &disk.list("v/a"));
    v.toggle(1, &disk.list("v/a/b"));
    let before = v.entries().to_vec();
    assert_eq!(before.len(), 7);
    let levels: Vec<Vec<DirItem>> = v.expanded_paths().iter().map(|p| disk.list(p)).collect();
    v.reload(&disk.list("v"), &levels);
    assert_eq!(v.entries(), before);
}

#[test]
fn walks_find_notes_in_the_order_of_the_directories() {
    let disk = Disk::new(&["v/x.md", "v/a/y.md", "v/a/b/z.md", "v/a/q.md", "v/w.md"]);
    let mut walk = Vault::open("v", &Vec::new()).walk_notes();
    while let Some((dir, depth)) = walk.next_dir() {
        walk.take_dir(depth, &disk.list(&dir));
    }
    assert_eq!(walk.notes, vec!["v/x.md", "v/a/y.md", "v/a/b/z.md", "v/a/q.md", "v/w.md"]);
}

#[test]
fn new_notes_are_notes() {
    let v = Vault::open("v", &Vec::new());
    for name in ["", "a", "a.md", "a.png", ".md", "..", "x/y", "a.md/", "/z"] {
        let first = v.create_note(name, &Vec::new());
        assert!(is_note_path(&first), "{name} {first}");
        let second = v.create_note(name, &vec![first.clone()]);
        assert!(is_note_path(&second) && second != first, "{name} {second}");
    }
    assert!(!is_note_path(&v.create_note("a/", &Vec::new())));
}
