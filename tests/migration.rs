use std::collections::BTreeMap;

use mod_rs_migrator::config::Config;
use mod_rs_migrator::migrate::{plan_move, MigrateError, MoveStep};
use mod_rs_migrator::path::{replace_extension_rs, FsPath};
use mod_rs_migrator::scan::{DirEntry, EntryKind, Scan};

#[derive(Clone, Debug, PartialEq)]
enum Node {
    File(String),
    Dir,
    Symlink(Vec<String>),
}

/// An in-memory tree, keyed by path components.
struct Tree {
    nodes: BTreeMap<Vec<String>, Node>,
}

fn parts(p: &str) -> Vec<String> {
    if p.is_empty() {
        return vec![];
    }
    p.split('/').map(|s| s.to_string()).collect()
}

fn fs_path(p: &str) -> FsPath {
    FsPath { parts: parts(p) }
}

fn show(p: &FsPath) -> String {
    p.parts.join("/")
}

impl Tree {
    fn new() -> Tree {
        let mut nodes = BTreeMap::new();
        nodes.insert(vec![], Node::Dir);
        Tree { nodes }
    }

    fn add_file(&mut self, p: &str, content: &str) {
        let ps = parts(p);
        for i in 1..ps.len() {
            self.nodes.entry(ps[..i].to_vec()).or_insert(Node::Dir);
        }
        self.nodes.insert(ps, Node::File(content.to_string()));
    }

    fn add_symlink(&mut self, p: &str, to: &str) {
        self.nodes.insert(parts(p), Node::Symlink(parts(to)));
    }

    /// Follows a symlink at the end of a path, as listing through it would.
    fn resolve(&self, p: &[String]) -> Vec<String> {
        for i in (0..=p.len()).rev() {
            if let Some(Node::Symlink(to)) = self.nodes.get(&p[..i].to_vec()) {
                let mut r = to.clone();
                r.extend_from_slice(&p[i..]);
                return self.resolve(&r);
            }
        }
        p.to_vec()
    }

    fn list(&self, dir: &FsPath) -> Vec<DirEntry> {
        let real = self.resolve(&dir.parts);
        self.nodes
            .iter()
            .filter(|(k, _)| k.len() == real.len() + 1 && k[..real.len()] == real[..])
            .map(|(k, v)| DirEntry {
                name: k[k.len() - 1].clone(),
                kind: match v {
                    Node::File(_) => EntryKind::File,
                    Node::Dir => EntryKind::Dir,
                    Node::Symlink(_) => EntryKind::Symlink,
                },
            })
            .collect()
    }

    fn scan(&self, root: &str, config: &Config) -> Vec<String> {
        let mut scan = Scan::start(fs_path(root), config);
        while let Some(dir) = scan.next_dir() {
            let entries = self.list(&dir);
            scan.visit(&dir, &entries);
        }
        scan.into_found().iter().map(show).collect()
    }

    fn migrate(&mut self, markers: &[String], config: &Config) -> Result<(), MigrateError> {
        for m in markers {
            match plan_move(&fs_path(m), config)? {
                MoveStep::Skip => {}
                MoveStep::Move { source, target, dir, remove_if_empty } => {
                    let content = self.nodes.remove(&source.parts).expect("source exists");
                    self.nodes.insert(target.parts.clone(), content);
                    if remove_if_empty && self.list(&dir).is_empty() {
                        self.nodes.remove(&dir.parts);
                    }
                }
            }
        }
        Ok(())
    }

    fn paths(&self) -> Vec<String> {
        sorted(self.nodes.keys().filter(|k| !k.is_empty()).map(|k| k.join("/")).collect())
    }
}

fn sample_tree() -> Tree {
    let mut t = Tree::new();
    for f in [
        "src/lib.rs",
        "src/a/mod.rs",
        "src/a/c/mod.rs",
        "src/b/mod.rs",
        "tests/basic.rs",
        "tests/a/mod.rs",
        "tests/a/something.rs",
    ] {
        t.add_file(f, f);
    }
    t
}

fn sorted(mut v: Vec<String>) -> Vec<String> {
    v.sort();
    v
}

#[test]
fn integration() {
    let mut t = sample_tree();
    let before: Vec<&str> = vec![
        "src",
        "src/a",
        "src/a/c",
        "src/a/c/mod.rs",
        "src/a/mod.rs",
        "src/b",
        "src/b/mod.rs",
        "src/lib.rs",
        "tests",
        "tests/a",
        "tests/a/mod.rs",
        "tests/a/something.rs",
        "tests/basic.rs",
    ];
    assert_eq!(t.paths(), before);

    let config = Config::default();
    let files = t.scan("", &config);
    t.migrate(&files, &config).unwrap();

    let after: Vec<&str> = vec![
        "src",
        "src/a",
        "src/a.rs",
        "src/a/c.rs",
        "src/b.rs",
        "src/lib.rs",
        "tests",
        "tests/a",
        "tests/a/mod.rs",
        "tests/a/something.rs",
        "tests/basic.rs",
    ];
    assert_eq!(t.paths(), after);
}

#[test]
fn moved_files_keep_their_content() {
    let mut t = sample_tree();
    let config = Config::default();
    let files = t.scan("", &config);
    t.migrate(&files, &config).unwrap();
    assert_eq!(t.nodes.get(&parts("src/a.rs")), Some(&Node::File("src/a/mod.rs".to_string())));
    assert_eq!(t.nodes.get(&parts("src/a/c.rs")), Some(&Node::File("src/a/c/mod.rs".to_string())));
    assert_eq!(t.nodes.get(&parts("src/b.rs")), Some(&Node::File("src/b/mod.rs".to_string())));
}

#[test]
fn scan_finds_every_marker() {
    let t = sample_tree();
    let found = sorted(t.scan("", &Config::default()));
    assert_eq!(found, vec!["src/a/c/mod.rs", "src/a/mod.rs", "src/b/mod.rs", "tests/a/mod.rs"]);
}

#[test]
fn scan_lists_last_pushed_directory_first() {
    let t = sample_tree();
    let found = t.scan("", &Config::default());
    assert_eq!(found, vec!["tests/a/mod.rs", "src/b/mod.rs", "src/a/mod.rs", "src/a/c/mod.rs"]);
}

#[test]
fn tests_dir_flattened_without_special_treatment() {
    let mut t = sample_tree();
    let config = Config::new(false, false, true);
    let files = t.scan("", &config);
    t.migrate(&files, &config).unwrap();
    let p = t.paths();
    assert!(p.contains(&"tests/a.rs".to_string()));
    assert!(!p.contains(&"tests/a/mod.rs".to_string()));
    assert!(p.contains(&"tests/a/something.rs".to_string()));
}

#[test]
fn leave_empty_dirs_keeps_emptied_directory() {
    let mut t = sample_tree();
    let config = Config::new(false, true, false);
    let files = t.scan("", &config);
    t.migrate(&files, &config).unwrap();
    assert_eq!(t.nodes.get(&parts("src/b")), Some(&Node::Dir));
    assert!(t.list(&fs_path("src/b")).is_empty());
    assert_eq!(t.nodes.get(&parts("src/a/c")), Some(&Node::Dir));
    assert!(t.nodes.contains_key(&parts("src/b.rs")));
}

#[test]
fn symlinked_directory_scanned_only_when_following() {
    let mut t = Tree::new();
    t.add_file("real/x/mod.rs", "x");
    t.add_file("proj/lib.rs", "lib");
    t.add_symlink("proj/link", "real");
    let plain = t.scan("proj", &Config::default());
    assert!(plain.is_empty());
    let followed = t.scan("proj", &Config::new(true, false, false));
    assert_eq!(followed, vec!["proj/link/x/mod.rs"]);
}

#[test]
fn second_run_finds_only_exempt_markers_and_changes_nothing() {
    let mut t = sample_tree();
    let config = Config::default();
    let files = t.scan("", &config);
    t.migrate(&files, &config).unwrap();
    let snapshot = t.nodes.clone();
    let again = t.scan("", &config);
    assert_eq!(again, vec!["tests/a/mod.rs"]);
    t.migrate(&again, &config).unwrap();
    assert_eq!(t.nodes, snapshot);
}

#[test]
fn second_run_without_exemption_finds_nothing() {
    let mut t = sample_tree();
    let config = Config::new(false, false, true);
    let files = t.scan("", &config);
    t.migrate(&files, &config).unwrap();
    assert!(t.scan("", &config).is_empty());
}

#[test]
fn destination_is_overwritten() {
    let mut t = Tree::new();
    t.add_file("src/a.rs", "old");
    t.add_file("src/a/mod.rs", "new");
    let config = Config::default();
    let files = t.scan("", &config);
    t.migrate(&files, &config).unwrap();
    assert_eq!(t.nodes.get(&parts("src/a.rs")), Some(&Node::File("new".to_string())));
    assert!(!t.nodes.contains_key(&parts("src/a")));
}

#[test]
fn plan_moves_marker_to_sibling_file() {
    let step = plan_move(&fs_path("src/a/mod.rs"), &Config::default()).unwrap();
    match step {
        MoveStep::Move { source, target, dir, remove_if_empty } => {
            assert_eq!(show(&source), "src/a/mod.rs");
            assert_eq!(show(&target), "src/a.rs");
            assert_eq!(show(&dir), "src/a");
            assert!(remove_if_empty);
        }
        MoveStep::Skip => panic!("expected a move"),
    }
}

#[test]
fn plan_skips_directory_under_tests() {
    let step = plan_move(&fs_path("x/tests/a/mod.rs"), &Config::default()).unwrap();
    assert!(matches!(step, MoveStep::Skip));
}

#[test]
fn plan_keeps_directory_when_asked() {
    let step = plan_move(&fs_path("src/a/mod.rs"), &Config::new(false, true, false)).unwrap();
    assert!(matches!(step, MoveStep::Move { remove_if_empty: false, .. }));
}

#[test]
fn plan_without_grandparent_is_missing_parent() {
    let r = plan_move(&fs_path("mod.rs"), &Config::default());
    assert_eq!(r.unwrap_err(), MigrateError::MissingParent);
    assert_eq!(MigrateError::MissingParent.message(), "Missing parent");
}

#[test]
fn plan_without_parent_is_missing_parent() {
    let r = plan_move(&fs_path(""), &Config::new(false, false, true));
    assert_eq!(r.unwrap_err(), MigrateError::MissingParent);
    let root = FsPath { parts: vec!["/".to_string()] };
    assert_eq!(plan_move(&root, &Config::new(false, false, true)).unwrap_err(), MigrateError::MissingParent);
}

#[test]
fn plan_with_no_special_treatment_needs_only_a_parent() {
    let step = plan_move(&fs_path("a/mod.rs"), &Config::new(false, false, true)).unwrap();
    match step {
        MoveStep::Move { target, .. } => assert_eq!(show(&target), "a.rs"),
        MoveStep::Skip => panic!("expected a move"),
    }
}

#[test]
fn extension_is_replaced() {
    assert_eq!(replace_extension_rs(&"a".to_string()), "a.rs");
    assert_eq!(replace_extension_rs(&"a.b".to_string()), "a.rs");
    assert_eq!(replace_extension_rs(&"a.b.c".to_string()), "a.b.rs");
    assert_eq!(replace_extension_rs(&".hidden".to_string()), ".hidden.rs");
    assert_eq!(replace_extension_rs(&"a.".to_string()), "a.rs");
    assert_eq!(replace_extension_rs(&"é.x".to_string()), "é.rs");
}

#[test]
fn path_without_file_name_keeps_its_extension() {
    assert_eq!(show(&fs_path("a/..").with_rs_extension()), "a/..");
    assert_eq!(show(&fs_path(".").with_rs_extension()), ".");
    assert_eq!(show(&fs_path("").with_rs_extension()), "");
    assert_eq!(show(&fs_path("x/a.b").with_rs_extension()), "x/a.rs");
}

#[test]
fn parent_and_join() {
    assert_eq!(show(&fs_path("a/b/c").parent().unwrap()), "a/b");
    assert_eq!(show(&fs_path("a").parent().unwrap()), "");
    assert!(fs_path("").parent().is_none());
    assert_eq!(show(&fs_path("a").join(&"b".to_string())), "a/b");
    assert!(fs_path("x/tests").is_named_tests());
    assert!(!fs_path("x/test").is_named_tests());
}

#[test]
fn visit_sorts_entries_into_pending_and_found() {
    let config = Config::default();
    let mut scan = Scan::start(fs_path("r"), &config);
    let root = scan.next_dir().unwrap();
    assert_eq!(show(&root), "r");
    assert!(scan.next_dir().is_none());
    let entries = vec![
        DirEntry { name: "d".to_string(), kind: EntryKind::Dir },
        DirEntry { name: "mod.rs".to_string(), kind: EntryKind::File },
        DirEntry { name: "l".to_string(), kind: EntryKind::Symlink },
        DirEntry { name: "mod.rs.bak".to_string(), kind: EntryKind::File },
        DirEntry { name: "p".to_string(), kind: EntryKind::Other },
    ];
    scan.visit(&root, &entries);
    assert_eq!(show(&scan.next_dir().unwrap()), "r/d");
    assert!(scan.next_dir().is_none());
    let found: Vec<String> = scan.into_found().iter().map(show).collect();
    assert_eq!(found, vec!["r/mod.rs"]);
}

#[test]
fn visit_pushes_symlinks_when_following() {
    let config = Config::new(true, false, false);
    let mut scan = Scan::start(fs_path("r"), &config);
    let root = scan.next_dir().unwrap();
    let entries = vec![
        DirEntry { name: "d".to_string(), kind: EntryKind::Dir },
        DirEntry { name: "l".to_string(), kind: EntryKind::Symlink },
    ];
    scan.visit(&root, &entries);
    assert_eq!(show(&scan.next_dir().unwrap()), "r/l");
    assert_eq!(show(&scan.next_dir().unwrap()), "r/d");
    assert!(scan.next_dir().is_none());
}

#[test]
fn config_default_has_all_options_off() {
    let c = Config::default();
    assert_eq!(c, Config::new(false, false, false));
}
