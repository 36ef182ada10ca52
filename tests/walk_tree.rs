use std::collections::HashMap;

use teamy_fs::error::{FsError, FsErrorKind};
use teamy_fs::path::ResolvedPath;
use teamy_fs::walk::{ChildMeta, DirChild, DirectoryWalker, ExclusionSet, FileEntry, WalkStep};

type Tree = HashMap<String, Vec<(String, Option<(bool, u64)>)>>;

fn tree(entries: &[(&str, &[(&str, Option<(bool, u64)>)])]) -> Tree {
    let mut t = HashMap::new();
    for (dir, kids) in entries {
        t.insert(
            dir.to_string(),
            kids.iter().map(|(n, m)| (n.to_string(), *m)).collect(),
        );
    }
    t
}

fn listing(t: &Tree, dir: &str) -> Result<Vec<DirChild>, String> {
    match t.get(dir) {
        None => Err(format!("no directory {}", dir)),
        Some(kids) => Ok(kids
            .iter()
            .map(|(n, m)| DirChild {
                name: n.clone(),
                meta: m.map(|(is_dir, size)| ChildMeta { is_dir, size, is_link: false }),
            })
            .collect()),
    }
}

fn walk(t: &Tree, root: &str, dir: &str, recursive: bool) -> (Result<Vec<FileEntry>, FsError>, Vec<String>) {
    let resolved = ResolvedPath { root: root.to_string(), path: dir.to_string() };
    let is_dir = t.contains_key(dir);
    let (mut w, mut step) = DirectoryWalker::start(&resolved, is_dir, recursive, ExclusionSet::standard());
    let mut read = Vec::new();
    loop {
        match step {
            WalkStep::ReadDir(p) => {
                read.push(p.clone());
                step = w.advance(listing(t, &p));
            }
            WalkStep::Finished(r) => return (r, read),
        }
    }
}

const D: Option<(bool, u64)> = Some((true, 0));

fn f(size: u64) -> Option<(bool, u64)> {
    Some((false, size))
}

#[test]
fn git_directory_never_listed() {
    let t = tree(&[
        ("/proj", &[(".git", D), ("src", D), ("a.txt", f(3))]),
        ("/proj/.git", &[("config", f(10))]),
        ("/proj/src", &[("main.rs", f(20))]),
    ]);
    let (r, read) = walk(&t, "/proj", "/proj", true);
    let es = r.unwrap();
    assert!(es.iter().all(|e| !e.path.starts_with(".git")));
    assert!(!read.iter().any(|p| p.contains(".git")));
    let paths: Vec<&str> = es.iter().map(|e| e.path.as_str()).collect();
    assert_eq!(paths, vec!["src", "src/main.rs", "a.txt"]);
}

#[test]
fn excluded_names_skipped_at_every_depth() {
    let t = tree(&[
        ("/p", &[("node_modules", D), ("app", D), ("dist", D)]),
        ("/p/app", &[("target", D), (".nuxt", D), ("lib", D), ("x.js", f(1))]),
        ("/p/app/lib", &[(".output", D), ("y.js", f(2)), (".git", f(1))]),
    ]);
    let (r, _) = walk(&t, "/p", "/p", true);
    let es = r.unwrap();
    let excluded = ["node_modules", ".git", "target", "dist", ".nuxt", ".output"];
    for e in &es {
        assert!(!excluded.contains(&e.name.as_str()));
        for part in e.path.split('/') {
            assert!(!excluded.contains(&part));
        }
    }
    let paths: Vec<&str> = es.iter().map(|e| e.path.as_str()).collect();
    assert_eq!(paths, vec!["app", "app/lib", "app/lib/y.js", "app/x.js"]);
}

#[test]
fn depth_first_order_with_sizes() {
    let t = tree(&[
        ("/r", &[("b", D), ("a.md", f(7))]),
        ("/r/b", &[("c", D), ("d.txt", f(4))]),
        ("/r/b/c", &[("e.txt", f(9))]),
    ]);
    let (r, read) = walk(&t, "/r", "/r", true);
    let es = r.unwrap();
    let got: Vec<(String, bool, u64)> = es.iter().map(|e| (e.path.clone(), e.is_dir, e.size)).collect();
    assert_eq!(
        got,
        vec![
            ("b".to_string(), true, 0),
            ("b/c".to_string(), true, 0),
            ("b/c/e.txt".to_string(), false, 9),
            ("b/d.txt".to_string(), false, 4),
            ("a.md".to_string(), false, 7),
        ]
    );
    assert_eq!(read, vec!["/r", "/r/b", "/r/b/c"]);
}

#[test]
fn non_recursive_lists_direct_children() {
    let t = tree(&[("/r", &[("b", D), ("a.md", f(7))]), ("/r/b", &[("c.txt", f(1))])]);
    let (r, read) = walk(&t, "/r", "/r", false);
    let names: Vec<String> = r.unwrap().into_iter().map(|e| e.name).collect();
    assert_eq!(names, vec!["b", "a.md"]);
    assert_eq!(read, vec!["/r"]);
}

#[test]
fn subdirectory_paths_are_relative_to_root() {
    let t = tree(&[("/r/sub", &[("inner", D), ("k.txt", f(2))]), ("/r/sub/inner", &[("z", f(1))])]);
    let (r, _) = walk(&t, "/r", "/r/sub", true);
    let paths: Vec<String> = r.unwrap().into_iter().map(|e| e.path).collect();
    assert_eq!(paths, vec!["sub/inner", "sub/inner/z", "sub/k.txt"]);
}

#[test]
fn unreadable_metadata_fails_whole_listing() {
    let t = tree(&[("/r", &[("ok.txt", f(1)), ("bad", None)])]);
    let (r, _) = walk(&t, "/r", "/r", true);
    assert_eq!(r.unwrap_err().kind, FsErrorKind::IoError);
}

#[test]
fn unreadable_metadata_of_excluded_child_is_ignored() {
    let t = tree(&[("/r", &[("ok.txt", f(1)), ("node_modules", None)])]);
    let (r, _) = walk(&t, "/r", "/r", true);
    assert_eq!(r.unwrap().len(), 1);
}

#[test]
fn unreadable_subdirectory_fails() {
    let t = tree(&[("/r", &[("gone", D)])]);
    let (r, _) = walk(&t, "/r", "/r", true);
    assert_eq!(r.unwrap_err().kind, FsErrorKind::IoError);
}

#[test]
fn file_target_is_not_a_directory() {
    let t = tree(&[("/r", &[("a", f(1))])]);
    let (r, read) = walk(&t, "/r", "/r/a", true);
    assert_eq!(r.unwrap_err().kind, FsErrorKind::NotADirectory);
    assert!(read.is_empty());
}

#[test]
fn path_outside_root_refused() {
    let t = tree(&[("/other", &[])]);
    let (r, _) = walk(&t, "/r", "/other", true);
    assert_eq!(r.unwrap_err().kind, FsErrorKind::PathTraversal);
}

#[test]
fn standard_exclusions() {
    let ex = ExclusionSet::standard();
    assert!(ex.contains(&"node_modules".to_string()));
    assert!(ex.contains(&".output".to_string()));
    assert!(!ex.contains(&"src".to_string()));
    assert_eq!(ex.names.len(), 6);
}

#[test]
fn linked_directory_listed_but_not_followed() {
    let resolved = ResolvedPath { root: "/r".to_string(), path: "/r".to_string() };
    let (mut w, step) = DirectoryWalker::start(&resolved, true, true, ExclusionSet::standard());
    assert!(matches!(step, WalkStep::ReadDir(_)));
    let kids = vec![
        DirChild {
            name: "out".to_string(),
            meta: Some(ChildMeta { is_dir: true, size: 0, is_link: true }),
        },
        DirChild { name: "a.txt".to_string(), meta: Some(ChildMeta { is_dir: false, size: 1, is_link: false }) },
    ];
    match w.advance(Ok(kids)) {
        WalkStep::Finished(Ok(es)) => {
            let got: Vec<(String, bool)> = es.into_iter().map(|e| (e.path, e.is_dir)).collect();
            assert_eq!(got, vec![("out".to_string(), false), ("a.txt".to_string(), false)]);
        }
        other => panic!("expected the end of the listing, got {:?}", other),
    }
}
