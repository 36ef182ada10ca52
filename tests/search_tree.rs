use std::collections::HashMap;

use teamy_fs::error::{FsError, FsErrorKind};
use teamy_fs::path::ResolvedPath;
use teamy_fs::pattern::LineMatcher;
use teamy_fs::search::{
    glob_accepts, split_lines, suffix_matches, trim_leading_stars, SearchEngine, SearchResult,
    SearchStep, MAX_FILE_SIZE, RESULT_CAP,
};
use teamy_fs::walk::{ChildMeta, DirChild, ExclusionSet};

#[derive(Default)]
struct Fs {
    dirs: HashMap<String, Vec<(String, Option<(bool, u64)>)>>,
    files: HashMap<String, Option<String>>,
    links: Vec<String>,
}

impl Fs {
    fn dir(&mut self, path: &str, kids: &[(&str, bool, u64)]) {
        self.dirs.insert(
            path.to_string(),
            kids.iter().map(|(n, d, s)| (n.to_string(), Some((*d, *s)))).collect(),
        );
    }

    fn file(&mut self, path: &str, text: &str) {
        self.files.insert(path.to_string(), Some(text.to_string()));
    }

    fn listing(&self, dir: &str) -> Result<Vec<DirChild>, String> {
        match self.dirs.get(dir) {
            None => Err("missing".to_string()),
            Some(kids) => Ok(kids
                .iter()
                .map(|(n, m)| DirChild {
                    name: n.clone(),
                    meta: m.map(|(is_dir, size)| ChildMeta {
                        is_dir,
                        size,
                        is_link: self.links.contains(&format!("{}/{}", dir, n)),
                    }),
                })
                .collect()),
        }
    }
}

fn search(
    fs: &Fs,
    root: &str,
    dir: &str,
    pattern: &str,
    glob: Option<&str>,
) -> (Result<Vec<SearchResult>, FsError>, Vec<String>) {
    let resolved = Ok(ResolvedPath { root: root.to_string(), path: dir.to_string() });
    let is_dir = fs.dirs.contains_key(dir);
    let (eng, mut step) = SearchEngine::start(
        pattern,
        resolved,
        is_dir,
        glob.map(|g| g.to_string()),
        ExclusionSet::standard(),
    );
    let mut read = Vec::new();
    let mut eng = match eng {
        Some(e) => e,
        None => match step {
            SearchStep::Finished(r) => return (r, read),
            _ => panic!("no engine but no end"),
        },
    };
    loop {
        match step {
            SearchStep::ReadDir(p) => step = eng.advance_dir(fs.listing(&p)),
            SearchStep::ReadFile(p) => {
                read.push(p.clone());
                let content = fs.files.get(&p).cloned().flatten();
                step = eng.advance_file(content);
            }
            SearchStep::Finished(r) => return (r, read),
        }
    }
}

#[test]
fn stops_at_one_hundred_results() {
    let mut fs = Fs::default();
    let mut kids = Vec::new();
    let names: Vec<String> = (0..150).map(|i| format!("f{}.txt", i)).collect();
    for n in &names {
        kids.push((n.as_str(), false, 20u64));
        fs.file(&format!("/proj/{}", n), "first\n// TODO: fix\nlast\n");
    }
    fs.dir("/proj", &kids);
    let (r, read) = search(&fs, "/proj", "/proj", "TODO", None);
    let rs = r.unwrap();
    assert_eq!(rs.len(), 100);
    assert_eq!(RESULT_CAP, 100);
    // The walk ends the moment the hundredth result is found.
    assert_eq!(read.len(), 100);
    assert!(rs.iter().all(|x| x.line == 2 && x.content == "// TODO: fix"));
}

#[test]
fn cap_reached_inside_one_file() {
    let mut fs = Fs::default();
    let text: String = (0..250).map(|i| format!("hit {}\n", i)).collect();
    fs.dir("/p", &[("big.txt", false, 100), ("after.txt", false, 10)]);
    fs.file("/p/big.txt", &text);
    fs.file("/p/after.txt", "hit again\n");
    let (r, read) = search(&fs, "/p", "/p", "hit", None);
    let rs = r.unwrap();
    assert_eq!(rs.len(), 100);
    assert_eq!(rs[99].line, 100);
    assert_eq!(rs[99].content, "hit 99");
    assert_eq!(read, vec!["/p/big.txt"]);
}

#[test]
fn glob_excludes_other_extensions() {
    let mut fs = Fs::default();
    fs.dir("/p", &[("x.json", false, 10), ("y.ts", false, 10), ("Z.TS", false, 10)]);
    fs.file("/p/x.json", "needle\n");
    fs.file("/p/y.ts", "needle\n");
    fs.file("/p/Z.TS", "needle\n");
    let (r, read) = search(&fs, "/p", "/p", "needle", Some("*.ts"));
    let files: Vec<String> = r.unwrap().into_iter().map(|x| x.file).collect();
    assert_eq!(files, vec!["y.ts", "Z.TS"]);
    assert!(!read.iter().any(|p| p.ends_with("x.json")));
}

#[test]
fn hidden_excluded_large_and_binary_files_skipped() {
    let mut fs = Fs::default();
    fs.dir(
        "/p",
        &[
            (".env", false, 5),
            (".hidden", true, 0),
            ("node_modules", true, 0),
            ("huge.txt", false, MAX_FILE_SIZE + 1),
            ("edge.txt", false, MAX_FILE_SIZE),
            ("blob.bin", false, 10),
            ("src", true, 0),
        ],
    );
    fs.dir("/p/.hidden", &[("h.txt", false, 5)]);
    fs.dir("/p/node_modules", &[("m.txt", false, 5)]);
    fs.dir("/p/src", &[("lib.rs", false, 30)]);
    fs.file("/p/.env", "key\n");
    fs.file("/p/.hidden/h.txt", "key\n");
    fs.file("/p/node_modules/m.txt", "key\n");
    fs.file("/p/huge.txt", "key\n");
    fs.file("/p/edge.txt", "key\n");
    fs.files.insert("/p/blob.bin".to_string(), None);
    fs.file("/p/src/lib.rs", "a\r\nkey = 1\r\n");
    let (r, _) = search(&fs, "/p", "/p", "key", None);
    let got: Vec<(String, usize, String)> =
        r.unwrap().into_iter().map(|x| (x.file, x.line, x.content)).collect();
    assert_eq!(
        got,
        vec![
            ("edge.txt".to_string(), 1, "key".to_string()),
            ("src/lib.rs".to_string(), 2, "key = 1".to_string()),
        ]
    );
}

#[test]
fn invalid_pattern_refused() {
    let mut fs = Fs::default();
    fs.dir("/p", &[]);
    let (r, _) = search(&fs, "/p", "/p", "foo(bar", None);
    assert_eq!(r.unwrap_err().kind, FsErrorKind::InvalidPattern);
}

#[test]
fn invalid_pattern_reported_before_bad_path() {
    let (eng, step) = SearchEngine::start(
        "(",
        Err(FsError::new(FsErrorKind::PathTraversal, "out")),
        false,
        None,
        ExclusionSet::standard(),
    );
    assert!(eng.is_none());
    match step {
        SearchStep::Finished(Err(e)) => assert_eq!(e.kind, FsErrorKind::InvalidPattern),
        _ => panic!("expected an error"),
    }
}

#[test]
fn resolution_error_passed_on() {
    let (eng, step) = SearchEngine::start(
        "x",
        Err(FsError::new(FsErrorKind::PathTraversal, "out")),
        false,
        None,
        ExclusionSet::standard(),
    );
    assert!(eng.is_none());
    match step {
        SearchStep::Finished(Err(e)) => assert_eq!(e.kind, FsErrorKind::PathTraversal),
        _ => panic!("expected an error"),
    }
}

#[test]
fn search_root_must_be_directory() {
    let fs = Fs::default();
    let (r, _) = search(&fs, "/p", "/p/file.txt", "x", None);
    assert_eq!(r.unwrap_err().kind, FsErrorKind::NotADirectory);
}

#[test]
fn unreadable_directory_keeps_results_so_far() {
    let mut fs = Fs::default();
    fs.dir("/p", &[("a.txt", false, 5), ("gone", true, 0), ("b.txt", false, 5)]);
    fs.file("/p/a.txt", "x1\n");
    fs.file("/p/b.txt", "x2\n");
    let (r, _) = search(&fs, "/p", "/p", "x", None);
    let rs = r.unwrap();
    assert_eq!(rs.len(), 1);
    assert_eq!(rs[0].file, "a.txt");
}

#[test]
fn subdirectory_search_paths_relative_to_root() {
    let mut fs = Fs::default();
    fs.dir("/p/sub", &[("s.txt", false, 5)]);
    fs.file("/p/sub/s.txt", "zz\nyy zz\n");
    let (r, _) = search(&fs, "/p", "/p/sub", "^yy", None);
    let rs = r.unwrap();
    assert_eq!(rs.len(), 1);
    assert_eq!((rs[0].file.as_str(), rs[0].line), ("sub/s.txt", 2));
}

#[test]
fn glob_filter_is_case_insensitive_suffix() {
    assert!(glob_accepts("Main.TS", "*.ts"));
    assert!(glob_accepts("main.ts", "**.TS"));
    assert!(!glob_accepts("x.json", "*.ts"));
    assert!(glob_accepts("anything", "*"));
    assert!(!glob_accepts("a.ts.bak", "*.ts"));
    assert!(suffix_matches("report.ts", ".ts"));
    assert!(!suffix_matches("ts", ".ts"));
    assert_eq!(trim_leading_stars("**a*b"), "a*b");
}

#[test]
fn lines_split_like_text_lines() {
    let view = |s: &str| -> Vec<String> {
        let cs: Vec<char> = s.chars().collect();
        split_lines(&cs).into_iter().map(|l| l.into_iter().collect()).collect()
    };
    assert_eq!(view("a\nb\r\nc"), vec!["a", "b", "c"]);
    assert_eq!(view("a\n\nb\n"), vec!["a", "", "b"]);
    assert_eq!(view(""), Vec::<String>::new());
    assert_eq!(view("x\r"), vec!["x\r"]);
}

#[test]
fn matcher_compiles_and_matches() {
    let m = LineMatcher::compile("fo+").unwrap();
    assert!(m.is_match("xfoo"));
    assert!(!m.is_match("f"));
    assert!(LineMatcher::compile("(").is_err());
}

#[test]
fn unreadable_metadata_ends_search_with_results_so_far() {
    let mut fs = Fs::default();
    fs.dirs.insert(
        "/p".to_string(),
        vec![
            ("a.txt".to_string(), Some((false, 5))),
            ("bad".to_string(), None),
            ("b.txt".to_string(), Some((false, 5))),
        ],
    );
    fs.file("/p/a.txt", "x1\n");
    fs.file("/p/b.txt", "x2\n");
    let (r, read) = search(&fs, "/p", "/p", "x", None);
    let rs = r.unwrap();
    assert_eq!(rs.len(), 1);
    assert_eq!(read, vec!["/p/a.txt"]);
}

#[test]
fn hidden_child_with_unreadable_metadata_is_passed_over() {
    let mut fs = Fs::default();
    fs.dirs.insert(
        "/p".to_string(),
        vec![(".cache".to_string(), None), ("a.txt".to_string(), Some((false, 5)))],
    );
    fs.file("/p/a.txt", "x1\n");
    let (r, _) = search(&fs, "/p", "/p", "x", None);
    assert_eq!(r.unwrap().len(), 1);
}

#[test]
fn symbolic_links_are_never_read() {
    let mut fs = Fs::default();
    fs.dir("/p", &[("link", false, 11), ("dirlink", false, 0), ("real.txt", false, 5)]);
    fs.links.push("/p/link".to_string());
    fs.links.push("/p/dirlink".to_string());
    fs.file("/p/link", "root:x:0:0\n");
    fs.file("/p/real.txt", "root here\n");
    let (r, read) = search(&fs, "/p", "/p", "root", None);
    let files: Vec<String> = r.unwrap().into_iter().map(|x| x.file).collect();
    assert_eq!(files, vec!["real.txt"]);
    assert_eq!(read, vec!["/p/real.txt"]);
}
