use teamy_fs::error::FsErrorKind;
use teamy_fs::path::{resolve_safe_path, Canonical, ResolveStep};

fn some(s: &str) -> Option<Canonical> {
    Some(Canonical { path: s.to_string(), is_dir: true })
}

fn file(s: &str) -> Option<Canonical> {
    Some(Canonical { path: s.to_string(), is_dir: false })
}

fn asked(step: ResolveStep) -> String {
    match step {
        ResolveStep::Canonicalize(p) => p,
        other => panic!("expected a canonicalization request, got {:?}", other),
    }
}

fn refused(step: ResolveStep) -> FsErrorKind {
    match step {
        ResolveStep::Refused(e) => e.kind,
        other => panic!("expected a refusal, got {:?}", other),
    }
}

fn resolved(step: ResolveStep) -> (String, String) {
    match step {
        ResolveStep::Resolved(r) => (r.root, r.path),
        other => panic!("expected a resolved path, got {:?}", other),
    }
}

#[test]
fn existing_file_resolves_in_three_steps() {
    assert_eq!(asked(resolve_safe_path("/proj", "src/a.rs", &vec![])), "/proj");
    assert_eq!(
        asked(resolve_safe_path("/proj", "src/a.rs", &vec![some("/real/proj")])),
        "/real/proj/src/a.rs"
    );
    let (root, path) = resolved(resolve_safe_path(
        "/proj",
        "src/a.rs",
        &vec![some("/real/proj"), some("/real/proj/src/a.rs")],
    ));
    assert_eq!(root, "/real/proj");
    assert_eq!(path, "/real/proj/src/a.rs");
}

#[test]
fn new_file_resolves_through_its_parent() {
    // Root /proj holds no a.txt: writing it resolves through the parent, and
    // reading it afterwards resolves to the same path.
    let answers = vec![some("/proj"), None];
    assert_eq!(asked(resolve_safe_path("/proj", "a.txt", &answers)), "/proj");
    let answers = vec![some("/proj"), None, some("/proj")];
    let (_, written) = resolved(resolve_safe_path("/proj", "a.txt", &answers));
    assert_eq!(written, "/proj/a.txt");
    let answers = vec![some("/proj"), file("/proj/a.txt")];
    let (_, read) = resolved(resolve_safe_path("/proj", "a.txt", &answers));
    assert_eq!(read, written);
}

#[test]
fn parent_escape_refused_for_any_root() {
    for root in ["/proj", "/", "/etc", "relative/root", ""] {
        assert_eq!(
            refused(resolve_safe_path(root, "../../etc/passwd", &vec![])),
            FsErrorKind::PathTraversal
        );
        assert_eq!(
            refused(resolve_safe_path(root, "../../etc/passwd", &vec![some("/"), some("/etc/passwd")])),
            FsErrorKind::PathTraversal
        );
    }
}

#[test]
fn climb_out_of_subdirectory_refused() {
    // Whether "outside" exists or not makes no difference.
    assert_eq!(
        refused(resolve_safe_path("/proj", "sub/../../outside", &vec![])),
        FsErrorKind::PathTraversal
    );
    assert_eq!(
        refused(resolve_safe_path("/proj", "sub/../../outside", &vec![some("/proj"), some("/outside")])),
        FsErrorKind::PathTraversal
    );
    assert_eq!(
        refused(resolve_safe_path("/proj", "sub/../../outside", &vec![some("/proj"), None, None])),
        FsErrorKind::PathTraversal
    );
}

#[test]
fn symlink_out_of_root_refused() {
    let answers = vec![some("/proj"), some("/etc/passwd")];
    assert_eq!(refused(resolve_safe_path("/proj", "link", &answers)), FsErrorKind::PathTraversal);
}

#[test]
fn sibling_with_root_as_string_prefix_refused() {
    let answers = vec![some("/proj"), some("/proj2/x")];
    assert_eq!(refused(resolve_safe_path("/proj", "x", &answers)), FsErrorKind::PathTraversal);
}

#[test]
fn missing_root_is_invalid() {
    assert_eq!(refused(resolve_safe_path("/nope", "a", &vec![None])), FsErrorKind::InvalidRoot);
}

#[test]
fn missing_parent_is_invalid_root() {
    let answers = vec![some("/proj"), None, None];
    assert_eq!(refused(resolve_safe_path("/proj", "a/b/c.txt", &answers)), FsErrorKind::InvalidRoot);
    assert_eq!(
        asked(resolve_safe_path("/proj", "a/b/c.txt", &vec![some("/proj"), None])),
        "/proj/a/b"
    );
}

#[test]
fn absolute_request_is_appended_to_root() {
    assert_eq!(
        asked(resolve_safe_path("/proj", "/etc/passwd", &vec![some("/proj")])),
        "/proj/etc/passwd"
    );
}

#[test]
fn dot_components_are_dropped() {
    assert_eq!(
        asked(resolve_safe_path("/proj", "./a//./b/", &vec![some("/proj")])),
        "/proj/a/b"
    );
    assert_eq!(asked(resolve_safe_path("/proj", ".", &vec![some("/proj")])), "/proj");
}

#[test]
fn root_itself_resolves() {
    let (root, path) = resolved(resolve_safe_path(".", ".", &vec![some("/proj"), some("/proj")]));
    assert_eq!(root, path);
}

#[test]
fn resolved_path_extends_root() {
    let cases = [
        ("a.txt", vec![some("/p/root"), some("/p/root/a.txt")]),
        ("x/y", vec![some("/p/root"), None, some("/p/root/x")]),
        ("", vec![some("/"), some("/")]),
        ("z", vec![some("/"), some("/z")]),
    ];
    for (rel, answers) in cases {
        let (root, path) = resolved(resolve_safe_path("r", rel, &answers));
        assert!(path.starts_with(&root));
    }
}

#[test]
fn trailing_parent_reference_without_target_is_invalid() {
    let answers = vec![some("/proj"), None, some("/proj")];
    assert_eq!(refused(resolve_safe_path("/proj", "a/..", &answers)), FsErrorKind::InvalidRoot);
}

#[test]
fn file_as_root_is_invalid() {
    assert_eq!(refused(resolve_safe_path("/f", "a", &vec![file("/f")])), FsErrorKind::InvalidRoot);
    assert_eq!(
        refused(resolve_safe_path("/f", "a", &vec![file("/f"), None, some("/f")])),
        FsErrorKind::InvalidRoot
    );
    assert_eq!(refused(resolve_safe_path("/f", "", &vec![file("/f"), file("/f")])), FsErrorKind::InvalidRoot);
}
