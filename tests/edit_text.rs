use teamy_fs::edit::plan_edit;
use teamy_fs::error::FsErrorKind;

fn kind(r: Result<String, teamy_fs::error::FsError>) -> FsErrorKind {
    match r {
        Err(e) => e.kind,
        Ok(s) => panic!("expected a refusal, got {:?}", s),
    }
}

#[test]
fn two_occurrences_are_ambiguous() {
    let content = "one\nfoo\nthree\nfour\nfoo\nsix\n";
    let r = plan_edit(content, "foo", "bar");
    let e = r.unwrap_err();
    assert_eq!(e.kind, FsErrorKind::AmbiguousEdit);
    assert!(e.describe().contains("more surrounding context"));
}

#[test]
fn single_occurrence_replaced_rest_kept() {
    let content = "alpha\nbeta gamma\ndelta\n";
    let r = plan_edit(content, "beta", "BETA!").unwrap();
    assert_eq!(r, "alpha\nBETA! gamma\ndelta\n");
}

#[test]
fn absent_text_not_found() {
    assert_eq!(kind(plan_edit("abc", "x", "y")), FsErrorKind::EditNotFound);
    assert_eq!(kind(plan_edit("", "x", "y")), FsErrorKind::EditNotFound);
}

#[test]
fn overlapping_matches_count_once() {
    assert_eq!(plan_edit("aaa", "aa", "b").unwrap(), "ba");
    assert_eq!(kind(plan_edit("aaaa", "aa", "b")), FsErrorKind::AmbiguousEdit);
}

#[test]
fn empty_old_text() {
    assert_eq!(plan_edit("", "", "new").unwrap(), "new");
    assert_eq!(kind(plan_edit("x", "", "new")), FsErrorKind::AmbiguousEdit);
}

#[test]
fn multibyte_text_kept_intact() {
    assert_eq!(plan_edit("héllo wörld", "wö", "WO").unwrap(), "héllo WOrld");
}

#[test]
fn replacement_may_delete() {
    assert_eq!(plan_edit("keep cut keep", " cut", "").unwrap(), "keep keep");
}
