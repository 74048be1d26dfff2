use vcs::diff::{diff_between_content, diff_between_obj, diff_lines, ChangeKind, DiffLine};
use vcs::index::{FileMeta, Index, ObjectInfo};
use vcs::store::ObjectStore;
use vcs::summary::{get_sections, summarize};
use vcs::text::{lines, words};

fn s(x: &str) -> String {
    x.to_string()
}

#[test]
fn diff_of_text_with_itself_is_context_only() {
    let d = diff_lines("a\nb\nc\n", "a\nb\nc\n");
    assert_eq!(d, vec![DiffLine::Context(s("a")), DiffLine::Context(s("b")), DiffLine::Context(s("c"))]);
}

#[test]
fn greedy_diff_rule() {
    assert_eq!(
        diff_lines("hello", "hello world"),
        vec![DiffLine::Deleted(s("hello")), DiffLine::Inserted(s("hello world"))]
    );
    assert_eq!(
        diff_lines("a\nb\n", "b\na\n"),
        vec![
            DiffLine::Deleted(s("a")),
            DiffLine::Context(s("b")),
            DiffLine::Inserted(s("a")),
        ]
    );
    assert_eq!(diff_lines("", "x"), vec![DiffLine::Inserted(s("x"))]);
    assert_eq!(diff_lines("x", ""), vec![DiffLine::Deleted(s("x"))]);
    assert!(diff_lines("", "").is_empty());
}

#[test]
fn rendered_diff_marks_lines() {
    assert_eq!(diff_between_content("a\nb\n", "a\nc\n"), "  a\n- b\n+ c\n");
}

#[test]
fn lines_and_words_split_like_std() {
    assert_eq!(lines("a\r\nb\n\nc"), vec![s("a"), s("b"), s(""), s("c")]);
    assert!(lines("").is_empty());
    assert_eq!(words("  x\t y  "), vec![s("x"), s("y")]);
}

fn entry(path: &str, hash: &str) -> ObjectInfo {
    ObjectInfo::new("blob", path, hash, &FileMeta { ctime: 1, mtime: 1, size: 1, permissions: 1 })
}

#[test]
fn tree_diff_with_itself_is_empty() {
    let mut t = Index::new();
    t.add_object(entry("a.txt", "missing-hash-1"));
    t.add_object(entry("b.txt", "missing-hash-2"));
    let store = ObjectStore::new();
    assert!(diff_between_obj(&store, &t, &t).unwrap().is_empty());
}

#[test]
fn tree_diff_reports_each_kind() {
    let mut store = ObjectStore::new();
    let old = store.put(b"one\ntwo\n");
    let new = store.put(b"one\nthree\n");
    let gone = store.put(b"bye\n");
    let fresh = store.put(b"hi\n");
    let mut a = Index::new();
    a.add_object(entry("m.txt", &old));
    a.add_object(entry("d.txt", &gone));
    a.add_object(entry("same.txt", &old));
    let mut b = Index::new();
    b.add_object(entry("same.txt", &old));
    b.add_object(entry("m.txt", &new));
    b.add_object(entry("n.txt", &fresh));
    let d = diff_between_obj(&store, &a, &b).unwrap();
    assert_eq!(d.len(), 3);
    assert_eq!(d[0].path, "m.txt");
    assert_eq!(d[0].kind, ChangeKind::Modified);
    assert_eq!(d[0].lines, vec![DiffLine::Context(s("one")), DiffLine::Deleted(s("two")), DiffLine::Inserted(s("three"))]);
    assert_eq!(d[1].path, "d.txt");
    assert_eq!(d[1].kind, ChangeKind::Deleted);
    assert_eq!(d[2].path, "n.txt");
    assert_eq!(d[2].kind, ChangeKind::Added);
    assert_eq!(d[2].lines, vec![DiffLine::Inserted(s("hi"))]);
    let sum = summarize(&d);
    assert_eq!((sum.added, sum.deleted, sum.modified), (1, 1, 1));
    assert_eq!(sum.files[0].insertions, 1);
    assert_eq!(sum.files[0].deletions, 1);
    assert_eq!(
        sum.render(),
        "1 files added\n1 files deleted\n1 files modified\nm.txt file: 1 insertions(+), 1 deletions(-)\nd.txt file: 0 insertions(+), 1 deletions(-)\nn.txt file: 1 insertions(+), 0 deletions(-)\n"
    );
}

#[test]
fn tree_diff_fails_on_missing_blob() {
    let store = ObjectStore::new();
    let a = Index::new();
    let mut b = Index::new();
    b.add_object(entry("n.txt", "nowhere"));
    assert!(diff_between_obj(&store, &a, &b).is_err());
}

#[test]
fn sections_start_at_markers() {
    let secs = get_sections("head\n@@ a\nx\n@@ b\ny\n");
    assert_eq!(
        secs,
        vec![vec![s("head")], vec![s("@@ a"), s("x")], vec![s("@@ b"), s("y")]]
    );
    let lead = get_sections("@@ a\nx\n");
    assert_eq!(lead, vec![vec![], vec![s("@@ a"), s("x")]]);
}
