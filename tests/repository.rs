use vcs::commands::{add_protocol, head_ref, parse_head, parse_ref, write_tree_command, AddTarget, NewFile};
use vcs::diff::{ChangeKind, DiffLine};
use vcs::error::VcsError;
use vcs::history::{diff_between_commits, get_commit_parent, get_files_from_tree, get_tree_from_commit, is_ancestor};
use vcs::ignore::{is_ignored, parse_gitignore};
use vcs::index::{FileMeta, StageAction};
use vcs::merge::{diverged_files, merge_indexes, resolve_indexes, MergeOutcome};
use vcs::objects::Tree;
use vcs::repo::{PathMeta, Repo, WorkFile};
use vcs::summary::detailed_print;

fn meta(t: u64) -> FileMeta {
    FileMeta { ctime: t, mtime: t, size: 0, permissions: 33188 }
}

fn add(repo: &mut Repo, path: &str, content: &str, t: u64) -> StageAction {
    repo.add_file(path, content.as_bytes().to_vec(), &meta(t))
}

fn files_after(update: &vcs::repo::WorkTreeUpdate, mut w: Vec<(String, Vec<u8>)>) -> Vec<(String, Vec<u8>)> {
    w.retain(|(p, _)| !update.remove.contains(p));
    for f in &update.write {
        w.retain(|(p, _)| p != &f.path);
        w.push((f.path.clone(), f.content.clone()));
    }
    w.sort();
    w
}

#[test]
fn re_adding_unchanged_file_is_a_noop() {
    let mut repo = Repo::new();
    assert_eq!(add(&mut repo, "a.txt", "hello", 5), StageAction::Insert);
    let before = repo.index.content();
    let objects = repo.store.objects.len();
    assert_eq!(add(&mut repo, "a.txt", "hello", 5), StageAction::NoChange);
    assert_eq!(repo.index.content(), before);
    assert_eq!(repo.store.objects.len(), objects);
}

#[test]
fn re_adding_changed_file_replaces_its_entry() {
    let mut repo = Repo::new();
    add(&mut repo, "a.txt", "hello", 5);
    add(&mut repo, "b.txt", "x", 5);
    assert_eq!(add(&mut repo, "a.txt", "hello world", 6), StageAction::ReplaceAt(0));
    assert_eq!(repo.index.obj.len(), 2);
    let a: Vec<_> = repo.index.obj.iter().filter(|o| o.path == "a.txt").collect();
    assert_eq!(a.len(), 1);
    assert_eq!(a[0].mtime, 6);
}

#[test]
fn commit_without_changes_fails() {
    let mut repo = Repo::new();
    add(&mut repo, "a.txt", "hello", 5);
    let c1 = repo.commit_command("first", &vec![]).unwrap();
    let objects = repo.store.objects.len();
    assert_eq!(repo.commit_command("again", &vec![]), Err(VcsError::NoChanges));
    assert_eq!(repo.get_commit_from_branch("main"), c1);
    assert_eq!(repo.store.objects.len(), objects);
}

#[test]
fn edit_and_commit_then_diff_commits() {
    let mut repo = Repo::new();
    add(&mut repo, "a.txt", "hello", 5);
    let c1 = repo.commit_command("first", &vec![]).unwrap();
    let t1 = get_tree_from_commit(&repo.store, &c1).unwrap();
    add(&mut repo, "a.txt", "hello world", 6);
    let c2 = repo.commit_command("second", &vec![]).unwrap();
    let t2 = get_tree_from_commit(&repo.store, &c2).unwrap();
    assert_ne!(t1, t2);
    assert_eq!(get_commit_parent(&repo.store, &c2).unwrap(), vec![c1.clone()]);
    assert!(get_commit_parent(&repo.store, &c1).unwrap().is_empty());
    let d = diff_between_commits(&repo.store, &c1, &c2).unwrap();
    assert_eq!(d.len(), 1);
    assert_eq!(d[0].path, "a.txt");
    assert_eq!(d[0].kind, ChangeKind::Modified);
    assert_eq!(
        d[0].lines,
        vec![DiffLine::Deleted("hello".to_string()), DiffLine::Inserted("hello world".to_string())]
    );
    assert_eq!(
        detailed_print(&repo.store, &c2, &c1).unwrap(),
        "0 files added\n0 files deleted\n1 files modified\na.txt file: 1 insertions(+), 1 deletions(-)\n"
    );
}

#[test]
fn commit_drops_deleted_files_from_index() {
    let mut repo = Repo::new();
    add(&mut repo, "a.txt", "hello", 5);
    add(&mut repo, "b.txt", "bye", 5);
    repo.commit_command("first", &vec![]).unwrap();
    repo.commit_command("drop b", &vec!["b.txt".to_string()]).unwrap();
    assert_eq!(repo.index.obj.len(), 1);
    assert_eq!(repo.index.obj[0].path, "a.txt");
}

#[test]
fn write_tree_records_the_index() {
    let mut repo = Repo::new();
    add(&mut repo, "a.txt", "hello", 5);
    let t = write_tree_command(&mut repo);
    assert_eq!(t, Tree::new_tree_from_index(&repo.index).id);
    let files = get_files_from_tree(&repo.store, &t).unwrap();
    assert_eq!(files, vec![("a.txt".to_string(), "aaf4c61ddcc5e8a2dabede0f3b482cd9aea9434d".to_string())]);
}

#[test]
fn checkout_round_trip_restores_files() {
    let mut repo = Repo::new();
    add(&mut repo, "a.txt", "main a", 1);
    add(&mut repo, "shared.txt", "shared", 1);
    repo.commit_command("main", &vec![]).unwrap();
    repo.branch_command("feature");
    let u = repo.checkout("feature").unwrap();
    let mut w = files_after(&u, vec![]);
    add(&mut repo, "b.txt", "feature b", 2);
    add(&mut repo, "shared.txt", "changed", 2);
    repo.commit_command("feature", &vec![]).unwrap();
    w.push(("b.txt".to_string(), b"feature b".to_vec()));
    w.retain(|(p, _)| p != "shared.txt");
    w.push(("shared.txt".to_string(), b"changed".to_vec()));

    let ua = repo.checkout("main").unwrap();
    let wa = files_after(&ua, w);
    let ia = repo.index.content();
    assert_eq!(repo.head, "main");
    let ub = repo.checkout("feature").unwrap();
    let wb = files_after(&ub, wa.clone());
    assert_eq!(
        wb,
        vec![
            ("a.txt".to_string(), b"main a".to_vec()),
            ("b.txt".to_string(), b"feature b".to_vec()),
            ("shared.txt".to_string(), b"changed".to_vec()),
        ]
    );
    let ua2 = repo.checkout("main").unwrap();
    let wa2 = files_after(&ua2, wb);
    assert_eq!(wa2, wa);
    assert_eq!(
        wa2,
        vec![("a.txt".to_string(), b"main a".to_vec()), ("shared.txt".to_string(), b"shared".to_vec())]
    );
    assert_eq!(repo.index.content(), ia);
}

#[test]
fn checkout_of_unknown_branch_fails() {
    let mut repo = Repo::new();
    assert!(matches!(repo.checkout("nope"), Err(VcsError::InvalidArgument(_))));
    assert_eq!(repo.head, "main");
}

#[test]
fn fast_forward_then_diverged_merge() {
    let mut repo = Repo::new();
    add(&mut repo, "a.txt", "hello", 1);
    let c1 = repo.commit_command("c1", &vec![]).unwrap();
    repo.branch_command("feature");
    add(&mut repo, "a.txt", "hello world", 2);
    let c2 = repo.commit_command("c2", &vec![]).unwrap();
    assert!(is_ancestor(&repo.store, &c1, &c2));
    assert!(!is_ancestor(&repo.store, &c2, &c1));
    let objects = repo.store.objects.len();
    assert_eq!(repo.fast_forward_merge("feature", "main").unwrap(), c2);
    assert_eq!(repo.get_commit_from_branch("feature"), c2);
    assert_eq!(repo.store.objects.len(), objects);

    // diverge: main gets c3, feature gets c4
    add(&mut repo, "b.txt", "on main", 3);
    let c3 = repo.commit_command("c3", &vec![]).unwrap();
    repo.checkout("feature").unwrap();
    add(&mut repo, "c.txt", "on feature", 4);
    let c4 = repo.commit_command("c4", &vec![]).unwrap();
    assert_eq!(repo.fast_forward_merge("feature", "main"), Err(VcsError::NotFastForward));
    let out = repo.merge("main", false).unwrap();
    let m = match out {
        MergeOutcome::MergeCommit(id) => id,
        other => panic!("expected a merge commit, got {:?}", other),
    };
    assert_eq!(get_commit_parent(&repo.store, &m).unwrap(), vec![c4.clone(), c3.clone()]);
    assert_eq!(repo.get_commit_from_branch("feature"), m);
    let t = get_tree_from_commit(&repo.store, &m).unwrap();
    let paths: Vec<String> = get_files_from_tree(&repo.store, &t).unwrap().into_iter().map(|(p, _)| p).collect();
    assert_eq!(paths, vec!["a.txt".to_string(), "b.txt".to_string(), "c.txt".to_string()]);
    assert_eq!(repo.merge("main", false).unwrap(), MergeOutcome::UpToDate);
}

#[test]
fn merge_fast_forwards_head() {
    let mut repo = Repo::new();
    add(&mut repo, "a.txt", "hello", 1);
    repo.commit_command("c1", &vec![]).unwrap();
    repo.branch_command("feature");
    repo.checkout("feature").unwrap();
    add(&mut repo, "a.txt", "hello again", 2);
    let c2 = repo.commit_command("c2", &vec![]).unwrap();
    repo.checkout("main").unwrap();
    assert_eq!(repo.merge("feature", false).unwrap(), MergeOutcome::FastForward(c2.clone()));
    assert_eq!(repo.get_commit_from_branch("main"), c2);
}

#[test]
fn conflicting_merge_needs_auto_resolve() {
    let mut repo = Repo::new();
    add(&mut repo, "a.txt", "base", 1);
    repo.commit_command("c1", &vec![]).unwrap();
    repo.branch_command("feature");
    add(&mut repo, "a.txt", "main side", 2);
    repo.commit_command("c2", &vec![]).unwrap();
    repo.checkout("feature").unwrap();
    add(&mut repo, "a.txt", "feature side", 3);
    repo.commit_command("c3", &vec![]).unwrap();
    match repo.three_way_merge("feature", "main", false) {
        Err(VcsError::Conflict(paths)) => assert_eq!(paths, vec!["a.txt".to_string()]),
        other => panic!("expected a conflict, got {:?}", other),
    }
    let m = repo.three_way_merge("feature", "main", true).unwrap();
    let t = get_tree_from_commit(&repo.store, &m).unwrap();
    let files = get_files_from_tree(&repo.store, &t).unwrap();
    assert_eq!(files.len(), 1);
    assert_eq!(repo.store.get(&files[0].1).unwrap(), b"main side".to_vec());
}

#[test]
fn merge_tree_is_path_union_second_wins() {
    let mut repo = Repo::new();
    add(&mut repo, "a.txt", "1", 1);
    add(&mut repo, "b.txt", "2", 1);
    let a = repo.index.clone();
    let mut other = Repo::new();
    add(&mut other, "b.txt", "3", 1);
    add(&mut other, "c.txt", "4", 1);
    let b = other.index.clone();
    let m = merge_indexes(&a, &b);
    let got: Vec<(String, String)> = m.obj.iter().map(|o| (o.path.clone(), o.hash.clone())).collect();
    assert_eq!(got.len(), 3);
    assert_eq!(got[0].0, "a.txt");
    assert_eq!(got[1], ("b.txt".to_string(), b.obj[0].hash.clone()));
    assert_eq!(got[2].0, "c.txt");
    assert_eq!(diverged_files(&a, &b, &vcs::index::Index::new()), vec!["b.txt".to_string()]);
    // against a base that holds b's version of b.txt, only a changed it: a's version stays
    let r = resolve_indexes(&a, &b, &other.index);
    let got: Vec<(String, String)> = r.obj.iter().map(|o| (o.path.clone(), o.hash.clone())).collect();
    assert!(got.contains(&("b.txt".to_string(), a.obj[1].hash.clone())));
    assert!(diverged_files(&a, &b, &other.index).is_empty());
}

#[test]
fn status_classifies_paths() {
    let mut repo = Repo::new();
    add(&mut repo, "a.txt", "hello", 1);
    add(&mut repo, "gone.txt", "bye", 1);
    repo.commit_command("c1", &vec![]).unwrap();
    add(&mut repo, "new.txt", "new", 2);
    let scan = vec![
        WorkFile::from_content("a.txt", b"hello edited"),
        WorkFile::from_content("new.txt", b"new"),
        WorkFile::from_content("loose.txt", b"?"),
    ];
    let on_disk = vec![
        PathMeta { path: "a.txt".to_string(), meta: meta(7) },
        PathMeta { path: "new.txt".to_string(), meta: meta(8) },
    ];
    let rep = repo.status_command(&scan, &on_disk).unwrap();
    assert_eq!(rep.branch, "main");
    assert_eq!(rep.modified, vec!["a.txt".to_string()]);
    assert_eq!(rep.untracked, vec!["loose.txt".to_string()]);
    assert_eq!(rep.added, vec!["new.txt".to_string()]);
    assert_eq!(rep.deleted, vec!["gone.txt".to_string()]);
    assert_eq!(repo.index.obj.len(), 2);
    assert_eq!(repo.index.obj[0].path, "a.txt");
    assert_eq!(repo.index.obj[0].mtime, 7);
    assert_eq!(repo.index.obj[1].path, "new.txt");
    assert_eq!(repo.index.obj[1].mtime, 8);
}

#[test]
fn ignore_file_patterns() {
    let ps = parse_gitignore("# comment\n\n  target/  \n*.log\n").unwrap();
    assert_eq!(ps, vec!["target/**".to_string(), "*.log".to_string()]);
    assert!(is_ignored(&ps, "target/debug/x.o"));
    assert!(is_ignored(&ps, "logs/run.log"));
    assert!(!is_ignored(&ps, "src/main.rs"));
    assert!(matches!(parse_gitignore("a[\n"), Err(VcsError::InvalidArgument(_))));
}

#[test]
fn add_protocol_targets() {
    let mut repo = Repo::new();
    assert!(matches!(
        add_protocol(&mut repo, "nothing", &AddTarget::Missing, &vec![]),
        Err(VcsError::InvalidArgument(_))
    ));
    let files = vec![
        NewFile { path: "src/a.rs".to_string(), content: b"a".to_vec(), meta: meta(1) },
        NewFile { path: "target/out".to_string(), content: b"b".to_vec(), meta: meta(1) },
    ];
    let ps = parse_gitignore("target/\n").unwrap();
    let acts = add_protocol(&mut repo, ".", &AddTarget::Directory(files), &ps).unwrap();
    assert_eq!(acts, vec![StageAction::Insert]);
    assert_eq!(repo.index.obj.len(), 1);
    assert_eq!(repo.index.obj[0].path, "src/a.rs");
    let one = NewFile { path: "x.txt".to_string(), content: b"x".to_vec(), meta: meta(1) };
    add_protocol(&mut repo, "x.txt", &AddTarget::File(one), &ps).unwrap();
    assert_eq!(repo.index.obj.len(), 2);
}

#[test]
fn head_and_ref_text() {
    assert_eq!(parse_head("refs/heads/main\n").unwrap(), "main");
    assert!(matches!(parse_head("main"), Err(VcsError::Malformed(_))));
    assert_eq!(head_ref("dev"), "refs/heads/dev");
    assert_eq!(parse_ref("  abc \n"), "abc");
    assert_eq!(parse_ref(""), "");
}

#[test]
fn error_messages() {
    assert_eq!(VcsError::NoChanges.message(), "No changes detected. Commit aborted.");
    assert_eq!(VcsError::NotFound("x".to_string()).message(), "not found: x");
}

#[test]
fn diff_against_parent_and_between_branches() {
    let mut repo = Repo::new();
    assert!(matches!(repo.diff_between_current_last_commit(), Err(VcsError::InvalidArgument(_))));
    add(&mut repo, "a.txt", "hello", 1);
    repo.commit_command("c1", &vec![]).unwrap();
    assert!(matches!(repo.diff_between_current_last_commit(), Err(VcsError::InvalidArgument(_))));
    repo.branch_command("old");
    add(&mut repo, "a.txt", "hello world", 2);
    repo.commit_command("c2", &vec![]).unwrap();
    let d = repo.diff_between_current_last_commit().unwrap();
    assert_eq!(d.len(), 1);
    assert_eq!(d[0].kind, ChangeKind::Modified);
    let b = repo.diff_between_branches("old", "main").unwrap();
    assert_eq!(b.len(), 1);
    assert_eq!(b[0].lines, d[0].lines);
    assert!(repo.diff_between_branches("main", "main").unwrap().is_empty());
}

#[test]
fn status_recomputes_index_from_disk() {
    let mut repo = Repo::new();
    add(&mut repo, "a.txt", "hello", 1);
    repo.commit_command("c1", &vec![]).unwrap();
    repo.index.add_object(vcs::index::ObjectInfo::new("tree", "sub", "t0", &meta(1)));
    add(&mut repo, "gone.txt", "bye", 1);
    let scan = vec![WorkFile::from_content("a.txt", b"hello")];
    let on_disk = vec![
        PathMeta { path: "a.txt".to_string(), meta: meta(9) },
        PathMeta { path: "sub".to_string(), meta: meta(9) },
    ];
    let rep = repo.status_command(&scan, &on_disk).unwrap();
    assert!(rep.modified.is_empty());
    assert_eq!(repo.index.obj.len(), 1);
    assert_eq!(repo.index.obj[0].path, "a.txt");
    assert_eq!(repo.index.obj[0].ctime, 9);
    assert_eq!(repo.index.obj[0].hash, "aaf4c61ddcc5e8a2dabede0f3b482cd9aea9434d");
}

#[test]
fn merge_keeps_edits_of_both_sides() {
    let mut repo = Repo::new();
    add(&mut repo, "a.txt", "a0", 1);
    add(&mut repo, "b.txt", "b0", 1);
    add(&mut repo, "gone.txt", "g0", 1);
    repo.commit_command("base", &vec![]).unwrap();
    repo.branch_command("feature");
    add(&mut repo, "a.txt", "a on main", 2);
    repo.commit_command("main edits a", &vec![]).unwrap();
    repo.checkout("feature").unwrap();
    add(&mut repo, "b.txt", "b on feature", 3);
    repo.commit_command("feature edits b and drops gone", &vec!["gone.txt".to_string()]).unwrap();
    let m = match repo.merge("main", false).unwrap() {
        MergeOutcome::MergeCommit(id) => id,
        other => panic!("expected a merge commit, got {:?}", other),
    };
    let t = get_tree_from_commit(&repo.store, &m).unwrap();
    let mut files: Vec<(String, Vec<u8>)> = get_files_from_tree(&repo.store, &t)
        .unwrap()
        .into_iter()
        .map(|(p, h)| (p, repo.store.get(&h).unwrap()))
        .collect();
    files.sort();
    assert_eq!(
        files,
        vec![
            ("a.txt".to_string(), b"a on main".to_vec()),
            ("b.txt".to_string(), b"b on feature".to_vec()),
        ]
    );
}
