use vcs::compression::{compress, decompress};
use vcs::error::VcsError;
use vcs::hashing::calculate_hash;
use vcs::index::{verifcation, FileMeta, Index, ObjectInfo, StageAction};
use vcs::objects::{Blob, Commit, CommitContent, Tree};
use vcs::store::{create_object_path, dec_obj, ObjectStore};

fn meta(ctime: u64, mtime: u64) -> FileMeta {
    FileMeta { ctime, mtime, size: 5, permissions: 33188 }
}

#[test]
fn compress_then_decompress_gives_input_back() {
    let data = b"some bytes \x00\xff and more".to_vec();
    let z = compress(&data);
    assert_ne!(z, data);
    assert_eq!(decompress(&z).unwrap(), data);
    let empty: Vec<u8> = Vec::new();
    assert_eq!(decompress(&compress(&empty)).unwrap(), empty);
}

#[test]
fn decompress_rejects_garbage() {
    assert!(decompress(b"not a zlib stream").is_none());
}

#[test]
fn hash_is_sha1_hex() {
    assert_eq!(calculate_hash(b"abc"), "a9993e364706816aba3e25717850c26c9cd0d89d");
    assert_eq!(calculate_hash(b"abc"), calculate_hash(b"abc"));
}

#[test]
fn put_twice_stores_one_object() {
    let mut store = ObjectStore::new();
    let h1 = store.put(b"hello");
    let h2 = store.put(b"hello");
    assert_eq!(h1, "aaf4c61ddcc5e8a2dabede0f3b482cd9aea9434d");
    assert_eq!(h1, h2);
    assert_eq!(store.objects.len(), 1);
    assert_eq!(store.get(&h1).unwrap(), b"hello".to_vec());
    assert_eq!(dec_obj(&store, &h1).unwrap(), "hello");
}

#[test]
fn get_reports_missing_and_corrupt_objects() {
    let mut store = ObjectStore::new();
    assert!(matches!(store.get("0123"), Err(VcsError::NotFound(_))));
    store.insert_raw("abcd".to_string(), b"garbage".to_vec());
    assert!(matches!(store.get("abcd"), Err(VcsError::Corrupt(_))));
    assert!(store.contains("abcd"));
}

#[test]
fn object_path_splits_after_two_digits() {
    assert_eq!(create_object_path("aaf4c61d"), "aa/f4c61d");
}

#[test]
fn object_info_round_trips_through_its_line() {
    let o = ObjectInfo::new("blob", "src/a.txt", "aaf4c61ddcc5e8a2dabede0f3b482cd9aea9434d", &meta(10, 20));
    let line = o.pretty_print();
    assert_eq!(line, "33188 aaf4c61ddcc5e8a2dabede0f3b482cd9aea9434d blob src/a.txt 5 10 20");
    let back = ObjectInfo::from_pretty_print(&line).unwrap();
    assert_eq!(back.path, "src/a.txt");
    assert_eq!(back.hash, o.hash);
    assert_eq!(back.ctime, 10);
    assert_eq!(back.mtime, 20);
    assert_eq!(back.size, 5);
    assert_eq!(back.permissions, 33188);
}

#[test]
fn malformed_index_lines_are_rejected() {
    assert!(matches!(ObjectInfo::from_pretty_print("1 2 3 4"), Err(VcsError::Malformed(_))));
    assert!(matches!(
        ObjectInfo::from_pretty_print("x h blob p 1 2 3"),
        Err(VcsError::Malformed(_))
    ));
    assert!(matches!(
        ObjectInfo::from_pretty_print("4294967296 h blob p 1 2 3"),
        Err(VcsError::Malformed(_))
    ));
    assert!(ObjectInfo::from_pretty_print("4294967295 h blob p 1 2 3").is_ok());
}

#[test]
fn index_text_parses_back() {
    let mut idx = Index::new();
    idx.add_object(ObjectInfo::new("blob", "a.txt", "h1", &meta(1, 2)));
    idx.add_object(ObjectInfo::new("blob", "b.txt", "h2", &meta(3, 4)));
    let text = idx.content();
    assert_eq!(text, "33188 h1 blob a.txt 5 1 2\n33188 h2 blob b.txt 5 3 4\n");
    let back = Index::parse(&text).unwrap();
    assert_eq!(back.obj.len(), 2);
    assert_eq!(back.obj[1].path, "b.txt");
    assert!(matches!(Index::parse("oops\n"), Err(VcsError::Malformed(_))));
}

#[test]
fn staging_classifies_insert_nochange_replace() {
    let mut idx = Index::new();
    let first = ObjectInfo::new("blob", "a.txt", "h1", &meta(1, 2));
    assert_eq!(verifcation(&idx, &first), StageAction::Insert);
    assert_eq!(idx.stage(first.clone()), StageAction::Insert);
    assert_eq!(idx.stage(first.clone()), StageAction::NoChange);
    assert_eq!(idx.obj.len(), 1);
    let other = ObjectInfo::new("blob", "b.txt", "h9", &meta(1, 2));
    assert_eq!(idx.stage(other), StageAction::Insert);
    let changed = ObjectInfo::new("blob", "a.txt", "h2", &meta(1, 3));
    assert_eq!(idx.stage(changed), StageAction::ReplaceAt(0));
    assert_eq!(idx.obj.len(), 2);
    assert_eq!(idx.obj[0].path, "b.txt");
    assert_eq!(idx.obj[1].hash, "h2");
    let same_times_new_hash = ObjectInfo::new("blob", "a.txt", "h3", &meta(1, 3));
    assert_eq!(verifcation(&idx, &same_times_new_hash), StageAction::ReplaceAt(1));
}

#[test]
fn clean_index_drops_listed_paths() {
    let mut idx = Index::new();
    idx.add_object(ObjectInfo::new("blob", "a.txt", "h1", &meta(1, 2)));
    idx.add_object(ObjectInfo::new("blob", "b.txt", "h2", &meta(1, 2)));
    idx.clean_index(&vec!["a.txt".to_string(), "zzz".to_string()]);
    assert_eq!(idx.obj.len(), 1);
    assert_eq!(idx.obj[0].path, "b.txt");
}

#[test]
fn blob_and_tree_identities() {
    let b = Blob::new(b"hello".to_vec());
    assert_eq!(b.get_hash(), "aaf4c61ddcc5e8a2dabede0f3b482cd9aea9434d");
    let t = Tree::new("");
    assert_eq!(t.id, "594f49700df7c184041da1adbe58c3079bfd49af");
    let idx = Index::new();
    assert_eq!(Tree::new_tree_from_index(&idx).id, t.id);
    assert_eq!(Tree::get_index_content(&idx), "");
    let mut store = ObjectStore::new();
    t.create_tree(&mut store, "");
    assert_eq!(dec_obj(&store, &t.id).unwrap(), "");
}

#[test]
fn commit_text_and_identity() {
    let c = CommitContent::new("1234".to_string(), vec![], "first".to_string());
    assert_eq!(c.pretty_print(), "tree 1234\n\nfirst\n");
    let commit = Commit::new("1234".to_string(), vec![], "first".to_string());
    assert_eq!(commit.id, "dd8ca893e9350f5d35dc6557ebdc363fbff96760");
    let p = CommitContent::new("t".to_string(), vec!["p1".to_string(), "p2".to_string()], "m".to_string());
    assert_eq!(p.pretty_print(), "tree t\nparent p1\nparent p2\n\nm\n");
}

#[test]
fn commit_parsing_keeps_multi_line_messages() {
    let c = CommitContent::from_pretty_print("tree t\nparent p1\n\nline one\nline two\n").unwrap();
    assert_eq!(c.tree, "t");
    assert_eq!(c.parents, vec!["p1".to_string()]);
    assert_eq!(c.message, "line one\nline two");
}

#[test]
fn commit_parsing_errors() {
    assert!(matches!(CommitContent::from_pretty_print("parent p\n\nmsg\n"), Err(VcsError::Malformed(_))));
    assert!(matches!(CommitContent::from_pretty_print("tree t\n\n"), Err(VcsError::Malformed(_))));
    assert!(matches!(CommitContent::from_pretty_print("tree t\nbogus\n\nm\n"), Err(VcsError::Malformed(_))));
}

#[test]
fn unicode_white_space_separates_index_fields() {
    assert!(matches!(
        ObjectInfo::from_pretty_print("1 h \u{3000} p 5 6 7"),
        Err(VcsError::Malformed(_))
    ));
    let o = ObjectInfo::from_pretty_print("1\u{a0}h\u{2003}blob p 5 6 7").unwrap();
    assert_eq!(o.hash, "h");
    assert_eq!(o.obj_type, "blob");
    assert_eq!(vcs::text::words("a\u{3000}b\u{85}c"), vec!["a".to_string(), "b".to_string(), "c".to_string()]);
    assert_eq!(vcs::commands::parse_ref("\u{a0}abc\u{2003}\n"), "abc");
    assert!(vcs::text::is_blank_str("\u{2028} \t"));
}
