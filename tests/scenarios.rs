use hit::builder::{
    add_file, build_tree_from_index, commit, get_author_info, hash_object, reset, update_head,
    CommitOutcome, ConfigError, ResetOutcome,
};
use hit::commit::Signature;
use hit::history::log;
use hit::index::{index_matches_head, Index};
use hit::refs::{head_for_branch, parse_head, Head};
use hit::store::{Object, ObjectStore};
use hit::worktree::{build_tree_map, load_tree_map_from_commit, restore_commit, status_diff};

fn me() -> Signature {
    Signature {
        name: "You".to_string(),
        email: "you@example.com".to_string(),
        timestamp: 1700000000,
        offset: "+0000".to_string(),
    }
}

fn first_commit() -> (ObjectStore, Index, String) {
    let mut store = ObjectStore::new();
    let mut index = Index::new();
    let none: Vec<String> = vec![];
    add_file(&mut store, &mut index, &"a.txt".to_string(), b"hello", &none).unwrap();
    let id = match commit(&mut store, &index, None, &me(), "first").unwrap() {
        CommitOutcome::Created(id) => id,
        _ => panic!("expected a commit"),
    };
    (store, index, id)
}

#[test]
fn stage_a_file() {
    let mut store = ObjectStore::new();
    let mut index = Index::new();
    let none: Vec<String> = vec![];
    add_file(&mut store, &mut index, &"a.txt".to_string(), b"hello", &none).unwrap();
    assert_eq!(index.entries.len(), 1);
    assert_eq!(index.entries[0].path, "a.txt");
    assert_eq!(index.entries[0].sha, "b6fc4c620b67d95f953a5c1c1230aaab5db5a1b0");
    assert_eq!(index.entries[0].mode, "100644");
}

#[test]
fn first_commit_has_one_file_and_no_parent() {
    let (store, _index, id) = first_commit();
    let c = match store.read(&id).unwrap() {
        Object::Commit(c) => c,
        _ => panic!("expected a commit"),
    };
    assert_eq!(c.parent, None);
    assert_eq!(c.message, "first");
    match store.read(&c.tree).unwrap() {
        Object::Tree(t) => {
            assert_eq!(t.entries.len(), 1);
            assert_eq!(t.entries[0].name, "a.txt");
            assert_eq!(t.entries[0].mode, "100644");
            assert_eq!(t.entries[0].sha, "b6fc4c620b67d95f953a5c1c1230aaab5db5a1b0");
        }
        _ => panic!("expected a tree"),
    }
    let up = update_head("ref: refs/heads/master", &id);
    assert_eq!(up.path, "refs/heads/master");
    assert_eq!(up.text, format!("{}\n", id));
    let det = update_head("0123\n", &id);
    assert_eq!(det.path, "HEAD");
}

#[test]
fn commit_without_changes_is_refused() {
    let (mut store, index, id) = first_commit();
    let before = store.len();
    assert!(matches!(commit(&mut store, &index, Some(&id), &me(), "again"), Ok(CommitOutcome::UpToDate)));
    assert_eq!(store.len(), before);
    assert!(index_matches_head(&index, &load_tree_map_from_commit(&store, &id).unwrap()));
    let empty = Index::new();
    assert!(matches!(commit(&mut store, &empty, Some(&id), &me(), "x"), Ok(CommitOutcome::NothingToCommit)));
}

#[test]
fn second_commit_has_parent_and_log_walks_back() {
    let (mut store, mut index, first) = first_commit();
    let none: Vec<String> = vec![];
    add_file(&mut store, &mut index, &"dir/b.txt".to_string(), b"bee", &none).unwrap();
    let second = match commit(&mut store, &index, Some(&first), &me(), "second").unwrap() {
        CommitOutcome::Created(id) => id,
        _ => panic!("expected a commit"),
    };
    let chain = log(&store, &second);
    assert_eq!(chain.len(), 2);
    assert_eq!(chain[0].0, second);
    assert_eq!(chain[0].1.parent, Some(first.clone()));
    assert_eq!(chain[1].0, first);
    let map = load_tree_map_from_commit(&store, &second).unwrap();
    assert_eq!(map.len(), 2);
    assert!(map.contains(&("a.txt".to_string(), "b6fc4c620b67d95f953a5c1c1230aaab5db5a1b0".to_string())));
    let bee = hash_object(&mut store, b"bee", false).unwrap();
    assert!(map.contains(&("dir/b.txt".to_string(), bee)));
    assert!(index_matches_head(&index, &map));
}

#[test]
fn nested_directories_build_nested_trees() {
    let mut store = ObjectStore::new();
    let mut index = Index::new();
    let none: Vec<String> = vec![];
    add_file(&mut store, &mut index, &"x/y/z.txt".to_string(), b"z", &none).unwrap();
    add_file(&mut store, &mut index, &"top.txt".to_string(), b"t", &none).unwrap();
    add_file(&mut store, &mut index, &"x/w.txt".to_string(), b"w", &none).unwrap();
    let root = build_tree_from_index(&mut store, &index).unwrap();
    match store.read(&root).unwrap() {
        Object::Tree(t) => {
            let names: Vec<&str> = t.entries.iter().map(|e| e.name.as_str()).collect();
            assert_eq!(names, vec!["x", "top.txt"]);
            assert_eq!(t.entries[0].mode, "40000");
        }
        _ => panic!("expected a tree"),
    }
    let map = build_tree_map(&store, &root).unwrap();
    let paths: Vec<&str> = map.iter().map(|p| p.0.as_str()).collect();
    assert_eq!(paths, vec!["x/y/z.txt", "x/w.txt", "top.txt"]);
}

#[test]
fn checkout_new_branch_keeps_files() {
    let (store, _index, id) = first_commit();
    let files = restore_commit(&store, &id).unwrap();
    assert_eq!(files, vec![("a.txt".to_string(), b"hello".to_vec())]);
    let again = restore_commit(&store, &id).unwrap();
    assert_eq!(files, again);
    let head = head_for_branch("feature");
    match parse_head(&head) {
        Head::Symbolic(p) => assert_eq!(p, "refs/heads/feature"),
        _ => panic!("expected a symbolic HEAD"),
    }
}

#[test]
fn modified_file_then_reset() {
    let (mut store, mut index, id) = first_commit();
    let map = load_tree_map_from_commit(&store, &id).unwrap();
    let live = vec![("a.txt".to_string(), b"changed".to_vec())];
    let st = status_diff(&map, &live);
    assert_eq!(st.modified, vec!["a.txt".to_string()]);
    assert!(st.untracked.is_empty() && st.deleted.is_empty());
    let none: Vec<String> = vec![];
    add_file(&mut store, &mut index, &"a.txt".to_string(), b"changed", &none).unwrap();
    assert_ne!(index.entries[0].sha, "b6fc4c620b67d95f953a5c1c1230aaab5db5a1b0");
    assert_eq!(reset(&mut index, &map, &"a.txt".to_string(), &none), ResetOutcome::Unstaged);
    assert_eq!(index.entries[0].sha, "b6fc4c620b67d95f953a5c1c1230aaab5db5a1b0");
    assert_eq!(reset(&mut index, &map, &"new.txt".to_string(), &none), ResetOutcome::Removed);
}

#[test]
fn status_lists_untracked_and_deleted() {
    let (store, _index, id) = first_commit();
    let map = load_tree_map_from_commit(&store, &id).unwrap();
    let live = vec![("b.txt".to_string(), b"new".to_vec())];
    let st = status_diff(&map, &live);
    assert!(st.modified.is_empty());
    assert_eq!(st.untracked, vec!["b.txt".to_string()]);
    assert_eq!(st.deleted, vec!["a.txt".to_string()]);
    let empty: Vec<(String, String)> = vec![];
    let st2 = status_diff(&empty, &live);
    assert_eq!(st2.untracked, vec!["b.txt".to_string()]);
}

#[test]
fn restore_then_status_is_clean() {
    let mut store = ObjectStore::new();
    let mut index = Index::new();
    let none: Vec<String> = vec![];
    add_file(&mut store, &mut index, &"a.txt".to_string(), b"hello", &none).unwrap();
    add_file(&mut store, &mut index, &"d/e.txt".to_string(), b"e", &none).unwrap();
    let id = match commit(&mut store, &index, None, &me(), "m").unwrap() {
        CommitOutcome::Created(id) => id,
        _ => panic!("expected a commit"),
    };
    let files = restore_commit(&store, &id).unwrap();
    let map = load_tree_map_from_commit(&store, &id).unwrap();
    assert!(status_diff(&map, &files).is_clean());
}

#[test]
fn author_fallbacks() {
    let (n, e) = get_author_info(Ok(None), Err(ConfigError::HomeDirNotFound));
    assert_eq!(n, "You");
    assert_eq!(e, "you@example.com");
    let (n2, e2) = get_author_info(Ok(Some("Ada".to_string())), Ok(Some("a@b".to_string())));
    assert_eq!((n2.as_str(), e2.as_str()), ("Ada", "a@b"));
}

#[test]
fn reading_a_tree_as_a_commit_is_invalid() {
    let (store, _index, id) = first_commit();
    let c = match store.read(&id).unwrap() {
        Object::Commit(c) => c,
        _ => panic!("expected a commit"),
    };
    assert!(load_tree_map_from_commit(&store, &c.tree).is_err());
    assert!(restore_commit(&store, "zz").is_err());
}

#[test]
fn tree_with_bad_id_is_invalid_input() {
    let mut store = ObjectStore::new();
    let mut index = Index::new();
    let none: Vec<String> = vec![];
    index.add(
        hit::index::IndexEntry { path: "a.txt".to_string(), sha: "nothex".to_string(), mode: "100644".to_string() },
        &none,
    );
    assert_eq!(build_tree_from_index(&mut store, &index).err(), Some(hit::error::Error::InvalidInput));
    assert_eq!(store.len(), 0);
}

#[test]
fn same_directory_is_one_subtree() {
    let mut store = ObjectStore::new();
    let mut index = Index::new();
    let none: Vec<String> = vec![];
    add_file(&mut store, &mut index, &"d/a".to_string(), b"1", &none).unwrap();
    add_file(&mut store, &mut index, &"e".to_string(), b"2", &none).unwrap();
    add_file(&mut store, &mut index, &"d/b".to_string(), b"3", &none).unwrap();
    let root = build_tree_from_index(&mut store, &index).unwrap();
    let again = build_tree_from_index(&mut store, &index).unwrap();
    assert_eq!(root, again);
    match store.read(&root).unwrap() {
        Object::Tree(t) => {
            assert_eq!(t.entries.len(), 2);
            assert_eq!(t.entries[0].name, "d");
            assert_eq!(t.entries[1].name, "e");
        }
        _ => panic!("expected a tree"),
    }
}

#[test]
fn rebuilding_same_index_changes_nothing() {
    let mut store = ObjectStore::new();
    let mut index = Index::new();
    let none: Vec<String> = vec![];
    add_file(&mut store, &mut index, &"x/y.txt".to_string(), b"y", &none).unwrap();
    add_file(&mut store, &mut index, &"z.txt".to_string(), b"z", &none).unwrap();
    let first = build_tree_from_index(&mut store, &index).unwrap();
    let n = store.len();
    let second = build_tree_from_index(&mut store, &index).unwrap();
    assert_eq!(first, second);
    assert_eq!(store.len(), n);
}

#[test]
fn one_file_tree_has_expected_id() {
    let mut store = ObjectStore::new();
    let mut index = Index::new();
    let none: Vec<String> = vec![];
    add_file(&mut store, &mut index, &"a.txt".to_string(), b"hello", &none).unwrap();
    let root = build_tree_from_index(&mut store, &index).unwrap();
    let mut payload = b"100644 a.txt\0".to_vec();
    payload.extend(hex::decode("b6fc4c620b67d95f953a5c1c1230aaab5db5a1b0").unwrap());
    assert_eq!(root, hit::store::hash_payload(hit::store::ObjectKind::Tree, &payload));
    let d = hit::store::cat_file(&store, &root).unwrap();
    assert_eq!(d, payload);
}

#[test]
fn hash_object_without_write_leaves_store() {
    let mut store = ObjectStore::new();
    let id = hash_object(&mut store, b"hello", false).unwrap();
    assert_eq!(id, "b6fc4c620b67d95f953a5c1c1230aaab5db5a1b0");
    assert_eq!(store.len(), 0);
    let id2 = hash_object(&mut store, b"hello", true).unwrap();
    assert_eq!(id, id2);
    assert_eq!(store.len(), 1);
    assert_eq!(hash_object(&mut store, b"hello", true).unwrap(), id);
    assert_eq!(store.len(), 1);
}

#[test]
fn status_lists_a_deleted_path_once() {
    let map = vec![
        ("a".to_string(), "1".to_string()),
        ("a".to_string(), "2".to_string()),
    ];
    let live: Vec<(String, Vec<u8>)> = vec![];
    assert_eq!(status_diff(&map, &live).deleted, vec!["a".to_string()]);
}
