use hit::index::{ignored, Index, IndexEntry};

fn e(path: &str, sha: &str) -> IndexEntry {
    IndexEntry { path: path.to_string(), sha: sha.to_string(), mode: "100644".to_string() }
}

#[test]
fn add_replaces_in_place() {
    let mut idx = Index::new();
    let none: Vec<String> = vec![];
    idx.add(e("a.txt", "1"), &none);
    idx.add(e("b.txt", "2"), &none);
    idx.add(e("a.txt", "3"), &none);
    assert_eq!(idx.entries.len(), 2);
    assert_eq!(idx.entries[0].path, "a.txt");
    assert_eq!(idx.entries[0].sha, "3");
    assert_eq!(idx.entries[1].path, "b.txt");
}

#[test]
fn ignore_applies_on_first_insert_only() {
    let mut idx = Index::new();
    let ign = vec!["logs/".to_string(), "".to_string()];
    idx.add(e("logs/error.log", "1"), &ign);
    assert_eq!(idx.entries.len(), 0);
    let none: Vec<String> = vec![];
    idx.add(e("logs/error.log", "1"), &none);
    idx.add(e("logs/error.log", "2"), &ign);
    assert_eq!(idx.entries.len(), 1);
    assert_eq!(idx.entries[0].sha, "2");
    assert!(ignored(&"logs/x".to_string(), &ign));
    assert!(!ignored(&"src/x".to_string(), &ign));
}

#[test]
fn remove_is_noop_when_absent() {
    let mut idx = Index::new();
    let none: Vec<String> = vec![];
    idx.add(e("a.txt", "1"), &none);
    idx.add(e("b.txt", "2"), &none);
    idx.remove(&"c.txt".to_string());
    assert_eq!(idx.entries.len(), 2);
    idx.remove(&"a.txt".to_string());
    assert_eq!(idx.entries.len(), 1);
    assert_eq!(idx.entries[0].path, "b.txt");
    assert_eq!(idx.position(&"b.txt".to_string()), Some(0));
    assert_eq!(idx.position(&"a.txt".to_string()), None);
}

#[test]
fn ignore_file_lines() {
    let text = "# comment\n\n logs/ \r\ntarget\n  #also comment\nlast";
    assert_eq!(
        hit::index::ignore_prefixes(text),
        vec!["logs/".to_string(), "target".to_string(), "last".to_string()]
    );
    assert!(hit::index::ignore_prefixes("").is_empty());
    assert!(hit::index::ignore_prefixes("\n\n").is_empty());
}
