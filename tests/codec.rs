use hit::commit::{parse_signature, Commit, Signature};
use hit::error::Error;
use hit::objects::{Tree, TreeEntry};

fn sig(name: &str, email: &str, ts: u64, off: &str) -> Signature {
    Signature {
        name: name.to_string(),
        email: email.to_string(),
        timestamp: ts,
        offset: off.to_string(),
    }
}

fn entry(mode: &str, name: &str, sha: &str) -> TreeEntry {
    TreeEntry { mode: mode.to_string(), name: name.to_string(), sha: sha.to_string() }
}

#[test]
fn tree_round_trip_keeps_entries_and_order() {
    let t = Tree {
        entries: vec![
            entry("100644", "b.txt", "b6fc4c620b67d95f953a5c1c1230aaab5db5a1b0"),
            entry("40000", "dir with space", "0123456789abcdef0123456789abcdef01234567"),
            entry("100755", "a.sh", "ffffffffffffffffffffffffffffffffffffffff"),
        ],
    };
    let bytes = t.encode();
    let back = Tree::parse(&bytes).unwrap();
    assert_eq!(back.entries.len(), 3);
    for (a, b) in t.entries.iter().zip(back.entries.iter()) {
        assert_eq!(a.mode, b.mode);
        assert_eq!(a.name, b.name);
        assert_eq!(a.sha, b.sha);
    }
}

#[test]
fn tree_encoding_uses_raw_id_bytes() {
    let t = Tree { entries: vec![entry("100644", "a", "00ff00ff00ff00ff00ff00ff00ff00ff00ff00ff")] };
    let bytes = t.encode();
    let mut want = b"100644 a\0".to_vec();
    for i in 0..20 {
        want.push(if i % 2 == 0 { 0x00 } else { 0xff });
    }
    assert_eq!(bytes, want);
}

#[test]
fn empty_tree_encodes_to_nothing() {
    let t = Tree { entries: vec![] };
    assert!(t.encode().is_empty());
    assert_eq!(Tree::parse(&[]).unwrap().entries.len(), 0);
}

#[test]
fn truncated_tree_is_corrupt() {
    let t = Tree { entries: vec![entry("100644", "a", "b6fc4c620b67d95f953a5c1c1230aaab5db5a1b0")] };
    let bytes = t.encode();
    assert_eq!(Tree::parse(&bytes[..bytes.len() - 1]).err(), Some(Error::CorruptObject));
    assert_eq!(Tree::parse(b"100644 a").err(), Some(Error::CorruptObject));
}

#[test]
fn commit_round_trip_keeps_author_and_committer() {
    let c = Commit {
        tree: "b6fc4c620b67d95f953a5c1c1230aaab5db5a1b0".to_string(),
        parent: Some("0123456789abcdef0123456789abcdef01234567".to_string()),
        author: sig("Ada Lovelace", "ada@example.com", 1700000000, "+0100"),
        committer: sig("Bob", "bob@example.com", 42, "-0730"),
        message: "first line\n\nbody after a blank line".to_string(),
    };
    let bytes = c.encode();
    let back = Commit::parse(&bytes).unwrap();
    assert_eq!(back.tree, c.tree);
    assert_eq!(back.parent, c.parent);
    assert_eq!(back.author.name, "Ada Lovelace");
    assert_eq!(back.author.email, "ada@example.com");
    assert_eq!(back.author.timestamp, 1700000000);
    assert_eq!(back.author.offset, "+0100");
    assert_eq!(back.committer.name, "Bob");
    assert_eq!(back.committer.timestamp, 42);
    assert_eq!(back.committer.offset, "-0730");
    assert_eq!(back.message, c.message);
}

#[test]
fn commit_text_layout() {
    let c = Commit {
        tree: "b6fc4c620b67d95f953a5c1c1230aaab5db5a1b0".to_string(),
        parent: None,
        author: sig("You", "you@example.com", 7, "+0000"),
        committer: sig("You", "you@example.com", 7, "+0000"),
        message: "first".to_string(),
    };
    let text = String::from_utf8(c.encode()).unwrap();
    assert_eq!(
        text,
        "tree b6fc4c620b67d95f953a5c1c1230aaab5db5a1b0\n\
         author You <you@example.com> 7 +0000\n\
         committer You <you@example.com> 7 +0000\n\
         \n\
         first\n"
    );
    assert!(!text.contains("parent"));
}

#[test]
fn commit_headers_by_prefix_and_later_lines_win() {
    let text = "tree aaaa\nextra header\ntree bbbb\nauthor A <a@x> 1 +0000\ncommitter C <c@x> 2 +0000\n\nmsg\n";
    let c = Commit::parse(text.as_bytes()).unwrap();
    assert_eq!(c.tree, "bbbb");
    assert_eq!(c.parent, None);
    assert_eq!(c.message, "msg");
}

#[test]
fn commit_without_blank_line_or_author_is_corrupt() {
    let no_blank = "tree aaaa\nauthor A <a@x> 1 +0000\ncommitter C <c@x> 2 +0000\n";
    assert_eq!(Commit::parse(no_blank.as_bytes()).err(), Some(Error::CorruptObject));
    let no_author = "tree aaaa\ncommitter C <c@x> 2 +0000\n\nmsg\n";
    assert_eq!(Commit::parse(no_author.as_bytes()).err(), Some(Error::CorruptObject));
    assert_eq!(Commit::parse(&[0xff, 0xfe, 10, 10]).err(), Some(Error::CorruptObject));
}

#[test]
fn signature_parsing() {
    let s = parse_signature(b"Jane Q. Doe <jane@doe.org> 1234567890 -0500").unwrap();
    assert_eq!(s.name, "Jane Q. Doe");
    assert_eq!(s.email, "jane@doe.org");
    assert_eq!(s.timestamp, 1234567890);
    assert_eq!(s.offset, "-0500");
    assert!(parse_signature(b"Jane <jane> notanumber +0000").is_none());
    assert!(parse_signature(b"Jane jane 1 +0000").is_none());
    assert!(parse_signature(b"Jane <jane> 99999999999999999999 +0000").is_none());
}

#[test]
fn offsets_are_written_with_sign_hours_and_minutes() {
    assert_eq!(hit::commit::offset_text(0), "+00:00");
    assert_eq!(hit::commit::offset_text(19800), "+05:30");
    assert_eq!(hit::commit::offset_text(-1800), "-00:30");
    assert_eq!(hit::commit::offset_text(-43200), "-12:00");
}
