use mallard::cli::{default_index_path, parse_edge_kinds};
use mallard::index::Counters;
use mallard::model::{EdgeKind, FileRecord, FileStatus, MallardError, ProcessOutcome};
use mallard::query::Direction;
use mallard::walk::{classify_entry, descend_into, language_of, walk, with_forward_slashes, FoundEntry, WalkOptions};

fn found(rel: &str, body: &[u8]) -> FoundEntry {
    FoundEntry {
        path: format!("/r/{rel}"),
        relative_path: Some(rel.to_string()),
        file_name: rel.rsplit('/').next().map(str::to_string),
        is_symlink: false,
        link_inside_root: false,
        is_file: true,
        size_bytes: Some(body.len() as u64),
        head: Some(body.to_vec()),
    }
}

fn opts(max: u64, allow: &[&str]) -> WalkOptions {
    WalkOptions { max_file_bytes: max, language_allow_list: allow.iter().map(|s| s.to_string()).collect() }
}

#[test]
fn edge_kind_lists_parse_with_blanks_and_spaces() {
    assert_eq!(parse_edge_kinds("").unwrap(), Vec::<EdgeKind>::new());
    assert_eq!(parse_edge_kinds(" calls , imports,,").unwrap(), vec![EdgeKind::Calls, EdgeKind::Imports]);
    assert_eq!(parse_edge_kinds("tested_by").unwrap(), vec![EdgeKind::TestedBy]);
}

#[test]
fn unknown_edge_kind_is_refused_by_name() {
    match parse_edge_kinds("calls, callz ,imports") {
        Err(MallardError::Other(m)) => assert_eq!(m, "unknown edge kind: callz"),
        other => panic!("got {other:?}"),
    }
}

#[test]
fn default_index_path_uses_twelve_sha_characters() {
    assert_eq!(default_index_path("0123456789abcdef"), ".mallard/index-0123456789ab.duckdb");
    assert_eq!(default_index_path("abc"), ".mallard/index-abc.duckdb");
}

#[test]
fn direction_names_parse() {
    assert_eq!(Direction::parse("out").unwrap(), Direction::Out);
    assert_eq!(Direction::parse("in").unwrap(), Direction::In);
    assert_eq!(Direction::parse("both").unwrap(), Direction::Both);
    match Direction::parse("sideways") {
        Err(e) => assert_eq!(e.message(), "unknown direction \"sideways\""),
        Ok(d) => panic!("got {d:?}"),
    }
}

#[test]
fn error_messages_follow_their_kind() {
    assert_eq!(MallardError::Io("gone".to_string()).message(), "io error: gone");
    assert_eq!(MallardError::InvalidPath("x".to_string()).message(), "invalid path: x");
    assert_eq!(MallardError::Other("plain".to_string()).message(), "plain");
    assert_eq!(
        MallardError::VersionMismatch { found: 1, expected: 2 }.message(),
        "index format version mismatch: found 1, expected 2"
    );
}

#[test]
fn walk_skips_pruned_directories() {
    assert!(descend_into(0, true, "target", false));
    assert!(!descend_into(1, true, "target", false));
    assert!(!descend_into(2, true, ".git", false));
    assert!(!descend_into(1, true, "node_modules", false));
    assert!(descend_into(1, false, "target", false));
    assert!(descend_into(1, true, "src", false));
    assert!(!descend_into(1, true, "src", true));
    assert!(descend_into(1, false, "link.rs", true));
}

#[test]
fn symlinks_inside_the_root_are_followed() {
    let o = opts(100, &[]);
    let mut inside = found("link.rs", b"pub fn f() {}");
    inside.is_symlink = true;
    inside.link_inside_root = true;
    let e = classify_entry(&inside, &o).unwrap();
    assert_eq!((e.status, e.size_bytes, e.language.as_deref()), (FileStatus::Indexed, 13, Some("rust")));
    let mut outside = found("out.rs", b"pub fn f() {}");
    outside.is_symlink = true;
    let e = classify_entry(&outside, &o).unwrap();
    assert_eq!((e.status, e.size_bytes, e.language), (FileStatus::SkippedSymlink, 0, None));
}

#[test]
fn language_comes_from_extension_and_allow_list() {
    let none: Vec<String> = vec![];
    assert_eq!(language_of(&Some("a.RS".to_string()), &none).as_deref(), Some("rust"));
    assert_eq!(language_of(&Some("a.py".to_string()), &none).as_deref(), Some("python"));
    assert_eq!(language_of(&Some("a.tsx".to_string()), &none).as_deref(), Some("tsx"));
    assert_eq!(language_of(&Some(".rs".to_string()), &none), None);
    assert_eq!(language_of(&Some("x.tar.ts".to_string()), &none).as_deref(), Some("typescript"));
    assert_eq!(language_of(&None, &none), None);
    let only_py = vec!["python".to_string()];
    assert_eq!(language_of(&Some("a.rs".to_string()), &only_py), None);
}

#[test]
fn classification_order_symlink_extension_size_binary() {
    let o = opts(10, &[]);
    let mut link = found("l.rs", b"");
    link.is_symlink = true;
    link.size_bytes = Some(99);
    let e = classify_entry(&link, &o).unwrap();
    assert_eq!((e.status, e.size_bytes), (FileStatus::SkippedSymlink, 0));
    assert_eq!(classify_entry(&found("a.txt", b"0123456789abc"), &o).unwrap().status, FileStatus::SkippedExtension);
    assert_eq!(classify_entry(&found("a.rs", b"0123456789abc"), &o).unwrap().status, FileStatus::SkippedSize);
    assert_eq!(classify_entry(&found("a.rs", b"a\0b"), &o).unwrap().status, FileStatus::SkippedBinary);
    assert_eq!(classify_entry(&found("a.rs", b"fn f(){}"), &o).unwrap().status, FileStatus::Indexed);
    let mut dir = found("d", b"");
    dir.is_file = false;
    assert!(classify_entry(&dir, &o).is_none());
}

#[test]
fn walk_orders_entries_by_relative_path() {
    let fs = vec![found("b.rs", b""), found("a/z.rs", b""), found("a.rs", b"")];
    let es = walk(&fs, &opts(100, &["rust"]));
    let rels: Vec<&str> = es.iter().map(|e| e.relative_path.as_str()).collect();
    assert_eq!(rels, vec!["a.rs", "a/z.rs", "b.rs"]);
    assert_eq!(with_forward_slashes("a\\b\\c.rs"), "a/b/c.rs");
}

fn outcome(status: FileStatus) -> ProcessOutcome {
    ProcessOutcome {
        file_record: FileRecord { id: 1, path: "p".to_string(), language: None, size_bytes: 0, status },
        parsed: None,
        findings: vec![],
        timing: None,
    }
}

#[test]
fn counters_tally_skips_by_reason() {
    let mut c = Counters::new();
    c.record(&outcome(FileStatus::SkippedSize));
    c.record(&outcome(FileStatus::SkippedSize));
    c.record(&outcome(FileStatus::SkippedBinary));
    c.record(&outcome(FileStatus::Unparseable));
    assert_eq!(c.files_skipped_by_reason, vec![("skipped:size".to_string(), 2), ("skipped:binary".to_string(), 1)]);
    assert_eq!(c.parse_errors, 1);
    assert_eq!(c.files_indexed, 0);
    let d = Counters::default();
    assert!(d.edges_by_kind.is_empty() && d.symbols == 0);
}
