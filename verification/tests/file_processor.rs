use mallard::file_processor::FileProcessor;
use mallard::model::FileStatus;
use mallard::rules::{RuleDef, RuleSet};
use mallard::walk::WalkEntry;
/// A walk entry for a file holding `contents`, and those bytes.
fn entry(dir: &str, name: &str, contents: &[u8], language: Option<&str>) -> (WalkEntry, Vec<u8>) {
    (
        WalkEntry {
            path: format!("{dir}/{name}"),
            relative_path: name.to_string(),
            size_bytes: contents.len() as u64,
            language: language.map(str::to_string),
            status: FileStatus::Indexed,
        },
        contents.to_vec(),
    )
}

#[test]
fn indexed_rust_file_produces_symbols_and_timing() {
    let dir = "/repo";
    let (e, raw) = entry(dir, "x.rs", b"pub fn greet() {}\n", Some("rust"));
    let mut fp = FileProcessor::new(RuleSet::empty()).unwrap();
    let out = fp.process(1, &e, &raw).unwrap();
    let parsed = out.parsed.expect("indexed file should produce parsed output");
    assert!(parsed.symbols.iter().any(|s| s.qualified_name == "greet"));
    assert!(out.timing.is_some());
    assert_eq!(out.file_record.status, FileStatus::Indexed);
}

#[test]
fn non_indexed_status_passes_through() {
    let dir = "/repo";
    let (mut e, raw) = entry(dir, "big.rs", b"pub fn x() {}\n", Some("rust"));
    e.status = FileStatus::SkippedSize;
    let mut fp = FileProcessor::new(RuleSet::empty()).unwrap();
    let out = fp.process(1, &e, &raw).unwrap();
    assert!(out.parsed.is_none());
    assert!(out.findings.is_empty());
    assert!(out.timing.is_none());
    assert_eq!(out.file_record.status, FileStatus::SkippedSize);
}

#[test]
fn non_utf8_bytes_demote_to_skipped_binary() {
    let dir = "/repo";
    let (e, raw) = entry(dir, "x.rs", &[0xff, 0xfe, 0x00, 0x01], Some("rust"));
    let mut fp = FileProcessor::new(RuleSet::empty()).unwrap();
    let out = fp.process(1, &e, &raw).unwrap();
    assert_eq!(out.file_record.status, FileStatus::SkippedBinary);
    assert!(out.parsed.is_none());
}

#[test]
fn unknown_language_demotes_to_skipped_extension() {
    let dir = "/repo";
    let (e, raw) = entry(dir, "x.cobol", b"PROGRAM-ID. NOTHING.\n", Some("cobol"));
    let mut fp = FileProcessor::new(RuleSet::empty()).unwrap();
    let out = fp.process(1, &e, &raw).unwrap();
    assert_eq!(out.file_record.status, FileStatus::SkippedExtension);
    assert!(out.parsed.is_none());
}

#[test]
fn no_language_string_demotes_to_skipped_extension() {
    let dir = "/repo";
    let (e, raw) = entry(dir, "weird", b"x\n", None);
    let mut fp = FileProcessor::new(RuleSet::empty()).unwrap();
    let out = fp.process(1, &e, &raw).unwrap();
    assert_eq!(out.file_record.status, FileStatus::SkippedExtension);
}

#[test]
fn record_keeps_entry_fields_and_file_id() {
    let dir = "/repo";
    let (e, raw) = entry(dir, "src/lib.rs", b"", Some("rust"));
    let mut fp = FileProcessor::new(RuleSet::empty()).unwrap();
    let out = fp.process(42, &e, &raw).unwrap();
    assert_eq!(out.file_record.id, 42);
    assert_eq!(out.file_record.path, "src/lib.rs");
    assert_eq!(out.file_record.language.as_deref(), Some("rust"));
    assert_eq!(out.file_record.size_bytes, 0);
    let parsed = out.parsed.unwrap();
    assert_eq!(parsed.file_id, 42);
    assert!(parsed.symbols.is_empty());
    assert!(parsed.edges.is_empty());
}

#[test]
fn python_and_typescript_files_are_extracted() {
    let dir = "/repo";
    let mut fp = FileProcessor::new(RuleSet::empty()).unwrap();
    let (py, raw) = entry(dir, "m.py", b"class A:\n    def f(self):\n        return 1\n", Some("python"));
    let out = fp.process(1, &py, &raw).unwrap();
    let names: Vec<String> = out.parsed.unwrap().symbols.iter().map(|s| s.qualified_name.clone()).collect();
    assert_eq!(names, vec!["A".to_string(), "A.f".to_string()]);
    let (ts, raw) = entry(dir, "m.ts", b"export function g(x: number) { return x; }\n", Some("typescript"));
    let out = fp.process(2, &ts, &raw).unwrap();
    let syms = out.parsed.unwrap().symbols;
    assert!(syms.iter().any(|s| s.qualified_name == "g"));
}

#[test]
fn findings_come_from_rules_of_the_file_language() {
    let dir = "/repo";
    let defs = vec![RuleDef {
        id: "rust-unwrap".to_string(),
        language: "rust".to_string(),
        pattern: "$X.unwrap()".to_string(),
        message: "no unwrap".to_string(),
        severity: None,
    }];
    let rules = RuleSet::load(&defs, b"rules").unwrap();
    let mut fp = FileProcessor::new(rules).unwrap();
    assert!(fp.rule_set_hash().is_some());
    let (e, raw) = entry(dir, "a.rs", b"fn f() {\n    x.unwrap();\n}\n", Some("rust"));
    let out = fp.process(5, &e, &raw).unwrap();
    assert_eq!(out.findings.len(), 1);
    assert_eq!(out.findings[0].file_id, 5);
    assert_eq!(out.findings[0].start_line, 1);
}

#[test]
fn parse_errors_are_reported_for_broken_source() {
    let dir = "/repo";
    let (e, raw) = entry(dir, "broken.rs", b"pub fn ok() {}\nfn broken( {\n", Some("rust"));
    let mut fp = FileProcessor::new(RuleSet::empty()).unwrap();
    let out = fp.process(1, &e, &raw).unwrap();
    let parsed = out.parsed.unwrap();
    assert!(!parsed.parse_errors.is_empty());
    assert!(parsed.parse_errors.iter().all(|p| p.file_id == 1));
}
