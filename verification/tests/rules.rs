use mallard::model::MallardError;
use mallard::rules::{RuleDef, RuleSet};
use ast_grep_language::SupportLang;

/// Reads a rule file's YAML into rule definitions and loads them.
fn load_yaml(yaml: &str) -> Result<RuleSet, MallardError> {
    let doc: serde_yaml::Value = serde_yaml::from_str(yaml).unwrap();
    let mut defs = Vec::new();
    for r in doc["rules"].as_sequence().unwrap() {
        let text = |k: &str| r.get(k).and_then(|v| v.as_str()).map(str::to_string);
        defs.push(RuleDef {
            id: text("id").unwrap(),
            language: text("language").unwrap(),
            pattern: text("pattern").unwrap(),
            message: text("message").unwrap_or_default(),
            severity: text("severity"),
        });
    }
    RuleSet::load(&defs, yaml.as_bytes())
}

#[test]
fn loads_pattern_rule() {
    let rs = load_yaml(
        r#"
rules:
  - id: rust-unwrap
    language: rust
    pattern: "$X.unwrap()"
    message: "no unwrap"
"#,
    )
    .unwrap();
    assert!(rs.source_hash.is_some());
    assert_eq!(rs.rules.iter().filter(|r| r.language == SupportLang::Rust as u8).count(), 1);
}

#[test]
fn rejects_unknown_language() {
    let err = load_yaml(
        r#"
rules:
  - id: x
    language: cobol
    pattern: "x"
"#,
    )
    .err()
    .expect("should fail");
    assert!(err.message().to_lowercase().contains("cobol"), "got: {}", err.message());
}

#[test]
fn matches_unwrap_pattern_rust() {
    let rs = load_yaml(
        r#"
rules:
  - id: rust-unwrap
    language: rust
    pattern: "$X.unwrap()"
    message: "no unwrap"
"#,
    )
    .unwrap();
    let src = b"fn f() {\n    let v = thing.unwrap();\n}\n";
    let findings = rs.run(7, src, "rust");
    assert_eq!(findings.len(), 1);
    let f0 = &findings[0];
    assert_eq!(f0.rule_id, "rust-unwrap");
    assert_eq!(f0.file_id, 7);
    assert_eq!(f0.message, "no unwrap");
    assert_eq!(f0.start_line, 1);
    assert_eq!(f0.end_line, 1);
}

#[test]
fn deterministic_ordering() {
    let rs = load_yaml(
        r#"
rules:
  - id: rule-b
    language: rust
    pattern: "$X.unwrap()"
  - id: rule-a
    language: rust
    pattern: "$X.expect($M)"
"#,
    )
    .unwrap();
    let src = b"fn f() {\n    a.unwrap();\n    b.expect(\"x\");\n    c.unwrap();\n}\n";
    let findings = rs.run(1, src, "rust");
    let ids: Vec<&str> = findings.iter().map(|f| f.rule_id.as_str()).collect();
    let lines: Vec<u32> = findings.iter().map(|f| f.start_line).collect();
    assert_eq!(ids, vec!["rule-a", "rule-b", "rule-b"]);
    assert_eq!(lines, vec![2, 1, 3]);
}

#[test]
fn unknown_language_at_runtime_returns_empty() {
    let rs = RuleSet::empty();
    assert!(rs.run(1, b"x", "cobol").is_empty());
}

#[test]
fn invalid_pattern_is_refused_with_rule_id() {
    let err = load_yaml(
        r#"
rules:
  - id: broken-rule
    language: rust
    pattern: ""
"#,
    )
    .err()
    .expect("empty pattern should be refused");
    let m = err.message();
    assert!(m.starts_with("rule \"broken-rule\": invalid pattern: "), "got: {m}");
}

#[test]
fn first_bad_rule_stops_loading() {
    let err = load_yaml(
        r#"
rules:
  - id: good
    language: rust
    pattern: "$X.unwrap()"
  - id: bad
    language: klingon
    pattern: "x"
  - id: worse
    language: cobol
    pattern: "x"
"#,
    )
    .err()
    .expect("should fail");
    assert_eq!(err.message(), "rule \"bad\": unknown language \"klingon\"");
}

#[test]
fn language_aliases_and_case_are_accepted() {
    let rs = load_yaml(
        r#"
rules:
  - id: py-print
    language: PY
    pattern: "print($X)"
  - id: ts-log
    language: TypeScript
    pattern: "console.log($X)"
"#,
    )
    .unwrap();
    assert_eq!(rs.rules[0].language, SupportLang::Python as u8);
    assert_eq!(rs.rules[1].language, SupportLang::TypeScript as u8);
    let py = rs.run(3, b"print(1)\nx = 2\nprint(x)\n", "python");
    assert_eq!(py.iter().map(|f| f.start_line).collect::<Vec<_>>(), vec![0, 2]);
    // Rules of other languages do not run.
    assert!(rs.run(3, b"print(1)\n", "rust").is_empty());
}

#[test]
fn non_utf8_source_gives_no_findings() {
    let rs = load_yaml(
        r#"
rules:
  - id: rust-unwrap
    language: rust
    pattern: "$X.unwrap()"
"#,
    )
    .unwrap();
    assert!(rs.run(1, &[0xff, 0xfe, b'a'], "rust").is_empty());
}

#[test]
fn source_hash_is_first_half_of_blake3_hex() {
    let yaml = "rules: []\n";
    let rs = load_yaml(yaml).unwrap();
    let full = blake3::hash(yaml.as_bytes()).to_hex().to_string();
    assert_eq!(rs.source_hash.as_deref(), Some(&full[..32]));
    assert!(rs.rules.is_empty());
}

#[test]
fn rules_of_any_ast_grep_language_load() {
    let rs = load_yaml(
        r#"
rules:
  - id: go-panic
    language: golang
    pattern: "panic($X)"
    message: "no panic"
  - id: js-eval
    language: JS
    pattern: "eval($X)"
"#,
    )
    .unwrap();
    assert_eq!(rs.rules[0].language, SupportLang::Go as u8);
    assert_eq!(rs.rules[1].language, SupportLang::JavaScript as u8);
    let go = rs.run(4, b"package main\n\nfunc main() {\n\tpanic(1)\n}\n", "go");
    assert_eq!(go.len(), 1);
    assert_eq!((go[0].rule_id.as_str(), go[0].start_line, go[0].end_line), ("go-panic", 3, 3));
    let js = rs.run(4, b"eval(a);\n", "javascript");
    assert_eq!(js.iter().map(|f| f.rule_id.as_str()).collect::<Vec<_>>(), vec!["js-eval"]);
    // A Go rule does not run over JavaScript.
    assert!(rs.run(4, b"panic(1);\n", "js").is_empty());
}
