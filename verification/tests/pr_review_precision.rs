use mallard::model::SymbolKind;
use mallard::pr_review::{
    is_callable_kind, is_container_kind, is_test_path, is_test_symbol,
    suppress_container_restate, suppress_outer_function_restate, PendingComment, ReviewComment,
};

fn pc(file: &str, span: (u64, u64), kind: Option<SymbolKind>, src_kind: &str) -> PendingComment {
    PendingComment {
        comment: ReviewComment {
            file: file.to_string(),
            line: 0,
            end_line: 0,
            symbol_qualified_name: None,
            symbol_id: None,
            source_kind: src_kind.to_string(),
            confidence_tier: "inferred".to_string(),
            rule_id: None,
            body: String::new(),
        },
        symbol_kind: kind,
        anchor: Some(span),
    }
}

#[test]
fn pattern_a_drops_container_when_leaf_present() {
    let mut p = vec![
        pc("a.rs", (0, 1000), Some(SymbolKind::Struct), "modified-body-logic"),
        pc("a.rs", (100, 500), Some(SymbolKind::Method), "modified-body"),
    ];
    suppress_container_restate(&mut p);
    assert_eq!(p.len(), 1, "container dropped; leaf kept");
    assert_eq!(p[0].symbol_kind, Some(SymbolKind::Method));
}

#[test]
fn pattern_a_keeps_container_when_no_leaf_inside() {
    let mut p = vec![pc("a.rs", (0, 1000), Some(SymbolKind::Struct), "modified-body-logic")];
    suppress_container_restate(&mut p);
    assert_eq!(p.len(), 1, "lone container survives — no leaf to defer to");
}

#[test]
fn pattern_a_does_not_drop_across_files() {
    let mut p = vec![
        pc("a.rs", (0, 1000), Some(SymbolKind::Struct), "modified-body-logic"),
        pc("b.rs", (100, 500), Some(SymbolKind::Method), "modified-body"),
    ];
    suppress_container_restate(&mut p);
    assert_eq!(p.len(), 2, "different files — no suppression");
}

#[test]
fn pattern_d_callable_predicate() {
    assert!(is_callable_kind(SymbolKind::Function));
    assert!(is_callable_kind(SymbolKind::Method));
    assert!(is_callable_kind(SymbolKind::Macro));
    assert!(!is_callable_kind(SymbolKind::Struct));
    assert!(!is_callable_kind(SymbolKind::Trait));
    assert!(!is_callable_kind(SymbolKind::TypeAlias));
    assert!(!is_callable_kind(SymbolKind::Const));
    assert!(!is_callable_kind(SymbolKind::Static));
    assert!(!is_callable_kind(SymbolKind::Module));
}

#[test]
fn pattern_a2_drops_outer_fn_when_inner_fn_present() {
    let mut p = vec![
        pc("a.js", (1000, 5000), Some(SymbolKind::Function), "modified-body-logic"),
        pc("a.js", (1500, 4500), Some(SymbolKind::Function), "modified-body"),
    ];
    suppress_outer_function_restate(&mut p);
    assert_eq!(p.len(), 1, "outer fn dropped; inner fn kept");
    assert_eq!(p[0].anchor, Some((1500, 4500)));
}

#[test]
fn pattern_a2_does_not_drop_sibling_functions() {
    let mut p = vec![
        pc("a.js", (1000, 2000), Some(SymbolKind::Function), "modified-body"),
        pc("a.js", (3000, 4000), Some(SymbolKind::Function), "modified-body"),
    ];
    suppress_outer_function_restate(&mut p);
    assert_eq!(p.len(), 2, "sibling fns both kept");
}

#[test]
fn pattern_a2_method_inside_method_drops_outer() {
    let mut p = vec![
        pc("a.ts", (100, 500), Some(SymbolKind::Method), "modified-body"),
        pc("a.ts", (200, 300), Some(SymbolKind::Method), "modified-body"),
    ];
    suppress_outer_function_restate(&mut p);
    assert_eq!(p.len(), 1);
}

#[test]
fn pattern_c_test_path_classifier() {
    assert!(is_test_path("tests/foo.rs"));
    assert!(is_test_path("tests/regression.rs"));
    assert!(is_test_path("crates/searcher/tests/integration.rs"));
    assert!(is_test_path("test/foo.py"));
    assert!(is_test_path("src/__tests__/widget.tsx"));
    assert!(is_test_path("lib/foo_test.rs"));
    assert!(is_test_path("lib/components/Button.test.tsx"));
    assert!(is_test_path("lib/components/Button.spec.ts"));
    assert!(is_test_path("python/test_widget.py"));
    assert!(is_test_path("python/widget_test.py"));
    assert!(!is_test_path("src/foo.rs"));
    assert!(!is_test_path("lib/widget.ts"));
    assert!(!is_test_path("src/test_helpers.rs"));
}

#[test]
fn pattern_a_container_kinds() {
    for k in [
        SymbolKind::Struct,
        SymbolKind::Trait,
        SymbolKind::TypeAlias,
        SymbolKind::Module,
        SymbolKind::Enum,
    ] {
        assert!(is_container_kind(Some(k)), "{:?} should be container", k);
    }
    for k in [
        SymbolKind::Function,
        SymbolKind::Method,
        SymbolKind::Macro,
        SymbolKind::Const,
        SymbolKind::Static,
    ] {
        assert!(!is_container_kind(Some(k)), "{:?} should NOT be container", k);
    }
}

#[test]
fn test_path_is_case_insensitive() {
    assert!(is_test_path("Tests/Foo.RS"));
    assert!(is_test_path("SRC/__TESTS__/x.tsx"));
}

#[test]
fn test_symbol_by_module_or_name() {
    assert!(is_test_symbol("src/lib.rs", Some("tests::binary3")));
    assert!(is_test_symbol("src/lib.rs", Some("test.helper")));
    assert!(is_test_symbol("pkg/mod.py", Some("Widget.test_render")));
    assert!(is_test_symbol("src/lib.rs", Some("outer::inner.test_x")));
    assert!(!is_test_symbol("src/lib.rs", Some("contest::run")));
    assert!(!is_test_symbol("src/lib.rs", None));
    assert!(is_test_symbol("tests/a.rs", None));
}

#[test]
fn test_symbol_inside_test_class() {
    assert!(is_test_symbol("app/m.py", Some("TestFoo.method")));
    assert!(is_test_symbol("app/m.py", Some("pkg.TestLogin.check")));
    assert!(is_test_symbol("src/lib.rs", Some("a::TestHarness::run")));
    assert!(is_test_symbol("src/lib.rs", Some("tests::foo")));
    assert!(is_test_symbol("app/m.py", Some("test_login")));
    assert!(is_test_symbol("src/glue.rs", Some("a::b::test_x")));
    assert!(!is_test_symbol("src/lib.rs", Some("helpers::run")));
    assert!(!is_test_symbol("app/m.py", Some("TestFoo")));
    assert!(!is_test_symbol("app/m.py", Some("Foo.method")));
}

#[test]
fn container_pass_run_twice_is_stable() {
    let mut p = vec![
        pc("a.rs", (0, 1000), Some(SymbolKind::Struct), "modified-body-logic"),
        pc("a.rs", (100, 500), Some(SymbolKind::Method), "modified-body"),
        pc("a.rs", (2000, 3000), Some(SymbolKind::Enum), "modified-body-logic"),
    ];
    suppress_container_restate(&mut p);
    let once = p.clone();
    suppress_container_restate(&mut p);
    assert_eq!(p, once);
    assert_eq!(p.len(), 2);
}
