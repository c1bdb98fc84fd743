//! Build, query and review round trips over small source trees held in
//! memory. What the directory walk and the file reads of the command-line
//! program would report is built here from those trees.

use mallard::index::{build, BuildRequest, BuildSummary};
use mallard::model::{EdgeConfidence, EdgeKind, MallardError, SymbolId};
use mallard::pr_review::{self, PrReviewRequest};
use mallard::query::{Direction, FindingFilter, IndexReader};
use mallard::query_graph::{QueryRequest, QueryResult};
use mallard::rules::{RuleDef, RuleSet};
use mallard::store::IndexTables;
use mallard::walk::{descend_into, walk, FoundEntry, WalkOptions, BINARY_PROBE_BYTES};

const LIB_RS: &str = "pub mod greet;

pub use greet::greet;

pub fn double(x: i64) -> i64 {
    x * 2
}

pub struct Counter {
    count: i64,
}

impl Counter {
    pub fn new() -> Self {
        Counter { count: 0 }
    }

    pub fn bump(&mut self) {
        self.count += 1;
        let _ = double(self.count);
    }
}
";

const MAIN_RS: &str = "use sample::greet;
use sample::Counter;

fn main() {
    let msg = greet(\"world\");
    println!(\"{msg}\");

    let mut c = Counter::new();
    c.bump();
}
";

const GREET_RS: &str = "pub fn greet(name: &str) -> String {
    format!(\"hello, {name}\")
}
";

const BROKEN_RS: &str = "pub fn half_written( {
    let x = ;
";

const WRAPPER_RS: &str = "pub struct Inner {
    n: u32,
}

impl Inner {
    pub fn ping(&self) -> u32 {
        self.n
    }
}

pub struct Outer {
    inner: Inner,
}

impl Outer {
    pub fn ping(&self) -> u32 {
        self.inner.ping()
    }

    pub fn echo(&self) -> u32 {
        self.ping()
    }
}

pub trait Tagged {
    fn tag(&self, suffix: u32) -> u32;
}

impl Tagged for Outer {
    fn tag(&self, suffix: u32) -> u32 {
        100 + suffix
    }
}

impl Outer {
    pub fn tag(&self) -> u32 {
        42
    }

    pub fn show_tag(&self) -> u32 {
        self.tag()
    }
}

pub struct OnlyMethod;

impl OnlyMethod {
    pub fn solo(&self) -> u32 {
        7
    }
}

pub fn bare_solo_must_not_resolve_to_method() -> u32 {
    solo()
}

pub const CONST_CALLABLE: fn() -> u32 = bare_solo_must_not_resolve_to_method;

pub fn bare_caller_of_const_callable() -> u32 {
    CONST_CALLABLE()
}

pub struct Builder;

impl Builder {
    pub fn make() -> Builder {
        Builder
    }
}

#[cfg(test)]
mod tests {
    use super::*;

    fn nested_macro_must_not_phantom_call() {
        assert_eq!(format!(\"{}\", 1), \"1\");
    }

    fn type_qualified_call_in_macro_keeps_qualifier() {
        assert!(matches!(Builder::make(), Builder));
    }

    fn ping_via_assert() {
        let o = Outer { inner: Inner { n: 1 } };
        assert!(o.ping() > 0);
    }
}
";

const RULES_YML: &str = "rules:
  - id: rust-format-macro
    language: rust
    pattern: \"format!($$$ARGS)\"
    message: \"format! allocates\"
  - id: rust-println-macro
    language: rust
    pattern: \"println!($$$ARGS)\"
    message: \"println! in library code\"
";

const WRAPPER_PY: &str = "class Inner:
    def ping(self):
        return 1


class Outer:
    def __init__(self):
        self.inner = Inner()

    def ping(self):
        return self.inner.ping()

    def echo(self):
        return self.ping()


class OnlyMethod:
    def solo(self):
        return 7


def bare_solo_must_not_resolve_to_method():
    return solo()
";

const UTIL_PY: &str = "def helper(x):
    return x + 1
";

const WRAPPER_TS: &str = "class Inner {
  ping(): number {
    return 1;
  }
}

class Outer {
  inner: Inner = new Inner();

  ping(): number {
    return this.inner.ping();
  }

  echo(): number {
    return this.ping();
  }
}

class OnlyMethod {
  solo(): number {
    return 7;
  }
}

function bareSoloMustNotResolveToMethod(): number {
  return solo();
}
";

/// A source tree held in memory: relative paths and file contents.
type Files = Vec<(String, Vec<u8>)>;

fn write_tree(files: &[(&str, &[u8])]) -> Files {
    files.iter().map(|(n, b)| (n.to_string(), b.to_vec())).collect()
}

fn sample_rust() -> Files {
    write_tree(&[
        ("lib.rs", LIB_RS.as_bytes()),
        ("main.rs", MAIN_RS.as_bytes()),
        ("greet.rs", GREET_RS.as_bytes()),
        ("broken.rs", BROKEN_RS.as_bytes()),
        ("wrapper.rs", WRAPPER_RS.as_bytes()),
    ])
}

fn sample_python() -> Files {
    write_tree(&[("wrapper.py", WRAPPER_PY.as_bytes()), ("util.py", UTIL_PY.as_bytes())])
}

fn sample_typescript() -> Files {
    write_tree(&[("wrapper.ts", WRAPPER_TS.as_bytes())])
}

fn rule_set(yaml: Option<&str>) -> RuleSet {
    let Some(yaml) = yaml else { return RuleSet::empty() };
    let doc: serde_yaml::Value = serde_yaml::from_str(yaml).unwrap();
    let mut defs = Vec::new();
    for r in doc["rules"].as_sequence().unwrap() {
        let text = |k: &str| r.get(k).and_then(|v| v.as_str()).map(str::to_string);
        defs.push(RuleDef {
            id: text("id").unwrap(),
            language: text("language").unwrap(),
            pattern: text("pattern").unwrap(),
            message: text("message").unwrap_or_default(),
            severity: text("severity"),
        });
    }
    RuleSet::load(&defs, yaml.as_bytes()).unwrap()
}

/// What a walk of the tree finds, as the directory walk reports it:
/// paths under pruned directories are never reached.
fn found_entries(tree: &Files) -> Vec<FoundEntry> {
    let mut found = Vec::new();
    for (rel, body) in tree {
        let parts: Vec<&str> = rel.split('/').collect();
        let pruned = parts[..parts.len() - 1].iter().enumerate().any(|(d, name)| !descend_into(d + 1, true, name, false));
        if pruned {
            continue;
        }
        let head: Vec<u8> = body.iter().take(BINARY_PROBE_BYTES).cloned().collect();
        found.push(FoundEntry {
            path: format!("/repo/{rel}"),
            relative_path: Some(rel.clone()),
            file_name: parts.last().map(|n| n.to_string()),
            is_symlink: false,
            link_inside_root: false,
            is_file: true,
            size_bytes: Some(body.len() as u64),
            head: Some(head),
        });
    }
    found
}

/// Classifies the tree, hands over the indexed files' bytes and builds.
fn index(tree: &Files, sha: &str, rules: Option<&str>, allow: &[&str], max_file_bytes: u64) -> (BuildSummary, IndexTables) {
    let found = found_entries(tree);
    let opts = WalkOptions {
        max_file_bytes,
        language_allow_list: allow.iter().map(|s| s.to_string()).collect(),
    };
    let entries = walk(&found, &opts);
    let contents: Vec<Option<Vec<u8>>> = entries
        .iter()
        .map(|e| {
            if e.status == mallard::model::FileStatus::Indexed {
                tree.iter().find(|(p, _)| *p == e.relative_path).map(|(_, b)| b.clone())
            } else {
                None
            }
        })
        .collect();
    let req = BuildRequest {
        root: "/repo".to_string(),
        sha: sha.to_string(),
        rules_path: None,
        out_path: "index.duckdb".to_string(),
        max_file_bytes,
        language_allow_list: allow.iter().map(|s| s.to_string()).collect(),
        slowest_files_n: 10,
    };
    build(&req, rule_set(rules), "1700000000".to_string(), &entries, &contents).unwrap()
}

fn build_fixture(with_rules: bool) -> IndexTables {
    let root = sample_rust();
    index(&root, "deadbeefcafe", if with_rules { Some(RULES_YML) } else { None }, &["rust"], 1024 * 1024).1
}

fn build_python_fixture() -> IndexTables {
    let root = sample_python();
    index(&root, "py-fixture", None, &["python"], 1024 * 1024).1
}

fn build_typescript_fixture() -> IndexTables {
    let root = sample_typescript();
    index(&root, "ts-fixture", None, &["typescript", "tsx"], 1024 * 1024).1
}

fn open_reader(t: &IndexTables) -> IndexReader {
    IndexReader::open(t.clone()).unwrap()
}

fn find_symbol(t: &IndexTables, path: &str, qualified_name: &str) -> SymbolId {
    open_reader(t)
        .symbols_in_file(path)
        .into_iter()
        .find(|s| s.qualified_name == qualified_name)
        .unwrap_or_else(|| panic!("no symbol {qualified_name} in {path}"))
        .id
}

fn kinds(k: &[EdgeKind]) -> Vec<EdgeKind> {
    k.to_vec()
}

fn count_symbols(t: &IndexTables, kind: &str) -> usize {
    t.symbols.iter().filter(|s| s.kind.as_str() == kind).count()
}

fn count_edges(t: &IndexTables, kind: &str) -> usize {
    t.edges.iter().filter(|e| e.kind.as_str() == kind).count()
}

fn metadata_value(t: &IndexTables, key: &str) -> Option<String> {
    t.metadata.iter().find(|r| r.key == key).map(|r| r.value.clone())
}

// ---------------------------------------------------------------------
// Building.

#[test]
fn happy_path_indexes_sample_repo() {
    let root = sample_rust();
    let (summary, t) = index(&root, "deadbeefcafe", None, &["rust"], 1024 * 1024);
    assert_eq!(summary.sha, "deadbeefcafe");
    assert!(summary.counters.symbols > 0);
    let files = t.files.len();
    assert!(files >= 4, "expected at least 4 files indexed, got {files}");
    assert!(count_symbols(&t, "function") >= 3);
    assert!(count_symbols(&t, "method") >= 2);
    assert!(count_symbols(&t, "struct") >= 1);
    assert!(count_edges(&t, "contains") > 0);
    assert!(count_edges(&t, "calls") > 0);
    assert!(count_edges(&t, "imports") > 0);
    assert_eq!(metadata_value(&t, "sha").as_deref(), Some("deadbeefcafe"));
    assert!(metadata_value(&t, "index_format_version").is_some());
}

#[test]
fn python_files_index_without_crashing() {
    let root = sample_python();
    let (summary, t) = index(&root, "py-scaffold", None, &["python"], 1024 * 1024);
    assert_eq!(summary.sha, "py-scaffold");
    let py_files = t.files.iter().filter(|f| f.language.as_deref() == Some("python")).count();
    assert!(py_files >= 2, "expected at least 2 python files indexed, got {py_files}");
}

#[test]
fn rules_produce_findings_and_metadata_hash() {
    let root = sample_rust();
    let (summary, t) = index(&root, "deadbeefcafe", Some(RULES_YML), &["rust"], 1024 * 1024);
    assert!(summary.counters.findings >= 2, "got {}", summary.counters.findings);
    assert!(summary.rule_set_hash.is_some(), "rule_set_hash stamped");
    assert_eq!(t.findings.len() as u64, summary.counters.findings);
    assert!(t.findings.iter().filter(|f| f.rule_id == "rust-format-macro").count() >= 1);
    assert!(t.findings.iter().filter(|f| f.rule_id == "rust-println-macro").count() >= 1);
    assert_eq!(metadata_value(&t, "rule_set_hash"), summary.rule_set_hash);
}

#[test]
fn no_rules_produces_zero_findings() {
    let root = sample_rust();
    let (summary, t) = index(&root, "deadbeefcafe", None, &["rust"], 1024 * 1024);
    assert_eq!(summary.counters.findings, 0);
    assert_eq!(t.findings.len(), 0);
    assert!(summary.rule_set_hash.is_none());
}

fn symbol_ids(t: &IndexTables) -> Vec<String> {
    let mut v: Vec<String> = t.symbols.iter().map(|s| s.id.0.clone()).collect();
    v.sort();
    v
}

fn edge_tuples(t: &IndexTables) -> Vec<(String, Option<String>, Option<String>, String, i64)> {
    let mut v: Vec<_> = t
        .edges
        .iter()
        .map(|e| {
            (
                e.src.0.clone(),
                e.dst.as_ref().map(|d| d.0.clone()),
                e.dst_unresolved.clone(),
                e.kind.as_str().to_string(),
                e.file_id,
            )
        })
        .collect();
    v.sort_by(|a, b| (&a.3, &a.0, &a.1, &a.2).cmp(&(&b.3, &b.0, &b.1, &b.2)));
    v
}

#[test]
fn rebuild_is_deterministic() {
    let root = sample_rust();
    let (_, a) = index(&root, "deadbeefcafe", None, &["rust"], 1024 * 1024);
    let (_, b) = index(&root, "deadbeefcafe", None, &["rust"], 1024 * 1024);
    assert_eq!(symbol_ids(&a), symbol_ids(&b));
    assert_eq!(edge_tuples(&a), edge_tuples(&b));
}

#[test]
fn empty_repo_produces_valid_index() {
    let repo: Files = Vec::new();
    let (summary, t) = index(&repo, "0000000000", None, &["rust"], 1024 * 1024);
    assert_eq!(summary.counters.symbols, 0);
    assert_eq!(t.files.len(), 0);
    assert_eq!(metadata_value(&t, "sha").as_deref(), Some("0000000000"));
}

#[test]
fn parse_failure_is_recorded_and_other_files_continue() {
    let t = build_fixture(false);
    assert!(!t.parse_errors.is_empty(), "expected parse_errors rows for broken.rs");
    let broken_id = t.files.iter().find(|f| f.path == "broken.rs").unwrap().id;
    let other_symbols = t.symbols.iter().filter(|s| s.file_id != broken_id).count();
    assert!(other_symbols > 0);
}

#[test]
fn skip_by_size_marker_is_recorded() {
    let big = vec![b'a'; 2 * 1024 * 1024];
    let repo = write_tree(&[("big.rs", &big), ("small.rs", b"pub fn tiny() {}\n")]);
    let (_, t) = index(&repo, "feedface", None, &["rust"], 1024 * 1024);
    let skipped = t.files.iter().filter(|f| f.status.as_str() == "skipped:size").count();
    assert_eq!(skipped, 1, "expected one size-skipped file");
    let small_id = t.files.iter().find(|f| f.path == "small.rs").unwrap().id;
    let tiny_symbols = t.symbols.iter().filter(|s| s.file_id == small_id).count();
    assert_eq!(tiny_symbols, 1);
}

#[test]
fn build_counts_and_orders_timings() {
    let root = sample_rust();
    let (summary, t) = index(&root, "s", None, &["rust"], 1024 * 1024);
    let names: Vec<&str> = summary.counters.edges_by_kind.iter().map(|(k, _)| k.as_str()).collect();
    for k in ["calls", "imports", "contains"] {
        assert!(names.contains(&k), "missing {k}");
    }
    assert_eq!(summary.counters.symbols as usize, t.symbols.len());
    let totals: Vec<u64> = summary.slowest_files.iter().map(|f| f.parse_ms + f.query_ms + f.rules_ms).collect();
    assert!(totals.windows(2).all(|w| w[0] >= w[1]));
    assert!(summary.slowest_files.len() <= 10);
    let ids: Vec<i64> = t.files.iter().map(|f| f.id).collect();
    assert!(ids.windows(2).all(|w| w[0] < w[1]));
}

#[test]
fn binary_and_other_files_are_recorded_as_skipped() {
    let repo = write_tree(&[
        ("a.rs", b"pub fn a() {}\n"),
        ("b.rs", b"bin\0ary"),
        ("notes.txt", b"hello"),
        ("target/skipped.rs", b"pub fn hidden() {}\n"),
    ]);
    let (summary, t) = index(&repo, "x", None, &[], 1024);
    let status = |p: &str| t.files.iter().find(|f| f.path == p).map(|f| f.status.as_str());
    assert_eq!(status("a.rs"), Some("indexed"));
    assert_eq!(status("b.rs"), Some("skipped:binary"));
    assert_eq!(status("notes.txt"), Some("skipped:extension"));
    assert_eq!(status("target/skipped.rs"), None);
    assert_eq!(summary.counters.files_indexed, 1);
    let reasons: Vec<(String, u64)> = summary.counters.files_skipped_by_reason.clone();
    assert!(reasons.contains(&("skipped:binary".to_string(), 1)));
    assert!(reasons.contains(&("skipped:extension".to_string(), 1)));
}

// ---------------------------------------------------------------------
// Querying.

#[test]
fn metadata_returns_sha_and_format_version() {
    let t = build_fixture(true);
    let meta = open_reader(&t).metadata();
    assert_eq!(meta.sha.as_deref(), Some("deadbeefcafe"));
    assert_eq!(meta.index_format_version, 2);
    assert!(meta.indexer_version.is_some());
    assert!(meta.rule_set_hash.is_some());
    assert_eq!(meta.language_allow_list, vec!["rust".to_string()]);
}

#[test]
fn lookup_symbol_present_and_missing() {
    let t = build_fixture(false);
    let id = find_symbol(&t, "lib.rs", "double");
    let found = open_reader(&t).lookup_symbol(&id).expect("symbol present");
    assert_eq!(found.qualified_name, "double");
    assert_eq!(found.path, "lib.rs");
    let missing = open_reader(&t).lookup_symbol(&SymbolId("0".repeat(32)));
    assert!(missing.is_none());
}

#[test]
fn symbols_in_file_enriches_path_and_anchor() {
    let t = build_fixture(false);
    let syms = open_reader(&t).symbols_in_file("greet.rs");
    let greet = syms.iter().find(|s| s.qualified_name == "greet").expect("greet symbol present");
    assert_eq!(greet.path, "greet.rs");
    assert!(greet.anchor.end_line >= greet.anchor.start_line);
}

#[test]
fn neighbors_out_calls_from_bump_reach_double() {
    let t = build_fixture(false);
    let bump = find_symbol(&t, "lib.rs", "Counter::bump");
    let edges = open_reader(&t).neighbors(&bump, &kinds(&[EdgeKind::Calls]), Direction::Out);
    assert!(!edges.is_empty(), "bump should call something");
    let mentions_double = edges.iter().any(|e| {
        e.dst.as_ref().map(|d| d.qualified_name == "double").unwrap_or(false)
            || e.dst_unresolved.as_deref() == Some("double")
    });
    assert!(mentions_double, "expected a calls edge naming double, got {edges:?}");
}

#[test]
fn expand_depth_zero_returns_source_only() {
    let t = build_fixture(false);
    let id = find_symbol(&t, "lib.rs", "double");
    let g = open_reader(&t).expand(&id, 0, &kinds(&[]), Direction::Both);
    assert_eq!(g.nodes.len(), 1);
    assert!(g.edges.is_empty());
    assert_eq!(g.max_depth_reached, 0);
}

#[test]
fn expand_depth_two_reaches_callees_transitively() {
    let t = build_fixture(false);
    let bump = find_symbol(&t, "lib.rs", "Counter::bump");
    let g = open_reader(&t).expand(&bump, 2, &kinds(&[EdgeKind::Calls]), Direction::Out);
    assert!(g.nodes.len() >= 2);
    assert!(g.edges.iter().any(|e| e.kind == EdgeKind::Calls));
    assert!(g.max_depth_reached >= 1);
}

#[test]
fn findings_filter_by_rule_id() {
    let t = build_fixture(true);
    let all = open_reader(&t).findings(&FindingFilter::default());
    assert!(!all.is_empty());
    let format_only = open_reader(&t).findings(&FindingFilter {
        rule_id: Some("rust-format-macro".to_string()),
        ..Default::default()
    });
    assert!(format_only.iter().all(|f| f.rule_id == "rust-format-macro"));
    assert!(!format_only.is_empty());
}

#[test]
fn findings_filter_by_path_prefix() {
    let t = build_fixture(true);
    let only_main = open_reader(&t).findings(&FindingFilter {
        path_prefix: Some("main.rs".to_string()),
        ..Default::default()
    });
    assert!(!only_main.is_empty());
    assert!(only_main.iter().all(|f| f.path.starts_with("main.rs")));
}

#[test]
fn findings_filter_by_symbol_id_limits_to_anchor_lines() {
    let t = build_fixture(true);
    let greet = find_symbol(&t, "greet.rs", "greet");
    let scoped = open_reader(&t).findings(&FindingFilter { symbol_id: Some(greet.clone()), ..Default::default() });
    assert!(!scoped.is_empty(), "expected format! finding inside greet");
    assert!(scoped.iter().all(|f| f.path == "greet.rs"));
}

#[test]
fn files_at_prefix_returns_matching_files() {
    let t = build_fixture(false);
    let all = open_reader(&t).files_at_prefix("");
    assert!(all.len() >= 4);
    let only_lib = open_reader(&t).files_at_prefix("lib.rs");
    assert_eq!(only_lib.len(), 1);
    assert_eq!(only_lib[0].path, "lib.rs");
    let none = open_reader(&t).files_at_prefix("no/such/");
    assert!(none.is_empty());
}

#[test]
fn cross_file_calls_resolve_after_build() {
    let t = build_fixture(false);
    let greet_id = find_symbol(&t, "greet.rs", "greet");
    let callers = open_reader(&t).neighbors(&greet_id, &kinds(&[EdgeKind::Calls]), Direction::In);
    let cross_file_caller = callers.iter().find(|e| {
        e.src.path == "main.rs" && e.dst.as_ref().map(|d| d.qualified_name == "greet").unwrap_or(false)
    });
    assert!(cross_file_caller.is_some(), "got {callers:?}");
}

#[test]
fn edges_by_file_returns_bundle_per_symbol_with_edges() {
    let t = build_fixture(false);
    let bundles = open_reader(&t).edges_by_file("lib.rs", &kinds(&[EdgeKind::Calls]), Direction::Both);
    let bump = bundles.iter().find(|b| b.symbol.qualified_name == "Counter::bump").expect("bump bundle");
    let calls_double = bump.outbound.iter().any(|e| {
        e.dst.as_ref().map(|d| d.qualified_name == "double").unwrap_or(false)
            || e.dst_unresolved.as_deref() == Some("double")
    });
    assert!(calls_double, "got {:?}", bump.outbound);
}

#[test]
fn edges_by_file_preserves_symbols_with_zero_edges() {
    let t = build_fixture(false);
    let bundles = open_reader(&t).edges_by_file("lib.rs", &kinds(&[EdgeKind::Calls]), Direction::Both);
    let counter = bundles.iter().find(|b| b.symbol.qualified_name == "Counter").expect("Counter bundle present");
    assert!(counter.outbound.is_empty());
    assert!(counter.inbound.is_empty());
}

#[test]
fn neighbors_carry_edge_confidence() {
    let t = build_fixture(false);
    let bump = find_symbol(&t, "lib.rs", "Counter::bump");
    let edges = open_reader(&t).neighbors(&bump, &kinds(&[EdgeKind::Calls]), Direction::Out);
    let to_double = edges
        .iter()
        .find(|e| e.dst.as_ref().map(|d| d.qualified_name == "double").unwrap_or(false))
        .expect("bump -> double edge present");
    assert_eq!(to_double.confidence, EdgeConfidence::Extracted);
}

#[test]
fn method_call_on_self_field_does_not_claim_extracted() {
    let t = build_fixture(false);
    let outer_ping = find_symbol(&t, "wrapper.rs", "Outer::ping");
    let outbound = open_reader(&t).neighbors(&outer_ping, &kinds(&[EdgeKind::Calls]), Direction::Out);
    let bad = outbound.iter().find(|e| {
        e.confidence == EdgeConfidence::Extracted
            && e.dst.as_ref().map(|d| d.qualified_name == "Outer::ping").unwrap_or(false)
    });
    assert!(bad.is_none(), "self-recursion claim present: {bad:?}");
    let ping_edge = outbound
        .iter()
        .find(|e| {
            e.dst_unresolved.as_deref() == Some("ping")
                || e.dst.as_ref().map(|d| d.qualified_name == "Inner::ping").unwrap_or(false)
        })
        .expect("ping call edge present");
    assert!(matches!(ping_edge.confidence, EdgeConfidence::Ambiguous | EdgeConfidence::Inferred));
}

#[test]
fn nested_macro_in_allowlisted_body_does_not_emit_phantom_call() {
    let t = build_fixture(false);
    let caller = find_symbol(&t, "wrapper.rs", "tests::nested_macro_must_not_phantom_call");
    let outbound = open_reader(&t).neighbors(&caller, &kinds(&[EdgeKind::Calls]), Direction::Out);
    let bad = outbound.iter().find(|e| {
        e.dst_unresolved.as_deref() == Some("format")
            || e.dst.as_ref().map(|d| d.qualified_name == "format").unwrap_or(false)
    });
    assert!(bad.is_none(), "nested macro emitted as phantom Calls edge: {bad:?}");
}

#[test]
fn macro_body_type_qualified_call_preserves_qualifier() {
    let t = build_fixture(false);
    let caller = find_symbol(&t, "wrapper.rs", "tests::type_qualified_call_in_macro_keeps_qualifier");
    let outbound = open_reader(&t).neighbors(&caller, &kinds(&[EdgeKind::Calls]), Direction::Out);
    let resolved = outbound
        .iter()
        .find(|e| e.dst.as_ref().map(|d| d.qualified_name == "Builder::make").unwrap_or(false));
    assert!(resolved.is_some(), "expected resolved Builder::make edge; got {outbound:?}");
}

#[test]
fn macro_body_method_position_call_is_ambiguous_not_inferred() {
    let t = build_fixture(false);
    let hits = open_reader(&t).unresolved_callers(&vec!["ping".to_string()], &kinds(&[EdgeKind::Calls]));
    let assert_hit = hits
        .iter()
        .find(|h| h.caller.qualified_name == "tests::ping_via_assert")
        .expect("ping call from assert! body present");
    assert_eq!(assert_hit.confidence, EdgeConfidence::Ambiguous);
}

#[test]
fn macro_body_method_call_is_visible_to_unresolved_callers() {
    let t = build_fixture(false);
    let hits = open_reader(&t).unresolved_callers(&vec!["ping".to_string()], &kinds(&[EdgeKind::Calls]));
    let from_assert = hits.iter().find(|h| h.caller.qualified_name == "tests::ping_via_assert");
    assert!(from_assert.is_some(), "got {hits:?}");
}

#[test]
fn method_call_on_bare_self_stays_extracted() {
    let t = build_fixture(false);
    let echo = find_symbol(&t, "wrapper.rs", "Outer::echo");
    let outbound = open_reader(&t).neighbors(&echo, &kinds(&[EdgeKind::Calls]), Direction::Out);
    let to_outer_ping = outbound
        .iter()
        .find(|e| e.dst.as_ref().map(|d| d.qualified_name == "Outer::ping").unwrap_or(false))
        .expect("echo -> Outer::ping edge present");
    assert_eq!(to_outer_ping.confidence, EdgeConfidence::Extracted);
}

#[test]
fn bare_name_call_does_not_resolve_to_method() {
    let t = build_fixture(false);
    let caller = find_symbol(&t, "wrapper.rs", "bare_solo_must_not_resolve_to_method");
    let outbound = open_reader(&t).neighbors(&caller, &kinds(&[EdgeKind::Calls]), Direction::Out);
    let bad = outbound.iter().find(|e| {
        e.confidence == EdgeConfidence::Extracted
            && e.dst.as_ref().map(|d| d.qualified_name == "OnlyMethod::solo").unwrap_or(false)
    });
    assert!(bad.is_none(), "bare-name call falsely Extracted to method: {bad:?}");
}

#[test]
fn bare_call_to_const_fn_pointer_stays_extracted() {
    let t = build_fixture(false);
    let caller = find_symbol(&t, "wrapper.rs", "bare_caller_of_const_callable");
    let outbound = open_reader(&t).neighbors(&caller, &kinds(&[EdgeKind::Calls]), Direction::Out);
    let to_const = outbound
        .iter()
        .find(|e| e.dst.as_ref().map(|d| d.qualified_name == "CONST_CALLABLE").unwrap_or(false))
        .expect("bare CONST_CALLABLE() edge present");
    assert_eq!(to_const.confidence, EdgeConfidence::Extracted);
}

#[test]
fn inherent_plus_trait_impl_same_method_stays_extracted() {
    let t = build_fixture(false);
    let show_tag = find_symbol(&t, "wrapper.rs", "Outer::show_tag");
    let outbound = open_reader(&t).neighbors(&show_tag, &kinds(&[EdgeKind::Calls]), Direction::Out);
    let to_tag = outbound
        .iter()
        .find(|e| e.dst.as_ref().map(|d| d.qualified_name == "Outer::tag").unwrap_or(false))
        .expect("show_tag -> Outer::tag edge present");
    assert_eq!(to_tag.confidence, EdgeConfidence::Extracted);
}

#[test]
fn typescript_method_call_on_this_field_does_not_claim_extracted() {
    let t = build_typescript_fixture();
    let outer_ping = find_symbol(&t, "wrapper.ts", "Outer.ping");
    let outbound = open_reader(&t).neighbors(&outer_ping, &kinds(&[EdgeKind::Calls]), Direction::Out);
    let bad = outbound.iter().find(|e| {
        e.confidence == EdgeConfidence::Extracted
            && e.dst.as_ref().map(|d| d.qualified_name == "Outer.ping").unwrap_or(false)
    });
    assert!(bad.is_none(), "this-recursion claim present: {bad:?}");
    let ping_edge = outbound
        .iter()
        .find(|e| {
            e.dst_unresolved.as_deref() == Some("ping")
                || e.dst.as_ref().map(|d| d.qualified_name == "Inner.ping").unwrap_or(false)
        })
        .expect("ping call edge present");
    assert!(matches!(ping_edge.confidence, EdgeConfidence::Ambiguous | EdgeConfidence::Inferred));
}

#[test]
fn typescript_method_call_on_bare_this_stays_extracted() {
    let t = build_typescript_fixture();
    let echo = find_symbol(&t, "wrapper.ts", "Outer.echo");
    let outbound = open_reader(&t).neighbors(&echo, &kinds(&[EdgeKind::Calls]), Direction::Out);
    let to_outer_ping = outbound
        .iter()
        .find(|e| e.dst.as_ref().map(|d| d.qualified_name == "Outer.ping").unwrap_or(false))
        .expect("echo -> Outer.ping edge present");
    assert_eq!(to_outer_ping.confidence, EdgeConfidence::Extracted);
}

#[test]
fn typescript_bare_name_call_does_not_resolve_to_method() {
    let t = build_typescript_fixture();
    let caller = find_symbol(&t, "wrapper.ts", "bareSoloMustNotResolveToMethod");
    let outbound = open_reader(&t).neighbors(&caller, &kinds(&[EdgeKind::Calls]), Direction::Out);
    let bad = outbound.iter().find(|e| {
        e.confidence == EdgeConfidence::Extracted
            && e.dst.as_ref().map(|d| d.qualified_name == "OnlyMethod.solo").unwrap_or(false)
    });
    assert!(bad.is_none(), "bare-name call falsely Extracted to method: {bad:?}");
}

#[test]
fn python_method_call_on_self_field_does_not_claim_extracted() {
    let t = build_python_fixture();
    let outer_ping = find_symbol(&t, "wrapper.py", "Outer.ping");
    let outbound = open_reader(&t).neighbors(&outer_ping, &kinds(&[EdgeKind::Calls]), Direction::Out);
    let bad = outbound.iter().find(|e| {
        e.confidence == EdgeConfidence::Extracted
            && e.dst.as_ref().map(|d| d.qualified_name == "Outer.ping").unwrap_or(false)
    });
    assert!(bad.is_none(), "self-recursion claim present: {bad:?}");
    let ping_edge = outbound
        .iter()
        .find(|e| {
            e.dst_unresolved.as_deref() == Some("ping")
                || e.dst.as_ref().map(|d| d.qualified_name == "Inner.ping").unwrap_or(false)
        })
        .expect("ping call edge present");
    assert!(matches!(ping_edge.confidence, EdgeConfidence::Ambiguous | EdgeConfidence::Inferred));
}

#[test]
fn python_method_call_on_bare_self_stays_extracted() {
    let t = build_python_fixture();
    let echo = find_symbol(&t, "wrapper.py", "Outer.echo");
    let outbound = open_reader(&t).neighbors(&echo, &kinds(&[EdgeKind::Calls]), Direction::Out);
    let to_outer_ping = outbound
        .iter()
        .find(|e| e.dst.as_ref().map(|d| d.qualified_name == "Outer.ping").unwrap_or(false))
        .expect("echo -> Outer.ping edge present");
    assert_eq!(to_outer_ping.confidence, EdgeConfidence::Extracted);
}

#[test]
fn python_bare_name_call_does_not_resolve_to_method() {
    let t = build_python_fixture();
    let caller = find_symbol(&t, "wrapper.py", "bare_solo_must_not_resolve_to_method");
    let outbound = open_reader(&t).neighbors(&caller, &kinds(&[EdgeKind::Calls]), Direction::Out);
    let bad = outbound.iter().find(|e| {
        e.confidence == EdgeConfidence::Extracted
            && e.dst.as_ref().map(|d| d.qualified_name == "OnlyMethod.solo").unwrap_or(false)
    });
    assert!(bad.is_none(), "bare-name call falsely Extracted to method: {bad:?}");
}

#[test]
fn cross_file_resolved_edges_are_inferred() {
    let t = build_fixture(false);
    let greet = find_symbol(&t, "greet.rs", "greet");
    let callers = open_reader(&t).neighbors(&greet, &kinds(&[EdgeKind::Calls]), Direction::In);
    let cross_file = callers.iter().find(|e| e.src.path == "main.rs").expect("main.rs caller present");
    assert_eq!(cross_file.confidence, EdgeConfidence::Inferred);
}

#[test]
fn unresolved_callers_unknown_name_returns_empty() {
    let t = build_fixture(false);
    let hits = open_reader(&t)
        .unresolved_callers(&vec!["definitely_not_a_real_symbol_xyz".to_string()], &kinds(&[EdgeKind::Calls]));
    assert!(hits.is_empty(), "got {hits:?}");
}

#[test]
fn unresolved_callers_empty_names_returns_empty() {
    let t = build_fixture(false);
    let hits = open_reader(&t).unresolved_callers(&vec![], &kinds(&[]));
    assert!(hits.is_empty());
}

#[test]
fn edges_by_file_empty_file_path_returns_empty() {
    let t = build_fixture(false);
    let bundles = open_reader(&t).edges_by_file("no/such/file.rs", &kinds(&[]), Direction::Both);
    assert!(bundles.is_empty());
}

#[test]
fn run_dispatches_query_request_metadata() {
    let t = build_fixture(false);
    let request = QueryRequest::Metadata;
    match open_reader(&t).run(&request) {
        QueryResult::Metadata(m) => assert_eq!(m.sha.as_deref(), Some("deadbeefcafe")),
        other => panic!("expected Metadata result, got {other:?}"),
    }
}

#[test]
fn run_dispatches_lookup_and_expand() {
    let t = build_fixture(false);
    let bump = find_symbol(&t, "lib.rs", "Counter::bump");
    let reader = open_reader(&t);
    match reader.run(&QueryRequest::LookupSymbol { id: bump.clone() }) {
        QueryResult::LookupSymbol(Some(sym)) => assert_eq!(sym.qualified_name, "Counter::bump"),
        other => panic!("expected Some symbol, got {other:?}"),
    }
    match reader.run(&QueryRequest::Expand { id: bump, depth: 1, kinds: vec![EdgeKind::Calls], direction: Direction::Out }) {
        QueryResult::Expand(g) => assert!(g.nodes.len() >= 2),
        other => panic!("expected Expand result, got {other:?}"),
    }
}

#[test]
fn version_mismatch_is_explicit() {
    let mut t = build_fixture(false);
    for row in t.metadata.iter_mut() {
        if row.key == "index_format_version" {
            row.value = "99".to_string();
        }
    }
    match IndexReader::open(t).err().expect("should error") {
        MallardError::VersionMismatch { found, expected } => {
            assert_eq!(found, 99);
            assert_eq!(expected, 2);
        }
        other => panic!("expected VersionMismatch, got {other:?}"),
    }
}

#[test]
fn missing_format_version_reads_as_zero() {
    let mut t = build_fixture(false);
    t.metadata.retain(|r| r.key != "index_format_version");
    match IndexReader::open(t).err().expect("should error") {
        MallardError::VersionMismatch { found, expected } => assert_eq!((found, expected), (0, 2)),
        other => panic!("got {other:?}"),
    }
}

#[test]
fn find_by_qname_ranks_exact_matches_first() {
    let t = build_fixture(false);
    let hits = open_reader(&t).find_by_qname("ping");
    let names: Vec<&str> = hits.iter().map(|s| s.qualified_name.as_str()).collect();
    assert_eq!(names, vec!["Inner::ping", "Outer::ping"]);
    let exact = open_reader(&t).find_by_qname("Outer::ping");
    assert_eq!(exact.len(), 1);
}

#[test]
fn blast_radius_and_test_seams_of_a_symbol() {
    let t = build_fixture(false);
    let reader = open_reader(&t);
    let br = reader.blast_radius("double").expect("double is found");
    assert_eq!(br.symbol.qualified_name, "double");
    assert!(br.callers.iter().any(|c| c.qualified_name == "Counter::bump"));
    assert!(br.other_qname_matches.is_empty());
    assert!(br.test_seams.is_empty());
    assert!(reader.blast_radius("no_such_symbol_anywhere").is_none());
    assert!(reader.test_seams("no_such_symbol_anywhere").is_empty());
    let seams = reader.test_seams("Outer::ping");
    assert!(seams.iter().all(|s| s.qualified_name.starts_with("tests::")));
}

#[test]
fn standalone_test_seams_equal_blast_radius_seams() {
    let t = build_fixture(false);
    let reader = open_reader(&t);
    for q in ["double", "ping", "Outer::ping", "Inner::ping", "greet", "Counter::bump", "Counter::new", "no_such_symbol"] {
        let seams = reader.test_seams(q);
        match reader.blast_radius(q) {
            Some(br) => {
                assert_eq!(seams, br.test_seams, "{q}");
                for s in &br.test_seams {
                    assert!(br.callers.contains(s), "{q}: seam {} is not a caller", s.qualified_name);
                }
            }
            None => assert!(seams.is_empty(), "{q}"),
        }
    }
}

#[test]
fn find_lists_exact_matches_before_suffix_matches() {
    let t = build_fixture(false);
    let reader = open_reader(&t);
    for q in ["ping", "new", "bump", "double", "greet"] {
        let hits = reader.find_by_qname(q);
        let first_suffix = hits.iter().position(|h| h.qualified_name != q).unwrap_or(hits.len());
        assert!(hits[first_suffix..].iter().all(|h| h.qualified_name != q), "{q}");
        assert!(hits.iter().all(|h| h.qualified_name == q
            || h.qualified_name.ends_with(&format!(".{q}"))
            || h.qualified_name.ends_with(&format!("::{q}"))), "{q}");
    }
}

#[test]
fn expand_returns_only_records_of_the_index() {
    let t = build_fixture(false);
    let reader = open_reader(&t);
    let bump = find_symbol(&t, "lib.rs", "Counter::bump");
    for depth in 0..4 {
        let g = reader.expand(&bump, depth, &kinds(&[]), Direction::Both);
        for n in &g.nodes {
            assert_eq!(reader.lookup_symbol(&n.id).as_ref(), Some(n));
        }
        for e in &g.edges {
            assert_eq!(reader.lookup_symbol(&e.src.id).as_ref(), Some(&e.src));
            if let Some(d) = &e.dst {
                assert_eq!(reader.lookup_symbol(&d.id).as_ref(), Some(d));
            }
        }
    }
}

#[test]
fn every_written_symbol_reads_back_by_id() {
    for t in [build_fixture(true), build_python_fixture(), build_typescript_fixture()] {
        let reader = open_reader(&t);
        assert!(!t.symbols.is_empty());
        for s in &t.symbols {
            let file = t.files.iter().find(|f| f.id == s.file_id).expect("the symbol's file has a row");
            let r = reader.lookup_symbol(&s.id).expect("a written symbol is found");
            assert_eq!(r.id, s.id);
            assert_eq!(r.file_id, s.file_id);
            assert_eq!(r.path, file.path);
            assert_eq!(r.qualified_name, s.qualified_name);
            assert_eq!(r.kind, s.kind);
            assert_eq!(r.signature, s.signature);
            assert_eq!(r.anchor, s.anchor);
        }
    }
}

#[test]
fn every_built_edge_agrees_with_its_tier() {
    for t in [build_fixture(true), build_python_fixture(), build_typescript_fixture()] {
        assert!(!t.edges.is_empty());
        for e in &t.edges {
            let has_target = matches!(e.confidence, EdgeConfidence::Extracted | EdgeConfidence::Inferred);
            assert_eq!(e.dst.is_some(), has_target, "{e:?}");
            assert_eq!(e.dst_unresolved.is_some(), !has_target, "{e:?}");
        }
    }
}

#[test]
fn symbol_diff_reports_added_removed_and_modified() {
    let base = write_tree(&[("lib.rs", b"pub fn a() {}\npub fn b() {}\n")]);
    let head = write_tree(&[("lib.rs", b"pub fn a() { let _x = 1; }\npub fn c() {}\n")]);
    let (_, bt) = index(&base, "base", None, &["rust"], 1024 * 1024);
    let (_, ht) = index(&head, "head", None, &["rust"], 1024 * 1024);
    let d = mallard::query_graph::symbol_diff(&open_reader(&bt), &open_reader(&ht));
    let names = |v: &Vec<mallard::query::SymbolRecord>| v.iter().map(|s| s.qualified_name.clone()).collect::<Vec<_>>();
    assert_eq!(names(&d.added), vec!["c".to_string()]);
    assert_eq!(names(&d.removed), vec!["b".to_string()]);
    assert_eq!(d.modified.len(), 1);
    assert_eq!(d.modified[0].qualified_name, "a");
}

// ---------------------------------------------------------------------
// Reviewing.

fn review(changed: &[&str], max_comments: usize) -> mallard::pr_review::PrReviewResult {
    let root = sample_rust();
    let (_, base) = index(&root, "base-sha", Some(RULES_YML), &["rust"], 1024 * 1024);
    let (_, head) = index(&root, "head-sha", Some(RULES_YML), &["rust"], 1024 * 1024);
    let req = PrReviewRequest {
        base_db: "base.duckdb".to_string(),
        head_db: "head.duckdb".to_string(),
        changed_files: changed.iter().map(|s| s.to_string()).collect(),
        max_comments,
        diff_hunks: None,
        ignore_test_trivia: false,
    };
    pr_review::run(&req, &open_reader(&base), &open_reader(&head))
}

#[test]
fn pr_review_emits_structural_rule_comments_on_changed_files() {
    let result = review(&["main.rs", "greet.rs"], 20);
    assert!(result.summary.comments_emitted >= 2, "got {}", result.summary.comments_emitted);
    let any_structural = result.comments.iter().any(|c| c.confidence_tier == "structural-rule" && c.rule_id.is_some());
    assert!(any_structural, "expected at least one structural-rule comment");
}

#[test]
fn pr_review_respects_max_comments_budget() {
    let result = review(&["main.rs", "greet.rs", "lib.rs"], 1);
    assert_eq!(result.comments.len(), 1, "budget should cap at 1");
    assert!(result.summary.comments_dropped_to_budget >= 1);
}

#[test]
fn pr_review_markdown_render_includes_badge() {
    let result = review(&["greet.rs"], 5);
    let md = pr_review::render_markdown(&result);
    assert!(md.contains("# mallard PR review"));
    assert!(md.contains("[structural-rule]"), "badge prefix present in markdown");
}

#[test]
fn pr_review_symbol_comments_name_symbols_of_both_indexes() {
    let base_tree = write_tree(&[("lib.rs", b"pub fn a() -> i32 { 1 }\npub fn b() -> i32 { a() }\npub fn gone() {}\n")]);
    let head_tree = write_tree(&[("lib.rs", b"pub fn a() -> i32 { 1 + 1 + 1 }\npub fn b() -> i32 { a() + c() }\npub fn c() -> i32 { 3 }\n")]);
    let (_, base) = index(&base_tree, "base", Some(RULES_YML), &["rust"], 1024 * 1024);
    let (_, head) = index(&head_tree, "head", Some(RULES_YML), &["rust"], 1024 * 1024);
    let req = PrReviewRequest {
        base_db: "base.duckdb".to_string(),
        head_db: "head.duckdb".to_string(),
        changed_files: vec!["lib.rs".to_string()],
        max_comments: 50,
        diff_hunks: None,
        ignore_test_trivia: false,
    };
    let result = pr_review::run(&req, &open_reader(&base), &open_reader(&head));
    let named: Vec<_> = result.comments.iter().filter(|c| c.symbol_id.is_some()).collect();
    assert!(!named.is_empty(), "expected a comment on a modified symbol");
    for c in named {
        let id = c.symbol_id.as_ref().unwrap();
        let qname = c.symbol_qualified_name.as_ref().expect("a named symbol has a qualified name");
        assert!(head.symbols.iter().any(|s| &s.id.0 == id && &s.qualified_name == qname), "{c:?}");
        assert!(base.symbols.iter().any(|s| &s.id.0 == id), "{c:?}");
    }
}

fn review_with(changed: &[&str], hunks: Option<mallard::pr_review::DiffHunks>) -> mallard::pr_review::PrReviewResult {
    let root = sample_rust();
    let (_, base) = index(&root, "base-sha", Some(RULES_YML), &["rust"], 1024 * 1024);
    let (_, head) = index(&root, "head-sha", Some(RULES_YML), &["rust"], 1024 * 1024);
    let req = PrReviewRequest {
        base_db: "base.duckdb".to_string(),
        head_db: "head.duckdb".to_string(),
        changed_files: changed.iter().map(|s| s.to_string()).collect(),
        max_comments: 50,
        diff_hunks: hunks,
        ignore_test_trivia: false,
    };
    pr_review::run(&req, &open_reader(&base), &open_reader(&head))
}

fn hunk(path: &str, start: u32, end: u32) -> Option<mallard::pr_review::DiffHunks> {
    Some(mallard::pr_review::DiffHunks {
        files: vec![mallard::pr_review::FileHunks {
            path: path.to_string(),
            ranges: vec![mallard::pr_review::DiffRange { start, end }],
        }],
    })
}

#[test]
fn rule_finding_on_the_changed_line_is_kept() {
    // `format!` is on the second line of greet.rs: 0-based line 1, diff line 2.
    let on_line = review_with(&["greet.rs"], hunk("greet.rs", 2, 2));
    assert!(on_line.comments.iter().any(|c| c.rule_id.as_deref() == Some("rust-format-macro") && c.line == 1));
    let elsewhere = review_with(&["greet.rs"], hunk("greet.rs", 3, 3));
    assert!(!elsewhere.comments.iter().any(|c| c.rule_id.is_some()));
}

#[test]
fn rule_findings_are_only_on_the_changed_file_itself() {
    let prefix_only = review_with(&["greet"], None);
    assert!(prefix_only.comments.is_empty(), "{:?}", prefix_only.comments);
    let exact = review_with(&["greet.rs"], None);
    assert!(exact.comments.iter().all(|c| c.file == "greet.rs"));
    assert!(exact.comments.iter().any(|c| c.rule_id.is_some()));
}

#[test]
fn empty_tree_builds_an_empty_index() {
    let (s, t) = index(&write_tree(&[]), "0000000000", None, &["rust"], 1024 * 1024);
    assert!(t.files.is_empty() && t.symbols.is_empty() && t.edges.is_empty());
    assert_eq!(s.counters.symbols, 0);
    assert_eq!(s.counters.files_indexed, 0);
    assert!(s.slowest_files.is_empty());
    assert_eq!(metadata_value(&t, "sha").as_deref(), Some("0000000000"));
}

#[test]
fn build_counts_findings_as_written() {
    let root = sample_rust();
    let (s, t) = index(&root, "x", Some(RULES_YML), &["rust"], 1024 * 1024);
    assert_eq!(s.counters.findings as usize, t.findings.len());
    let (s0, t0) = index(&root, "x", None, &["rust"], 1024 * 1024);
    assert_eq!((s0.counters.findings, t0.findings.len()), (0, 0));
}

#[test]
fn symbol_ids_are_32_lowercase_hex_digits() {
    let t = build_fixture(false);
    for s in &t.symbols {
        assert_eq!(s.id.0.len(), 32);
        assert!(s.id.0.chars().all(|c| c.is_ascii_digit() || ('a'..='f').contains(&c)), "{}", s.id.0);
    }
}

#[test]
fn short_name_buckets_partition_the_symbols() {
    let t = build_fixture(false);
    let syms: Vec<_> = t.symbols.iter().filter(|s| s.file_id == t.symbols[0].file_id).cloned().collect();
    let buckets = mallard::extractor_common::symbols_by_short(&syms, "::");
    assert!(buckets.iter().all(|b| !b.members.is_empty()));
    assert_eq!(buckets.iter().map(|b| b.members.len()).sum::<usize>(), syms.len());
}

#[test]
fn anchors_and_parse_errors_carry_rows_and_columns() {
    let t = build_fixture(false);
    let syms = open_reader(&t).symbols_in_file("lib.rs");
    let double = syms.iter().find(|s| s.qualified_name == "double").unwrap();
    assert_eq!((double.anchor.start_line, double.anchor.end_line), (4, 6));
    let bump = syms.iter().find(|s| s.qualified_name == "Counter::bump").unwrap();
    let before = &LIB_RS.as_bytes()[..bump.anchor.start_byte as usize];
    assert_eq!(bump.anchor.start_line as usize, before.iter().filter(|b| **b == b'\n').count());
    let broken = t.files.iter().find(|f| f.path == "broken.rs").unwrap().id;
    for e in t.parse_errors.iter().filter(|e| e.file_id == broken) {
        assert!(e.line <= 2, "{e:?}");
        assert!((e.col as usize) < 40, "{e:?}");
    }
}
