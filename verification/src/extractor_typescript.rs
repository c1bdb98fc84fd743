//! TypeScript / TSX symbols, calls and imports of one file: functions,
//! classes, interfaces, type aliases, methods; calls by name and by member;
//! import statements. Both grammars share the same node kinds here.
use vstd::prelude::*;
use crate::clock::{clock_now, millis_since};
use crate::extract::edge_views;
use crate::model::{MallardError, ParsedFile};
use crate::parsed_source::ParsedSource;
use crate::syntax::{collect_parse_errors, parse_error_views, tree_errors, tree_view, NodeV};
use crate::extract::{import_views, ref_views, stdlib_view, symbol_views, CallRef, ImportRef, LangRules, RefV, SymbolV};
use crate::extractor_common::TypeKinds;
use crate::extractor_python::{dotted_name, dotted_name_exec, params_signature, params_signature_exec};
use crate::extractor_rust::FileScan;
use crate::model::{symbol_id_text, FileId, Symbol, SymbolId, SymbolKind};
use crate::syntax::{anchor_of, field_child, kind_of, node_text, parent_of, SyntaxTree};

verus! {

/// Symbol kind of a TypeScript definition node kind, with the node kind
/// its `name` must have.
pub open spec fn ts_def_pattern(k: Seq<char>) -> Option<(SymbolKind, Seq<char>)> {
    if k == "function_declaration"@ {
        Some((SymbolKind::Function, "identifier"@))
    } else if k == "class_declaration"@ {
        Some((SymbolKind::Struct, "type_identifier"@))
    } else if k == "interface_declaration"@ {
        Some((SymbolKind::Trait, "type_identifier"@))
    } else if k == "type_alias_declaration"@ {
        Some((SymbolKind::TypeAlias, "type_identifier"@))
    } else if k == "method_definition"@ {
        Some((SymbolKind::Method, "property_identifier"@))
    } else {
        None
    }
}

pub open spec fn ts_symbol(t: Seq<NodeV>, src: Seq<u8>, path: Seq<char>, fid: FileId, i: int) -> Option<SymbolV> {
    match ts_def_pattern(kind_of(t, i)) {
        None => None,
        Some((kind, name_kind)) => match field_child(t, i, "name"@) {
            None => None,
            Some(n) => if kind_of(t, n) != name_kind {
                None
            } else {
                let name = node_text(t, src, n);
                let q = dotted_name(t, src, i, name, kind, "class_declaration"@);
                let sig = params_signature(t, src, i, kind, "formal_parameters"@);
                Some(SymbolV {
                    id: symbol_id_text(path, q, kind, sig),
                    file_id: fid,
                    qualified_name: q,
                    kind: kind,
                    signature: sig,
                    anchor: anchor_of(t, i),
                })
            },
        },
    }
}

/// The receiver of a member call is bare `this`.
pub open spec fn receiver_is_this(t: Seq<NodeV>, n: int) -> bool {
    match parent_of(t, n) {
        Some(p) => kind_of(t, p) == "member_expression"@ && match field_child(t, p, "object"@) {
            Some(o) => kind_of(t, o) == "this"@,
            None => false,
        },
        None => false,
    }
}

/// The call a `call_expression` node makes: by name, or by member
/// (trusted only on a bare `this` receiver).
pub open spec fn ts_call(t: Seq<NodeV>, src: Seq<u8>, i: int) -> Option<RefV> {
    if kind_of(t, i) != "call_expression"@ {
        None
    } else {
        match field_child(t, i, "function"@) {
            None => None,
            Some(f) => if kind_of(t, f) == "identifier"@ {
                Some(RefV { start: t[f].start_byte, name: node_text(t, src, f), trust: true, inhibit: false, method_call: false, scoped: false })
            } else if kind_of(t, f) == "member_expression"@ {
                match field_child(t, f, "property"@) {
                    Some(n) => if kind_of(t, n) == "property_identifier"@ {
                        Some(RefV {
                            start: t[n].start_byte,
                            name: node_text(t, src, n),
                            trust: receiver_is_this(t, n),
                            inhibit: false,
                            method_call: true,
                            scoped: false,
                        })
                    } else {
                        None
                    },
                    None => None,
                }
            } else {
                None
            },
        }
    }
}

pub open spec fn ts_symbols_upto(t: Seq<NodeV>, src: Seq<u8>, path: Seq<char>, fid: FileId, m: int) -> Seq<SymbolV>
    decreases m,
{
    if m <= 0 {
        seq![]
    } else {
        let rest = ts_symbols_upto(t, src, path, fid, m - 1);
        match ts_symbol(t, src, path, fid, m - 1) {
            Some(s) => rest.push(s),
            None => rest,
        }
    }
}

pub open spec fn ts_refs_upto(t: Seq<NodeV>, src: Seq<u8>, m: int) -> Seq<RefV>
    decreases m,
{
    if m <= 0 {
        seq![]
    } else {
        let rest = ts_refs_upto(t, src, m - 1);
        match ts_call(t, src, m - 1) {
            Some(r) => rest.push(r),
            None => rest,
        }
    }
}

pub open spec fn ts_imports_upto(t: Seq<NodeV>, src: Seq<u8>, m: int) -> Seq<(u64, Seq<char>)>
    decreases m,
{
    if m <= 0 {
        seq![]
    } else {
        let rest = ts_imports_upto(t, src, m - 1);
        if kind_of(t, m - 1) == "import_statement"@ {
            rest.push((t[m - 1].start_byte, node_text(t, src, m - 1)))
        } else {
            rest
        }
    }
}

/// TypeScript's intra-file binding rules: `.` paths; class, interface and
/// type-alias constructors.
pub fn typescript_rules() -> (r: LangRules)
    ensures
        r.sep@ == "."@,
        r.kinds == TypeKinds::TypeScript,
        stdlib_view(r) == Seq::<Seq<char>>::empty(),
{
    let v: Vec<&'static str> = Vec::new();
    let r = LangRules { sep: ".", stdlib_variants: v, kinds: TypeKinds::TypeScript };
    assert(stdlib_view(r) =~= Seq::<Seq<char>>::empty());
    r
}

fn ts_def_pattern_exec(t: &SyntaxTree, i: usize) -> (r: Option<(SymbolKind, &'static str)>)
    requires
        i < t.nodes@.len(),
    ensures
        r.is_some() == ts_def_pattern(kind_of(tree_view(*t), i as int)).is_some(),
        r.is_some() ==> r.unwrap().0 == ts_def_pattern(kind_of(tree_view(*t), i as int)).unwrap().0
            && r.unwrap().1@ == ts_def_pattern(kind_of(tree_view(*t), i as int)).unwrap().1,
{
    if t.kind_is(i, "function_declaration") {
        Some((SymbolKind::Function, "identifier"))
    } else if t.kind_is(i, "class_declaration") {
        Some((SymbolKind::Struct, "type_identifier"))
    } else if t.kind_is(i, "interface_declaration") {
        Some((SymbolKind::Trait, "type_identifier"))
    } else if t.kind_is(i, "type_alias_declaration") {
        Some((SymbolKind::TypeAlias, "type_identifier"))
    } else if t.kind_is(i, "method_definition") {
        Some((SymbolKind::Method, "property_identifier"))
    } else {
        None
    }
}

fn ts_symbol_exec(t: &SyntaxTree, src: &[u8], path: &str, fid: FileId, i: usize) -> (r: Option<Symbol>)
    requires
        t.wf(src@.len()),
        i < t.nodes@.len(),
    ensures
        match r {
            Some(s) => ts_symbol(tree_view(*t), src@, path@, fid, i as int) == Some(crate::extract::symbol_view(s)),
            None => ts_symbol(tree_view(*t), src@, path@, fid, i as int).is_none(),
        },
{
    let (kind, name_kind) = match ts_def_pattern_exec(t, i) {
        Some(p) => p,
        None => return None,
    };
    let n = match t.field_child(i, "name") {
        Some(n) => n,
        None => return None,
    };
    if !t.kind_is(n, name_kind) {
        return None;
    }
    let name = t.text_of(src, n);
    let q = dotted_name_exec(t, src, i, name, kind, "class_declaration");
    let sig = params_signature_exec(t, src, i, kind, "formal_parameters");
    let id = SymbolId::compute(path, q.as_str(), kind, sig.as_str());
    Some(Symbol { id: id, file_id: fid, qualified_name: q, kind: kind, signature: sig, anchor: t.anchor(i) })
}

fn receiver_is_this_exec(t: &SyntaxTree, src: &[u8], n: usize) -> (r: bool)
    requires
        t.wf(src@.len()),
        n < t.nodes@.len(),
    ensures
        r == receiver_is_this(tree_view(*t), n as int),
{
    match t.nodes[n].parent {
        Some(p) => {
            assert(p < t.nodes@.len()) by {
                if n == 0 {
                    assert(t.nodes@[0].parent.is_none());
                } else {
                    assert(t.nodes@[n as int].parent.is_some());
                }
            }
            if !t.kind_is(p, "member_expression") {
                return false;
            }
            match t.field_child(p, "object") {
                Some(o) => t.kind_is(o, "this"),
                None => false,
            }
        },
        None => false,
    }
}

fn ts_call_exec(t: &SyntaxTree, src: &[u8], i: usize) -> (r: Option<CallRef>)
    requires
        t.wf(src@.len()),
        i < t.nodes@.len(),
    ensures
        match r {
            Some(c) => ts_call(tree_view(*t), src@, i as int) == Some(crate::extract::ref_view(c)),
            None => ts_call(tree_view(*t), src@, i as int).is_none(),
        },
{
    if !t.kind_is(i, "call_expression") {
        return None;
    }
    let f = match t.field_child(i, "function") {
        Some(f) => f,
        None => return None,
    };
    if t.kind_is(f, "identifier") {
        Some(CallRef { start: t.nodes[f].start_byte, name: t.text_of(src, f), trust_intra_file: true, inhibit_resolver: false, method_call: false, scoped: false })
    } else if t.kind_is(f, "member_expression") {
        match t.field_child(f, "property") {
            Some(n) => if t.kind_is(n, "property_identifier") {
                let trust = receiver_is_this_exec(t, src, n);
                Some(CallRef { start: t.nodes[n].start_byte, name: t.text_of(src, n), trust_intra_file: trust, inhibit_resolver: false, method_call: true, scoped: false })
            } else {
                None
            },
            None => None,
        }
    } else {
        None
    }
}

/// Scans every node of a TypeScript or TSX syntax tree in order. The
/// extractor's definition, call and import patterns are tested node by
/// node on the table, rather than handed to tree-sitter's query engine, so
/// that which nodes match is stated over the table and proved; each node
/// is visited once, in pre-order.
pub fn scan_typescript(t: &SyntaxTree, src: &[u8], path: &str, fid: FileId) -> (r: FileScan)
    requires
        t.wf(src@.len()),
    ensures
        crate::extract::starts_sorted(r.symbols@),
        symbol_views(r.symbols@) == ts_symbols_upto(tree_view(*t), src@, path@, fid, t.nodes@.len() as int),
        ref_views(r.refs@) == ts_refs_upto(tree_view(*t), src@, t.nodes@.len() as int),
        import_views(r.imports@) == ts_imports_upto(tree_view(*t), src@, t.nodes@.len() as int),
{
    let mut symbols: Vec<Symbol> = Vec::new();
    let mut refs: Vec<CallRef> = Vec::new();
    let mut imports: Vec<ImportRef> = Vec::new();
    let mut i: usize = 0;
    while i < t.nodes.len()
        invariant
            t.wf(src@.len()),
            i <= t.nodes@.len(),
            crate::extract::starts_sorted(symbols@),
            i == 0 ==> symbols@.len() == 0,
            i > 0 ==> forall|a: int| 0 <= a < symbols@.len() ==> (#[trigger] symbols@[a]).anchor.start_byte <= t.nodes@[i - 1].start_byte,
            symbol_views(symbols@) == ts_symbols_upto(tree_view(*t), src@, path@, fid, i as int),
            ref_views(refs@) == ts_refs_upto(tree_view(*t), src@, i as int),
            import_views(imports@) == ts_imports_upto(tree_view(*t), src@, i as int),
        decreases t.nodes.len() - i,
    {
        match ts_symbol_exec(t, src, path, fid, i) {
            Some(s) => {
                let ghost before = symbol_views(symbols@);
                let ghost sv = crate::extract::symbol_view(s);
                assert(s.anchor.start_byte == t.nodes@[i as int].start_byte);
                assert(i > 0 ==> t.nodes@[i - 1].start_byte <= t.nodes@[i as int].start_byte);
                symbols.push(s);
                assert(symbol_views(symbols@) =~= before.push(sv));
            },
            None => {},
        }
        match ts_call_exec(t, src, i) {
            Some(r) => {
                let ghost before = ref_views(refs@);
                let ghost rv = crate::extract::ref_view(r);
                refs.push(r);
                assert(ref_views(refs@) =~= before.push(rv));
            },
            None => {},
        }
        if t.kind_is(i, "import_statement") {
            let ghost before = import_views(imports@);
            let imp = ImportRef { start: t.nodes[i].start_byte, text: t.text_of(src, i) };
            let ghost iv = (imp.start, imp.text@);
            imports.push(imp);
            assert(import_views(imports@) =~= before.push(iv));
        }
        assert(forall|a: int| 0 <= a < symbols@.len() ==> (#[trigger] symbols@[a]).anchor.start_byte <= t.nodes@[i as int].start_byte) by {
            assert(i > 0 ==> t.nodes@[i - 1].start_byte <= t.nodes@[i as int].start_byte);
        }
        i = i + 1;
    }
    FileScan { symbols, refs, imports }
}

/// Symbol extraction for TypeScript and TSX files; both grammars share the node kinds read here.
pub struct TypeScriptExtractor {}

impl TypeScriptExtractor {
    /// An extractor; it holds no state, so making one cannot fail.
    pub fn new() -> (r: Result<TypeScriptExtractor, MallardError>)
        ensures
            r.is_ok(),
    {
        Ok(TypeScriptExtractor {})
    }
}

impl crate::extract::SymbolExtractor for TypeScriptExtractor {
    /// Symbols, edges and parse errors of a parsed file. Symbols come in
    /// the order of their definitions' start bytes; edges by kind name,
    /// then position.
    fn extract(&mut self, parsed: &ParsedSource) -> (r: ParsedFile)
        ensures
            r.file_id == parsed.file_id,
            r.parse_ms == parsed.parse_ms,
            symbol_views(r.symbols@) == ts_symbols_upto(tree_view(parsed.tree), parsed.bytes(), parsed.relative_path@, parsed.file_id, parsed.tree.nodes@.len() as int),
            crate::extract::starts_sorted(r.symbols@),
            edge_views(r.edges@) == crate::extract::file_edges(
                symbol_views(r.symbols@),
                ts_refs_upto(tree_view(parsed.tree), parsed.bytes(), parsed.tree.nodes@.len() as int),
                ts_imports_upto(tree_view(parsed.tree), parsed.bytes(), parsed.tree.nodes@.len() as int),
                parsed.relative_path@,
                parsed.file_id,
                "."@,
                Seq::<Seq<char>>::empty(),
                TypeKinds::TypeScript,
            ),
            parse_error_views(r.parse_errors@) == tree_errors(tree_view(parsed.tree), parsed.bytes(), parsed.file_id),
    {
        let src = parsed.source.as_str().as_bytes();
        let parse_errors = collect_parse_errors(&parsed.tree, src, parsed.file_id);
        let t = clock_now();
        let scan = scan_typescript(&parsed.tree, src, parsed.relative_path.as_str(), parsed.file_id);
        let rules = typescript_rules();
        let edges = crate::extract::assemble_edges(&scan.symbols, &scan.refs, &scan.imports, parsed.relative_path.as_str(), parsed.file_id, &rules);
        let query_ms = millis_since(&t);
        ParsedFile {
            file_id: parsed.file_id,
            symbols: scan.symbols,
            edges,
            parse_errors,
            parse_ms: parsed.parse_ms,
            query_ms,
        }
    }
}


} // verus!
