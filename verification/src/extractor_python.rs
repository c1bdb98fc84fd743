//! Python symbols, calls and imports of one file: functions (methods
//! inside a class), classes, calls by name and by attribute, and import
//! statements.
use vstd::prelude::*;
use crate::clock::{clock_now, millis_since};
use crate::extract::edge_views;
use crate::model::{MallardError, ParsedFile};
use crate::parsed_source::ParsedSource;
use crate::syntax::{collect_parse_errors, parse_error_views, tree_errors, tree_view, NodeV};
use crate::extract::{import_views, ref_views, stdlib_view, symbol_views, CallRef, ImportRef, LangRules, RefV, SymbolV};
use crate::extractor_common::{canonical_params, canonical_params_spec, TypeKinds};
use crate::extractor_rust::FileScan;
use crate::model::{symbol_id_text, FileId, Symbol, SymbolId, SymbolKind};
use crate::syntax::{anchor_of, children, field_child, first_of_kind, has_ancestor_kind, kind_of, node_text, parent_of, SyntaxTree};
use crate::text::push_str;

verus! {

/// Name of the nearest enclosing class that has one.
pub open spec fn enclosing_class_name(t: Seq<NodeV>, src: Seq<u8>, x: int, class_kind: Seq<char>) -> Option<Seq<char>>
    decreases x,
{
    match parent_of(t, x) {
        None => None,
        Some(p) => if !(0 <= p < x) {
            None
        } else if kind_of(t, p) == class_kind && field_child(t, p, "name"@).is_some() {
            Some(node_text(t, src, field_child(t, p, "name"@).unwrap()))
        } else {
            enclosing_class_name(t, src, p, class_kind)
        },
    }
}

/// `Class.name` for a method in a named class; the bare name otherwise.
pub open spec fn dotted_name(t: Seq<NodeV>, src: Seq<u8>, def: int, name: Seq<char>, kind: SymbolKind, class_kind: Seq<char>) -> Seq<char> {
    if kind == SymbolKind::Method && enclosing_class_name(t, src, def, class_kind).is_some() {
        enclosing_class_name(t, src, def, class_kind).unwrap() + "."@ + name
    } else {
        name
    }
}

/// Normalised parameter list of a function or method (from its first
/// child of kind `params_kind`); empty for other kinds.
pub open spec fn params_signature(t: Seq<NodeV>, src: Seq<u8>, def: int, kind: SymbolKind, params_kind: Seq<char>) -> Seq<char> {
    if kind != SymbolKind::Function && kind != SymbolKind::Method {
        seq![]
    } else {
        match first_of_kind(t, children(t, def), params_kind) {
            Some(c) => canonical_params_spec(node_text(t, src, c)),
            None => seq![],
        }
    }
}

/// The symbol a Python definition node declares: a function (a method
/// inside a class) or a class.
pub open spec fn python_symbol(t: Seq<NodeV>, src: Seq<u8>, path: Seq<char>, fid: FileId, i: int) -> Option<SymbolV> {
    let initial = if kind_of(t, i) == "function_definition"@ {
        Some(SymbolKind::Function)
    } else if kind_of(t, i) == "class_definition"@ {
        Some(SymbolKind::Struct)
    } else {
        None
    };
    match initial {
        None => None,
        Some(k0) => match field_child(t, i, "name"@) {
            None => None,
            Some(n) => if kind_of(t, n) != "identifier"@ {
                None
            } else {
                let kind = if k0 == SymbolKind::Function && has_ancestor_kind(t, i, "class_definition"@, "class_definition"@) {
                    SymbolKind::Method
                } else {
                    k0
                };
                let name = node_text(t, src, n);
                let q = dotted_name(t, src, i, name, kind, "class_definition"@);
                let sig = params_signature(t, src, i, kind, "parameters"@);
                Some(SymbolV {
                    id: symbol_id_text(path, q, kind, sig),
                    file_id: fid,
                    qualified_name: q,
                    kind: kind,
                    signature: sig,
                    anchor: anchor_of(t, i),
                })
            },
        },
    }
}

/// The receiver of an attribute call is bare `self` or `cls`.
pub open spec fn receiver_is_self_or_cls(t: Seq<NodeV>, src: Seq<u8>, n: int) -> bool {
    match parent_of(t, n) {
        Some(p) => kind_of(t, p) == "attribute"@ && match field_child(t, p, "object"@) {
            Some(o) => kind_of(t, o) == "identifier"@ && (node_text(t, src, o) == "self"@ || node_text(t, src, o) == "cls"@),
            None => false,
        },
        None => false,
    }
}

/// The call a `call` node makes: by name, or by attribute (trusted only on
/// a `self` / `cls` receiver).
pub open spec fn python_call(t: Seq<NodeV>, src: Seq<u8>, i: int) -> Option<RefV> {
    if kind_of(t, i) != "call"@ {
        None
    } else {
        match field_child(t, i, "function"@) {
            None => None,
            Some(f) => if kind_of(t, f) == "identifier"@ {
                Some(RefV { start: t[f].start_byte, name: node_text(t, src, f), trust: true, inhibit: false, method_call: false, scoped: false })
            } else if kind_of(t, f) == "attribute"@ {
                match field_child(t, f, "attribute"@) {
                    Some(n) => if kind_of(t, n) == "identifier"@ {
                        Some(RefV {
                            start: t[n].start_byte,
                            name: node_text(t, src, n),
                            trust: receiver_is_self_or_cls(t, src, n),
                            inhibit: false,
                            method_call: true,
                            scoped: false,
                        })
                    } else {
                        None
                    },
                    None => None,
                }
            } else {
                None
            },
        }
    }
}

pub open spec fn python_symbols_upto(t: Seq<NodeV>, src: Seq<u8>, path: Seq<char>, fid: FileId, m: int) -> Seq<SymbolV>
    decreases m,
{
    if m <= 0 {
        seq![]
    } else {
        let rest = python_symbols_upto(t, src, path, fid, m - 1);
        match python_symbol(t, src, path, fid, m - 1) {
            Some(s) => rest.push(s),
            None => rest,
        }
    }
}

pub open spec fn python_refs_upto(t: Seq<NodeV>, src: Seq<u8>, m: int) -> Seq<RefV>
    decreases m,
{
    if m <= 0 {
        seq![]
    } else {
        let rest = python_refs_upto(t, src, m - 1);
        match python_call(t, src, m - 1) {
            Some(r) => rest.push(r),
            None => rest,
        }
    }
}

pub open spec fn python_imports_upto(t: Seq<NodeV>, src: Seq<u8>, m: int) -> Seq<(u64, Seq<char>)>
    decreases m,
{
    if m <= 0 {
        seq![]
    } else {
        let rest = python_imports_upto(t, src, m - 1);
        if kind_of(t, m - 1) == "import_statement"@ || kind_of(t, m - 1) == "import_from_statement"@ {
            rest.push((t[m - 1].start_byte, node_text(t, src, m - 1)))
        } else {
            rest
        }
    }
}

/// Python's intra-file binding rules: `.` paths, class constructors.
pub fn python_rules() -> (r: LangRules)
    ensures
        r.sep@ == "."@,
        r.kinds == TypeKinds::Python,
        stdlib_view(r) == Seq::<Seq<char>>::empty(),
{
    let v: Vec<&'static str> = Vec::new();
    let r = LangRules { sep: ".", stdlib_variants: v, kinds: TypeKinds::Python };
    assert(stdlib_view(r) =~= Seq::<Seq<char>>::empty());
    r
}

// ---------------------------------------------------------------------
// Exec, shared with the TypeScript scanner.

pub fn enclosing_class_name_exec(t: &SyntaxTree, src: &[u8], x: usize, class_kind: &str) -> (r: Option<String>)
    requires
        t.wf(src@.len()),
        x < t.nodes@.len(),
    ensures
        r.is_some() == enclosing_class_name(tree_view(*t), src@, x as int, class_kind@).is_some(),
        r.is_some() ==> r.unwrap()@ == enclosing_class_name(tree_view(*t), src@, x as int, class_kind@).unwrap(),
{
    let mut cur: usize = x;
    loop
        invariant
            t.wf(src@.len()),
            cur < t.nodes@.len(),
            enclosing_class_name(tree_view(*t), src@, cur as int, class_kind@) == enclosing_class_name(tree_view(*t), src@, x as int, class_kind@),
        decreases cur,
    {
        match t.nodes[cur].parent {
            None => return None,
            Some(p) => {
                if p >= cur {
                    return None;
                }
                if t.kind_is(p, class_kind) {
                    match t.field_child(p, "name") {
                        Some(n) => return Some(t.text_of(src, n)),
                        None => {},
                    }
                }
                cur = p;
            },
        }
    }
}

pub fn dotted_name_exec(t: &SyntaxTree, src: &[u8], def: usize, name: String, kind: SymbolKind, class_kind: &str) -> (r: String)
    requires
        t.wf(src@.len()),
        def < t.nodes@.len(),
    ensures
        r@ == dotted_name(tree_view(*t), src@, def as int, name@, kind, class_kind@),
{
    if matches!(kind, SymbolKind::Method) {
        match enclosing_class_name_exec(t, src, def, class_kind) {
            Some(c) => {
                let mut s = c;
                push_str(&mut s, ".");
                push_str(&mut s, name.as_str());
                return s;
            },
            None => {},
        }
    }
    name
}

pub fn params_signature_exec(t: &SyntaxTree, src: &[u8], def: usize, kind: SymbolKind, params_kind: &str) -> (r: String)
    requires
        t.wf(src@.len()),
        def < t.nodes@.len(),
    ensures
        r@ == params_signature(tree_view(*t), src@, def as int, kind, params_kind@),
{
    if !matches!(kind, SymbolKind::Function | SymbolKind::Method) {
        return String::new();
    }
    let kids = t.children_of(def, false);
    match t.first_of_kind(&kids, params_kind) {
        Some(c) => canonical_params(t.text_of(src, c)),
        None => String::new(),
    }
}

fn python_symbol_exec(t: &SyntaxTree, src: &[u8], path: &str, fid: FileId, i: usize) -> (r: Option<Symbol>)
    requires
        t.wf(src@.len()),
        i < t.nodes@.len(),
    ensures
        match r {
            Some(s) => python_symbol(tree_view(*t), src@, path@, fid, i as int) == Some(crate::extract::symbol_view(s)),
            None => python_symbol(tree_view(*t), src@, path@, fid, i as int).is_none(),
        },
{
    let k0 = if t.kind_is(i, "function_definition") {
        SymbolKind::Function
    } else if t.kind_is(i, "class_definition") {
        SymbolKind::Struct
    } else {
        return None;
    };
    let n = match t.field_child(i, "name") {
        Some(n) => n,
        None => return None,
    };
    if !t.kind_is(n, "identifier") {
        return None;
    }
    let kind = if matches!(k0, SymbolKind::Function) && t.has_ancestor_kind(i, "class_definition", "class_definition") {
        SymbolKind::Method
    } else {
        k0
    };
    let name = t.text_of(src, n);
    let q = dotted_name_exec(t, src, i, name, kind, "class_definition");
    let sig = params_signature_exec(t, src, i, kind, "parameters");
    let id = SymbolId::compute(path, q.as_str(), kind, sig.as_str());
    Some(Symbol { id: id, file_id: fid, qualified_name: q, kind: kind, signature: sig, anchor: t.anchor(i) })
}

fn receiver_is_self_or_cls_exec(t: &SyntaxTree, src: &[u8], n: usize) -> (r: bool)
    requires
        t.wf(src@.len()),
        n < t.nodes@.len(),
    ensures
        r == receiver_is_self_or_cls(tree_view(*t), src@, n as int),
{
    match t.nodes[n].parent {
        Some(p) => {
            assert(p < t.nodes@.len()) by {
                if n == 0 {
                    assert(t.nodes@[0].parent.is_none());
                } else {
                    assert(t.nodes@[n as int].parent.is_some());
                }
            }
            if !t.kind_is(p, "attribute") {
                return false;
            }
            match t.field_child(p, "object") {
                Some(o) => {
                    if !t.kind_is(o, "identifier") {
                        return false;
                    }
                    let text = t.text_of(src, o);
                    crate::text::str_eq(text.as_str(), "self") || crate::text::str_eq(text.as_str(), "cls")
                },
                None => false,
            }
        },
        None => false,
    }
}

fn python_call_exec(t: &SyntaxTree, src: &[u8], i: usize) -> (r: Option<CallRef>)
    requires
        t.wf(src@.len()),
        i < t.nodes@.len(),
    ensures
        match r {
            Some(c) => python_call(tree_view(*t), src@, i as int) == Some(crate::extract::ref_view(c)),
            None => python_call(tree_view(*t), src@, i as int).is_none(),
        },
{
    if !t.kind_is(i, "call") {
        return None;
    }
    let f = match t.field_child(i, "function") {
        Some(f) => f,
        None => return None,
    };
    if t.kind_is(f, "identifier") {
        Some(CallRef { start: t.nodes[f].start_byte, name: t.text_of(src, f), trust_intra_file: true, inhibit_resolver: false, method_call: false, scoped: false })
    } else if t.kind_is(f, "attribute") {
        match t.field_child(f, "attribute") {
            Some(n) => if t.kind_is(n, "identifier") {
                let trust = receiver_is_self_or_cls_exec(t, src, n);
                Some(CallRef { start: t.nodes[n].start_byte, name: t.text_of(src, n), trust_intra_file: trust, inhibit_resolver: false, method_call: true, scoped: false })
            } else {
                None
            },
            None => None,
        }
    } else {
        None
    }
}

/// Scans every node of a Python syntax tree in order. The extractor's
/// definition, call and import patterns are tested node by node on the
/// table, rather than handed to tree-sitter's query engine, so that which
/// nodes match is stated over the table and proved; each node is visited
/// once, in pre-order.
pub fn scan_python(t: &SyntaxTree, src: &[u8], path: &str, fid: FileId) -> (r: FileScan)
    requires
        t.wf(src@.len()),
    ensures
        crate::extract::starts_sorted(r.symbols@),
        symbol_views(r.symbols@) == python_symbols_upto(tree_view(*t), src@, path@, fid, t.nodes@.len() as int),
        ref_views(r.refs@) == python_refs_upto(tree_view(*t), src@, t.nodes@.len() as int),
        import_views(r.imports@) == python_imports_upto(tree_view(*t), src@, t.nodes@.len() as int),
{
    let mut symbols: Vec<Symbol> = Vec::new();
    let mut refs: Vec<CallRef> = Vec::new();
    let mut imports: Vec<ImportRef> = Vec::new();
    let mut i: usize = 0;
    while i < t.nodes.len()
        invariant
            t.wf(src@.len()),
            i <= t.nodes@.len(),
            crate::extract::starts_sorted(symbols@),
            i == 0 ==> symbols@.len() == 0,
            i > 0 ==> forall|a: int| 0 <= a < symbols@.len() ==> (#[trigger] symbols@[a]).anchor.start_byte <= t.nodes@[i - 1].start_byte,
            symbol_views(symbols@) == python_symbols_upto(tree_view(*t), src@, path@, fid, i as int),
            ref_views(refs@) == python_refs_upto(tree_view(*t), src@, i as int),
            import_views(imports@) == python_imports_upto(tree_view(*t), src@, i as int),
        decreases t.nodes.len() - i,
    {
        match python_symbol_exec(t, src, path, fid, i) {
            Some(s) => {
                let ghost before = symbol_views(symbols@);
                let ghost sv = crate::extract::symbol_view(s);
                assert(s.anchor.start_byte == t.nodes@[i as int].start_byte);
                assert(i > 0 ==> t.nodes@[i - 1].start_byte <= t.nodes@[i as int].start_byte);
                symbols.push(s);
                assert(symbol_views(symbols@) =~= before.push(sv));
            },
            None => {},
        }
        match python_call_exec(t, src, i) {
            Some(r) => {
                let ghost before = ref_views(refs@);
                let ghost rv = crate::extract::ref_view(r);
                refs.push(r);
                assert(ref_views(refs@) =~= before.push(rv));
            },
            None => {},
        }
        if t.kind_is(i, "import_statement") || t.kind_is(i, "import_from_statement") {
            let ghost before = import_views(imports@);
            let imp = ImportRef { start: t.nodes[i].start_byte, text: t.text_of(src, i) };
            let ghost iv = (imp.start, imp.text@);
            imports.push(imp);
            assert(import_views(imports@) =~= before.push(iv));
        }
        assert(forall|a: int| 0 <= a < symbols@.len() ==> (#[trigger] symbols@[a]).anchor.start_byte <= t.nodes@[i as int].start_byte) by {
            assert(i > 0 ==> t.nodes@[i - 1].start_byte <= t.nodes@[i as int].start_byte);
        }
        i = i + 1;
    }
    FileScan { symbols, refs, imports }
}

/// Symbol extraction for Python files.
pub struct PythonExtractor {}

impl PythonExtractor {
    /// An extractor; it holds no state, so making one cannot fail.
    pub fn new() -> (r: Result<PythonExtractor, MallardError>)
        ensures
            r.is_ok(),
    {
        Ok(PythonExtractor {})
    }
}

impl crate::extract::SymbolExtractor for PythonExtractor {
    /// Symbols, edges and parse errors of a parsed file. Symbols come in
    /// the order of their definitions' start bytes; edges by kind name,
    /// then position.
    fn extract(&mut self, parsed: &ParsedSource) -> (r: ParsedFile)
        ensures
            r.file_id == parsed.file_id,
            r.parse_ms == parsed.parse_ms,
            symbol_views(r.symbols@) == python_symbols_upto(tree_view(parsed.tree), parsed.bytes(), parsed.relative_path@, parsed.file_id, parsed.tree.nodes@.len() as int),
            crate::extract::starts_sorted(r.symbols@),
            edge_views(r.edges@) == crate::extract::file_edges(
                symbol_views(r.symbols@),
                python_refs_upto(tree_view(parsed.tree), parsed.bytes(), parsed.tree.nodes@.len() as int),
                python_imports_upto(tree_view(parsed.tree), parsed.bytes(), parsed.tree.nodes@.len() as int),
                parsed.relative_path@,
                parsed.file_id,
                "."@,
                Seq::<Seq<char>>::empty(),
                TypeKinds::Python,
            ),
            parse_error_views(r.parse_errors@) == tree_errors(tree_view(parsed.tree), parsed.bytes(), parsed.file_id),
    {
        let src = parsed.source.as_str().as_bytes();
        let parse_errors = collect_parse_errors(&parsed.tree, src, parsed.file_id);
        let t = clock_now();
        let scan = scan_python(&parsed.tree, src, parsed.relative_path.as_str(), parsed.file_id);
        let rules = python_rules();
        let edges = crate::extract::assemble_edges(&scan.symbols, &scan.refs, &scan.imports, parsed.relative_path.as_str(), parsed.file_id, &rules);
        let query_ms = millis_since(&t);
        ParsedFile {
            file_id: parsed.file_id,
            symbols: scan.symbols,
            edges,
            parse_errors,
            parse_ms: parsed.parse_ms,
            query_ms,
        }
    }
}


} // verus!
