//! Rust symbols, calls and imports of one file: definitions of functions,
//! types, traits, modules, consts, statics, type aliases and macros; calls
//! by name, by method on a receiver, and by path; calls inside the bodies
//! of expression macros; `use` declarations.
use vstd::prelude::*;
use crate::clock::{clock_now, millis_since};
use crate::extract::edge_views;
use crate::model::{MallardError, ParsedFile};
use crate::parsed_source::ParsedSource;
use crate::syntax::{collect_parse_errors, parse_error_views, tree_errors, tree_view, NodeV};
use crate::extract::{
    assemble_edges, file_edges, import_views, ref_views, stdlib_view, symbol_views, CallRef,
    ImportRef, LangRules, RefV, SymbolV,
};
use crate::extractor_common::{canonical_params, canonical_params_spec, TypeKinds};
use crate::model::{symbol_id_text, Edge, FileId, Symbol, SymbolId, SymbolKind};
use crate::syntax::{
    anchor_of, children, field_child, first_of_kind, has_ancestor_kind, join_sep, kind_of,
    named_children, next_sibling, node_text, parent_of, prev_sibling, SyntaxTree,
};
use crate::text::{copy_string, push_str};

verus! {

/// Symbol kind of a definition node kind, with the node kind its `name`
/// must have.
pub open spec fn rust_def_pattern(k: Seq<char>) -> Option<(SymbolKind, Seq<char>)> {
    if k == "function_item"@ {
        Some((SymbolKind::Function, "identifier"@))
    } else if k == "struct_item"@ {
        Some((SymbolKind::Struct, "type_identifier"@))
    } else if k == "enum_item"@ {
        Some((SymbolKind::Enum, "type_identifier"@))
    } else if k == "trait_item"@ {
        Some((SymbolKind::Trait, "type_identifier"@))
    } else if k == "mod_item"@ {
        Some((SymbolKind::Module, "identifier"@))
    } else if k == "const_item"@ {
        Some((SymbolKind::Const, "identifier"@))
    } else if k == "static_item"@ {
        Some((SymbolKind::Static, "identifier"@))
    } else if k == "type_item"@ {
        Some((SymbolKind::TypeAlias, "type_identifier"@))
    } else if k == "macro_definition"@ {
        Some((SymbolKind::Macro, "identifier"@))
    } else {
        None
    }
}

/// The type an item belongs to: the `type` (or else `trait`) of the
/// nearest enclosing `impl`, or the name of the nearest enclosing trait.
pub open spec fn enclosing_impl_type(t: Seq<NodeV>, src: Seq<u8>, x: int) -> Option<Seq<char>>
    decreases x,
{
    match parent_of(t, x) {
        None => None,
        Some(p) => if !(0 <= p < x) {
            None
        } else if kind_of(t, p) == "impl_item"@ {
            match field_child(t, p, "type"@) {
                Some(c) => Some(node_text(t, src, c)),
                None => match field_child(t, p, "trait"@) {
                    Some(c) => Some(node_text(t, src, c)),
                    None => None,
                },
            }
        } else if kind_of(t, p) == "trait_item"@ {
            match field_child(t, p, "name"@) {
                Some(c) => Some(node_text(t, src, c)),
                None => None,
            }
        } else {
            enclosing_impl_type(t, src, p)
        },
    }
}

/// Names of the enclosing modules, outermost first.
pub open spec fn enclosing_modules(t: Seq<NodeV>, src: Seq<u8>, x: int) -> Seq<Seq<char>>
    decreases x,
{
    match parent_of(t, x) {
        None => seq![],
        Some(p) => if !(0 <= p < x) {
            seq![]
        } else {
            enclosing_modules(t, src, p) + if kind_of(t, p) == "mod_item"@ {
                match field_child(t, p, "name"@) {
                    Some(n) => seq![node_text(t, src, n)],
                    None => seq![],
                }
            } else {
                seq![]
            }
        },
    }
}

/// `Type::name` for functions in an impl or trait; otherwise the name
/// under its module path.
pub open spec fn rust_qualified_name(t: Seq<NodeV>, src: Seq<u8>, def: int, name: Seq<char>, kind: SymbolKind) -> Seq<char> {
    if kind == SymbolKind::Function && enclosing_impl_type(t, src, def).is_some() {
        enclosing_impl_type(t, src, def).unwrap() + "::"@ + name
    } else if enclosing_modules(t, src, def).len() == 0 {
        name
    } else {
        join_sep(enclosing_modules(t, src, def), "::"@) + "::"@ + name
    }
}

/// A function's normalised parameter list; empty for other kinds.
pub open spec fn rust_signature(t: Seq<NodeV>, src: Seq<u8>, def: int, kind: SymbolKind) -> Seq<char> {
    if kind != SymbolKind::Function {
        seq![]
    } else {
        match first_of_kind(t, children(t, def), "parameters"@) {
            Some(c) => canonical_params_spec(node_text(t, src, c)),
            None => seq![],
        }
    }
}

pub open spec fn is_in_impl(t: Seq<NodeV>, x: int) -> bool {
    has_ancestor_kind(t, x, "impl_item"@, "trait_item"@)
}

/// The symbol a definition node declares, if any (an associated type in an
/// impl or trait declares none; a function there is a method).
pub open spec fn rust_symbol(t: Seq<NodeV>, src: Seq<u8>, path: Seq<char>, fid: FileId, i: int) -> Option<SymbolV> {
    match rust_def_pattern(kind_of(t, i)) {
        None => None,
        Some((kind, name_kind)) => match field_child(t, i, "name"@) {
            None => None,
            Some(n) => if kind_of(t, n) != name_kind || (kind == SymbolKind::TypeAlias && is_in_impl(t, i)) {
                None
            } else {
                let name = node_text(t, src, n);
                let q = rust_qualified_name(t, src, i, name, kind);
                let sig = rust_signature(t, src, i, kind);
                Some(SymbolV {
                    id: symbol_id_text(path, q, kind, sig),
                    file_id: fid,
                    qualified_name: q,
                    kind: if kind == SymbolKind::Function && is_in_impl(t, i) { SymbolKind::Method } else { kind },
                    signature: sig,
                    anchor: anchor_of(t, i),
                })
            },
        },
    }
}

/// A call found by name at node `n`.
pub open spec fn call_at(t: Seq<NodeV>, src: Seq<u8>, n: int, trust: bool, method_call: bool, scoped: bool) -> RefV {
    RefV {
        start: t[n].start_byte,
        name: node_text(t, src, n),
        trust: trust,
        inhibit: false,
        method_call: method_call,
        scoped: scoped,
    }
}

/// The receiver of a method call is bare `self`.
pub open spec fn receiver_is_self(t: Seq<NodeV>, n: int) -> bool {
    match parent_of(t, n) {
        Some(p) => kind_of(t, p) == "field_expression"@ && match field_child(t, p, "value"@) {
            Some(v) => kind_of(t, v) == "self"@,
            None => false,
        },
        None => false,
    }
}

/// The call a `call_expression` node makes: by plain name, by method on a
/// receiver (trusted only on bare `self`), or by path.
pub open spec fn rust_call(t: Seq<NodeV>, src: Seq<u8>, i: int) -> Option<RefV> {
    if kind_of(t, i) != "call_expression"@ {
        None
    } else {
        match field_child(t, i, "function"@) {
            None => None,
            Some(f) => if kind_of(t, f) == "identifier"@ {
                Some(call_at(t, src, f, true, false, false))
            } else if kind_of(t, f) == "field_expression"@ {
                match field_child(t, f, "field"@) {
                    Some(n) => if kind_of(t, n) == "field_identifier"@ {
                        Some(call_at(t, src, n, receiver_is_self(t, n), true, false))
                    } else {
                        None
                    },
                    None => None,
                }
            } else if kind_of(t, f) == "scoped_identifier"@ {
                match field_child(t, f, "name"@) {
                    Some(n) => if kind_of(t, n) == "identifier"@ {
                        Some(call_at(t, src, n, true, false, true))
                    } else {
                        None
                    },
                    None => None,
                }
            } else {
                None
            },
        }
    }
}

/// Macros whose bodies are expressions, so calls inside them are calls.
pub open spec fn expression_macro(name: Seq<char>) -> bool {
    name == "assert"@ || name == "assert_eq"@ || name == "assert_ne"@ || name == "debug_assert"@
        || name == "debug_assert_eq"@ || name == "debug_assert_ne"@ || name == "dbg"@ || name == "eprint"@
        || name == "eprintln"@ || name == "format"@ || name == "matches"@ || name == "panic"@
        || name == "print"@ || name == "println"@ || name == "todo"@ || name == "unimplemented"@
        || name == "unreachable"@ || name == "write"@ || name == "writeln"@
}

/// Name of the macro a `macro_invocation` node invokes (the last segment
/// of a path).
pub open spec fn macro_name(t: Seq<NodeV>, src: Seq<u8>, i: int) -> Option<Seq<char>> {
    match field_child(t, i, "macro"@) {
        None => None,
        Some(m) => if kind_of(t, m) == "identifier"@ {
            Some(node_text(t, src, m))
        } else if kind_of(t, m) == "scoped_identifier"@ {
            match field_child(t, m, "name"@) {
                Some(n) => if kind_of(t, n) == "identifier"@ { Some(node_text(t, src, n)) } else { None },
                None => None,
            }
        } else {
            None
        },
    }
}

/// The call an `identifier`-then-token-tree pair in a macro body makes:
/// none for a nested macro (`name!`), `Type::name` for a path, and a
/// method-position call marked ambiguous. None of them is trusted.
pub open spec fn macro_body_call(t: Seq<NodeV>, src: Seq<u8>, ident: int) -> Option<RefV> {
    let bang = match next_sibling(t, ident) { Some(n) => kind_of(t, n) == "!"@, None => false };
    if bang {
        None
    } else {
        let prev = prev_sibling(t, ident);
        let path_type = match prev {
            Some(p) => if kind_of(t, p) == "::"@ {
                match prev_sibling(t, p) {
                    Some(ti) => if kind_of(t, ti) == "identifier"@ { Some(ti) } else { None },
                    None => None,
                }
            } else {
                None
            },
            None => None,
        };
        match path_type {
            Some(ti) => Some(RefV {
                start: t[ident].start_byte,
                name: node_text(t, src, ti) + "::"@ + node_text(t, src, ident),
                trust: false,
                inhibit: false,
                method_call: false,
                scoped: false,
            }),
            None => Some(RefV {
                start: t[ident].start_byte,
                name: node_text(t, src, ident),
                trust: false,
                inhibit: match prev { Some(p) => kind_of(t, p) == "."@, None => false },
                method_call: false,
                scoped: false,
            }),
        }
    }
}

/// Deepest token-tree nesting walked inside a macro body.
pub const MACRO_BODY_MAX_DEPTH: u32 = 64;

/// Calls in a macro body's token tree, depth first.
pub open spec fn token_tree_calls(t: Seq<NodeV>, src: Seq<u8>, tt: int, depth: nat) -> Seq<RefV>
    decreases 64 - depth, 1int, 0int,
{
    if depth >= 64 {
        seq![]
    } else {
        token_scan(t, src, named_children(t, tt), 0, None, depth)
    }
}

/// One pass over a token tree's named children: an identifier followed by
/// a token tree is a call; nested token trees are walked in turn.
pub open spec fn token_scan(t: Seq<NodeV>, src: Seq<u8>, kids: Seq<int>, k: int, pending: Option<int>, depth: nat) -> Seq<RefV>
    decreases 64 - depth, 0int, kids.len() - k,
{
    if k < 0 || k >= kids.len() || depth >= 64 {
        seq![]
    } else {
        let c = kids[k];
        if kind_of(t, c) == "identifier"@ {
            token_scan(t, src, kids, k + 1, Some(c), depth)
        } else if kind_of(t, c) == "token_tree"@ {
            let here = match pending {
                Some(id) => match macro_body_call(t, src, id) { Some(r) => seq![r], None => seq![] },
                None => seq![],
            };
            here + token_tree_calls(t, src, c, depth + 1) + token_scan(t, src, kids, k + 1, None, depth)
        } else {
            token_scan(t, src, kids, k + 1, None, depth)
        }
    }
}

/// Calls inside an expression macro's body.
pub open spec fn rust_macro_calls(t: Seq<NodeV>, src: Seq<u8>, i: int) -> Seq<RefV> {
    if kind_of(t, i) != "macro_invocation"@ {
        seq![]
    } else {
        match macro_name(t, src, i) {
            Some(name) => if expression_macro(name) {
                match first_of_kind(t, named_children(t, i), "token_tree"@) {
                    Some(tt) => token_tree_calls(t, src, tt, 0),
                    None => seq![],
                }
            } else {
                seq![]
            },
            None => seq![],
        }
    }
}

/// The references of node `i`: its call, or the calls in its macro body.
pub open spec fn rust_node_refs(t: Seq<NodeV>, src: Seq<u8>, i: int) -> Seq<RefV> {
    match rust_call(t, src, i) {
        Some(r) => seq![r],
        None => rust_macro_calls(t, src, i),
    }
}

pub open spec fn rust_symbols_upto(t: Seq<NodeV>, src: Seq<u8>, path: Seq<char>, fid: FileId, m: int) -> Seq<SymbolV>
    decreases m,
{
    if m <= 0 {
        seq![]
    } else {
        let rest = rust_symbols_upto(t, src, path, fid, m - 1);
        match rust_symbol(t, src, path, fid, m - 1) {
            Some(s) => rest.push(s),
            None => rest,
        }
    }
}

pub open spec fn rust_refs_upto(t: Seq<NodeV>, src: Seq<u8>, m: int) -> Seq<RefV>
    decreases m,
{
    if m <= 0 {
        seq![]
    } else {
        rust_refs_upto(t, src, m - 1) + rust_node_refs(t, src, m - 1)
    }
}

pub open spec fn rust_imports_upto(t: Seq<NodeV>, src: Seq<u8>, m: int) -> Seq<(u64, Seq<char>)>
    decreases m,
{
    if m <= 0 {
        seq![]
    } else {
        let rest = rust_imports_upto(t, src, m - 1);
        if kind_of(t, m - 1) == "use_declaration"@ {
            rest.push((t[m - 1].start_byte, node_text(t, src, m - 1)))
        } else {
            rest
        }
    }
}

/// Rust's intra-file binding rules: `::` paths, standard variant
/// constructors, and struct / enum / trait / type-alias constructors.
pub fn rust_rules() -> (r: LangRules)
    ensures
        r.sep@ == "::"@,
        r.kinds == TypeKinds::Rust,
        stdlib_view(r) == seq!["Ok"@, "Err"@, "Some"@, "None"@],
{
    let v: Vec<&'static str> = vec!["Ok", "Err", "Some", "None"];
    let r = LangRules { sep: "::", stdlib_variants: v, kinds: TypeKinds::Rust };
    assert(stdlib_view(r) =~= seq!["Ok"@, "Err"@, "Some"@, "None"@]);
    r
}

// ---------------------------------------------------------------------
// Exec.

fn enclosing_impl_type_exec(t: &SyntaxTree, src: &[u8], x: usize) -> (r: Option<String>)
    requires
        t.wf(src@.len()),
        x < t.nodes@.len(),
    ensures
        r.is_some() == enclosing_impl_type(tree_view(*t), src@, x as int).is_some(),
        r.is_some() ==> r.unwrap()@ == enclosing_impl_type(tree_view(*t), src@, x as int).unwrap(),
{
    let mut cur: usize = x;
    loop
        invariant
            t.wf(src@.len()),
            cur < t.nodes@.len(),
            enclosing_impl_type(tree_view(*t), src@, cur as int) == enclosing_impl_type(tree_view(*t), src@, x as int),
        decreases cur,
    {
        match t.nodes[cur].parent {
            None => return None,
            Some(p) => {
                if p >= cur {
                    return None;
                }
                if t.kind_is(p, "impl_item") {
                    return match t.field_child(p, "type") {
                        Some(c) => Some(t.text_of(src, c)),
                        None => match t.field_child(p, "trait") {
                            Some(c) => Some(t.text_of(src, c)),
                            None => None,
                        },
                    };
                }
                if t.kind_is(p, "trait_item") {
                    return match t.field_child(p, "name") {
                        Some(c) => Some(t.text_of(src, c)),
                        None => None,
                    };
                }
                cur = p;
            },
        }
    }
}

fn enclosing_modules_exec(t: &SyntaxTree, src: &[u8], x: usize) -> (r: Vec<String>)
    requires
        t.wf(src@.len()),
        x < t.nodes@.len(),
    ensures
        r@.map_values(|s: String| s@) == enclosing_modules(tree_view(*t), src@, x as int),
{
    let mut acc: Vec<String> = Vec::new();
    let mut cur: usize = x;
    loop
        invariant
            t.wf(src@.len()),
            cur < t.nodes@.len(),
            enclosing_modules(tree_view(*t), src@, x as int) == enclosing_modules(tree_view(*t), src@, cur as int) + acc@.map_values(|s: String| s@),
        decreases cur,
    {
        match t.nodes[cur].parent {
            None => {
                assert(seq![] + acc@.map_values(|s: String| s@) =~= acc@.map_values(|s: String| s@));
                return acc;
            },
            Some(p) => {
                if p >= cur {
                    assert(seq![] + acc@.map_values(|s: String| s@) =~= acc@.map_values(|s: String| s@));
                    return acc;
                }
                if t.kind_is(p, "mod_item") {
                    match t.field_child(p, "name") {
                        Some(n) => {
                            let name = t.text_of(src, n);
                            let ghost before = acc@.map_values(|s: String| s@);
                            acc.insert(0, name);
                            assert(acc@.map_values(|s: String| s@) =~= seq![node_text(tree_view(*t), src@, n as int)] + before);
                        },
                        None => {},
                    }
                }
                cur = p;
            },
        }
    }
}

fn rust_qualified_name_exec(t: &SyntaxTree, src: &[u8], def: usize, name: &String, kind: SymbolKind) -> (r: String)
    requires
        t.wf(src@.len()),
        def < t.nodes@.len(),
    ensures
        r@ == rust_qualified_name(tree_view(*t), src@, def as int, name@, kind),
{
    if matches!(kind, SymbolKind::Function) {
        match enclosing_impl_type_exec(t, src, def) {
            Some(ty) => {
                let mut s = ty;
                push_str(&mut s, "::");
                push_str(&mut s, name.as_str());
                return s;
            },
            None => {},
        }
    }
    let modules = enclosing_modules_exec(t, src, def);
    if modules.len() == 0 {
        copy_string(name)
    } else {
        let mut s = crate::syntax::join_sep_exec(&modules, "::");
        push_str(&mut s, "::");
        push_str(&mut s, name.as_str());
        s
    }
}

fn rust_signature_exec(t: &SyntaxTree, src: &[u8], def: usize, kind: SymbolKind) -> (r: String)
    requires
        t.wf(src@.len()),
        def < t.nodes@.len(),
    ensures
        r@ == rust_signature(tree_view(*t), src@, def as int, kind),
{
    if !matches!(kind, SymbolKind::Function) {
        return String::new();
    }
    let kids = t.children_of(def, false);
    match t.first_of_kind(&kids, "parameters") {
        Some(c) => canonical_params(t.text_of(src, c)),
        None => String::new(),
    }
}

fn rust_def_pattern_exec(t: &SyntaxTree, i: usize) -> (r: Option<(SymbolKind, &'static str)>)
    requires
        i < t.nodes@.len(),
    ensures
        r.is_some() == rust_def_pattern(kind_of(tree_view(*t), i as int)).is_some(),
        r.is_some() ==> r.unwrap().0 == rust_def_pattern(kind_of(tree_view(*t), i as int)).unwrap().0
            && r.unwrap().1@ == rust_def_pattern(kind_of(tree_view(*t), i as int)).unwrap().1,
{
    if t.kind_is(i, "function_item") {
        Some((SymbolKind::Function, "identifier"))
    } else if t.kind_is(i, "struct_item") {
        Some((SymbolKind::Struct, "type_identifier"))
    } else if t.kind_is(i, "enum_item") {
        Some((SymbolKind::Enum, "type_identifier"))
    } else if t.kind_is(i, "trait_item") {
        Some((SymbolKind::Trait, "type_identifier"))
    } else if t.kind_is(i, "mod_item") {
        Some((SymbolKind::Module, "identifier"))
    } else if t.kind_is(i, "const_item") {
        Some((SymbolKind::Const, "identifier"))
    } else if t.kind_is(i, "static_item") {
        Some((SymbolKind::Static, "identifier"))
    } else if t.kind_is(i, "type_item") {
        Some((SymbolKind::TypeAlias, "type_identifier"))
    } else if t.kind_is(i, "macro_definition") {
        Some((SymbolKind::Macro, "identifier"))
    } else {
        None
    }
}

fn rust_symbol_exec(t: &SyntaxTree, src: &[u8], path: &str, fid: FileId, i: usize) -> (r: Option<Symbol>)
    requires
        t.wf(src@.len()),
        i < t.nodes@.len(),
    ensures
        match r {
            Some(s) => rust_symbol(tree_view(*t), src@, path@, fid, i as int) == Some(crate::extract::symbol_view(s)),
            None => rust_symbol(tree_view(*t), src@, path@, fid, i as int).is_none(),
        },
{
    let (kind, name_kind) = match rust_def_pattern_exec(t, i) {
        Some(p) => p,
        None => return None,
    };
    let n = match t.field_child(i, "name") {
        Some(n) => n,
        None => return None,
    };
    if !t.kind_is(n, name_kind) {
        return None;
    }
    let in_impl = t.has_ancestor_kind(i, "impl_item", "trait_item");
    if matches!(kind, SymbolKind::TypeAlias) && in_impl {
        return None;
    }
    let name = t.text_of(src, n);
    let q = rust_qualified_name_exec(t, src, i, &name, kind);
    let sig = rust_signature_exec(t, src, i, kind);
    let id = SymbolId::compute(path, q.as_str(), kind, sig.as_str());
    let final_kind = if matches!(kind, SymbolKind::Function) && in_impl { SymbolKind::Method } else { kind };
    Some(Symbol {
        id: id,
        file_id: fid,
        qualified_name: q,
        kind: final_kind,
        signature: sig,
        anchor: t.anchor(i),
    })
}

fn call_at_exec(t: &SyntaxTree, src: &[u8], n: usize, trust: bool, method_call: bool, scoped: bool) -> (r: CallRef)
    requires
        t.wf(src@.len()),
        n < t.nodes@.len(),
    ensures
        crate::extract::ref_view(r) == call_at(tree_view(*t), src@, n as int, trust, method_call, scoped),
{
    CallRef {
        start: t.nodes[n].start_byte,
        name: t.text_of(src, n),
        trust_intra_file: trust,
        inhibit_resolver: false,
        method_call: method_call,
        scoped: scoped,
    }
}

fn receiver_is_self_exec(t: &SyntaxTree, n: usize) -> (r: bool)
    requires
        n < t.nodes@.len(),
        t.nodes@[0].parent.is_none(),
        forall|i: int| 0 < i < t.nodes@.len() ==> (#[trigger] t.nodes@[i]).parent.is_some()
            && (t.nodes@[i].parent.unwrap() as int) < i,
    ensures
        r == receiver_is_self(tree_view(*t), n as int),
{
    match t.nodes[n].parent {
        Some(p) => {
            assert(p < t.nodes@.len()) by {
                if n == 0 {
                    assert(t.nodes@[0].parent.is_none());
                } else {
                    assert(t.nodes@[n as int].parent.is_some());
                }
            }
            if !t.kind_is(p, "field_expression") {
                return false;
            }
            match t.field_child(p, "value") {
                Some(v) => t.kind_is(v, "self"),
                None => false,
            }
        },
        None => false,
    }
}

fn rust_call_exec(t: &SyntaxTree, src: &[u8], i: usize) -> (r: Option<CallRef>)
    requires
        t.wf(src@.len()),
        i < t.nodes@.len(),
    ensures
        match r {
            Some(c) => rust_call(tree_view(*t), src@, i as int) == Some(crate::extract::ref_view(c)),
            None => rust_call(tree_view(*t), src@, i as int).is_none(),
        },
{
    if !t.kind_is(i, "call_expression") {
        return None;
    }
    let f = match t.field_child(i, "function") {
        Some(f) => f,
        None => return None,
    };
    if t.kind_is(f, "identifier") {
        Some(call_at_exec(t, src, f, true, false, false))
    } else if t.kind_is(f, "field_expression") {
        match t.field_child(f, "field") {
            Some(n) => if t.kind_is(n, "field_identifier") {
                let trust = receiver_is_self_exec(t, n);
                Some(call_at_exec(t, src, n, trust, true, false))
            } else {
                None
            },
            None => None,
        }
    } else if t.kind_is(f, "scoped_identifier") {
        match t.field_child(f, "name") {
            Some(n) => if t.kind_is(n, "identifier") {
                Some(call_at_exec(t, src, n, true, false, true))
            } else {
                None
            },
            None => None,
        }
    } else {
        None
    }
}

fn expression_macro_exec(name: &String) -> (r: bool)
    ensures
        r == expression_macro(name@),
{
    let n = name.as_str();
    crate::text::str_eq(n, "assert") || crate::text::str_eq(n, "assert_eq") || crate::text::str_eq(n, "assert_ne")
        || crate::text::str_eq(n, "debug_assert") || crate::text::str_eq(n, "debug_assert_eq")
        || crate::text::str_eq(n, "debug_assert_ne") || crate::text::str_eq(n, "dbg")
        || crate::text::str_eq(n, "eprint") || crate::text::str_eq(n, "eprintln")
        || crate::text::str_eq(n, "format") || crate::text::str_eq(n, "matches")
        || crate::text::str_eq(n, "panic") || crate::text::str_eq(n, "print")
        || crate::text::str_eq(n, "println") || crate::text::str_eq(n, "todo")
        || crate::text::str_eq(n, "unimplemented") || crate::text::str_eq(n, "unreachable")
        || crate::text::str_eq(n, "write") || crate::text::str_eq(n, "writeln")
}

fn macro_name_exec(t: &SyntaxTree, src: &[u8], i: usize) -> (r: Option<String>)
    requires
        t.wf(src@.len()),
        i < t.nodes@.len(),
    ensures
        r.is_some() == macro_name(tree_view(*t), src@, i as int).is_some(),
        r.is_some() ==> r.unwrap()@ == macro_name(tree_view(*t), src@, i as int).unwrap(),
{
    match t.field_child(i, "macro") {
        None => None,
        Some(m) => if t.kind_is(m, "identifier") {
            Some(t.text_of(src, m))
        } else if t.kind_is(m, "scoped_identifier") {
            match t.field_child(m, "name") {
                Some(n) => if t.kind_is(n, "identifier") { Some(t.text_of(src, n)) } else { None },
                None => None,
            }
        } else {
            None
        },
    }
}

fn macro_body_call_exec(t: &SyntaxTree, src: &[u8], ident: usize) -> (r: Option<CallRef>)
    requires
        t.wf(src@.len()),
        ident < t.nodes@.len(),
    ensures
        match r {
            Some(c) => macro_body_call(tree_view(*t), src@, ident as int) == Some(crate::extract::ref_view(c)),
            None => macro_body_call(tree_view(*t), src@, ident as int).is_none(),
        },
{
    let bang = match t.next_sibling(ident) {
        Some(nx) => t.kind_is(nx, "!"),
        None => false,
    };
    if bang {
        return None;
    }
    let prev = t.prev_sibling(ident);
    let path_type: Option<usize> = match prev {
        Some(p) => if t.kind_is(p, "::") {
            match t.prev_sibling(p) {
                Some(ti) => if t.kind_is(ti, "identifier") { Some(ti) } else { None },
                None => None,
            }
        } else {
            None
        },
        None => None,
    };
    match path_type {
        Some(ti) => {
            let mut name = t.text_of(src, ti);
            push_str(&mut name, "::");
            let own = t.text_of(src, ident);
            push_str(&mut name, own.as_str());
            Some(CallRef {
                start: t.nodes[ident].start_byte,
                name: name,
                trust_intra_file: false,
                inhibit_resolver: false,
                method_call: false,
                scoped: false,
            })
        },
        None => {
            let method_position = match prev {
                Some(p) => t.kind_is(p, "."),
                None => false,
            };
            Some(CallRef {
                start: t.nodes[ident].start_byte,
                name: t.text_of(src, ident),
                trust_intra_file: false,
                inhibit_resolver: method_position,
                method_call: false,
                scoped: false,
            })
        },
    }
}

/// Appends the calls in a token tree's body, depth first.
fn token_tree_calls_exec(t: &SyntaxTree, src: &[u8], tt: usize, depth: u32, out: &mut Vec<CallRef>)
    requires
        t.wf(src@.len()),
        tt < t.nodes@.len(),
    ensures
        ref_views(final(out)@) == ref_views(old(out)@) + token_tree_calls(tree_view(*t), src@, tt as int, depth as nat),
    decreases 64 - depth,
{
    if depth >= MACRO_BODY_MAX_DEPTH {
        assert(ref_views(out@) =~= ref_views(out@) + seq![]);
        return;
    }
    let kids = t.children_of(tt, true);
    let ghost kv = kids@.map_values(|x: usize| x as int);
    let ghost target = ref_views(out@) + token_tree_calls(tree_view(*t), src@, tt as int, depth as nat);
    let mut pending: Option<usize> = None;
    let mut k: usize = 0;
    assert(token_tree_calls(tree_view(*t), src@, tt as int, depth as nat) == token_scan(tree_view(*t), src@, kv, 0, None, depth as nat));
    while k < kids.len()
        invariant
            t.wf(src@.len()),
            depth < 64,
            k <= kids@.len(),
            kv == kids@.map_values(|x: usize| x as int),
            kv == named_children(tree_view(*t), tt as int),
            forall|j: int| 0 <= j < kids@.len() ==> (#[trigger] kids@[j]) < t.nodes@.len(),
            pending.is_some() ==> pending.unwrap() < t.nodes@.len(),
            ref_views(out@) + token_scan(tree_view(*t), src@, kv, k as int, match pending { Some(p) => Some(p as int), None => None::<int> }, depth as nat) == target,
        decreases kids.len() - k,
    {
        let c = kids[k];
        assert(kv[k as int] == c as int);
        if t.kind_is(c, "identifier") {
            pending = Some(c);
        } else if t.kind_is(c, "token_tree") {
            let ghost before = ref_views(out@);
            let ghost here = match pending {
                Some(id) => match macro_body_call(tree_view(*t), src@, id as int) { Some(r) => seq![r], None => seq![] },
                None => seq![],
            };
            match pending {
                Some(id) => {
                    match macro_body_call_exec(t, src, id) {
                        Some(r) => {
                            let ghost rv = crate::extract::ref_view(r);
                            out.push(r);
                            assert(ref_views(out@) =~= before + seq![rv]);
                        },
                        None => {},
                    }
                },
                None => {},
            }
            assert(ref_views(out@) =~= before + here);
            let ghost mid = ref_views(out@);
            token_tree_calls_exec(t, src, c, depth + 1, out);
            assert(ref_views(out@) + token_scan(tree_view(*t), src@, kv, k as int + 1, None, depth as nat)
                =~= before + token_scan(tree_view(*t), src@, kv, k as int, match pending { Some(p) => Some(p as int), None => None::<int> }, depth as nat));
            pending = None;
        } else {
            pending = None;
        }
        k = k + 1;
    }
    assert(ref_views(out@) + seq![] =~= ref_views(out@));
}

fn rust_node_refs_exec(t: &SyntaxTree, src: &[u8], i: usize, out: &mut Vec<CallRef>)
    requires
        t.wf(src@.len()),
        i < t.nodes@.len(),
    ensures
        ref_views(final(out)@) == ref_views(old(out)@) + rust_node_refs(tree_view(*t), src@, i as int),
{
    match rust_call_exec(t, src, i) {
        Some(r) => {
            let ghost before = ref_views(out@);
            let ghost rv = crate::extract::ref_view(r);
            out.push(r);
            assert(ref_views(out@) =~= before + seq![rv]);
            return;
        },
        None => {},
    }
    if !t.kind_is(i, "macro_invocation") {
        assert(ref_views(out@) =~= ref_views(out@) + seq![]);
        return;
    }
    match macro_name_exec(t, src, i) {
        Some(name) => {
            if !expression_macro_exec(&name) {
                assert(ref_views(out@) =~= ref_views(out@) + seq![]);
                return;
            }
            let kids = t.children_of(i, true);
            match t.first_of_kind(&kids, "token_tree") {
                Some(tt) => token_tree_calls_exec(t, src, tt, 0, out),
                None => {
                    assert(ref_views(out@) =~= ref_views(out@) + seq![]);
                },
            }
        },
        None => {
            assert(ref_views(out@) =~= ref_views(out@) + seq![]);
        },
    }
}

/// What one Rust file declares and references.
pub struct FileScan {
    pub symbols: Vec<Symbol>,
    pub refs: Vec<CallRef>,
    pub imports: Vec<ImportRef>,
}

/// Scans every node of a Rust syntax tree in order. The definition,
/// call, macro and `use` patterns of the extractor (a node of a given kind
/// whose named field holds a child of a given kind) are tested here node
/// by node on the table, rather than handed to tree-sitter's query engine,
/// so that which nodes match is stated over the table and proved; each
/// node is visited once, in pre-order, and the symbols come out by start
/// byte.
pub fn scan_rust(t: &SyntaxTree, src: &[u8], path: &str, fid: FileId) -> (r: FileScan)
    requires
        t.wf(src@.len()),
    ensures
        crate::extract::starts_sorted(r.symbols@),
        symbol_views(r.symbols@) == rust_symbols_upto(tree_view(*t), src@, path@, fid, t.nodes@.len() as int),
        ref_views(r.refs@) == rust_refs_upto(tree_view(*t), src@, t.nodes@.len() as int),
        import_views(r.imports@) == rust_imports_upto(tree_view(*t), src@, t.nodes@.len() as int),
{
    let mut symbols: Vec<Symbol> = Vec::new();
    let mut refs: Vec<CallRef> = Vec::new();
    let mut imports: Vec<ImportRef> = Vec::new();
    let mut i: usize = 0;
    while i < t.nodes.len()
        invariant
            t.wf(src@.len()),
            i <= t.nodes@.len(),
            crate::extract::starts_sorted(symbols@),
            i == 0 ==> symbols@.len() == 0,
            i > 0 ==> forall|a: int| 0 <= a < symbols@.len() ==> (#[trigger] symbols@[a]).anchor.start_byte <= t.nodes@[i - 1].start_byte,
            symbol_views(symbols@) == rust_symbols_upto(tree_view(*t), src@, path@, fid, i as int),
            ref_views(refs@) == rust_refs_upto(tree_view(*t), src@, i as int),
            import_views(imports@) == rust_imports_upto(tree_view(*t), src@, i as int),
        decreases t.nodes.len() - i,
    {
        match rust_symbol_exec(t, src, path, fid, i) {
            Some(s) => {
                let ghost before = symbol_views(symbols@);
                let ghost sv = crate::extract::symbol_view(s);
                assert(s.anchor.start_byte == t.nodes@[i as int].start_byte);
                assert(i > 0 ==> t.nodes@[i - 1].start_byte <= t.nodes@[i as int].start_byte);
                symbols.push(s);
                assert(symbol_views(symbols@) =~= before.push(sv));
            },
            None => {},
        }
        rust_node_refs_exec(t, src, i, &mut refs);
        if t.kind_is(i, "use_declaration") {
            let ghost before = import_views(imports@);
            let imp = ImportRef { start: t.nodes[i].start_byte, text: t.text_of(src, i) };
            let ghost iv = (imp.start, imp.text@);
            imports.push(imp);
            assert(import_views(imports@) =~= before.push(iv));
        }
        assert(forall|a: int| 0 <= a < symbols@.len() ==> (#[trigger] symbols@[a]).anchor.start_byte <= t.nodes@[i as int].start_byte) by {
            assert(i > 0 ==> t.nodes@[i - 1].start_byte <= t.nodes@[i as int].start_byte);
        }
        i = i + 1;
    }
    FileScan { symbols, refs, imports }
}

/// Symbol extraction for Rust files.
pub struct RustExtractor {}

impl RustExtractor {
    /// An extractor; it holds no state, so making one cannot fail.
    pub fn new() -> (r: Result<RustExtractor, MallardError>)
        ensures
            r.is_ok(),
    {
        Ok(RustExtractor {})
    }
}

impl crate::extract::SymbolExtractor for RustExtractor {
    /// Symbols, edges and parse errors of a parsed file. Symbols come in
    /// the order of their definitions' start bytes; edges by kind name,
    /// then position.
    fn extract(&mut self, parsed: &ParsedSource) -> (r: ParsedFile)
        ensures
            r.file_id == parsed.file_id,
            r.parse_ms == parsed.parse_ms,
            symbol_views(r.symbols@) == rust_symbols_upto(tree_view(parsed.tree), parsed.bytes(), parsed.relative_path@, parsed.file_id, parsed.tree.nodes@.len() as int),
            crate::extract::starts_sorted(r.symbols@),
            edge_views(r.edges@) == crate::extract::file_edges(
                symbol_views(r.symbols@),
                rust_refs_upto(tree_view(parsed.tree), parsed.bytes(), parsed.tree.nodes@.len() as int),
                rust_imports_upto(tree_view(parsed.tree), parsed.bytes(), parsed.tree.nodes@.len() as int),
                parsed.relative_path@,
                parsed.file_id,
                "::"@,
                seq!["Ok"@, "Err"@, "Some"@, "None"@],
                TypeKinds::Rust,
            ),
            parse_error_views(r.parse_errors@) == tree_errors(tree_view(parsed.tree), parsed.bytes(), parsed.file_id),
    {
        let src = parsed.source.as_str().as_bytes();
        let parse_errors = collect_parse_errors(&parsed.tree, src, parsed.file_id);
        let t = clock_now();
        let scan = scan_rust(&parsed.tree, src, parsed.relative_path.as_str(), parsed.file_id);
        let rules = rust_rules();
        let edges = crate::extract::assemble_edges(&scan.symbols, &scan.refs, &scan.imports, parsed.relative_path.as_str(), parsed.file_id, &rules);
        let query_ms = millis_since(&t);
        ParsedFile {
            file_id: parsed.file_id,
            symbols: scan.symbols,
            edges,
            parse_errors,
            parse_ms: parsed.parse_ms,
            query_ms,
        }
    }
}


} // verus!
