//! Language-independent assembly of a file's edges: a `contains` edge for
//! every symbol, a `calls` edge for every reference that is not a
//! constructor (bound to a same-file symbol when the intra-file rules
//! allow it), an `imports` edge for every import, all in the index's
//! deterministic edge order.
use vstd::prelude::*;
use crate::extractor_common::{
    candidates_by_short, candidates_spec, find_enclosing_definition, is_constructor_call,
    is_constructor_call_spec, is_enclosing_definition, pick_method_target, pick_method_target_spec,
    TypeKinds,
};
use crate::model::{Anchor, Edge, EdgeConfidence, EdgeKind, FileId, Symbol, SymbolId, SymbolKind};
use crate::order::{key_view, positions_view, sorted_positions, KeyPart, PartV};
use crate::text::{chars_of, copy_string, push_str};

verus! {

/// A symbol, as text.
pub ghost struct SymbolV {
    pub id: Seq<char>,
    pub file_id: FileId,
    pub qualified_name: Seq<char>,
    pub kind: SymbolKind,
    pub signature: Seq<char>,
    pub anchor: Anchor,
}

pub open spec fn symbol_view(s: Symbol) -> SymbolV {
    SymbolV {
        id: s.id.0@,
        file_id: s.file_id,
        qualified_name: s.qualified_name@,
        kind: s.kind,
        signature: s.signature@,
        anchor: s.anchor,
    }
}

pub open spec fn symbol_views(v: Seq<Symbol>) -> Seq<SymbolV> {
    v.map_values(|s: Symbol| symbol_view(s))
}

/// Symbols in the order of their start bytes.
pub open spec fn starts_sorted(s: Seq<Symbol>) -> bool {
    forall|a: int, b: int| 0 <= a < b < s.len() ==> s[a].anchor.start_byte <= s[b].anchor.start_byte
}

/// An edge, as text.
pub ghost struct EdgeV {
    pub src: Seq<char>,
    pub dst: Option<Seq<char>>,
    pub dst_unresolved: Option<Seq<char>>,
    pub kind: EdgeKind,
    pub confidence: EdgeConfidence,
    pub file_id: FileId,
    pub order_key: u64,
}

pub open spec fn edge_view(e: Edge) -> EdgeV {
    EdgeV {
        src: e.src.0@,
        dst: match e.dst { Some(d) => Some(d.0@), None => None },
        dst_unresolved: match e.dst_unresolved { Some(u) => Some(u@), None => None },
        kind: e.kind,
        confidence: e.confidence,
        file_id: e.file_id,
        order_key: e.order_key,
    }
}

pub open spec fn edge_views(v: Seq<Edge>) -> Seq<EdgeV> {
    v.map_values(|e: Edge| edge_view(e))
}

/// A call found in a file: where its name starts, the name, and what the
/// call site says about binding it.
#[derive(Debug, Clone)]
pub struct CallRef {
    pub start: u64,
    pub name: String,
    /// The receiver lets the call be bound through the file's own symbols.
    pub trust_intra_file: bool,
    /// The call is ambiguous as found; the resolver leaves it alone.
    pub inhibit_resolver: bool,
    /// Method position (`recv.name(..)`).
    pub method_call: bool,
    /// Path position (`Type::name(..)`).
    pub scoped: bool,
}

pub ghost struct RefV {
    pub start: u64,
    pub name: Seq<char>,
    pub trust: bool,
    pub inhibit: bool,
    pub method_call: bool,
    pub scoped: bool,
}

pub open spec fn ref_view(r: CallRef) -> RefV {
    RefV {
        start: r.start,
        name: r.name@,
        trust: r.trust_intra_file,
        inhibit: r.inhibit_resolver,
        method_call: r.method_call,
        scoped: r.scoped,
    }
}

pub open spec fn ref_views(v: Seq<CallRef>) -> Seq<RefV> {
    v.map_values(|r: CallRef| ref_view(r))
}

/// An import found in a file: where it starts and its text.
#[derive(Debug, Clone)]
pub struct ImportRef {
    pub start: u64,
    pub text: String,
}

pub open spec fn import_views(v: Seq<ImportRef>) -> Seq<(u64, Seq<char>)> {
    v.map_values(|r: ImportRef| (r.start, r.text@))
}

/// Per-language rules of the intra-file binding.
pub struct LangRules {
    pub sep: &'static str,
    pub stdlib_variants: Vec<&'static str>,
    pub kinds: TypeKinds,
}

pub open spec fn stdlib_view(rules: LangRules) -> Seq<Seq<char>> {
    rules.stdlib_variants@.map_values(|s: &str| s@)
}

/// The smallest symbol whose anchor holds byte `start` (first on ties).
pub open spec fn enclosing_of(symbols: Seq<SymbolV>, start: u64) -> Option<usize> {
    choose|r: Option<usize>| is_enclosing_definition(symbols, start, r)
}

proof fn lemma_enclosing_unique(symbols: Seq<SymbolV>, start: u64, a: Option<usize>, b: Option<usize>)
    requires
        is_enclosing_definition(symbols, start, a),
        is_enclosing_definition(symbols, start, b),
    ensures
        a == b,
{
    match (a, b) {
        (Some(x), Some(y)) => {
            if x < y {
                assert(crate::extractor_common::encloses(symbols[x as int], start));
            } else if y < x {
                assert(crate::extractor_common::encloses(symbols[y as int], start));
            }
        },
        (Some(x), None) => {
            assert(crate::extractor_common::encloses(symbols[x as int], start));
        },
        (None, Some(y)) => {
            assert(crate::extractor_common::encloses(symbols[y as int], start));
        },
        (None, None) => {},
    }
}

proof fn lemma_enclosing_of(symbols: Seq<SymbolV>, start: u64, r: Option<usize>)
    requires
        is_enclosing_definition(symbols, start, r),
    ensures
        enclosing_of(symbols, start) == r,
{
    let c = choose|c: Option<usize>| is_enclosing_definition(symbols, start, c);
    lemma_enclosing_unique(symbols, start, c, r);
}

/// Kinds a call by plain name can reach: functions, macros, and consts /
/// statics holding function pointers; a path call can also reach methods.
pub open spec fn reachable_kind(k: SymbolKind, scoped: bool) -> bool {
    k == SymbolKind::Function || k == SymbolKind::Macro || k == SymbolKind::Const
        || k == SymbolKind::Static || (scoped && k == SymbolKind::Method)
}

/// Candidates of a reachable kind, in order.
pub open spec fn reachable_candidates(symbols: Seq<SymbolV>, cands: Seq<usize>, scoped: bool) -> Seq<usize>
    decreases cands.len(),
{
    if cands.len() == 0 {
        seq![]
    } else {
        let rest = reachable_candidates(symbols, cands.drop_last(), scoped);
        if reachable_kind(symbols[cands.last() as int].kind, scoped) { rest.push(cands.last()) } else { rest }
    }
}

/// The same-file symbol a trusted call binds to: for a method call, the
/// candidate in the caller's impl; otherwise the only reachable candidate.
pub open spec fn pick_target(symbols: Seq<SymbolV>, r: RefV, caller: Option<usize>, sep: Seq<char>) -> Option<usize> {
    let cands = candidates_spec(symbols, sep, r.name);
    if r.method_call {
        pick_method_target_spec(symbols, cands, caller, sep)
    } else {
        let f = reachable_candidates(symbols, cands, r.scoped);
        if f.len() == 1 { Some(f[0]) } else { None }
    }
}

pub open spec fn file_src(path: Seq<char>) -> Seq<char> {
    "file:"@ + path
}

/// The edge of a call reference; none for a constructor call.
pub open spec fn call_edge(symbols: Seq<SymbolV>, r: RefV, path: Seq<char>, fid: FileId, sep: Seq<char>, stdlib: Seq<Seq<char>>, kinds: TypeKinds) -> Option<EdgeV> {
    if is_constructor_call_spec(r.name, symbols, sep, stdlib, kinds) {
        None
    } else {
        let enc = enclosing_of(symbols, r.start);
        let src = match enc { Some(e) => symbols[e as int].id, None => file_src(path) };
        let dst = if r.trust { pick_target(symbols, r, enc, sep) } else { None };
        Some(EdgeV {
            src: src,
            dst: match dst { Some(d) => Some(symbols[d as int].id), None => None },
            dst_unresolved: if dst.is_some() { None } else { Some(r.name) },
            kind: EdgeKind::Calls,
            confidence: if dst.is_some() {
                EdgeConfidence::Extracted
            } else if r.inhibit {
                EdgeConfidence::Ambiguous
            } else {
                EdgeConfidence::Unresolved
            },
            file_id: fid,
            order_key: r.start,
        })
    }
}

pub open spec fn call_edges(symbols: Seq<SymbolV>, refs: Seq<RefV>, path: Seq<char>, fid: FileId, sep: Seq<char>, stdlib: Seq<Seq<char>>, kinds: TypeKinds) -> Seq<EdgeV>
    decreases refs.len(),
{
    if refs.len() == 0 {
        seq![]
    } else {
        let rest = call_edges(symbols, refs.drop_last(), path, fid, sep, stdlib, kinds);
        match call_edge(symbols, refs.last(), path, fid, sep, stdlib, kinds) {
            Some(e) => rest.push(e),
            None => rest,
        }
    }
}

pub open spec fn contains_edges(symbols: Seq<SymbolV>, path: Seq<char>, fid: FileId) -> Seq<EdgeV> {
    symbols.map_values(|s: SymbolV| EdgeV {
        src: file_src(path),
        dst: Some(s.id),
        dst_unresolved: None,
        kind: EdgeKind::Contains,
        confidence: EdgeConfidence::Extracted,
        file_id: fid,
        order_key: s.anchor.start_byte,
    })
}

pub open spec fn import_edges(imports: Seq<(u64, Seq<char>)>, path: Seq<char>, fid: FileId) -> Seq<EdgeV> {
    imports.map_values(|i: (u64, Seq<char>)| EdgeV {
        src: file_src(path),
        dst: None,
        dst_unresolved: Some(i.1),
        kind: EdgeKind::Imports,
        confidence: EdgeConfidence::Unresolved,
        file_id: fid,
        order_key: i.0,
    })
}

/// Edge kind name, then order key.
pub open spec fn edge_sort_keys(es: Seq<EdgeV>) -> Seq<Seq<PartV>> {
    Seq::new(es.len(), |i: int| seq![PartV::Text(es[i].kind.name()), PartV::Num(es[i].order_key as int)])
}

pub open spec fn sorted_edges(es: Seq<EdgeV>) -> Seq<EdgeV> {
    sorted_positions(edge_sort_keys(es), |i: int| true).map_values(|p: int| es[p])
}

/// All edges of a file, in the index's order.
pub open spec fn file_edges(symbols: Seq<SymbolV>, refs: Seq<RefV>, imports: Seq<(u64, Seq<char>)>, path: Seq<char>, fid: FileId, sep: Seq<char>, stdlib: Seq<Seq<char>>, kinds: TypeKinds) -> Seq<EdgeV> {
    sorted_edges(contains_edges(symbols, path, fid) + call_edges(symbols, refs, path, fid, sep, stdlib, kinds) + import_edges(imports, path, fid))
}

fn file_src_exec(path: &str) -> (r: SymbolId)
    ensures
        r.0@ == file_src(path@),
{
    let mut s = String::new();
    push_str(&mut s, "file:");
    push_str(&mut s, path);
    SymbolId(s)
}

fn dup_edge(e: &Edge) -> (r: Edge)
    ensures
        r == *e,
{
    Edge {
        src: e.src.duplicate(),
        dst: match &e.dst { Some(d) => Some(d.duplicate()), None => None },
        dst_unresolved: crate::text::copy_opt_string(&e.dst_unresolved),
        kind: e.kind,
        confidence: e.confidence,
        file_id: e.file_id,
        order_key: e.order_key,
    }
}

fn reachable_exec(symbols: &Vec<Symbol>, cands: &Vec<usize>, scoped: bool) -> (r: Vec<usize>)
    requires
        forall|k: int| 0 <= k < cands@.len() ==> (cands@[k] as int) < symbols@.len(),
    ensures
        r@ == reachable_candidates(symbol_views(symbols@), cands@, scoped),
{
    let mut out: Vec<usize> = Vec::new();
    let mut i: usize = 0;
    while i < cands.len()
        invariant
            i <= cands@.len(),
            forall|k: int| 0 <= k < cands@.len() ==> (cands@[k] as int) < symbols@.len(),
            out@ == reachable_candidates(symbol_views(symbols@), cands@.take(i as int), scoped),
        decreases cands.len() - i,
    {
        assert(cands@.take(i + 1).drop_last() =~= cands@.take(i as int));
        assert(cands@.take(i + 1).last() == cands@[i as int]);
        let k = symbols[cands[i]].kind;
        let ok = match k {
            SymbolKind::Function | SymbolKind::Macro | SymbolKind::Const | SymbolKind::Static => true,
            SymbolKind::Method => scoped,
            _ => false,
        };
        if ok {
            out.push(cands[i]);
        }
        i = i + 1;
    }
    assert(cands@.take(cands@.len() as int) =~= cands@);
    out
}

proof fn lemma_reachable_in_range(symbols: Seq<SymbolV>, cands: Seq<usize>, scoped: bool)
    requires
        forall|k: int| 0 <= k < cands.len() ==> (cands[k] as int) < symbols.len(),
    ensures
        forall|k: int| 0 <= k < reachable_candidates(symbols, cands, scoped).len() ==>
            (#[trigger] reachable_candidates(symbols, cands, scoped)[k] as int) < symbols.len(),
    decreases cands.len(),
{
    if cands.len() > 0 {
        lemma_reachable_in_range(symbols, cands.drop_last(), scoped);
        let rest = reachable_candidates(symbols, cands.drop_last(), scoped);
        let c = cands.last();
        assert forall|k: int| 0 <= k < rest.push(c).len() implies (#[trigger] rest.push(c)[k] as int) < symbols.len() by {
            if k < rest.len() {
                assert(rest.push(c)[k] == rest[k]);
            }
        }
    }
}

fn call_edge_exec(symbols: &Vec<Symbol>, r: &CallRef, path: &str, fid: FileId, rules: &LangRules) -> (e: Option<Edge>)
    ensures
        match e {
            Some(x) => call_edge(symbol_views(symbols@), ref_view(*r), path@, fid, rules.sep@, stdlib_view(*rules), rules.kinds) == Some(edge_view(x)),
            None => call_edge(symbol_views(symbols@), ref_view(*r), path@, fid, rules.sep@, stdlib_view(*rules), rules.kinds).is_none(),
        },
{
    if is_constructor_call(r.name.as_str(), symbols, rules.sep, &rules.stdlib_variants, rules.kinds) {
        return None;
    }
    let enc = find_enclosing_definition(r.start, symbols);
    proof {
        lemma_enclosing_of(symbol_views(symbols@), r.start, enc);
    }
    let src = match enc {
        Some(e) => symbols[e].id.duplicate(),
        None => file_src_exec(path),
    };
    let dst: Option<usize> = if r.trust_intra_file {
        let cands = candidates_by_short(symbols, rules.sep, r.name.as_str());
        proof {
            crate::extractor_common::lemma_candidates_in_range(symbol_views(symbols@), rules.sep@, r.name@);
        }
        if r.method_call {
            pick_method_target(symbols, &cands, enc, rules.sep)
        } else {
            let f = reachable_exec(symbols, &cands, r.scoped);
            proof {
                lemma_reachable_in_range(symbol_views(symbols@), cands@, r.scoped);
            }
            if f.len() == 1 { Some(f[0]) } else { None }
        }
    } else {
        None
    };
    proof {
        if dst.is_some() {
            let cands = candidates_spec(symbol_views(symbols@), rules.sep@, r.name@);
            crate::extractor_common::lemma_candidates_in_range(symbol_views(symbols@), rules.sep@, r.name@);
            if r.method_call {
                crate::extractor_common::lemma_pick_in_range(symbol_views(symbols@), cands, enc, rules.sep@);
            } else {
                lemma_reachable_in_range(symbol_views(symbols@), cands, r.scoped);
            }
        }
    }
    let (dst_id, unresolved, confidence) = match dst {
        Some(d) => (Some(symbols[d].id.duplicate()), None, EdgeConfidence::Extracted),
        None => (None, Some(copy_string(&r.name)), if r.inhibit_resolver { EdgeConfidence::Ambiguous } else { EdgeConfidence::Unresolved }),
    };
    Some(Edge {
        src: src,
        dst: dst_id,
        dst_unresolved: unresolved,
        kind: EdgeKind::Calls,
        confidence: confidence,
        file_id: fid,
        order_key: r.start,
    })
}

/// The edges of a file, in the index's order.
pub fn assemble_edges(symbols: &Vec<Symbol>, refs: &Vec<CallRef>, imports: &Vec<ImportRef>, path: &str, fid: FileId, rules: &LangRules) -> (r: Vec<Edge>)
    ensures
        edge_views(r@) == file_edges(symbol_views(symbols@), ref_views(refs@), import_views(imports@), path@, fid, rules.sep@, stdlib_view(*rules), rules.kinds),
        forall|i: int| 0 <= i < r@.len() ==> edge_tiered(#[trigger] edge_view(r@[i])),
{
    let mut pre: Vec<Edge> = Vec::new();
    let mut i: usize = 0;
    while i < symbols.len()
        invariant
            i <= symbols@.len(),
            edge_views(pre@) == contains_edges(symbol_views(symbols@.take(i as int)), path@, fid),
        decreases symbols.len() - i,
    {
        let e = Edge {
            src: file_src_exec(path),
            dst: Some(symbols[i].id.duplicate()),
            dst_unresolved: None,
            kind: EdgeKind::Contains,
            confidence: EdgeConfidence::Extracted,
            file_id: fid,
            order_key: symbols[i].anchor.start_byte,
        };
        let ghost before = pre@;
        let ghost ge = e;
        pre.push(e);
        assert(edge_views(pre@) =~= edge_views(before).push(edge_view(ge)));
        assert(symbols@.take(i + 1) =~= symbols@.take(i as int).push(symbols@[i as int]));
        assert(contains_edges(symbol_views(symbols@.take(i + 1)), path@, fid) =~= contains_edges(symbol_views(symbols@.take(i as int)), path@, fid).push(edge_view(ge)));
        i = i + 1;
    }
    assert(symbols@.take(symbols@.len() as int) =~= symbols@);
    let ghost c_part = edge_views(pre@);
    let ghost rv = ref_views(refs@);
    let mut k: usize = 0;
    while k < refs.len()
        invariant
            k <= refs@.len(),
            rv == ref_views(refs@),
            c_part == contains_edges(symbol_views(symbols@), path@, fid),
            edge_views(pre@) == c_part + call_edges(symbol_views(symbols@), rv.take(k as int), path@, fid, rules.sep@, stdlib_view(*rules), rules.kinds),
        decreases refs.len() - k,
    {
        assert(rv.take(k + 1).drop_last() =~= rv.take(k as int));
        assert(rv.take(k + 1).last() == ref_view(refs@[k as int]));
        match call_edge_exec(symbols, &refs[k], path, fid, rules) {
            Some(e) => {
                let ghost before = pre@;
                pre.push(e);
                assert(edge_views(pre@) =~= edge_views(before).push(edge_view(e)));
            },
            None => {},
        }
        k = k + 1;
    }
    assert(rv.take(refs@.len() as int) =~= rv);
    let ghost cc_part = edge_views(pre@);
    let ghost iv = import_views(imports@);
    let mut m: usize = 0;
    while m < imports.len()
        invariant
            m <= imports@.len(),
            iv == import_views(imports@),
            edge_views(pre@) == cc_part + import_edges(iv.take(m as int), path@, fid),
        decreases imports.len() - m,
    {
        let e = Edge {
            src: file_src_exec(path),
            dst: None,
            dst_unresolved: Some(copy_string(&imports[m].text)),
            kind: EdgeKind::Imports,
            confidence: EdgeConfidence::Unresolved,
            file_id: fid,
            order_key: imports[m].start,
        };
        let ghost before = pre@;
        let ghost ge = e;
        pre.push(e);
        assert(edge_views(pre@) =~= edge_views(before).push(edge_view(ge)));
        assert(iv.take(m + 1) =~= iv.take(m as int).push(iv[m as int]));
        assert(import_edges(iv.take(m + 1), path@, fid) =~= import_edges(iv.take(m as int), path@, fid).push(edge_view(ge)));
        m = m + 1;
    }
    assert(iv.take(imports@.len() as int) =~= iv);
    let r = sort_edges(&pre);
    proof {
        law_file_edges_tiered(symbol_views(symbols@), ref_views(refs@), import_views(imports@), path@, fid, rules.sep@, stdlib_view(*rules), rules.kinds);
        let fe = file_edges(symbol_views(symbols@), ref_views(refs@), import_views(imports@), path@, fid, rules.sep@, stdlib_view(*rules), rules.kinds);
        assert forall|i: int| 0 <= i < r@.len() implies edge_tiered(#[trigger] edge_view(r@[i])) by {
            assert(edge_views(r@)[i] == edge_view(r@[i]));
            assert(edge_tiered(fe[i]));
        }
    }
    r
}

/// Edges by kind name, then order key; ties keep their order.
fn sort_edges(es: &Vec<Edge>) -> (r: Vec<Edge>)
    ensures
        edge_views(r@) == sorted_edges(edge_views(es@)),
{
    let ghost ev = edge_views(es@);
    let mut hits: Vec<bool> = Vec::new();
    let mut keys: Vec<Vec<KeyPart>> = Vec::new();
    let mut i: usize = 0;
    while i < es.len()
        invariant
            i <= es@.len(),
            ev == edge_views(es@),
            hits@.len() == i,
            keys@.len() == i,
            forall|j: int| 0 <= j < i ==> #[trigger] hits@[j] == (|k: int| true)(j),
            forall|j: int| 0 <= j < i ==> key_view(#[trigger] keys@[j]) == edge_sort_keys(ev)[j],
        decreases es.len() - i,
    {
        let mut key: Vec<KeyPart> = Vec::new();
        key.push(KeyPart::Text(chars_of(es[i].kind.as_str())));
        key.push(KeyPart::Num(es[i].order_key as u128));
        assert(key_view(key) =~= edge_sort_keys(ev)[i as int]);
        hits.push(true);
        keys.push(key);
        i = i + 1;
    }
    let order = crate::order::select_sorted(&hits, &keys, Ghost(edge_sort_keys(ev)), Ghost(|k: int| true));
    let ghost pv = positions_view(order@);
    let mut out: Vec<Edge> = Vec::new();
    let mut a: usize = 0;
    while a < order.len()
        invariant
            a <= order@.len(),
            ev == edge_views(es@),
            pv == positions_view(order@),
            crate::order::sorted_selection(edge_sort_keys(ev), |k: int| true, pv),
            pv == sorted_positions(edge_sort_keys(ev), |k: int| true),
            edge_views(out@) == pv.take(a as int).map_values(|p: int| ev[p]),
        decreases order.len() - a,
    {
        assert(pv[a as int] == order@[a as int] as int);
        assert(0 <= pv[a as int] < edge_sort_keys(ev).len());
        let ghost before = out@;
        out.push(dup_edge(&es[order[a]]));
        assert(edge_views(out@) =~= edge_views(before).push(ev[pv[a as int]]));
        assert(pv.take(a + 1) =~= pv.take(a as int).push(pv[a as int]));
        a = a + 1;
    }
    assert(pv.take(order@.len() as int) =~= pv);
    out
}

/// A file's edges come ordered by kind name, then position, each edge
/// exactly once.
pub proof fn law_edges_ordered(es: Seq<EdgeV>)
    ensures
        sorted_edges(es).len() == es.len(),
        forall|a: int, b: int| 0 <= a < b < sorted_edges(es).len()
            ==> !crate::order::key_lt(edge_sort_keys(sorted_edges(es))[b], edge_sort_keys(sorted_edges(es))[a]),
{
    let keys = edge_sort_keys(es);
    crate::order::lemma_sorted_positions_sorted(keys, |i: int| true);
    let pos = crate::order::sorted_positions(keys, |i: int| true);
    crate::order::lemma_permutation_len(keys, pos);
    let out = sorted_edges(es);
    assert forall|a: int, b: int| 0 <= a < b < out.len()
        implies !crate::order::key_lt(edge_sort_keys(out)[b], edge_sort_keys(out)[a]) by {
        assert(crate::order::sorts_before(keys, pos[a], pos[b]));
        assert(edge_sort_keys(out)[a] == keys[pos[a]]);
        assert(edge_sort_keys(out)[b] == keys[pos[b]]);
        crate::order::lemma_key_lt_asym_pub(keys[pos[a]], keys[pos[b]]);
    }
}

/// The target fields of an edge agree with its confidence tier: a target
/// exactly for `extracted` and `inferred`, an unresolved name exactly for
/// `ambiguous` and `unresolved`.
pub open spec fn edge_tiered(e: EdgeV) -> bool {
    crate::model::edge_tier_consistent(e.dst.is_some(), e.dst_unresolved.is_some(), e.confidence)
}

proof fn lemma_call_edges_tiered(symbols: Seq<SymbolV>, refs: Seq<RefV>, path: Seq<char>, fid: FileId, sep: Seq<char>, stdlib: Seq<Seq<char>>, kinds: TypeKinds)
    ensures
        forall|i: int| 0 <= i < call_edges(symbols, refs, path, fid, sep, stdlib, kinds).len()
            ==> edge_tiered(#[trigger] call_edges(symbols, refs, path, fid, sep, stdlib, kinds)[i]),
    decreases refs.len(),
{
    if refs.len() > 0 {
        lemma_call_edges_tiered(symbols, refs.drop_last(), path, fid, sep, stdlib, kinds);
        let rest = call_edges(symbols, refs.drop_last(), path, fid, sep, stdlib, kinds);
        let all = call_edges(symbols, refs, path, fid, sep, stdlib, kinds);
        assert forall|i: int| 0 <= i < all.len() implies edge_tiered(#[trigger] all[i]) by {
            if i < rest.len() {
                assert(all[i] == rest[i]);
            }
        }
    }
}

/// Every edge a file yields carries a target exactly when its tier is
/// `extracted` or `inferred`, and an unresolved name exactly otherwise.
pub proof fn law_file_edges_tiered(symbols: Seq<SymbolV>, refs: Seq<RefV>, imports: Seq<(u64, Seq<char>)>, path: Seq<char>, fid: FileId, sep: Seq<char>, stdlib: Seq<Seq<char>>, kinds: TypeKinds)
    ensures
        forall|i: int| 0 <= i < file_edges(symbols, refs, imports, path, fid, sep, stdlib, kinds).len()
            ==> edge_tiered(#[trigger] file_edges(symbols, refs, imports, path, fid, sep, stdlib, kinds)[i]),
{
    let c = contains_edges(symbols, path, fid);
    let k = call_edges(symbols, refs, path, fid, sep, stdlib, kinds);
    let m = import_edges(imports, path, fid);
    let es = c + k + m;
    lemma_call_edges_tiered(symbols, refs, path, fid, sep, stdlib, kinds);
    assert forall|i: int| 0 <= i < es.len() implies edge_tiered(#[trigger] es[i]) by {
        if i < c.len() {
            assert(es[i] == c[i]);
        } else if i < c.len() + k.len() {
            assert(es[i] == k[i - c.len()]);
        } else {
            assert(es[i] == m[i - c.len() - k.len()]);
        }
    }
    let keys = edge_sort_keys(es);
    crate::order::lemma_sorted_positions_sorted(keys, |i: int| true);
    let pos = sorted_positions(keys, |i: int| true);
    let out = file_edges(symbols, refs, imports, path, fid, sep, stdlib, kinds);
    assert(out == sorted_edges(es));
    assert forall|i: int| 0 <= i < out.len() implies edge_tiered(#[trigger] out[i]) by {
        assert(out[i] == es[pos[i]]);
        assert(0 <= pos[i] < keys.len());
    }
}

/// Turns a parsed file into its symbols, edges and parse errors; one
/// implementation per language.
pub trait SymbolExtractor: Sized {
    fn extract(&mut self, parsed: &crate::parsed_source::ParsedSource) -> (r: crate::model::ParsedFile)
        requires
            parsed.wf(),
        ensures
            *final(self) == *old(self),
            r.file_id == parsed.file_id,
            r.parse_ms == parsed.parse_ms,
            starts_sorted(r.symbols@),
            forall|i: int| 0 <= i < r.edges@.len() ==> edge_tiered(#[trigger] edge_view(r.edges@[i])),
            crate::syntax::parse_error_views(r.parse_errors@) == crate::syntax::tree_errors(crate::syntax::tree_view(parsed.tree), parsed.bytes(), parsed.file_id),
    ;
}

} // verus!
