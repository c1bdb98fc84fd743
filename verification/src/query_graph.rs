//! Queries that walk the edge graph of one index: breadth-first expansion
//! from a symbol, per-file edge bundles, blast radius and test seams of a
//! symbol found by name, the structural diff of two indexes, and the
//! request dispatcher over every query.
use vstd::prelude::*;
use crate::model::SymbolId;
use crate::order::{key_view, positions_view, sorted_positions, sorted_selection, KeyPart, PartV};
use crate::query::{
    effective_kinds, effective_kinds_exec, fetch_symbol, fetch_symbol_spec, neighbors_inner,
    neighbors_spec, Direction, IndexReader, NeighborEdge, SymbolRecord,
};
use crate::store::IndexTables;
use crate::text::{chars_eq, chars_of, copy_opt_string, copy_string};

verus! {

/// The nodes and edges reached from a symbol.
#[derive(Debug, Clone, PartialEq, Eq)]
pub struct Subgraph {
    pub nodes: Vec<SymbolRecord>,
    pub edges: Vec<NeighborEdge>,
    pub max_depth_reached: u32,
}

/// What a breadth-first round has gathered: the symbols seen (in the order
/// first seen), the edges followed, the ids found for the next round.
pub ghost struct ExpandState {
    pub visited: Seq<SymbolRecord>,
    pub edges: Seq<NeighborEdge>,
    pub next: Seq<Seq<char>>,
}

/// Some symbol with id text `id` has been seen.
pub open spec fn seen(vs: Seq<SymbolRecord>, id: Seq<char>) -> bool {
    exists|i: int| 0 <= i < vs.len() && (#[trigger] vs[i]).id.0@ == id
}

/// Following one edge: an unseen target is seen and queued, an unseen
/// source is seen, and the edge is kept.
pub open spec fn visit_edge(st: ExpandState, e: NeighborEdge) -> ExpandState {
    let st1 = match e.dst {
        Some(d) => if !seen(st.visited, d.id.0@) {
            ExpandState { visited: st.visited.push(d), next: st.next.push(d.id.0@), ..st }
        } else {
            st
        },
        None => st,
    };
    let st2 = if !seen(st1.visited, e.src.id.0@) {
        ExpandState { visited: st1.visited.push(e.src), ..st1 }
    } else {
        st1
    };
    ExpandState { edges: st2.edges.push(e), ..st2 }
}

pub open spec fn visit_edges(st: ExpandState, es: Seq<NeighborEdge>) -> ExpandState
    decreases es.len(),
{
    if es.len() == 0 {
        st
    } else {
        visit_edge(visit_edges(st, es.drop_last()), es.last())
    }
}

/// One round: the neighbour edges of each frontier symbol, in order.
pub open spec fn visit_frontier(t: IndexTables, st: ExpandState, frontier: Seq<Seq<char>>, kinds: Seq<crate::model::EdgeKind>, wo: bool, wi: bool) -> ExpandState
    decreases frontier.len(),
{
    if frontier.len() == 0 {
        st
    } else {
        visit_edges(visit_frontier(t, st, frontier.drop_last(), kinds, wo, wi), neighbors_spec(t, frontier.last(), kinds, wo, wi))
    }
}

/// Rounds `d..=depth`, stopping early at an empty frontier: the symbols
/// seen, the edges followed, and the last round that found a new symbol.
pub open spec fn expand_rounds(
    t: IndexTables,
    visited: Seq<SymbolRecord>,
    edges: Seq<NeighborEdge>,
    frontier: Seq<Seq<char>>,
    reached: u32,
    d: int,
    depth: int,
    kinds: Seq<crate::model::EdgeKind>,
    wo: bool,
    wi: bool,
) -> (Seq<SymbolRecord>, Seq<NeighborEdge>, u32)
    decreases depth + 1 - d,
{
    if d > depth || frontier.len() == 0 {
        (visited, edges, reached)
    } else {
        let st = visit_frontier(t, ExpandState { visited, edges, next: seq![] }, frontier, kinds, wo, wi);
        expand_rounds(t, st.visited, st.edges, st.next, if st.next.len() > 0 { d as u32 } else { reached }, d + 1, depth, kinds, wo, wi)
    }
}

pub open spec fn id_keys(vs: Seq<SymbolRecord>) -> Seq<Seq<PartV>> {
    Seq::new(vs.len(), |i: int| seq![PartV::Text(vs[i].id.0@)])
}

/// Records ordered by id text.
pub open spec fn sort_by_id(vs: Seq<SymbolRecord>) -> Seq<SymbolRecord> {
    sorted_positions(id_keys(vs), |i: int| true).map_values(|p: int| vs[p])
}

/// The subgraph reached from the symbol with id text `id` in up to
/// `depth` rounds: none for an unknown id; the symbol alone for depth 0;
/// otherwise the symbols seen ordered by id, the edges in the order
/// followed, and the last round that found a new symbol.
pub open spec fn expand_spec(t: IndexTables, id: Seq<char>, depth: u32, kinds: Seq<crate::model::EdgeKind>, dir: Direction) -> (Seq<SymbolRecord>, Seq<NeighborEdge>, u32) {
    match fetch_symbol_spec(t, id) {
        None => (seq![], seq![], 0u32),
        Some(a) => if depth == 0 {
            (seq![a], seq![], 0u32)
        } else {
            let r = expand_rounds(t, seq![a], seq![], seq![a.id.0@], 0, 1, depth as int, effective_kinds(kinds), dir.wants_out(), dir.wants_in());
            (sort_by_id(r.0), r.1, r.2)
        },
    }
}

pub(crate) fn copy_record(r: &SymbolRecord) -> (o: SymbolRecord)
    ensures
        o == *r,
{
    SymbolRecord {
        id: r.id.duplicate(),
        file_id: r.file_id,
        path: copy_string(&r.path),
        qualified_name: copy_string(&r.qualified_name),
        kind: r.kind,
        signature: copy_string(&r.signature),
        anchor: r.anchor,
    }
}

pub(crate) fn copy_neighbor(e: &NeighborEdge) -> (o: NeighborEdge)
    ensures
        o == *e,
{
    NeighborEdge {
        kind: e.kind,
        confidence: e.confidence,
        direction: e.direction,
        src: copy_record(&e.src),
        dst: match &e.dst {
            Some(d) => Some(copy_record(d)),
            None => None,
        },
        dst_unresolved: copy_opt_string(&e.dst_unresolved),
    }
}

fn seen_exec(vs: &Vec<SymbolRecord>, id: &SymbolId) -> (r: bool)
    ensures
        r == seen(vs@, id.0@),
{
    let c = chars_of(id.0.as_str());
    let mut i: usize = 0;
    while i < vs.len()
        invariant
            i <= vs@.len(),
            c@ == id.0@,
            forall|j: int| 0 <= j < i ==> vs@[j].id.0@ != id.0@,
        decreases vs.len() - i,
    {
        let v = chars_of(vs[i].id.0.as_str());
        if chars_eq(v.as_slice(), c.as_slice()) {
            assert(vs@[i as int].id.0@ == id.0@);
            return true;
        }
        i = i + 1;
    }
    false
}

pub open spec fn texts_view(v: Seq<Vec<char>>) -> Seq<Seq<char>> {
    v.map_values(|x: Vec<char>| x@)
}

/// Follows the edges of `es` from the state held in the three vectors.
fn visit_edges_exec(es: &Vec<NeighborEdge>, visited: &mut Vec<SymbolRecord>, edges: &mut Vec<NeighborEdge>, next: &mut Vec<Vec<char>>)
    ensures
        visit_edges(ExpandState { visited: old(visited)@, edges: old(edges)@, next: texts_view(old(next)@) }, es@)
            == (ExpandState { visited: final(visited)@, edges: final(edges)@, next: texts_view(final(next)@) }),
{
    let ghost st0 = ExpandState { visited: visited@, edges: edges@, next: texts_view(next@) };
    let mut k: usize = 0;
    while k < es.len()
        invariant
            k <= es@.len(),
            visit_edges(st0, es@.take(k as int)) == (ExpandState { visited: visited@, edges: edges@, next: texts_view(next@) }),
        decreases es.len() - k,
    {
        let e = &es[k];
        assert(es@.take(k + 1).drop_last() =~= es@.take(k as int));
        assert(es@.take(k + 1).last() == *e);
        match &e.dst {
            Some(d) => {
                if !seen_exec(visited, &d.id) {
                    let ghost nb = next@;
                    visited.push(copy_record(d));
                    next.push(chars_of(d.id.0.as_str()));
                    assert(texts_view(next@) =~= texts_view(nb).push(d.id.0@));
                }
            },
            None => {},
        }
        if !seen_exec(visited, &e.src.id) {
            visited.push(copy_record(&e.src));
        }
        edges.push(copy_neighbor(e));
        k = k + 1;
    }
    assert(es@.take(es@.len() as int) =~= es@);
}

fn sort_records_by_id(vs: &Vec<SymbolRecord>) -> (r: Vec<SymbolRecord>)
    ensures
        r@ == sort_by_id(vs@),
{
    let mut hits: Vec<bool> = Vec::new();
    let mut keys: Vec<Vec<KeyPart>> = Vec::new();
    let mut i: usize = 0;
    while i < vs.len()
        invariant
            i <= vs@.len(),
            hits@.len() == i,
            keys@.len() == i,
            forall|j: int| 0 <= j < i ==> #[trigger] hits@[j] == (|x: int| true)(j),
            forall|j: int| 0 <= j < i ==> key_view(#[trigger] keys@[j]) == id_keys(vs@)[j],
        decreases vs.len() - i,
    {
        let mut key: Vec<KeyPart> = Vec::new();
        key.push(KeyPart::Text(chars_of(vs[i].id.0.as_str())));
        assert(key_view(key) =~= id_keys(vs@)[i as int]);
        hits.push(true);
        keys.push(key);
        i = i + 1;
    }
    let order = crate::order::select_sorted(&hits, &keys, Ghost(id_keys(vs@)), Ghost(|x: int| true));
    let ghost pv = positions_view(order@);
    let mut out: Vec<SymbolRecord> = Vec::new();
    let mut a: usize = 0;
    while a < order.len()
        invariant
            a <= order@.len(),
            pv == positions_view(order@),
            sorted_selection(id_keys(vs@), |x: int| true, pv),
            pv == sorted_positions(id_keys(vs@), |x: int| true),
            out@ == pv.take(a as int).map_values(|p: int| vs@[p]),
        decreases order.len() - a,
    {
        assert(pv[a as int] == order@[a as int] as int);
        assert(0 <= pv[a as int] < id_keys(vs@).len());
        out.push(copy_record(&vs[order[a]]));
        a = a + 1;
        assert(out@ =~= pv.take(a as int).map_values(|p: int| vs@[p]));
    }
    assert(pv.take(order@.len() as int) =~= pv);
    out
}

impl IndexReader {
    /// Breadth-first expansion from a symbol for up to `depth` rounds along
    /// edges of the given kinds (all when none) in the given directions.
    pub fn expand(&self, id: &SymbolId, depth: u32, kinds: &Vec<crate::model::EdgeKind>, dir: Direction) -> (r: Subgraph)
        ensures
            (r.nodes@, r.edges@, r.max_depth_reached) == expand_spec(self.tables, id.0@, depth, kinds@, dir),
    {
        let c = chars_of(id.0.as_str());
        let anchor = match fetch_symbol(&self.tables, &c) {
            Some(a) => a,
            None => {
                return Subgraph { nodes: Vec::new(), edges: Vec::new(), max_depth_reached: 0 };
            },
        };
        if depth == 0 {
            let mut nodes: Vec<SymbolRecord> = Vec::new();
            nodes.push(anchor);
            return Subgraph { nodes, edges: Vec::new(), max_depth_reached: 0 };
        }
        let ks = effective_kinds_exec(kinds);
        let want_out = match dir { Direction::Out | Direction::Both => true, Direction::In => false };
        let want_in = match dir { Direction::In | Direction::Both => true, Direction::Out => false };
        let ghost t = self.tables;
        let ghost goal = expand_rounds(t, seq![anchor], seq![], seq![anchor.id.0@], 0, 1, depth as int, ks@, want_out, want_in);
        let mut visited: Vec<SymbolRecord> = Vec::new();
        visited.push(copy_record(&anchor));
        let mut edges: Vec<NeighborEdge> = Vec::new();
        let mut frontier: Vec<Vec<char>> = Vec::new();
        frontier.push(chars_of(anchor.id.0.as_str()));
        let mut reached: u32 = 0;
        let mut d: u64 = 1;
        assert(visited@ =~= seq![anchor]);
        assert(texts_view(frontier@) =~= seq![anchor.id.0@]);
        while d <= depth as u64 && frontier.len() > 0
            invariant
                t == self.tables,
                1 <= d <= depth as u64 + 1,
                expand_rounds(t, visited@, edges@, texts_view(frontier@), reached, d as int, depth as int, ks@, want_out, want_in) == goal,
            decreases depth as u64 + 1 - d,
        {
            let ghost st0 = ExpandState { visited: visited@, edges: edges@, next: seq![] };
            let ghost fr = texts_view(frontier@);
            let mut next: Vec<Vec<char>> = Vec::new();
            let mut j: usize = 0;
            assert(texts_view(next@) =~= Seq::<Seq<char>>::empty());
            while j < frontier.len()
                invariant
                    t == self.tables,
                    j <= frontier@.len(),
                    fr == texts_view(frontier@),
                    visit_frontier(t, st0, fr.take(j as int), ks@, want_out, want_in)
                        == (ExpandState { visited: visited@, edges: edges@, next: texts_view(next@) }),
                decreases frontier.len() - j,
            {
                assert(fr.take(j + 1).drop_last() =~= fr.take(j as int));
                assert(fr.take(j + 1).last() == frontier@[j as int]@);
                let es = neighbors_inner(&self.tables, &frontier[j], &ks, want_out, want_in);
                visit_edges_exec(&es, &mut visited, &mut edges, &mut next);
                j = j + 1;
            }
            assert(fr.take(frontier@.len() as int) =~= fr);
            if next.len() > 0 {
                reached = d as u32;
            }
            frontier = next;
            d = d + 1;
        }
        let nodes = sort_records_by_id(&visited);
        Subgraph { nodes, edges, max_depth_reached: reached }
    }
}

} // verus!

verus! {

use crate::model::EdgeKind;
use crate::query::{edge_key_exec, edge_keys, edge_picked, file_symbols, kinds_contain};
use crate::store::EdgeRow;

/// A symbol of a file with its outgoing and incoming edges.
#[derive(Debug, Clone, PartialEq, Eq)]
pub struct FileEdgeBundle {
    pub symbol: SymbolRecord,
    pub outbound: Vec<NeighborEdge>,
    pub inbound: Vec<NeighborEdge>,
}

/// A bundle, with its edge lists as sequences.
pub ghost struct BundleV {
    pub symbol: SymbolRecord,
    pub outbound: Seq<NeighborEdge>,
    pub inbound: Seq<NeighborEdge>,
}

pub open spec fn bundle_view(b: FileEdgeBundle) -> BundleV {
    BundleV { symbol: b.symbol, outbound: b.outbound@, inbound: b.inbound@ }
}

/// An edge leaving `s`, seen from `s`.
pub open spec fn out_edge_of(t: IndexTables, s: SymbolRecord, e: EdgeRow) -> NeighborEdge {
    NeighborEdge {
        kind: e.kind,
        confidence: e.confidence,
        direction: Direction::Out,
        src: s,
        dst: match e.dst {
            Some(d) => fetch_symbol_spec(t, d.0@),
            None => None,
        },
        dst_unresolved: e.dst_unresolved,
    }
}

/// An edge entering `s`, seen from `s`; none when its source has no
/// record.
pub open spec fn in_edge_of(t: IndexTables, s: SymbolRecord, e: EdgeRow) -> Option<NeighborEdge> {
    match fetch_symbol_spec(t, e.src.0@) {
        None => None,
        Some(src) => Some(NeighborEdge {
            kind: e.kind,
            confidence: e.confidence,
            direction: Direction::In,
            src: src,
            dst: Some(s),
            dst_unresolved: None,
        }),
    }
}

pub open spec fn in_edges_at(t: IndexTables, s: SymbolRecord, pos: Seq<int>) -> Seq<NeighborEdge>
    decreases pos.len(),
{
    if pos.len() == 0 {
        seq![]
    } else {
        let rest = in_edges_at(t, s, pos.drop_last());
        match in_edge_of(t, s, t.edges@[pos.last()]) {
            Some(n) => rest.push(n),
            None => rest,
        }
    }
}

/// The bundle of one symbol: its outgoing edges (when asked) and its
/// incoming edges from symbols with a record (when asked), each by edge
/// id.
pub open spec fn bundle_of(t: IndexTables, s: SymbolRecord, kinds: Seq<EdgeKind>, wo: bool, wi: bool) -> BundleV {
    BundleV {
        symbol: s,
        outbound: if wo {
            sorted_positions(edge_keys(t.edges@), |i: int| edge_picked(t.edges@[i], s.id.0@, kinds, true))
                .map_values(|p: int| out_edge_of(t, s, t.edges@[p]))
        } else {
            seq![]
        },
        inbound: if wi {
            in_edges_at(t, s, sorted_positions(edge_keys(t.edges@), |i: int| edge_picked(t.edges@[i], s.id.0@, kinds, false)))
        } else {
            seq![]
        },
    }
}

/// The bundles of the symbols of the file at `path`, by anchor start.
pub open spec fn file_bundles(t: IndexTables, path: Seq<char>, kinds: Seq<EdgeKind>, dir: Direction) -> Seq<BundleV> {
    file_symbols(t, path).map_values(|s: SymbolRecord| bundle_of(t, s, effective_kinds(kinds), dir.wants_out(), dir.wants_in()))
}

/// Positions of the edges at `id` leaving (`out`) or entering it, by edge
/// id.
fn picked_edges(t: &IndexTables, id: &Vec<char>, kinds: &Vec<EdgeKind>, out: bool) -> (r: Vec<usize>)
    ensures
        positions_view(r@) == sorted_positions(edge_keys(t.edges@), |i: int| edge_picked(t.edges@[i], id@, kinds@, out)),
        forall|a: int| 0 <= a < r@.len() ==> (#[trigger] r@[a] as int) < t.edges@.len(),
{
    let ghost edges = t.edges@;
    let ghost sel = |i: int| edge_picked(edges[i], id@, kinds@, out);
    let mut hits: Vec<bool> = Vec::new();
    let mut keys: Vec<Vec<KeyPart>> = Vec::new();
    let mut i: usize = 0;
    while i < t.edges.len()
        invariant
            i <= edges.len(),
            edges == t.edges@,
            sel == (|i: int| edge_picked(edges[i], id@, kinds@, out)),
            hits@.len() == i,
            keys@.len() == i,
            forall|j: int| 0 <= j < i ==> #[trigger] hits@[j] == sel(j),
            forall|j: int| 0 <= j < i ==> key_view(#[trigger] keys@[j]) == edge_keys(edges)[j],
        decreases edges.len() - i,
    {
        let e = &t.edges[i];
        let kind_ok = kinds_contain(kinds, e.kind);
        let hit = kind_ok && if out {
            let src = chars_of(e.src.0.as_str());
            chars_eq(src.as_slice(), id.as_slice())
        } else {
            match &e.dst {
                Some(d) => {
                    let dc = chars_of(d.0.as_str());
                    chars_eq(dc.as_slice(), id.as_slice())
                },
                None => false,
            }
        };
        assert(hit == sel(i as int));
        hits.push(hit);
        keys.push(edge_key_exec(e));
        i = i + 1;
    }
    let order = crate::order::select_sorted(&hits, &keys, Ghost(edge_keys(edges)), Ghost(sel));
    proof {
        assert forall|a: int| 0 <= a < order@.len() implies (#[trigger] order@[a] as int) < t.edges@.len() by {
            assert(positions_view(order@)[a] == order@[a] as int);
        }
    }
    order
}

fn bundle_exec(t: &IndexTables, s: SymbolRecord, kinds: &Vec<EdgeKind>, wo: bool, wi: bool) -> (r: FileEdgeBundle)
    ensures
        bundle_view(r) == bundle_of(*t, s, kinds@, wo, wi),
{
    let id = chars_of(s.id.0.as_str());
    let mut outbound: Vec<NeighborEdge> = Vec::new();
    if wo {
        let pos = picked_edges(t, &id, kinds, true);
        let ghost pv = positions_view(pos@);
        let mut a: usize = 0;
        while a < pos.len()
            invariant
                a <= pos@.len(),
                pv == positions_view(pos@),
                forall|b: int| 0 <= b < pos@.len() ==> (#[trigger] pos@[b] as int) < t.edges@.len(),
                outbound@ == pv.take(a as int).map_values(|p: int| out_edge_of(*t, s, t.edges@[p])),
            decreases pos.len() - a,
        {
            let e = &t.edges[pos[a]];
            let dst = match &e.dst {
                Some(d) => {
                    let dc = chars_of(d.0.as_str());
                    fetch_symbol(t, &dc)
                },
                None => None,
            };
            let n = NeighborEdge {
                kind: e.kind,
                confidence: e.confidence,
                direction: Direction::Out,
                src: copy_record(&s),
                dst,
                dst_unresolved: copy_opt_string(&e.dst_unresolved),
            };
            outbound.push(n);
            a = a + 1;
            assert(outbound@ =~= pv.take(a as int).map_values(|p: int| out_edge_of(*t, s, t.edges@[p])));
        }
        assert(pv.take(pos@.len() as int) =~= pv);
    }
    let mut inbound: Vec<NeighborEdge> = Vec::new();
    if wi {
        let pos = picked_edges(t, &id, kinds, false);
        let ghost pv = positions_view(pos@);
        let mut a: usize = 0;
        while a < pos.len()
            invariant
                a <= pos@.len(),
                pv == positions_view(pos@),
                forall|b: int| 0 <= b < pos@.len() ==> (#[trigger] pos@[b] as int) < t.edges@.len(),
                inbound@ == in_edges_at(*t, s, pv.take(a as int)),
            decreases pos.len() - a,
        {
            assert(pv.take(a + 1).drop_last() =~= pv.take(a as int));
            assert(pv.take(a + 1).last() == pos@[a as int] as int);
            let e = &t.edges[pos[a]];
            let sc = chars_of(e.src.0.as_str());
            match fetch_symbol(t, &sc) {
                Some(src) => {
                    inbound.push(NeighborEdge {
                        kind: e.kind,
                        confidence: e.confidence,
                        direction: Direction::In,
                        src,
                        dst: Some(copy_record(&s)),
                        dst_unresolved: None,
                    });
                },
                None => {},
            }
            a = a + 1;
        }
        assert(pv.take(pos@.len() as int) =~= pv);
    }
    FileEdgeBundle { symbol: s, outbound, inbound }
}

impl IndexReader {
    /// Every symbol of the file at `path` with its edges of the given kinds
    /// (all when none) in the given directions; symbols without edges
    /// appear with empty lists.
    pub fn edges_by_file(&self, path: &str, kinds: &Vec<EdgeKind>, dir: Direction) -> (r: Vec<FileEdgeBundle>)
        ensures
            r@.map_values(|b: FileEdgeBundle| bundle_view(b)) == file_bundles(self.tables, path@, kinds@, dir),
    {
        let ks = effective_kinds_exec(kinds);
        let want_out = match dir { Direction::Out | Direction::Both => true, Direction::In => false };
        let want_in = match dir { Direction::In | Direction::Both => true, Direction::Out => false };
        let symbols = self.symbols_in_file(path);
        let ghost syms = symbols@;
        let mut out: Vec<FileEdgeBundle> = Vec::new();
        let mut i: usize = 0;
        while i < symbols.len()
            invariant
                i <= syms.len(),
                syms == symbols@,
                syms == file_symbols(self.tables, path@),
                ks@ == effective_kinds(kinds@),
                want_out == dir.wants_out(),
                want_in == dir.wants_in(),
                out@.map_values(|b: FileEdgeBundle| bundle_view(b)) == syms.take(i as int).map_values(|s: SymbolRecord| bundle_of(self.tables, s, ks@, want_out, want_in)),
            decreases syms.len() - i,
        {
            let b = bundle_exec(&self.tables, copy_record(&symbols[i]), &ks, want_out, want_in);
            let ghost before = out@;
            out.push(b);
            assert(out@.map_values(|b: FileEdgeBundle| bundle_view(b)) =~= before.map_values(|b: FileEdgeBundle| bundle_view(b)).push(bundle_view(b)));
            assert(syms.take(i + 1) =~= syms.take(i as int).push(syms[i as int]));
            i = i + 1;
        }
        assert(syms.take(syms.len() as int) =~= syms);
        out
    }
}

} // verus!

verus! {

use crate::pr_review::{is_test_symbol, test_symbol_rule};
use crate::query::{path_start_keys, record_for, records_at, FindingFilter, FindingRecord, FileRecordOut};
use crate::query_lookup::{files_under, importers, metadata_fold, metadata_record_view, qname_hits, unresolved_hits, MetadataRecord, UnresolvedCallerHit};

/// What changes around a symbol found by name: the symbol, its callers,
/// its callees, the callers that are tests, and the other symbols the
/// name matched.
#[derive(Debug, Clone, PartialEq, Eq)]
pub struct BlastRadius {
    pub symbol: SymbolRecord,
    pub callers: Vec<SymbolRecord>,
    pub callees: Vec<SymbolRecord>,
    pub test_seams: Vec<SymbolRecord>,
    pub other_qname_matches: Vec<SymbolRecord>,
}

/// The record belongs to a test, by its path or its qualified name.
pub open spec fn is_test_record(r: SymbolRecord) -> bool {
    test_symbol_rule(r.path@, Some(r.qualified_name@))
}

pub ghost struct BlastState {
    pub callers: Seq<SymbolRecord>,
    pub callees: Seq<SymbolRecord>,
    pub seams: Seq<SymbolRecord>,
}

/// One neighbour edge: a new caller of an incoming edge is kept (and kept
/// as a test seam when it is a test); a new callee of an outgoing edge is
/// kept.
pub open spec fn blast_step(st: BlastState, e: NeighborEdge) -> BlastState {
    match e.direction {
        Direction::In => if !seen(st.callers, e.src.id.0@) {
            BlastState {
                callers: st.callers.push(e.src),
                seams: if is_test_record(e.src) && !seen(st.seams, e.src.id.0@) { st.seams.push(e.src) } else { st.seams },
                ..st
            }
        } else {
            st
        },
        Direction::Out => match e.dst {
            Some(c) => if !seen(st.callees, c.id.0@) { BlastState { callees: st.callees.push(c), ..st } } else { st },
            None => st,
        },
        Direction::Both => st,
    }
}

pub open spec fn blast_fold(st: BlastState, es: Seq<NeighborEdge>) -> BlastState
    decreases es.len(),
{
    if es.len() == 0 {
        st
    } else {
        blast_step(blast_fold(st, es.drop_last()), es.last())
    }
}

pub ghost struct BlastV {
    pub symbol: SymbolRecord,
    pub callers: Seq<SymbolRecord>,
    pub callees: Seq<SymbolRecord>,
    pub test_seams: Seq<SymbolRecord>,
    pub other_qname_matches: Seq<SymbolRecord>,
}

pub open spec fn blast_view(b: BlastRadius) -> BlastV {
    BlastV {
        symbol: b.symbol,
        callers: b.callers@,
        callees: b.callees@,
        test_seams: b.test_seams@,
        other_qname_matches: b.other_qname_matches@,
    }
}

/// The blast radius of the first symbol a name finds, over its edges of
/// every kind in both directions; none when the name finds nothing.
pub open spec fn blast_spec(t: IndexTables, qname: Seq<char>) -> Option<BlastV> {
    let m = qname_hits(t, qname);
    if m.len() == 0 {
        None
    } else {
        let st = blast_fold(BlastState { callers: seq![], callees: seq![], seams: seq![] },
            neighbors_spec(t, m[0].id.0@, effective_kinds(seq![]), true, true));
        Some(BlastV { symbol: m[0], callers: st.callers, callees: st.callees, test_seams: st.seams, other_qname_matches: m.drop_first() })
    }
}

/// Test callers from incoming edges, each once.
pub open spec fn seams_fold(out: Seq<SymbolRecord>, es: Seq<NeighborEdge>) -> Seq<SymbolRecord>
    decreases es.len(),
{
    if es.len() == 0 {
        out
    } else {
        let prev = seams_fold(out, es.drop_last());
        let c = es.last().src;
        if is_test_record(c) && !seen(prev, c.id.0@) { prev.push(c) } else { prev }
    }
}

/// The test callers of the first symbol a name finds; none when it finds
/// nothing.
pub open spec fn test_seams_spec(t: IndexTables, qname: Seq<char>) -> Seq<SymbolRecord> {
    let m = qname_hits(t, qname);
    if m.len() == 0 {
        seq![]
    } else {
        seams_fold(seq![], neighbors_spec(t, m[0].id.0@, effective_kinds(seq![]), false, true))
    }
}

fn is_test_exec(r: &SymbolRecord) -> (b: bool)
    ensures
        b == is_test_record(*r),
{
    is_test_symbol(r.path.as_str(), Some(r.qualified_name.as_str()))
}

impl IndexReader {
    /// Callers, callees and test seams of the first symbol `qname` finds.
    pub fn blast_radius(&self, qname: &str) -> (r: Option<BlastRadius>)
        ensures
            match r {
                Some(b) => blast_spec(self.tables, qname@) == Some(blast_view(b)),
                None => blast_spec(self.tables, qname@).is_none(),
            },
    {
        let matches = self.find_by_qname(qname);
        if matches.len() == 0 {
            return None;
        }
        let symbol = copy_record(&matches[0]);
        let mut others: Vec<SymbolRecord> = Vec::new();
        let mut k: usize = 1;
        while k < matches.len()
            invariant
                1 <= k <= matches@.len(),
                others@ == matches@.subrange(1, k as int),
            decreases matches.len() - k,
        {
            others.push(copy_record(&matches[k]));
            k = k + 1;
            assert(others@ =~= matches@.subrange(1, k as int));
        }
        assert(others@ =~= matches@.drop_first());
        let all: Vec<EdgeKind> = Vec::new();
        let edges = self.neighbors(&symbol.id, &all, Direction::Both);
        assert(all@ =~= Seq::<EdgeKind>::empty());
        let mut callers: Vec<SymbolRecord> = Vec::new();
        let mut callees: Vec<SymbolRecord> = Vec::new();
        let mut seams: Vec<SymbolRecord> = Vec::new();
        let ghost st0 = BlastState { callers: seq![], callees: seq![], seams: seq![] };
        let mut i: usize = 0;
        while i < edges.len()
            invariant
                i <= edges@.len(),
                blast_fold(st0, edges@.take(i as int)) == (BlastState { callers: callers@, callees: callees@, seams: seams@ }),
            decreases edges.len() - i,
        {
            assert(edges@.take(i + 1).drop_last() =~= edges@.take(i as int));
            assert(edges@.take(i + 1).last() == edges@[i as int]);
            let e = &edges[i];
            match e.direction {
                Direction::In => {
                    if !seen_exec(&callers, &e.src.id) {
                        if is_test_exec(&e.src) && !seen_exec(&seams, &e.src.id) {
                            seams.push(copy_record(&e.src));
                        }
                        callers.push(copy_record(&e.src));
                    }
                },
                Direction::Out => {
                    match &e.dst {
                        Some(c) => {
                            if !seen_exec(&callees, &c.id) {
                                callees.push(copy_record(c));
                            }
                        },
                        None => {},
                    }
                },
                Direction::Both => {},
            }
            i = i + 1;
        }
        assert(edges@.take(edges@.len() as int) =~= edges@);
        Some(BlastRadius { symbol, callers, callees, test_seams: seams, other_qname_matches: others })
    }

    /// The test callers of the first symbol `qname` finds, each once.
    pub fn test_seams(&self, qname: &str) -> (r: Vec<SymbolRecord>)
        ensures
            r@ == test_seams_spec(self.tables, qname@),
    {
        let matches = self.find_by_qname(qname);
        if matches.len() == 0 {
            return Vec::new();
        }
        let all: Vec<EdgeKind> = Vec::new();
        let edges = self.neighbors(&matches[0].id, &all, Direction::In);
        assert(all@ =~= Seq::<EdgeKind>::empty());
        let mut out: Vec<SymbolRecord> = Vec::new();
        let mut i: usize = 0;
        while i < edges.len()
            invariant
                i <= edges@.len(),
                seams_fold(seq![], edges@.take(i as int)) == out@,
            decreases edges.len() - i,
        {
            assert(edges@.take(i + 1).drop_last() =~= edges@.take(i as int));
            assert(edges@.take(i + 1).last() == edges@[i as int]);
            let c = &edges[i].src;
            if is_test_exec(c) && !seen_exec(&out, &c.id) {
                out.push(copy_record(c));
            }
            i = i + 1;
        }
        assert(edges@.take(edges@.len() as int) =~= edges@);
        out
    }
}

/// A symbol present in both indexes whose span changed.
#[derive(Debug, Clone, PartialEq, Eq)]
pub struct ModifiedSymbol {
    pub qualified_name: String,
    pub path: String,
    pub base: SymbolRecord,
    pub head: SymbolRecord,
}

/// Symbols only in head, only in base, and in both with a changed span.
#[derive(Debug, Clone, PartialEq, Eq)]
pub struct SymbolDiff {
    pub added: Vec<SymbolRecord>,
    pub removed: Vec<SymbolRecord>,
    pub modified: Vec<ModifiedSymbol>,
}

/// Every symbol with a file row, by path then anchor start byte.
pub open spec fn all_records(t: IndexTables) -> Seq<SymbolRecord> {
    records_at(t.files@, t.symbols@, sorted_positions(path_start_keys(t.files@, t.symbols@), |i: int| record_for(t.files@, t.symbols@[i]).is_some()))
}

/// Same qualified name, path and signature.
pub open spec fn same_key(a: SymbolRecord, b: SymbolRecord) -> bool {
    a.qualified_name@ == b.qualified_name@ && a.path@ == b.path@ && a.signature@ == b.signature@
}

/// The first base symbol at or after `p` not yet matched that has the
/// key of `h`.
pub open spec fn first_free_from(base: Seq<SymbolRecord>, used: Seq<bool>, h: SymbolRecord, p: int) -> Option<int>
    decreases base.len() - p,
{
    if p >= base.len() || p < 0 {
        None
    } else if !used[p] && same_key(base[p], h) {
        Some(p)
    } else {
        first_free_from(base, used, h, p + 1)
    }
}

pub ghost struct DiffState {
    pub used: Seq<bool>,
    pub added: Seq<SymbolRecord>,
    pub modified: Seq<ModifiedSymbol>,
}

/// One head symbol: matched to the first free base symbol of its key
/// (modified when the spans differ), or added.
pub open spec fn diff_step(base: Seq<SymbolRecord>, st: DiffState, h: SymbolRecord) -> DiffState {
    match first_free_from(base, st.used, h, 0) {
        None => DiffState { added: st.added.push(h), ..st },
        Some(p) => DiffState {
            used: st.used.update(p, true),
            modified: if base[p].anchor != h.anchor {
                st.modified.push(ModifiedSymbol { qualified_name: h.qualified_name, path: h.path, base: base[p], head: h })
            } else {
                st.modified
            },
            ..st
        },
    }
}

pub open spec fn diff_fold(base: Seq<SymbolRecord>, st: DiffState, heads: Seq<SymbolRecord>) -> DiffState
    decreases heads.len(),
{
    if heads.len() == 0 {
        st
    } else {
        diff_step(base, diff_fold(base, st, heads.drop_last()), heads.last())
    }
}

/// The base symbols never matched, in base order.
pub open spec fn unmatched(base: Seq<SymbolRecord>, used: Seq<bool>) -> Seq<SymbolRecord>
    decreases base.len(),
{
    if base.len() == 0 {
        seq![]
    } else {
        unmatched(base.drop_last(), used) + if !used[base.len() - 1] { seq![base.last()] } else { seq![] }
    }
}

pub ghost struct DiffV {
    pub added: Seq<SymbolRecord>,
    pub removed: Seq<SymbolRecord>,
    pub modified: Seq<ModifiedSymbol>,
}

/// The structural diff of two indexes: head symbols in order are matched
/// to base symbols of the same qualified name, path and signature, one to
/// one, first come first matched.
pub open spec fn diff_spec(base: IndexTables, head: IndexTables) -> DiffV {
    let b = all_records(base);
    let st = diff_fold(b, DiffState { used: Seq::new(b.len(), |i: int| false), added: seq![], modified: seq![] }, all_records(head));
    DiffV { added: st.added, removed: unmatched(b, st.used), modified: st.modified }
}

fn same_key_exec(a: &SymbolRecord, b: &SymbolRecord) -> (r: bool)
    ensures
        r == same_key(*a, *b),
{
    let aq = chars_of(a.qualified_name.as_str());
    let bq = chars_of(b.qualified_name.as_str());
    let ap = chars_of(a.path.as_str());
    let bp = chars_of(b.path.as_str());
    let as_ = chars_of(a.signature.as_str());
    let bs = chars_of(b.signature.as_str());
    chars_eq(aq.as_slice(), bq.as_slice()) && chars_eq(ap.as_slice(), bp.as_slice()) && chars_eq(as_.as_slice(), bs.as_slice())
}

proof fn lemma_first_free_skip(base: Seq<SymbolRecord>, used: Seq<bool>, h: SymbolRecord, p: int)
    requires
        0 <= p,
        forall|q: int| 0 <= q < p && q < base.len() ==> used[q] || !same_key(base[q], h),
    ensures
        first_free_from(base, used, h, 0) == first_free_from(base, used, h, p),
    decreases p,
{
    if p > 0 {
        lemma_first_free_skip(base, used, h, p - 1);
        if p - 1 < base.len() {
            assert(first_free_from(base, used, h, p - 1) == first_free_from(base, used, h, p));
        }
    }
}

fn find_free(b: &Vec<SymbolRecord>, used: &Vec<bool>, h: &SymbolRecord) -> (r: Option<usize>)
    requires
        used@.len() == b@.len(),
    ensures
        r.is_some() ==> r.unwrap() < b@.len(),
        match r {
            Some(p) => first_free_from(b@, used@, *h, 0) == Some(p as int),
            None => first_free_from(b@, used@, *h, 0).is_none(),
        },
{
    let mut p: usize = 0;
    while p < b.len()
        invariant
            p <= b@.len(),
            used@.len() == b@.len(),
            forall|q: int| 0 <= q < p ==> used@[q] || !same_key(b@[q], *h),
        decreases b.len() - p,
    {
        if !used[p] && same_key_exec(&b[p], h) {
            proof {
                lemma_first_free_skip(b@, used@, *h, p as int);
            }
            return Some(p);
        }
        p = p + 1;
    }
    proof {
        lemma_first_free_skip(b@, used@, *h, p as int);
    }
    None
}

/// The structural diff of two indexes.
pub fn symbol_diff(base: &IndexReader, head: &IndexReader) -> (r: SymbolDiff)
    ensures
        (DiffV { added: r.added@, removed: r.removed@, modified: r.modified@ }) == diff_spec(base.tables, head.tables),
{
    let b = base.all_symbols();
    let h = head.all_symbols();
    let ghost bs = b@;
    let mut used: Vec<bool> = Vec::new();
    let mut x: usize = 0;
    while x < b.len()
        invariant
            x <= b@.len(),
            used@ == Seq::new(x as nat, |i: int| false),
        decreases b.len() - x,
    {
        used.push(false);
        x = x + 1;
        assert(used@ =~= Seq::new(x as nat, |i: int| false));
    }
    let ghost st0 = DiffState { used: used@, added: seq![], modified: seq![] };
    let mut added: Vec<SymbolRecord> = Vec::new();
    let mut modified: Vec<ModifiedSymbol> = Vec::new();
    let mut i: usize = 0;
    while i < h.len()
        invariant
            i <= h@.len(),
            bs == b@,
            used@.len() == b@.len(),
            diff_fold(bs, st0, h@.take(i as int)) == (DiffState { used: used@, added: added@, modified: modified@ }),
        decreases h.len() - i,
    {
        assert(h@.take(i + 1).drop_last() =~= h@.take(i as int));
        assert(h@.take(i + 1).last() == h@[i as int]);
        let hs = &h[i];
        let found = find_free(&b, &used, hs);
        match found {
            None => {
                added.push(copy_record(hs));
            },
            Some(q) => {
                used.set(q, true);
                if b[q].anchor != hs.anchor {
                    modified.push(ModifiedSymbol {
                        qualified_name: copy_string(&hs.qualified_name),
                        path: copy_string(&hs.path),
                        base: copy_record(&b[q]),
                        head: copy_record(hs),
                    });
                }
            },
        }
        i = i + 1;
    }
    assert(h@.take(h@.len() as int) =~= h@);
    let mut removed: Vec<SymbolRecord> = Vec::new();
    let mut y: usize = 0;
    while y < b.len()
        invariant
            y <= b@.len(),
            used@.len() == b@.len(),
            removed@ == unmatched(b@.take(y as int), used@),
        decreases b.len() - y,
    {
        assert(b@.take(y + 1).drop_last() =~= b@.take(y as int));
        if !used[y] {
            removed.push(copy_record(&b[y]));
        }
        y = y + 1;
        assert(removed@ =~= unmatched(b@.take(y as int), used@));
    }
    assert(b@.take(b@.len() as int) =~= b@);
    SymbolDiff { added, removed, modified }
}

} // verus!

verus! {

use crate::query::findings_result;

/// One query against an index.
#[derive(Debug, Clone, PartialEq, Eq)]
pub enum QueryRequest {
    LookupSymbol { id: SymbolId },
    Neighbors { id: SymbolId, kinds: Vec<EdgeKind>, direction: Direction },
    Expand { id: SymbolId, depth: u32, kinds: Vec<EdgeKind>, direction: Direction },
    Findings { filter: FindingFilter },
    SymbolsInFile { path: String },
    EdgesByFile { path: String, kinds: Vec<EdgeKind>, direction: Direction },
    UnresolvedCallers { names: Vec<String>, kinds: Vec<EdgeKind> },
    ImportersOfFile { path: String },
    FilesAtPrefix { prefix: String },
    Metadata,
    FindByQname { qname: String },
    BlastRadius { qname: String },
    TestSeams { qname: String },
}

/// The answer to a query, of the query's kind.
#[derive(Debug, Clone, PartialEq, Eq)]
pub enum QueryResult {
    LookupSymbol(Option<SymbolRecord>),
    Neighbors(Vec<NeighborEdge>),
    Expand(Subgraph),
    Findings(Vec<FindingRecord>),
    SymbolsInFile(Vec<SymbolRecord>),
    EdgesByFile(Vec<FileEdgeBundle>),
    UnresolvedCallers(Vec<UnresolvedCallerHit>),
    ImportersOfFile(Vec<SymbolRecord>),
    FilesAtPrefix(Vec<FileRecordOut>),
    Metadata(MetadataRecord),
    FindByQname(Vec<SymbolRecord>),
    BlastRadius(Option<BlastRadius>),
    TestSeams(Vec<SymbolRecord>),
}

impl IndexReader {
    /// Answers a query with the method of its kind.
    pub fn run(&self, request: &QueryRequest) -> (r: QueryResult)
        ensures
            match *request {
                QueryRequest::LookupSymbol { id } =>
                    r matches QueryResult::LookupSymbol(x) && x == fetch_symbol_spec(self.tables, id.0@),
                QueryRequest::Neighbors { id, kinds, direction } =>
                    r matches QueryResult::Neighbors(v)
                        && v@ == neighbors_spec(self.tables, id.0@, effective_kinds(kinds@), direction.wants_out(), direction.wants_in()),
                QueryRequest::Expand { id, depth, kinds, direction } =>
                    r matches QueryResult::Expand(g)
                        && (g.nodes@, g.edges@, g.max_depth_reached) == expand_spec(self.tables, id.0@, depth, kinds@, direction),
                QueryRequest::Findings { filter } =>
                    r matches QueryResult::Findings(v) && v@ == findings_result(self.tables, filter),
                QueryRequest::SymbolsInFile { path } =>
                    r matches QueryResult::SymbolsInFile(v) && v@ == file_symbols(self.tables, path@),
                QueryRequest::EdgesByFile { path, kinds, direction } =>
                    r matches QueryResult::EdgesByFile(v)
                        && v@.map_values(|b: FileEdgeBundle| bundle_view(b)) == file_bundles(self.tables, path@, kinds@, direction),
                QueryRequest::UnresolvedCallers { names, kinds } =>
                    r matches QueryResult::UnresolvedCallers(v)
                        && v@ == unresolved_hits(self.tables, names@.map_values(|s: String| s@), kinds@),
                QueryRequest::ImportersOfFile { path } =>
                    r matches QueryResult::ImportersOfFile(v) && v@ == importers(self.tables, path@),
                QueryRequest::FilesAtPrefix { prefix } =>
                    r matches QueryResult::FilesAtPrefix(v) && v@ == files_under(self.tables.files@, prefix@),
                QueryRequest::Metadata =>
                    r matches QueryResult::Metadata(m) && metadata_record_view(m) == metadata_fold(self.tables.metadata@),
                QueryRequest::FindByQname { qname } =>
                    r matches QueryResult::FindByQname(v) && v@ == qname_hits(self.tables, qname@),
                QueryRequest::BlastRadius { qname } =>
                    r matches QueryResult::BlastRadius(b) && match b {
                        Some(x) => blast_spec(self.tables, qname@) == Some(blast_view(x)),
                        None => blast_spec(self.tables, qname@).is_none(),
                    },
                QueryRequest::TestSeams { qname } =>
                    r matches QueryResult::TestSeams(v) && v@ == test_seams_spec(self.tables, qname@),
            },
    {
        match request {
            QueryRequest::LookupSymbol { id } => QueryResult::LookupSymbol(self.lookup_symbol(id)),
            QueryRequest::Neighbors { id, kinds, direction } => QueryResult::Neighbors(self.neighbors(id, kinds, *direction)),
            QueryRequest::Expand { id, depth, kinds, direction } => QueryResult::Expand(self.expand(id, *depth, kinds, *direction)),
            QueryRequest::Findings { filter } => {
                let v = self.findings(filter);
                assert(v@ =~= findings_result(self.tables, *filter));
                QueryResult::Findings(v)
            },
            QueryRequest::SymbolsInFile { path } => QueryResult::SymbolsInFile(self.symbols_in_file(path.as_str())),
            QueryRequest::EdgesByFile { path, kinds, direction } =>
                QueryResult::EdgesByFile(self.edges_by_file(path.as_str(), kinds, *direction)),
            QueryRequest::UnresolvedCallers { names, kinds } => QueryResult::UnresolvedCallers(self.unresolved_callers(names, kinds)),
            QueryRequest::ImportersOfFile { path } => QueryResult::ImportersOfFile(self.importers_of_file(path.as_str())),
            QueryRequest::FilesAtPrefix { prefix } => QueryResult::FilesAtPrefix(self.files_at_prefix(prefix.as_str())),
            QueryRequest::Metadata => QueryResult::Metadata(self.metadata()),
            QueryRequest::FindByQname { qname } => QueryResult::FindByQname(self.find_by_qname(qname.as_str())),
            QueryRequest::BlastRadius { qname } => QueryResult::BlastRadius(self.blast_radius(qname.as_str())),
            QueryRequest::TestSeams { qname } => QueryResult::TestSeams(self.test_seams(qname.as_str())),
        }
    }
}


// ---------------------------------------------------------------------
// Laws of expansion.

/// No symbol id occurs twice.
pub open spec fn ids_distinct(vs: Seq<SymbolRecord>) -> bool {
    forall|a: int, b: int| 0 <= a < b < vs.len() ==> vs[a].id.0@ != vs[b].id.0@
}

proof fn lemma_visit_edges_distinct(st: ExpandState, es: Seq<NeighborEdge>)
    requires
        ids_distinct(st.visited),
    ensures
        ids_distinct(visit_edges(st, es).visited),
    decreases es.len(),
{
    if es.len() > 0 {
        lemma_visit_edges_distinct(st, es.drop_last());
        let s0 = visit_edges(st, es.drop_last());
        let e = es.last();
        let s1 = match e.dst {
            Some(d) => if !seen(s0.visited, d.id.0@) {
                ExpandState { visited: s0.visited.push(d), next: s0.next.push(d.id.0@), ..s0 }
            } else {
                s0
            },
            None => s0,
        };
        assert(ids_distinct(s1.visited)) by {
            match e.dst {
                Some(d) => if !seen(s0.visited, d.id.0@) {
                    assert forall|a: int| 0 <= a < s0.visited.len() implies s0.visited[a].id.0@ != d.id.0@ by {
                        if s0.visited[a].id.0@ == d.id.0@ {
                            assert(seen(s0.visited, d.id.0@));
                        }
                    }
                },
                None => {},
            }
        }
        if !seen(s1.visited, e.src.id.0@) {
            assert forall|a: int| 0 <= a < s1.visited.len() implies s1.visited[a].id.0@ != e.src.id.0@ by {
                if s1.visited[a].id.0@ == e.src.id.0@ {
                    assert(seen(s1.visited, e.src.id.0@));
                }
            }
        }
    }
}

proof fn lemma_visit_frontier_distinct(t: IndexTables, st: ExpandState, frontier: Seq<Seq<char>>, kinds: Seq<crate::model::EdgeKind>, wo: bool, wi: bool)
    requires
        ids_distinct(st.visited),
    ensures
        ids_distinct(visit_frontier(t, st, frontier, kinds, wo, wi).visited),
    decreases frontier.len(),
{
    if frontier.len() > 0 {
        lemma_visit_frontier_distinct(t, st, frontier.drop_last(), kinds, wo, wi);
        lemma_visit_edges_distinct(visit_frontier(t, st, frontier.drop_last(), kinds, wo, wi), neighbors_spec(t, frontier.last(), kinds, wo, wi));
    }
}

proof fn lemma_rounds_bounded(
    t: IndexTables,
    visited: Seq<SymbolRecord>,
    edges: Seq<NeighborEdge>,
    frontier: Seq<Seq<char>>,
    reached: u32,
    d: int,
    depth: int,
    kinds: Seq<crate::model::EdgeKind>,
    wo: bool,
    wi: bool,
)
    requires
        1 <= d,
        reached <= depth,
        depth <= u32::MAX,
        ids_distinct(visited),
    ensures
        expand_rounds(t, visited, edges, frontier, reached, d, depth, kinds, wo, wi).2 <= depth,
        ids_distinct(expand_rounds(t, visited, edges, frontier, reached, d, depth, kinds, wo, wi).0),
    decreases depth + 1 - d,
{
    if !(d > depth || frontier.len() == 0) {
        let st = visit_frontier(t, ExpandState { visited, edges, next: seq![] }, frontier, kinds, wo, wi);
        lemma_visit_frontier_distinct(t, ExpandState { visited, edges, next: seq![] }, frontier, kinds, wo, wi);
        lemma_rounds_bounded(t, st.visited, st.edges, st.next, if st.next.len() > 0 { d as u32 } else { reached }, d + 1, depth, kinds, wo, wi);
    }
}

/// Expansion stays within its bound and reaches each symbol once: the
/// deepest round reported is at most `depth`, the nodes are ordered by id
/// with no id twice, and an unknown id or depth 0 gives at most the
/// symbol itself and no edge.
pub proof fn law_expand_bounded(t: IndexTables, id: Seq<char>, depth: u32, kinds: Seq<crate::model::EdgeKind>, dir: Direction)
    ensures
        expand_spec(t, id, depth, kinds, dir).2 <= depth,
        forall|a: int, b: int| 0 <= a < b < expand_spec(t, id, depth, kinds, dir).0.len()
            ==> crate::order::text_lt(expand_spec(t, id, depth, kinds, dir).0[a].id.0@, expand_spec(t, id, depth, kinds, dir).0[b].id.0@),
        depth == 0 ==> expand_spec(t, id, depth, kinds, dir).1.len() == 0 && expand_spec(t, id, depth, kinds, dir).0.len() <= 1,
        fetch_symbol_spec(t, id).is_none() ==> expand_spec(t, id, depth, kinds, dir).0.len() == 0,
{
    match fetch_symbol_spec(t, id) {
        None => {},
        Some(a) => {
            if depth > 0 {
                let r = expand_rounds(t, seq![a], seq![], seq![a.id.0@], 0, 1, depth as int, effective_kinds(kinds), dir.wants_out(), dir.wants_in());
                lemma_rounds_bounded(t, seq![a], seq![], seq![a.id.0@], 0, 1, depth as int, effective_kinds(kinds), dir.wants_out(), dir.wants_in());
                let keys = id_keys(r.0);
                crate::order::lemma_sorted_positions_sorted(keys, |i: int| true);
                let pos = sorted_positions(keys, |i: int| true);
                let out = sort_by_id(r.0);
                assert forall|x: int, y: int| 0 <= x < y < out.len() implies crate::order::text_lt(out[x].id.0@, out[y].id.0@) by {
                    assert(crate::order::sorts_before(keys, pos[x], pos[y]));
                    assert(pos[x] != pos[y]) by {
                        if pos[x] == pos[y] {
                            crate::order::lemma_key_lt_irrefl_pub(keys[pos[x]]);
                        }
                    }
                    assert(keys[pos[x]] == seq![PartV::Text(r.0[pos[x]].id.0@)]);
                    assert(keys[pos[y]] == seq![PartV::Text(r.0[pos[y]].id.0@)]);
                    if keys[pos[x]] == keys[pos[y]] {
                        assert(r.0[pos[x]].id.0@ == r.0[pos[y]].id.0@);
                        if pos[x] < pos[y] {
                            assert(r.0[pos[x]].id.0@ != r.0[pos[y]].id.0@);
                        } else {
                            assert(r.0[pos[y]].id.0@ != r.0[pos[x]].id.0@);
                        }
                    }
                    reveal_with_fuel(crate::order::key_lt, 2);
                }
            }
        },
    }
}


// ---------------------------------------------------------------------
// Laws of the symbol diff.

/// How many base symbols are matched.
pub open spec fn count_used(used: Seq<bool>) -> nat
    decreases used.len(),
{
    if used.len() == 0 {
        0
    } else {
        count_used(used.drop_last()) + if used.last() { 1nat } else { 0nat }
    }
}

proof fn lemma_first_free_found(base: Seq<SymbolRecord>, used: Seq<bool>, h: SymbolRecord, p: int)
    requires
        0 <= p,
        used.len() == base.len(),
        first_free_from(base, used, h, p).is_some(),
    ensures
        p <= first_free_from(base, used, h, p).unwrap() < base.len(),
        !used[first_free_from(base, used, h, p).unwrap()],
        same_key(base[first_free_from(base, used, h, p).unwrap()], h),
    decreases base.len() - p,
{
    if p < base.len() && !(!used[p] && same_key(base[p], h)) {
        lemma_first_free_found(base, used, h, p + 1);
    }
}

proof fn lemma_count_update(used: Seq<bool>, q: int)
    requires
        0 <= q < used.len(),
        !used[q],
    ensures
        count_used(used.update(q, true)) == count_used(used) + 1,
    decreases used.len(),
{
    let u2 = used.update(q, true);
    if q == used.len() - 1 {
        assert(u2.drop_last() =~= used.drop_last());
    } else {
        lemma_count_update(used.drop_last(), q);
        assert(u2.drop_last() =~= used.drop_last().update(q, true));
    }
}

proof fn lemma_unmatched_len(base: Seq<SymbolRecord>, used: Seq<bool>)
    requires
        used.len() == base.len(),
    ensures
        unmatched(base, used).len() + count_used(used) == base.len(),
    decreases base.len(),
{
    if base.len() > 0 {
        lemma_unmatched_prefix(base.drop_last(), used, used.drop_last());
        lemma_unmatched_len(base.drop_last(), used.drop_last());
    }
}

proof fn lemma_unmatched_prefix(base: Seq<SymbolRecord>, used: Seq<bool>, used2: Seq<bool>)
    requires
        base.len() <= used.len(),
        base.len() <= used2.len(),
        forall|i: int| 0 <= i < base.len() ==> used[i] == used2[i],
    ensures
        unmatched(base, used) == unmatched(base, used2),
    decreases base.len(),
{
    if base.len() > 0 {
        lemma_unmatched_prefix(base.drop_last(), used, used2);
    }
}

proof fn lemma_diff_fold(base: Seq<SymbolRecord>, st: DiffState, heads: Seq<SymbolRecord>)
    requires
        st.used.len() == base.len(),
    ensures
        diff_fold(base, st, heads).used.len() == base.len(),
        diff_fold(base, st, heads).added.len() + count_used(diff_fold(base, st, heads).used)
            == st.added.len() + count_used(st.used) + heads.len(),
        forall|m: int| #![trigger diff_fold(base, st, heads).modified[m]]
            st.modified.len() <= m < diff_fold(base, st, heads).modified.len()
            ==> same_key(diff_fold(base, st, heads).modified[m].base, diff_fold(base, st, heads).modified[m].head)
                && diff_fold(base, st, heads).modified[m].base.anchor != diff_fold(base, st, heads).modified[m].head.anchor,
        forall|m: int| #![trigger diff_fold(base, st, heads).modified[m]]
            st.modified.len() <= m < diff_fold(base, st, heads).modified.len()
            ==> base.contains(diff_fold(base, st, heads).modified[m].base)
                && heads.contains(diff_fold(base, st, heads).modified[m].head)
                && diff_fold(base, st, heads).modified[m].qualified_name == diff_fold(base, st, heads).modified[m].head.qualified_name
                && diff_fold(base, st, heads).modified[m].path == diff_fold(base, st, heads).modified[m].head.path,
        diff_fold(base, st, heads).modified.len() >= st.modified.len(),
        forall|m: int| 0 <= m < st.modified.len() ==> #[trigger] diff_fold(base, st, heads).modified[m] == st.modified[m],
    decreases heads.len(),
{
    if heads.len() > 0 {
        lemma_diff_fold(base, st, heads.drop_last());
        let prev = diff_fold(base, st, heads.drop_last());
        let h = heads.last();
        let cur = diff_fold(base, st, heads);
        assert forall|m: int| st.modified.len() <= m < prev.modified.len()
            implies heads.contains(#[trigger] prev.modified[m].head) by {
            assert(heads.drop_last().contains(prev.modified[m].head));
            let j = choose|j: int| 0 <= j < heads.drop_last().len() && heads.drop_last()[j] == prev.modified[m].head;
            assert(heads[j] == heads.drop_last()[j]);
        }
        assert(heads[heads.len() - 1] == h);
        match first_free_from(base, prev.used, h, 0) {
            None => {},
            Some(p) => {
                lemma_first_free_found(base, prev.used, h, 0);
                lemma_count_update(prev.used, p);
                assert(base[p] == base[p]);
                if base[p].anchor != h.anchor {
                    assert(cur.modified[cur.modified.len() - 1].base == base[p]);
                    assert(base.contains(base[p]));
                }
            },
        }
    }
}

/// The diff matches head symbols to base symbols one to one: as many
/// symbols are added as the head has more than the base, net of those
/// removed; and each modified pair shares qualified name, path and
/// signature but not its span.
pub proof fn law_diff_one_to_one(base: IndexTables, head: IndexTables)
    ensures
        diff_spec(base, head).added.len() + all_records(base).len()
            == diff_spec(base, head).removed.len() + all_records(head).len(),
        forall|m: int| 0 <= m < diff_spec(base, head).modified.len()
            ==> same_key((#[trigger] diff_spec(base, head).modified[m]).base, diff_spec(base, head).modified[m].head)
                && diff_spec(base, head).modified[m].base.anchor != diff_spec(base, head).modified[m].head.anchor,
{
    let b = all_records(base);
    let st0 = DiffState { used: Seq::new(b.len(), |i: int| false), added: seq![], modified: seq![] };
    assert(count_used(st0.used) == 0) by {
        lemma_count_zero(st0.used);
    }
    lemma_diff_fold(b, st0, all_records(head));
    let st = diff_fold(b, st0, all_records(head));
    lemma_unmatched_len(b, st.used);
}

proof fn lemma_count_zero(used: Seq<bool>)
    requires
        forall|i: int| 0 <= i < used.len() ==> !used[i],
    ensures
        count_used(used) == 0,
    decreases used.len(),
{
    if used.len() > 0 {
        lemma_count_zero(used.drop_last());
    }
}


/// Every edge of the list follows direction `dir`, and its source is the
/// record that its id fetches.
pub open spec fn fetched_sources(t: IndexTables, es: Seq<NeighborEdge>, dir: Direction) -> bool {
    forall|i: int| 0 <= i < es.len() ==> (#[trigger] es[i]).direction == dir
        && fetch_symbol_spec(t, es[i].src.id.0@) == Some(es[i].src)
}

proof fn lemma_fetched_id(t: IndexTables, id: Seq<char>)
    ensures
        fetch_symbol_spec(t, id) is Some ==> fetch_symbol_spec(t, id).unwrap().id.0@ == id,
{
    if exists|j: int| crate::query::symbol_at(t.symbols@, id, j) {
        let j = choose|j: int| crate::query::symbol_at(t.symbols@, id, j);
        assert(crate::query::symbol_at(t.symbols@, id, j));
    }
}

proof fn lemma_neighbor_list_sources(t: IndexTables, pos: Seq<int>, dir: Direction)
    ensures
        fetched_sources(t, crate::query::neighbor_list(t, pos, dir), dir),
    decreases pos.len(),
{
    if pos.len() > 0 {
        lemma_neighbor_list_sources(t, pos.drop_last(), dir);
        let e = t.edges@[pos.last()];
        lemma_fetched_id(t, e.src.0@);
    }
}

proof fn lemma_blast_fold_concat(st: BlastState, a: Seq<NeighborEdge>, b: Seq<NeighborEdge>)
    ensures
        blast_fold(st, a + b) == blast_fold(blast_fold(st, a), b),
    decreases b.len(),
{
    if b.len() == 0 {
        assert(a + b =~= a);
    } else {
        assert((a + b).drop_last() =~= a + b.drop_last());
        assert((a + b).last() == b.last());
        lemma_blast_fold_concat(st, a, b.drop_last());
    }
}

proof fn lemma_blast_fold_outgoing(st: BlastState, es: Seq<NeighborEdge>)
    requires
        forall|i: int| 0 <= i < es.len() ==> (#[trigger] es[i]).direction == Direction::Out,
    ensures
        blast_fold(st, es).callers == st.callers,
        blast_fold(st, es).seams == st.seams,
    decreases es.len(),
{
    if es.len() > 0 {
        assert(es.last() == es[es.len() - 1]);
        lemma_blast_fold_outgoing(st, es.drop_last());
    }
}

/// Folding incoming edges from no callers and no seams: the seams are the
/// test sources in first-seen order, each among the callers, and each
/// caller that is a test is a seam.
proof fn lemma_blast_fold_incoming(t: IndexTables, st: BlastState, es: Seq<NeighborEdge>)
    requires
        st.callers.len() == 0,
        st.seams.len() == 0,
        fetched_sources(t, es, Direction::In),
    ensures
        blast_fold(st, es).seams == seams_fold(seq![], es),
        forall|k: int| 0 <= k < blast_fold(st, es).seams.len()
            ==> blast_fold(st, es).callers.contains(#[trigger] blast_fold(st, es).seams[k]),
        forall|k: int| 0 <= k < blast_fold(st, es).callers.len()
            ==> fetch_symbol_spec(t, (#[trigger] blast_fold(st, es).callers[k]).id.0@) == Some(blast_fold(st, es).callers[k])
                && (is_test_record(blast_fold(st, es).callers[k]) ==> seen(blast_fold(st, es).seams, blast_fold(st, es).callers[k].id.0@)),
    decreases es.len(),
{
    if es.len() > 0 {
        let pre = es.drop_last();
        assert(fetched_sources(t, pre, Direction::In)) by {
            assert forall|i: int| 0 <= i < pre.len() implies (#[trigger] pre[i]).direction == Direction::In
                && fetch_symbol_spec(t, pre[i].src.id.0@) == Some(pre[i].src) by {
                assert(pre[i] == es[i]);
            }
        }
        lemma_blast_fold_incoming(t, st, pre);
        let b0 = blast_fold(st, pre);
        let e = es.last();
        assert(e == es[es.len() - 1]);
        let c = e.src;
        let b1 = blast_fold(st, es);
        assert(b1 == blast_step(b0, e));
        if !seen(b0.callers, c.id.0@) {
            assert(!seen(b0.seams, c.id.0@)) by {
                if seen(b0.seams, c.id.0@) {
                    let k = choose|k: int| 0 <= k < b0.seams.len() && (#[trigger] b0.seams[k]).id.0@ == c.id.0@;
                    assert(b0.callers.contains(b0.seams[k]));
                    let q = choose|q: int| 0 <= q < b0.callers.len() && b0.callers[q] == b0.seams[k];
                    assert(b0.callers[q].id.0@ == c.id.0@);
                }
            }
            assert forall|k: int| 0 <= k < b1.seams.len() implies b1.callers.contains(#[trigger] b1.seams[k]) by {
                if k < b0.seams.len() {
                    assert(b1.seams[k] == b0.seams[k]);
                    let q = choose|q: int| 0 <= q < b0.callers.len() && b0.callers[q] == b0.seams[k];
                    assert(b1.callers[q] == b0.callers[q]);
                } else {
                    assert(b1.callers[b1.callers.len() - 1] == c);
                }
            }
            assert forall|k: int| 0 <= k < b1.callers.len()
                implies fetch_symbol_spec(t, (#[trigger] b1.callers[k]).id.0@) == Some(b1.callers[k])
                    && (is_test_record(b1.callers[k]) ==> seen(b1.seams, b1.callers[k].id.0@)) by {
                if k < b0.callers.len() {
                    assert(b1.callers[k] == b0.callers[k]);
                    if is_test_record(b1.callers[k]) {
                        let w = choose|w: int| 0 <= w < b0.seams.len() && (#[trigger] b0.seams[w]).id.0@ == b0.callers[k].id.0@;
                        assert(b1.seams[w] == b0.seams[w]);
                    }
                } else {
                    if is_test_record(c) {
                        assert(b1.seams[b1.seams.len() - 1] == c);
                    }
                }
            }
        } else {
            let q = choose|q: int| 0 <= q < b0.callers.len() && (#[trigger] b0.callers[q]).id.0@ == c.id.0@;
            assert(fetch_symbol_spec(t, b0.callers[q].id.0@) == Some(b0.callers[q]));
            assert(b0.callers[q] == c);
        }
    }
}

/// The outgoing part of a neighbour list.
pub open spec fn outgoing_part(t: IndexTables, id: Seq<char>, kinds: Seq<crate::model::EdgeKind>, want_out: bool) -> Seq<NeighborEdge> {
    crate::query::neighbor_list(t, sorted_positions(crate::query::edge_keys(t.edges@),
        |i: int| want_out && crate::query::edge_picked(t.edges@[i], id, kinds, true)), Direction::Out)
}

/// The incoming part of a neighbour list.
pub open spec fn incoming_part(t: IndexTables, id: Seq<char>, kinds: Seq<crate::model::EdgeKind>, want_in: bool) -> Seq<NeighborEdge> {
    crate::query::neighbor_list(t, sorted_positions(crate::query::edge_keys(t.edges@),
        |i: int| want_in && crate::query::edge_picked(t.edges@[i], id, kinds, false)), Direction::In)
}

proof fn lemma_neighbor_parts(t: IndexTables, id: Seq<char>, kinds: Seq<crate::model::EdgeKind>, want_out: bool, want_in: bool)
    ensures
        neighbors_spec(t, id, kinds, want_out, want_in) == outgoing_part(t, id, kinds, want_out) + incoming_part(t, id, kinds, want_in),
        fetched_sources(t, outgoing_part(t, id, kinds, want_out), Direction::Out),
        fetched_sources(t, incoming_part(t, id, kinds, want_in), Direction::In),
        !want_out ==> outgoing_part(t, id, kinds, want_out).len() == 0,
        !want_in ==> incoming_part(t, id, kinds, want_in).len() == 0,
{
    let keys = crate::query::edge_keys(t.edges@);
    let sel_out = |i: int| want_out && crate::query::edge_picked(t.edges@[i], id, kinds, true);
    let sel_in = |i: int| want_in && crate::query::edge_picked(t.edges@[i], id, kinds, false);
    lemma_neighbor_list_sources(t, sorted_positions(keys, sel_out), Direction::Out);
    lemma_neighbor_list_sources(t, sorted_positions(keys, sel_in), Direction::In);
    if !want_out {
        crate::order::lemma_sorted_positions_sorted(keys, sel_out);
        let p = sorted_positions(keys, sel_out);
        if p.len() > 0 {
            assert(sel_out(p[0]));
        }
        assert(p =~= seq![]);
    }
    if !want_in {
        crate::order::lemma_sorted_positions_sorted(keys, sel_in);
        let p = sorted_positions(keys, sel_in);
        if p.len() > 0 {
            assert(sel_in(p[0]));
        }
        assert(p =~= seq![]);
    }
}

/// The test seams that the standalone lookup returns are exactly those of
/// the blast radius of the same name (none when the name finds nothing),
/// and every test seam of a blast radius is one of its callers.
pub proof fn law_blast_test_seams(t: IndexTables, qname: Seq<char>)
    ensures
        match blast_spec(t, qname) {
            Some(b) => b.test_seams == test_seams_spec(t, qname)
                && forall|k: int| 0 <= k < b.test_seams.len() ==> b.callers.contains(#[trigger] b.test_seams[k]),
            None => test_seams_spec(t, qname).len() == 0,
        },
{
    let m = crate::query_lookup::qname_hits(t, qname);
    if m.len() > 0 {
        let id = m[0].id.0@;
        let kinds = effective_kinds(seq![]);
        lemma_neighbor_parts(t, id, kinds, true, true);
        lemma_neighbor_parts(t, id, kinds, false, true);
        let outs = outgoing_part(t, id, kinds, true);
        let ins = incoming_part(t, id, kinds, true);
        assert(outgoing_part(t, id, kinds, false) + ins =~= ins);
        let st0 = BlastState { callers: seq![], callees: seq![], seams: seq![] };
        lemma_blast_fold_concat(st0, outs, ins);
        assert forall|i: int| 0 <= i < outs.len() implies (#[trigger] outs[i]).direction == Direction::Out by {}
        lemma_blast_fold_outgoing(st0, outs);
        lemma_blast_fold_incoming(t, blast_fold(st0, outs), ins);
    }
}


/// The record is the one its id fetches from the index.
pub open spec fn from_index(t: IndexTables, r: SymbolRecord) -> bool {
    fetch_symbol_spec(t, r.id.0@) == Some(r)
}

/// Both ends of the edge, where present, are records of the index.
pub open spec fn edge_from_index(t: IndexTables, e: NeighborEdge) -> bool {
    &&& from_index(t, e.src)
    &&& match e.dst {
        Some(d) => from_index(t, d),
        None => true,
    }
}

proof fn lemma_neighbor_list_from_index(t: IndexTables, pos: Seq<int>, dir: Direction)
    ensures
        forall|i: int| 0 <= i < crate::query::neighbor_list(t, pos, dir).len()
            ==> edge_from_index(t, #[trigger] crate::query::neighbor_list(t, pos, dir)[i]),
    decreases pos.len(),
{
    if pos.len() > 0 {
        lemma_neighbor_list_from_index(t, pos.drop_last(), dir);
        let e = t.edges@[pos.last()];
        lemma_fetched_id(t, e.src.0@);
        match e.dst {
            Some(d) => lemma_fetched_id(t, d.0@),
            None => {},
        }
        let rest = crate::query::neighbor_list(t, pos.drop_last(), dir);
        let all = crate::query::neighbor_list(t, pos, dir);
        assert forall|i: int| 0 <= i < all.len() implies edge_from_index(t, #[trigger] all[i]) by {
            if i < rest.len() {
                assert(all[i] == rest[i]);
            }
        }
    }
}

proof fn lemma_neighbors_from_index(t: IndexTables, id: Seq<char>, kinds: Seq<crate::model::EdgeKind>, wo: bool, wi: bool)
    ensures
        forall|i: int| 0 <= i < neighbors_spec(t, id, kinds, wo, wi).len()
            ==> edge_from_index(t, #[trigger] neighbors_spec(t, id, kinds, wo, wi)[i]),
{
    lemma_neighbor_parts(t, id, kinds, wo, wi);
    let keys = crate::query::edge_keys(t.edges@);
    lemma_neighbor_list_from_index(t, sorted_positions(keys, |i: int| wo && crate::query::edge_picked(t.edges@[i], id, kinds, true)), Direction::Out);
    lemma_neighbor_list_from_index(t, sorted_positions(keys, |i: int| wi && crate::query::edge_picked(t.edges@[i], id, kinds, false)), Direction::In);
    let o = outgoing_part(t, id, kinds, wo);
    let n = incoming_part(t, id, kinds, wi);
    assert forall|i: int| 0 <= i < (o + n).len() implies edge_from_index(t, #[trigger] (o + n)[i]) by {
        if i < o.len() {
            assert((o + n)[i] == o[i]);
        } else {
            assert((o + n)[i] == n[i - o.len()]);
        }
    }
}

/// Everything an expansion state holds comes from the index.
pub open spec fn state_from_index(t: IndexTables, visited: Seq<SymbolRecord>, edges: Seq<NeighborEdge>) -> bool {
    &&& forall|i: int| 0 <= i < visited.len() ==> from_index(t, #[trigger] visited[i])
    &&& forall|i: int| 0 <= i < edges.len() ==> edge_from_index(t, #[trigger] edges[i])
}

proof fn lemma_visit_edges_from_index(t: IndexTables, st: ExpandState, es: Seq<NeighborEdge>)
    requires
        state_from_index(t, st.visited, st.edges),
        forall|i: int| 0 <= i < es.len() ==> edge_from_index(t, #[trigger] es[i]),
    ensures
        state_from_index(t, visit_edges(st, es).visited, visit_edges(st, es).edges),
    decreases es.len(),
{
    if es.len() > 0 {
        let pre = es.drop_last();
        assert forall|i: int| 0 <= i < pre.len() implies edge_from_index(t, #[trigger] pre[i]) by {
            assert(pre[i] == es[i]);
        }
        lemma_visit_edges_from_index(t, st, pre);
        let e = es.last();
        assert(edge_from_index(t, es[es.len() - 1]));
        let s0 = visit_edges(st, pre);
        let s2 = visit_edge(s0, e);
        assert forall|i: int| 0 <= i < s2.visited.len() implies from_index(t, #[trigger] s2.visited[i]) by {
            if i >= s0.visited.len() {
                match e.dst {
                    Some(d) => {},
                    None => {},
                }
            }
        }
        assert forall|i: int| 0 <= i < s2.edges.len() implies edge_from_index(t, #[trigger] s2.edges[i]) by {}
    }
}

proof fn lemma_visit_frontier_from_index(t: IndexTables, st: ExpandState, frontier: Seq<Seq<char>>, kinds: Seq<crate::model::EdgeKind>, wo: bool, wi: bool)
    requires
        state_from_index(t, st.visited, st.edges),
    ensures
        state_from_index(t, visit_frontier(t, st, frontier, kinds, wo, wi).visited, visit_frontier(t, st, frontier, kinds, wo, wi).edges),
    decreases frontier.len(),
{
    if frontier.len() > 0 {
        lemma_visit_frontier_from_index(t, st, frontier.drop_last(), kinds, wo, wi);
        lemma_neighbors_from_index(t, frontier.last(), kinds, wo, wi);
        lemma_visit_edges_from_index(t, visit_frontier(t, st, frontier.drop_last(), kinds, wo, wi), neighbors_spec(t, frontier.last(), kinds, wo, wi));
    }
}

proof fn lemma_rounds_from_index(
    t: IndexTables,
    visited: Seq<SymbolRecord>,
    edges: Seq<NeighborEdge>,
    frontier: Seq<Seq<char>>,
    reached: u32,
    d: int,
    depth: int,
    kinds: Seq<crate::model::EdgeKind>,
    wo: bool,
    wi: bool,
)
    requires
        state_from_index(t, visited, edges),
    ensures
        state_from_index(t, expand_rounds(t, visited, edges, frontier, reached, d, depth, kinds, wo, wi).0,
            expand_rounds(t, visited, edges, frontier, reached, d, depth, kinds, wo, wi).1),
    decreases depth + 1 - d,
{
    if !(d > depth || frontier.len() == 0) {
        let st = visit_frontier(t, ExpandState { visited, edges, next: seq![] }, frontier, kinds, wo, wi);
        lemma_visit_frontier_from_index(t, ExpandState { visited, edges, next: seq![] }, frontier, kinds, wo, wi);
        lemma_rounds_from_index(t, st.visited, st.edges, st.next, if st.next.len() > 0 { d as u32 } else { reached }, d + 1, depth, kinds, wo, wi);
    }
}

/// Expansion invents nothing: every node it returns is the record its id
/// fetches from the index, and so is each end of every edge it returns.
pub proof fn law_expand_from_index(t: IndexTables, id: Seq<char>, depth: u32, kinds: Seq<crate::model::EdgeKind>, dir: Direction)
    ensures
        forall|i: int| 0 <= i < expand_spec(t, id, depth, kinds, dir).0.len()
            ==> from_index(t, #[trigger] expand_spec(t, id, depth, kinds, dir).0[i]),
        forall|i: int| 0 <= i < expand_spec(t, id, depth, kinds, dir).1.len()
            ==> edge_from_index(t, #[trigger] expand_spec(t, id, depth, kinds, dir).1[i]),
{
    lemma_fetched_id(t, id);
    match fetch_symbol_spec(t, id) {
        None => {},
        Some(a) => {
            if depth > 0 {
                let k = effective_kinds(kinds);
                assert(state_from_index(t, seq![a], seq![]));
                lemma_rounds_from_index(t, seq![a], seq![], seq![a.id.0@], 0, 1, depth as int, k, dir.wants_out(), dir.wants_in());
                let r = expand_rounds(t, seq![a], seq![], seq![a.id.0@], 0, 1, depth as int, k, dir.wants_out(), dir.wants_in());
                let keys = id_keys(r.0);
                crate::order::lemma_sorted_positions_sorted(keys, |i: int| true);
                let pos = sorted_positions(keys, |i: int| true);
                let out = sort_by_id(r.0);
                assert forall|i: int| 0 <= i < out.len() implies from_index(t, #[trigger] out[i]) by {
                    assert(out[i] == r.0[pos[i]]);
                    assert(0 <= pos[i] < keys.len());
                }
            }
        },
    }
}


proof fn lemma_first_free_at(base: Seq<SymbolRecord>, used: Seq<bool>, h: SymbolRecord, p: int, i: int)
    requires
        0 <= p <= i < base.len(),
        used.len() == base.len(),
        forall|j: int| p <= j < i ==> used[j],
        !used[i],
        same_key(base[i], h),
    ensures
        first_free_from(base, used, h, p) == Some(i),
    decreases i - p,
{
    if p < i {
        lemma_first_free_at(base, used, h, p + 1, i);
    }
}

proof fn lemma_self_diff_prefix(b: Seq<SymbolRecord>, i: int)
    requires
        0 <= i <= b.len(),
    ensures
        diff_fold(b, DiffState { used: Seq::new(b.len(), |j: int| false), added: seq![], modified: seq![] }, b.take(i))
            == (DiffState { used: Seq::new(b.len(), |j: int| j < i), added: seq![], modified: seq![] }),
    decreases i,
{
    let st0 = DiffState { used: Seq::new(b.len(), |j: int| false), added: seq![], modified: seq![] };
    if i == 0 {
        assert(b.take(0) =~= seq![]);
        assert(Seq::new(b.len(), |j: int| false) =~= Seq::new(b.len(), |j: int| j < 0));
    } else {
        lemma_self_diff_prefix(b, i - 1);
        assert(b.take(i).drop_last() =~= b.take(i - 1));
        assert(b.take(i).last() == b[i - 1]);
        let used = Seq::new(b.len(), |j: int| j < i - 1);
        lemma_first_free_at(b, used, b[i - 1], 0, i - 1);
        assert(used.update(i - 1, true) =~= Seq::new(b.len(), |j: int| j < i));
    }
}

proof fn lemma_unmatched_all_used(base: Seq<SymbolRecord>, used: Seq<bool>)
    requires
        used.len() >= base.len(),
        forall|j: int| 0 <= j < base.len() ==> used[j],
    ensures
        unmatched(base, used) == Seq::<SymbolRecord>::empty(),
    decreases base.len(),
{
    if base.len() > 0 {
        lemma_unmatched_all_used(base.drop_last(), used);
        assert(unmatched(base, used) =~= Seq::<SymbolRecord>::empty());
    }
}

/// An index diffed against itself shows nothing added, removed or
/// modified.
pub proof fn law_self_diff_empty(t: IndexTables)
    ensures
        diff_spec(t, t).added.len() == 0,
        diff_spec(t, t).removed.len() == 0,
        diff_spec(t, t).modified.len() == 0,
{
    let b = all_records(t);
    lemma_self_diff_prefix(b, b.len() as int);
    assert(b.take(b.len() as int) =~= b);
    lemma_unmatched_all_used(b, Seq::new(b.len(), |j: int| j < b.len()));
}


/// Every modified entry of a diff pairs a record of the base index (its
/// `base`) with a record of the head index (its `head`), under the head's
/// qualified name and path.
pub proof fn law_diff_sides(base: IndexTables, head: IndexTables)
    ensures
        forall|m: int| 0 <= m < diff_spec(base, head).modified.len()
            ==> all_records(base).contains((#[trigger] diff_spec(base, head).modified[m]).base)
                && all_records(head).contains(diff_spec(base, head).modified[m].head)
                && diff_spec(base, head).modified[m].qualified_name == diff_spec(base, head).modified[m].head.qualified_name
                && diff_spec(base, head).modified[m].path == diff_spec(base, head).modified[m].head.path,
{
    let b = all_records(base);
    let st0 = DiffState { used: Seq::new(b.len(), |i: int| false), added: seq![], modified: seq![] };
    lemma_diff_fold(b, st0, all_records(head));
}

proof fn lemma_fold_in_keeps_callees(st: BlastState, es: Seq<NeighborEdge>)
    requires
        forall|i: int| 0 <= i < es.len() ==> (#[trigger] es[i]).direction == Direction::In,
    ensures
        blast_fold(st, es).callees == st.callees,
    decreases es.len(),
{
    if es.len() > 0 {
        assert(es.last() == es[es.len() - 1]);
        lemma_fold_in_keeps_callees(st, es.drop_last());
    }
}

/// Folding outgoing edges from no callees: every target of an edge is
/// among the callees, and every callee is the target of an edge.
proof fn lemma_fold_out_callees(st: BlastState, es: Seq<NeighborEdge>)
    requires
        st.callees.len() == 0,
        forall|i: int| 0 <= i < es.len() ==> (#[trigger] es[i]).direction == Direction::Out,
    ensures
        forall|i: int| 0 <= i < es.len() && (#[trigger] es[i]).dst.is_some()
            ==> seen(blast_fold(st, es).callees, es[i].dst.unwrap().id.0@),
        forall|k: int| 0 <= k < blast_fold(st, es).callees.len()
            ==> exists|i: int| 0 <= i < es.len() && (#[trigger] es[i]).dst == Some(#[trigger] blast_fold(st, es).callees[k]),
    decreases es.len(),
{
    if es.len() > 0 {
        let pre = es.drop_last();
        assert forall|i: int| 0 <= i < pre.len() implies (#[trigger] pre[i]).direction == Direction::Out by {
            assert(pre[i] == es[i]);
        }
        lemma_fold_out_callees(st, pre);
        let f0 = blast_fold(st, pre);
        let f1 = blast_fold(st, es);
        let e = es.last();
        assert(e == es[es.len() - 1]);
        assert(f1 == blast_step(f0, e));
        assert forall|i: int| 0 <= i < es.len() && (#[trigger] es[i]).dst.is_some()
            implies seen(f1.callees, es[i].dst.unwrap().id.0@) by {
            if i < pre.len() {
                assert(pre[i] == es[i]);
                let w = choose|w: int| 0 <= w < f0.callees.len() && (#[trigger] f0.callees[w]).id.0@ == es[i].dst.unwrap().id.0@;
                assert(f1.callees[w] == f0.callees[w]);
            } else if !seen(f0.callees, e.dst.unwrap().id.0@) {
                assert(f1.callees[f1.callees.len() - 1] == e.dst.unwrap());
            }
        }
        assert forall|k: int| 0 <= k < f1.callees.len()
            implies exists|i: int| 0 <= i < es.len() && (#[trigger] es[i]).dst == Some(#[trigger] f1.callees[k]) by {
            if k < f0.callees.len() {
                assert(f1.callees[k] == f0.callees[k]);
                let i = choose|i: int| 0 <= i < pre.len() && (#[trigger] pre[i]).dst == Some(f0.callees[k]);
                assert(es[i] == pre[i]);
            } else {
                assert(es[es.len() - 1].dst == Some(f1.callees[k]));
            }
        }
    }
}

/// Folding incoming edges: every source is among the callers.
proof fn lemma_fold_in_callers(st: BlastState, es: Seq<NeighborEdge>)
    requires
        forall|i: int| 0 <= i < es.len() ==> (#[trigger] es[i]).direction == Direction::In,
    ensures
        forall|x: Seq<char>| seen(st.callers, x) ==> seen(#[trigger] blast_fold(st, es).callers, x),
        forall|i: int| 0 <= i < es.len() ==> seen(blast_fold(st, es).callers, (#[trigger] es[i]).src.id.0@),
    decreases es.len(),
{
    if es.len() > 0 {
        let pre = es.drop_last();
        assert forall|i: int| 0 <= i < pre.len() implies (#[trigger] pre[i]).direction == Direction::In by {
            assert(pre[i] == es[i]);
        }
        lemma_fold_in_callers(st, pre);
        let f0 = blast_fold(st, pre);
        let f1 = blast_fold(st, es);
        let e = es.last();
        assert(e == es[es.len() - 1]);
        assert(f1 == blast_step(f0, e));
        assert forall|x: Seq<char>| seen(f0.callers, x) implies seen(f1.callers, x) by {
            let w = choose|w: int| 0 <= w < f0.callers.len() && (#[trigger] f0.callers[w]).id.0@ == x;
            assert(f1.callers[w] == f0.callers[w]);
        }
        assert forall|x: Seq<char>| seen(st.callers, x) implies seen(#[trigger] blast_fold(st, es).callers, x) by {
            assert(seen(f0.callers, x));
        }
        assert forall|i: int| 0 <= i < es.len() implies seen(f1.callers, (#[trigger] es[i]).src.id.0@) by {
            if i < pre.len() {
                assert(pre[i] == es[i]);
                assert(seen(f0.callers, pre[i].src.id.0@));
            } else if !seen(f0.callers, e.src.id.0@) {
                assert(f1.callers[f1.callers.len() - 1] == e.src);
            }
        }
    }
}

proof fn lemma_seams_fold_tests(es: Seq<NeighborEdge>)
    ensures
        forall|k: int| 0 <= k < seams_fold(seq![], es).len()
            ==> is_test_record(#[trigger] seams_fold(seq![], es)[k]),
    decreases es.len(),
{
    if es.len() > 0 {
        lemma_seams_fold_tests(es.drop_last());
        let prev = seams_fold(seq![], es.drop_last());
        let cur = seams_fold(seq![], es);
        assert forall|k: int| 0 <= k < cur.len() implies is_test_record(#[trigger] cur[k]) by {
            if k < prev.len() {
                assert(cur[k] == prev[k]);
            }
        }
    }
}

/// The callees of a blast radius are exactly the targets of the found
/// symbol's outgoing edges, as `neighbors` lists them for direction
/// `Out`: every outgoing edge that has a target has it among the callees,
/// and every callee is the target of one of those edges.
pub proof fn law_blast_callees(t: IndexTables, qname: Seq<char>)
    ensures
        match blast_spec(t, qname) {
            Some(b) => {
                let outs = neighbors_spec(t, b.symbol.id.0@, effective_kinds(seq![]), true, false);
                &&& forall|i: int| 0 <= i < outs.len() && (#[trigger] outs[i]).dst.is_some()
                    ==> seen(b.callees, outs[i].dst.unwrap().id.0@)
                &&& forall|k: int| 0 <= k < b.callees.len()
                    ==> exists|i: int| 0 <= i < outs.len() && (#[trigger] outs[i]).dst == Some(#[trigger] b.callees[k])
            },
            None => qname_hits(t, qname).len() == 0,
        },
{
    let m = qname_hits(t, qname);
    if m.len() > 0 {
        let id = m[0].id.0@;
        let kinds = effective_kinds(seq![]);
        lemma_neighbor_parts(t, id, kinds, true, true);
        lemma_neighbor_parts(t, id, kinds, true, false);
        let outs = outgoing_part(t, id, kinds, true);
        let ins = incoming_part(t, id, kinds, true);
        assert(outs + incoming_part(t, id, kinds, false) =~= outs);
        let st0 = BlastState { callers: seq![], callees: seq![], seams: seq![] };
        lemma_blast_fold_concat(st0, outs, ins);
        assert forall|i: int| 0 <= i < outs.len() implies (#[trigger] outs[i]).direction == Direction::Out by {}
        assert forall|i: int| 0 <= i < ins.len() implies (#[trigger] ins[i]).direction == Direction::In by {}
        lemma_fold_out_callees(st0, outs);
        lemma_fold_in_keeps_callees(blast_fold(st0, outs), ins);
    }
}

/// A caller of the found symbol (the source of an incoming edge, as
/// `neighbors` lists them for direction `In`) is a test seam of the blast
/// radius exactly when it is test-shaped by its path or its qualified
/// name; in particular a caller whose qualified name starts with
/// `tests::` (a Rust in-file test module) is a seam whatever its path.
/// The standalone test-seam lookup gives the same seams.
pub proof fn law_blast_seams_are_test_callers(t: IndexTables, qname: Seq<char>)
    ensures
        match blast_spec(t, qname) {
            Some(b) => {
                let ins = neighbors_spec(t, b.symbol.id.0@, effective_kinds(seq![]), false, true);
                &&& forall|i: int| 0 <= i < ins.len() ==>
                    (seen(b.test_seams, (#[trigger] ins[i]).src.id.0@)
                        <==> test_symbol_rule(ins[i].src.path@, Some(ins[i].src.qualified_name@)))
                &&& forall|i: int| 0 <= i < ins.len() && crate::text::starts_with((#[trigger] ins[i]).src.qualified_name@, "tests::"@)
                    ==> seen(b.test_seams, ins[i].src.id.0@)
                &&& b.test_seams == test_seams_spec(t, qname)
            },
            None => test_seams_spec(t, qname).len() == 0,
        },
{
    law_blast_test_seams(t, qname);
    let m = qname_hits(t, qname);
    if m.len() > 0 {
        let id = m[0].id.0@;
        let kinds = effective_kinds(seq![]);
        lemma_neighbor_parts(t, id, kinds, true, true);
        lemma_neighbor_parts(t, id, kinds, false, true);
        let outs = outgoing_part(t, id, kinds, true);
        let ins = incoming_part(t, id, kinds, true);
        assert(outgoing_part(t, id, kinds, false) + ins =~= ins);
        let st0 = BlastState { callers: seq![], callees: seq![], seams: seq![] };
        lemma_blast_fold_concat(st0, outs, ins);
        assert forall|i: int| 0 <= i < outs.len() implies (#[trigger] outs[i]).direction == Direction::Out by {}
        assert forall|i: int| 0 <= i < ins.len() implies (#[trigger] ins[i]).direction == Direction::In by {}
        lemma_blast_fold_outgoing(st0, outs);
        let s1 = blast_fold(st0, outs);
        lemma_blast_fold_incoming(t, s1, ins);
        lemma_fold_in_callers(s1, ins);
        lemma_seams_fold_tests(ins);
        let b = blast_fold(s1, ins);
        assert forall|i: int| 0 <= i < ins.len() implies
            (seen(b.seams, (#[trigger] ins[i]).src.id.0@)
                <==> test_symbol_rule(ins[i].src.path@, Some(ins[i].src.qualified_name@))) by {
            let c = ins[i].src;
            assert(fetch_symbol_spec(t, c.id.0@) == Some(c));
            assert(seen(b.callers, c.id.0@));
            let q = choose|q: int| 0 <= q < b.callers.len() && (#[trigger] b.callers[q]).id.0@ == c.id.0@;
            assert(fetch_symbol_spec(t, b.callers[q].id.0@) == Some(b.callers[q]));
            assert(b.callers[q] == c);
            if test_symbol_rule(c.path@, Some(c.qualified_name@)) {
                assert(is_test_record(b.callers[q]));
            }
            if seen(b.seams, c.id.0@) {
                let w = choose|w: int| 0 <= w < b.seams.len() && (#[trigger] b.seams[w]).id.0@ == c.id.0@;
                assert(b.callers.contains(b.seams[w]));
                let z = choose|z: int| 0 <= z < b.callers.len() && b.callers[z] == b.seams[w];
                assert(fetch_symbol_spec(t, b.callers[z].id.0@) == Some(b.callers[z]));
                assert(b.seams[w] == c);
                assert(is_test_record(b.seams[w]));
            }
        }
    }
}

} // verus!
