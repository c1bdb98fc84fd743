//! Read side of an index: typed queries over the tables of one built index.
//! Every query joins symbols, edges and findings with the file rows they
//! belong to and returns rows in a stated, deterministic order.
use vstd::prelude::*;
use crate::model::{
    Anchor, EdgeConfidence, EdgeKind, FileId, FileRecord, FileStatus, MallardError, Symbol,
    SymbolId, SymbolKind,
};
use crate::order::{key_view, order_selected, positions_view, sorted_positions, sorted_selection, KeyPart, PartV};
use crate::store::{EdgeRow, FindingRow, IndexTables};
use crate::text::{chars_eq, chars_of, copy_string, starts_with, starts_with_exec};

verus! {

/// Which way edges are followed from a symbol.
#[derive(Debug, Clone, Copy, PartialEq, Eq, Structural)]
pub enum Direction {
    Out,
    In,
    Both,
}

impl Direction {
    pub open spec fn wants_out(self) -> bool {
        self == Direction::Out || self == Direction::Both
    }

    pub open spec fn wants_in(self) -> bool {
        self == Direction::In || self == Direction::Both
    }
}

/// A symbol joined with the path of its file.
#[derive(Debug, Clone, PartialEq, Eq)]
pub struct SymbolRecord {
    pub id: SymbolId,
    pub file_id: FileId,
    pub path: String,
    pub qualified_name: String,
    pub kind: SymbolKind,
    pub signature: String,
    pub anchor: Anchor,
}

/// An edge seen from one of its ends, with both ends as records.
#[derive(Debug, Clone, PartialEq, Eq)]
pub struct NeighborEdge {
    pub kind: EdgeKind,
    pub confidence: EdgeConfidence,
    pub direction: Direction,
    pub src: SymbolRecord,
    pub dst: Option<SymbolRecord>,
    pub dst_unresolved: Option<String>,
}

/// A finding joined with the path of its file.
#[derive(Debug, Clone, PartialEq, Eq)]
pub struct FindingRecord {
    pub rule_id: String,
    pub file_id: FileId,
    pub path: String,
    pub start_line: u32,
    pub end_line: u32,
    pub message: String,
}

/// Conditions on findings; each present one must hold.
#[derive(Debug, Clone, Default, PartialEq, Eq)]
pub struct FindingFilter {
    pub rule_id: Option<String>,
    pub path_prefix: Option<String>,
    pub symbol_id: Option<SymbolId>,
}

/// A file row as returned to callers.
#[derive(Debug, Clone, PartialEq, Eq)]
pub struct FileRecordOut {
    pub file_id: FileId,
    pub path: String,
    pub language: Option<String>,
    pub size_bytes: u64,
    pub status: FileStatus,
}

/// The tables of one index, read-only.
#[derive(Debug)]
pub struct IndexReader {
    pub tables: IndexTables,
}

// ---------------------------------------------------------------------
// Joins.

/// `j` is the first file row with id `fid`.
pub open spec fn file_at(files: Seq<FileRecord>, fid: FileId, j: int) -> bool {
    &&& 0 <= j < files.len()
    &&& files[j].id == fid
    &&& forall|k: int| 0 <= k < j ==> files[k].id != fid
}

/// The file row with id `fid` (the first one, should ids repeat).
pub open spec fn file_of(files: Seq<FileRecord>, fid: FileId) -> Option<FileRecord> {
    if exists|j: int| file_at(files, fid, j) {
        Some(files[choose|j: int| file_at(files, fid, j)])
    } else {
        None
    }
}

pub open spec fn record_of(s: Symbol, f: FileRecord) -> SymbolRecord {
    SymbolRecord {
        id: s.id,
        file_id: s.file_id,
        path: f.path,
        qualified_name: s.qualified_name,
        kind: s.kind,
        signature: s.signature,
        anchor: s.anchor,
    }
}

/// A symbol joined with its file; none when its file has no row.
pub open spec fn record_for(files: Seq<FileRecord>, s: Symbol) -> Option<SymbolRecord> {
    match file_of(files, s.file_id) {
        Some(f) => Some(record_of(s, f)),
        None => None,
    }
}

/// `j` is the first symbol row with id text `id`.
pub open spec fn symbol_at(syms: Seq<Symbol>, id: Seq<char>, j: int) -> bool {
    &&& 0 <= j < syms.len()
    &&& syms[j].id.0@ == id
    &&& forall|k: int| 0 <= k < j ==> syms[k].id.0@ != id
}

/// The record of the symbol with id text `id`, if it and its file exist.
pub open spec fn fetch_symbol_spec(t: IndexTables, id: Seq<char>) -> Option<SymbolRecord> {
    if exists|j: int| symbol_at(t.symbols@, id, j) {
        record_for(t.files@, t.symbols@[choose|j: int| symbol_at(t.symbols@, id, j)])
    } else {
        None
    }
}

proof fn lemma_file_of(files: Seq<FileRecord>, fid: FileId, j: int)
    requires
        file_at(files, fid, j),
    ensures
        file_of(files, fid) == Some(files[j]),
{
    let c = choose|c: int| file_at(files, fid, c);
    assert(file_at(files, fid, c));
    if c < j {
        assert(files[c].id != fid);
    } else if c > j {
        assert(files[j].id != fid);
    }
}

proof fn lemma_symbol_at(syms: Seq<Symbol>, id: Seq<char>, j: int)
    requires
        symbol_at(syms, id, j),
    ensures
        (choose|c: int| symbol_at(syms, id, c)) == j,
{
    let c = choose|c: int| symbol_at(syms, id, c);
    assert(symbol_at(syms, id, c));
    if c < j {
        assert(syms[c].id.0@ != id);
    } else if c > j {
        assert(syms[j].id.0@ != id);
    }
}

pub(crate) fn find_file(files: &Vec<FileRecord>, fid: FileId) -> (r: Option<usize>)
    ensures
        r.is_some() ==> file_at(files@, fid, r.unwrap() as int),
        r.is_none() ==> file_of(files@, fid).is_none(),
        r.is_some() ==> file_of(files@, fid) == Some(files@[r.unwrap() as int]),
{
    let mut j: usize = 0;
    while j < files.len()
        invariant
            j <= files.len(),
            forall|k: int| 0 <= k < j ==> files@[k].id != fid,
        decreases files.len() - j,
    {
        if files[j].id == fid {
            proof {
                lemma_file_of(files@, fid, j as int);
            }
            return Some(j);
        }
        j = j + 1;
    }
    None
}

pub(crate) fn record_exec(s: &Symbol, f: &FileRecord) -> (r: SymbolRecord)
    ensures
        r == record_of(*s, *f),
{
    SymbolRecord {
        id: s.id.duplicate(),
        file_id: s.file_id,
        path: copy_string(&f.path),
        qualified_name: copy_string(&s.qualified_name),
        kind: s.kind,
        signature: copy_string(&s.signature),
        anchor: s.anchor,
    }
}

pub(crate) fn record_for_exec(files: &Vec<FileRecord>, s: &Symbol) -> (r: Option<SymbolRecord>)
    ensures
        r == record_for(files@, *s),
{
    match find_file(files, s.file_id) {
        Some(j) => Some(record_exec(s, &files[j])),
        None => None,
    }
}

pub(crate) fn fetch_symbol(t: &IndexTables, id: &Vec<char>) -> (r: Option<SymbolRecord>)
    ensures
        r == fetch_symbol_spec(*t, id@),
{
    let mut j: usize = 0;
    while j < t.symbols.len()
        invariant
            j <= t.symbols.len(),
            forall|k: int| 0 <= k < j ==> t.symbols@[k].id.0@ != id@,
        decreases t.symbols.len() - j,
    {
        let c = chars_of(t.symbols[j].id.0.as_str());
        if chars_eq(c.as_slice(), id.as_slice()) {
            proof {
                lemma_symbol_at(t.symbols@, id@, j as int);
            }
            return record_for_exec(&t.files, &t.symbols[j]);
        }
        j = j + 1;
    }
    None
}

// ---------------------------------------------------------------------
// Sort keys.

/// Anchor start byte of each symbol.
pub open spec fn start_keys(syms: Seq<Symbol>) -> Seq<Seq<PartV>> {
    Seq::new(syms.len(), |i: int| seq![PartV::Num(syms[i].anchor.start_byte as int)])
}

/// File path, then anchor start byte, of each symbol (empty path for a
/// symbol whose file has no row; such symbols are never selected).
pub open spec fn path_start_keys(files: Seq<FileRecord>, syms: Seq<Symbol>) -> Seq<Seq<PartV>> {
    Seq::new(syms.len(), |i: int| seq![
        PartV::Text(match file_of(files, syms[i].file_id) { Some(f) => f.path@, None => seq![] }),
        PartV::Num(syms[i].anchor.start_byte as int),
    ])
}

/// Symbol positions whose record exists and lies in the file at `path`.
pub open spec fn in_file(files: Seq<FileRecord>, syms: Seq<Symbol>, path: Seq<char>, i: int) -> bool {
    record_for(files, syms[i]).is_some() && record_for(files, syms[i]).unwrap().path@ == path
}

/// The records of the symbols of the file at `path`, by anchor start byte.
pub open spec fn file_symbols(t: IndexTables, path: Seq<char>) -> Seq<SymbolRecord> {
    records_at(t.files@, t.symbols@, sorted_positions(start_keys(t.symbols@), |i: int| in_file(t.files@, t.symbols@, path, i)))
}

pub open spec fn records_at(files: Seq<FileRecord>, syms: Seq<Symbol>, pos: Seq<int>) -> Seq<SymbolRecord> {
    pos.map_values(|p: int| record_for(files, syms[p]).unwrap())
}

pub(crate) fn records_from(files: &Vec<FileRecord>, syms: &Vec<Symbol>, pos: &Vec<usize>) -> (r: Vec<SymbolRecord>)
    requires
        forall|a: int| 0 <= a < pos@.len() ==> (#[trigger] pos@[a] as int) < syms@.len()
            && record_for(files@, syms@[pos@[a] as int]).is_some(),
    ensures
        r@ == records_at(files@, syms@, positions_view(pos@)),
{
    let mut out: Vec<SymbolRecord> = Vec::new();
    let mut a: usize = 0;
    while a < pos.len()
        invariant
            a <= pos@.len(),
            forall|b: int| 0 <= b < pos@.len() ==> (#[trigger] pos@[b] as int) < syms@.len()
                && record_for(files@, syms@[pos@[b] as int]).is_some(),
            out@ == records_at(files@, syms@, positions_view(pos@)).take(a as int),
        decreases pos.len() - a,
    {
        let rec = record_for_exec(files, &syms[pos[a]]);
        out.push(rec.unwrap());
        a = a + 1;
        assert(out@ =~= records_at(files@, syms@, positions_view(pos@)).take(a as int));
    }
    assert(records_at(files@, syms@, positions_view(pos@)).take(pos@.len() as int) =~= records_at(files@, syms@, positions_view(pos@)));
    out
}

impl IndexReader {
    /// The symbol with this id, joined with its file.
    pub fn lookup_symbol(&self, id: &SymbolId) -> (r: Option<SymbolRecord>)
        ensures
            r == fetch_symbol_spec(self.tables, id.0@),
    {
        let c = chars_of(id.0.as_str());
        fetch_symbol(&self.tables, &c)
    }

    /// The symbols of the file at `path`, by anchor start byte.
    pub fn symbols_in_file(&self, path: &str) -> (r: Vec<SymbolRecord>)
        ensures
            r@ == file_symbols(self.tables, path@),
            r@.len() <= self.tables.symbols@.len(),
    {
        let ghost files = self.tables.files@;
        let ghost syms = self.tables.symbols@;
        let ghost sel = |i: int| in_file(files, syms, path@, i);
        let p = chars_of(path);
        let mut cand: Vec<usize> = Vec::new();
        let mut ckeys: Vec<Vec<KeyPart>> = Vec::new();
        let mut i: usize = 0;
        while i < self.tables.symbols.len()
            invariant
                i <= syms.len(),
                files == self.tables.files@,
                syms == self.tables.symbols@,
                p@ == path@,
                sel == (|i: int| in_file(files, syms, path@, i)),
                ckeys@.len() == cand@.len(),
                forall|x: int| 0 <= x < cand@.len() ==> (#[trigger] cand@[x] as int) < i && sel(cand@[x] as int),
                forall|x: int| 0 <= x < cand@.len() ==> key_view(#[trigger] ckeys@[x]) == start_keys(syms)[cand@[x] as int],
                forall|x: int, y: int| 0 <= x < y < cand@.len() ==> cand@[x] < cand@[y],
                forall|k: int| 0 <= k < i && sel(k) ==> #[trigger] positions_view(cand@).contains(k),
            decreases syms.len() - i,
        {
            let rec = record_for_exec(&self.tables.files, &self.tables.symbols[i]);
            let hit = match &rec {
                Some(r) => {
                    let rp = chars_of(r.path.as_str());
                    chars_eq(rp.as_slice(), p.as_slice())
                },
                None => false,
            };
            proof {
                if hit {
                    assert(sel(i as int));
                } else {
                    assert(!sel(i as int));
                }
            }
            if hit {
                let ghost before = cand@;
                let mut key: Vec<KeyPart> = Vec::new();
                key.push(KeyPart::Num(self.tables.symbols[i].anchor.start_byte as u128));
                cand.push(i);
                ckeys.push(key);
                proof {
                    assert(key_view(ckeys@[cand@.len() - 1]) =~= start_keys(syms)[i as int]);
                    assert forall|k: int| 0 <= k < i + 1 && sel(k) implies #[trigger] positions_view(cand@).contains(k) by {
                        if k < i {
                            assert(positions_view(before).contains(k));
                            let x = choose|x: int| 0 <= x < positions_view(before).len() && positions_view(before)[x] == k;
                            assert(positions_view(cand@)[x] == k);
                        } else {
                            assert(positions_view(cand@)[cand@.len() - 1] == k);
                        }
                    }
                }
            }
            i = i + 1;
        }
        let order = order_selected(&ckeys, &cand, Ghost(start_keys(syms)), Ghost(sel));
        proof {
            crate::order::lemma_sorted_selection_len(start_keys(syms), sel, positions_view(order@));
            assert forall|a: int| 0 <= a < order@.len() implies (#[trigger] order@[a] as int) < syms.len()
                && record_for(files, syms[order@[a] as int]).is_some() by {
                assert(positions_view(order@)[a] == order@[a] as int);
                assert(sel(positions_view(order@)[a]));
            }
        }
        records_from(&self.tables.files, &self.tables.symbols, &order)
    }
}


// ---------------------------------------------------------------------
// Findings, edges, files.

pub open spec fn finding_record_of(f: FindingRow, file: FileRecord) -> FindingRecord {
    FindingRecord {
        rule_id: f.rule_id,
        file_id: f.file_id,
        path: file.path,
        start_line: f.start_line,
        end_line: f.end_line,
        message: f.message,
    }
}

/// File id and line span of the symbol a filter names, when it names one
/// that exists.
pub open spec fn filter_anchor(t: IndexTables, filter: FindingFilter) -> Option<(FileId, u32, u32)> {
    match filter.symbol_id {
        Some(sid) => match fetch_symbol_spec(t, sid.0@) {
            Some(s) => Some((s.file_id, s.anchor.start_line, s.anchor.end_line)),
            None => None,
        },
        None => None,
    }
}

/// A finding row passes the filter: its file exists, and it matches the
/// rule id, lies under the path prefix and overlaps the named symbol's
/// lines, for each of these the filter sets.
pub open spec fn finding_passes(t: IndexTables, filter: FindingFilter, i: int) -> bool {
    let f = t.findings@[i];
    &&& file_of(t.files@, f.file_id).is_some()
    &&& (filter.rule_id.is_some() ==> f.rule_id@ == filter.rule_id.unwrap()@)
    &&& (filter.path_prefix.is_some() ==> starts_with(file_of(t.files@, f.file_id).unwrap().path@, filter.path_prefix.unwrap()@))
    &&& (filter_anchor(t, filter).is_some() ==> {
        let (fid, start, end) = filter_anchor(t, filter).unwrap();
        f.file_id == fid && f.end_line >= start && f.start_line <= end
    })
}

/// What a findings query returns: nothing when the filter names a symbol
/// that does not exist; otherwise the passing findings by path, start
/// line, rule id.
pub open spec fn findings_result(t: IndexTables, filter: FindingFilter) -> Seq<FindingRecord> {
    if filter.symbol_id.is_some() && filter_anchor(t, filter).is_none() {
        seq![]
    } else {
        finding_records(t, sorted_positions(finding_keys(t), |i: int| finding_passes(t, filter, i)))
    }
}

/// A finding whose file exists and lies under `prefix`.
pub open spec fn finding_under(t: IndexTables, prefix: Seq<char>, i: int) -> bool {
    &&& file_of(t.files@, t.findings@[i].file_id).is_some()
    &&& starts_with(file_of(t.files@, t.findings@[i].file_id).unwrap().path@, prefix)
}

/// The findings under a path prefix, by path, start line, rule id.
pub open spec fn findings_under(t: IndexTables, prefix: Seq<char>) -> Seq<FindingRecord> {
    finding_records(t, sorted_positions(finding_keys(t), |i: int| finding_under(t, prefix, i)))
}

/// Path, start line, rule id of each finding.
pub open spec fn finding_keys(t: IndexTables) -> Seq<Seq<PartV>> {
    Seq::new(t.findings@.len(), |i: int| seq![
        PartV::Text(match file_of(t.files@, t.findings@[i].file_id) { Some(f) => f.path@, None => seq![] }),
        PartV::Num(t.findings@[i].start_line as int),
        PartV::Text(t.findings@[i].rule_id@),
    ])
}

pub open spec fn finding_records(t: IndexTables, pos: Seq<int>) -> Seq<FindingRecord> {
    pos.map_values(|p: int| finding_record_of(t.findings@[p], file_of(t.files@, t.findings@[p].file_id).unwrap()))
}

/// Edge kinds to follow: all of them when none are named.
pub open spec fn effective_kinds(kinds: Seq<EdgeKind>) -> Seq<EdgeKind> {
    if kinds.len() == 0 {
        seq![EdgeKind::Calls, EdgeKind::Imports, EdgeKind::References, EdgeKind::Contains, EdgeKind::TestsFor, EdgeKind::TestedBy]
    } else {
        kinds
    }
}

/// The edge leaves (`out`) or enters the symbol with id text `id` and has
/// one of the kinds.
pub open spec fn edge_picked(e: EdgeRow, id: Seq<char>, kinds: Seq<EdgeKind>, out: bool) -> bool {
    &&& kinds.contains(e.kind)
    &&& if out { e.src.0@ == id } else { e.dst.is_some() && e.dst.unwrap().0@ == id }
}

/// Edge id of each edge, as a key.
pub open spec fn edge_keys(edges: Seq<EdgeRow>) -> Seq<Seq<PartV>> {
    Seq::new(edges.len(), |i: int| seq![PartV::Num(edges[i].edge_id as int + 0x8000_0000_0000_0000)])
}

/// An edge seen from one end; none when its source symbol has no record.
pub open spec fn neighbor_of(t: IndexTables, e: EdgeRow, dir: Direction) -> Option<NeighborEdge> {
    match fetch_symbol_spec(t, e.src.0@) {
        None => None,
        Some(src) => Some(NeighborEdge {
            kind: e.kind,
            confidence: e.confidence,
            direction: dir,
            src: src,
            dst: match e.dst {
                Some(d) => fetch_symbol_spec(t, d.0@),
                None => None,
            },
            dst_unresolved: e.dst_unresolved,
        }),
    }
}

/// The neighbours of the edges at `pos`, in that order, skipping edges
/// whose source has no record.
pub open spec fn neighbor_list(t: IndexTables, pos: Seq<int>, dir: Direction) -> Seq<NeighborEdge>
    decreases pos.len(),
{
    if pos.len() == 0 {
        seq![]
    } else {
        let rest = neighbor_list(t, pos.drop_last(), dir);
        match neighbor_of(t, t.edges@[pos.last()], dir) {
            Some(n) => rest.push(n),
            None => rest,
        }
    }
}

/// The neighbour edges of symbol `id`: outgoing ones (when `want_out`)
/// by edge id, then incoming ones (when `want_in`) by edge id.
pub open spec fn neighbors_spec(t: IndexTables, id: Seq<char>, kinds: Seq<EdgeKind>, want_out: bool, want_in: bool) -> Seq<NeighborEdge> {
    neighbor_list(t, sorted_positions(edge_keys(t.edges@), |i: int| want_out && edge_picked(t.edges@[i], id, kinds, true)), Direction::Out)
        + neighbor_list(t, sorted_positions(edge_keys(t.edges@), |i: int| want_in && edge_picked(t.edges@[i], id, kinds, false)), Direction::In)
}

pub(crate) fn kinds_contain(kinds: &Vec<EdgeKind>, k: EdgeKind) -> (r: bool)
    ensures
        r == kinds@.contains(k),
{
    let mut i: usize = 0;
    while i < kinds.len()
        invariant
            i <= kinds@.len(),
            forall|j: int| 0 <= j < i ==> kinds@[j] != k,
        decreases kinds.len() - i,
    {
        if kinds[i] == k {
            return true;
        }
        i = i + 1;
    }
    false
}

pub(crate) fn effective_kinds_exec(kinds: &Vec<EdgeKind>) -> (r: Vec<EdgeKind>)
    ensures
        r@ == effective_kinds(kinds@),
{
    if kinds.len() == 0 {
        EdgeKind::all()
    } else {
        let mut out: Vec<EdgeKind> = Vec::new();
        let mut i: usize = 0;
        while i < kinds.len()
            invariant
                i <= kinds@.len(),
                out@ == kinds@.take(i as int),
            decreases kinds.len() - i,
        {
            out.push(kinds[i]);
            i = i + 1;
            assert(out@ =~= kinds@.take(i as int));
        }
        assert(kinds@.take(kinds@.len() as int) =~= kinds@);
        out
    }
}

pub(crate) fn edge_key_exec(e: &EdgeRow) -> (r: Vec<KeyPart>)
    ensures
        key_view(r) == seq![PartV::Num(e.edge_id as int + 0x8000_0000_0000_0000)],
{
    let shifted: i128 = (e.edge_id as i128) + 0x8000_0000_0000_0000i128;
    let mut k: Vec<KeyPart> = Vec::new();
    k.push(KeyPart::Num(shifted as u128));
    assert(key_view(k) =~= seq![PartV::Num(e.edge_id as int + 0x8000_0000_0000_0000)]);
    k
}

pub(crate) fn neighbor_exec(t: &IndexTables, e: &EdgeRow, dir: Direction) -> (r: Option<NeighborEdge>)
    ensures
        r == neighbor_of(*t, *e, dir),
{
    let src_id = chars_of(e.src.0.as_str());
    match fetch_symbol(t, &src_id) {
        None => None,
        Some(src) => {
            let dst = match &e.dst {
                Some(d) => {
                    let did = chars_of(d.0.as_str());
                    fetch_symbol(t, &did)
                },
                None => None,
            };
            Some(NeighborEdge {
                kind: e.kind,
                confidence: e.confidence,
                direction: dir,
                src: src,
                dst: dst,
                dst_unresolved: crate::text::copy_opt_string(&e.dst_unresolved),
            })
        },
    }
}

pub(crate) fn neighbors_at(t: &IndexTables, pos: &Vec<usize>, dir: Direction) -> (r: Vec<NeighborEdge>)
    requires
        forall|a: int| 0 <= a < pos@.len() ==> (#[trigger] pos@[a] as int) < t.edges@.len(),
    ensures
        r@ == neighbor_list(*t, positions_view(pos@), dir),
{
    let mut out: Vec<NeighborEdge> = Vec::new();
    let mut a: usize = 0;
    while a < pos.len()
        invariant
            a <= pos@.len(),
            forall|b: int| 0 <= b < pos@.len() ==> (#[trigger] pos@[b] as int) < t.edges@.len(),
            out@ == neighbor_list(*t, positions_view(pos@).take(a as int), dir),
        decreases pos.len() - a,
    {
        let ghost pv = positions_view(pos@);
        assert(pv.take(a + 1).drop_last() =~= pv.take(a as int));
        assert(pv.take(a + 1).last() == pos@[a as int] as int);
        match neighbor_exec(t, &t.edges[pos[a]], dir) {
            Some(n) => out.push(n),
            None => {},
        }
        a = a + 1;
    }
    assert(positions_view(pos@).take(pos@.len() as int) =~= positions_view(pos@));
    out
}

/// The neighbour edges of a symbol, with the kind list already made
/// effective.
pub(crate) fn neighbors_inner(t: &IndexTables, id: &Vec<char>, kinds: &Vec<EdgeKind>, want_out: bool, want_in: bool) -> (r: Vec<NeighborEdge>)
    ensures
        r@ == neighbors_spec(*t, id@, kinds@, want_out, want_in),
{
    let ghost edges = t.edges@;
    let ghost sel_out = |i: int| want_out && edge_picked(edges[i], id@, kinds@, true);
    let ghost sel_in = |i: int| want_in && edge_picked(edges[i], id@, kinds@, false);
    let mut hits_out: Vec<bool> = Vec::new();
    let mut hits_in: Vec<bool> = Vec::new();
    let mut keys: Vec<Vec<KeyPart>> = Vec::new();
    let mut i: usize = 0;
    while i < t.edges.len()
        invariant
            i <= edges.len(),
            edges == t.edges@,
            sel_out == (|i: int| want_out && edge_picked(edges[i], id@, kinds@, true)),
            sel_in == (|i: int| want_in && edge_picked(edges[i], id@, kinds@, false)),
            hits_out@.len() == i,
            hits_in@.len() == i,
            keys@.len() == i,
            forall|j: int| 0 <= j < i ==> #[trigger] hits_out@[j] == sel_out(j),
            forall|j: int| 0 <= j < i ==> #[trigger] hits_in@[j] == sel_in(j),
            forall|j: int| 0 <= j < i ==> key_view(#[trigger] keys@[j]) == edge_keys(edges)[j],
        decreases edges.len() - i,
    {
        let e = &t.edges[i];
        let kind_ok = kinds_contain(kinds, e.kind);
        let src = chars_of(e.src.0.as_str());
        let is_out = want_out && kind_ok && chars_eq(src.as_slice(), id.as_slice());
        let is_in = want_in && kind_ok && match &e.dst {
            Some(d) => {
                let dc = chars_of(d.0.as_str());
                chars_eq(dc.as_slice(), id.as_slice())
            },
            None => false,
        };
        hits_out.push(is_out);
        hits_in.push(is_in);
        keys.push(edge_key_exec(e));
        i = i + 1;
    }
    let po = crate::order::select_sorted(&hits_out, &keys, Ghost(edge_keys(edges)), Ghost(sel_out));
    let pi = crate::order::select_sorted(&hits_in, &keys, Ghost(edge_keys(edges)), Ghost(sel_in));
    proof {
        assert forall|a: int| 0 <= a < po@.len() implies (#[trigger] po@[a] as int) < t.edges@.len() by {
            assert(positions_view(po@)[a] == po@[a] as int);
        }
        assert forall|a: int| 0 <= a < pi@.len() implies (#[trigger] pi@[a] as int) < t.edges@.len() by {
            assert(positions_view(pi@)[a] == pi@[a] as int);
        }
    }
    let mut outs = neighbors_at(t, &po, Direction::Out);
    let mut ins = neighbors_at(t, &pi, Direction::In);
    let ghost o = outs@;
    outs.append(&mut ins);
    proof {
        assert(sel_out == (|i: int| want_out && edge_picked(t.edges@[i], id@, kinds@, true)));
        assert(outs@ == neighbor_list(*t, positions_view(po@), Direction::Out) + neighbor_list(*t, positions_view(pi@), Direction::In));
    }
    outs
}

impl IndexReader {
    /// Every symbol with a file row, by path then anchor start byte.
    pub fn all_symbols(&self) -> (r: Vec<SymbolRecord>)
        ensures
            r@ == records_at(self.tables.files@, self.tables.symbols@,
                sorted_positions(path_start_keys(self.tables.files@, self.tables.symbols@), |i: int| record_for(self.tables.files@, self.tables.symbols@[i]).is_some())),
    {
        let ghost files = self.tables.files@;
        let ghost syms = self.tables.symbols@;
        let ghost sel = |i: int| record_for(files, syms[i]).is_some();
        let mut hits: Vec<bool> = Vec::new();
        let mut keys: Vec<Vec<KeyPart>> = Vec::new();
        let mut i: usize = 0;
        while i < self.tables.symbols.len()
            invariant
                i <= syms.len(),
                files == self.tables.files@,
                syms == self.tables.symbols@,
                sel == (|i: int| record_for(files, syms[i]).is_some()),
                hits@.len() == i,
                keys@.len() == i,
                forall|j: int| 0 <= j < i ==> #[trigger] hits@[j] == sel(j),
                forall|j: int| 0 <= j < i ==> key_view(#[trigger] keys@[j]) == path_start_keys(files, syms)[j],
            decreases syms.len() - i,
        {
            let s = &self.tables.symbols[i];
            let (hit, path) = match find_file(&self.tables.files, s.file_id) {
                Some(j) => (true, chars_of(self.tables.files[j].path.as_str())),
                None => (false, Vec::new()),
            };
            let mut key: Vec<KeyPart> = Vec::new();
            key.push(KeyPart::Text(path));
            key.push(KeyPart::Num(s.anchor.start_byte as u128));
            assert(key_view(key) =~= path_start_keys(files, syms)[i as int]);
            hits.push(hit);
            keys.push(key);
            i = i + 1;
        }
        let order = crate::order::select_sorted(&hits, &keys, Ghost(path_start_keys(files, syms)), Ghost(sel));
        proof {
            assert forall|a: int| 0 <= a < order@.len() implies (#[trigger] order@[a] as int) < syms.len()
                && record_for(files, syms[order@[a] as int]).is_some() by {
                assert(positions_view(order@)[a] == order@[a] as int);
                assert(sel(positions_view(order@)[a]));
            }
        }
        records_from(&self.tables.files, &self.tables.symbols, &order)
    }

    /// Findings passing the filter, by path, start line, rule id. Empty when
    /// the filter names a symbol that does not exist.
    pub fn findings(&self, filter: &FindingFilter) -> (r: Vec<FindingRecord>)
        ensures
            filter.symbol_id.is_some() && filter_anchor(self.tables, *filter).is_none() ==> r@.len() == 0,
            !(filter.symbol_id.is_some() && filter_anchor(self.tables, *filter).is_none()) ==>
                r@ == finding_records(self.tables, sorted_positions(finding_keys(self.tables), |i: int| finding_passes(self.tables, *filter, i))),
    {
        let ghost t = self.tables;
        let mut anchor: Option<(FileId, u32, u32)> = None;
        match &filter.symbol_id {
            Some(sid) => {
                let c = chars_of(sid.0.as_str());
                match fetch_symbol(&self.tables, &c) {
                    Some(s) => {
                        anchor = Some((s.file_id, s.anchor.start_line, s.anchor.end_line));
                    },
                    None => {
                        return Vec::new();
                    },
                }
            },
            None => {},
        }
        assert(anchor == filter_anchor(t, *filter));
        let rule: Option<Vec<char>> = match &filter.rule_id {
            Some(r) => Some(chars_of(r.as_str())),
            None => None,
        };
        let prefix: Option<Vec<char>> = match &filter.path_prefix {
            Some(p) => Some(chars_of(p.as_str())),
            None => None,
        };
        let ghost sel = |i: int| finding_passes(t, *filter, i);
        let mut hits: Vec<bool> = Vec::new();
        let mut keys: Vec<Vec<KeyPart>> = Vec::new();
        let mut i: usize = 0;
        while i < self.tables.findings.len()
            invariant
                i <= t.findings@.len(),
                t == self.tables,
                anchor == filter_anchor(t, *filter),
                rule.is_some() == filter.rule_id.is_some(),
                rule.is_some() ==> rule.unwrap()@ == filter.rule_id.unwrap()@,
                prefix.is_some() == filter.path_prefix.is_some(),
                prefix.is_some() ==> prefix.unwrap()@ == filter.path_prefix.unwrap()@,
                sel == (|i: int| finding_passes(t, *filter, i)),
                hits@.len() == i,
                keys@.len() == i,
                forall|j: int| 0 <= j < i ==> #[trigger] hits@[j] == sel(j),
                forall|j: int| 0 <= j < i ==> key_view(#[trigger] keys@[j]) == finding_keys(t)[j],
            decreases t.findings@.len() - i,
        {
            let f = &self.tables.findings[i];
            let fi = find_file(&self.tables.files, f.file_id);
            let path = match fi {
                Some(j) => chars_of(self.tables.files[j].path.as_str()),
                None => Vec::new(),
            };
            let rule_ok = match &rule {
                Some(r) => {
                    let fr = chars_of(f.rule_id.as_str());
                    chars_eq(fr.as_slice(), r.as_slice())
                },
                None => true,
            };
            let prefix_ok = match &prefix {
                Some(p) => starts_with_exec(path.as_slice(), p.as_slice()),
                None => true,
            };
            let anchor_ok = match anchor {
                Some((fid, start, end)) => f.file_id == fid && f.end_line >= start && f.start_line <= end,
                None => true,
            };
            let hit = fi.is_some() && rule_ok && prefix_ok && anchor_ok;
            let rule_key = chars_of(f.rule_id.as_str());
            let mut key: Vec<KeyPart> = Vec::new();
            key.push(KeyPart::Text(path));
            key.push(KeyPart::Num(f.start_line as u128));
            key.push(KeyPart::Text(rule_key));
            assert(key_view(key) =~= finding_keys(t)[i as int]);
            assert(hit == sel(i as int));
            hits.push(hit);
            keys.push(key);
            i = i + 1;
        }
        let order = crate::order::select_sorted(&hits, &keys, Ghost(finding_keys(t)), Ghost(sel));
        let mut out: Vec<FindingRecord> = Vec::new();
        let mut a: usize = 0;
        while a < order.len()
            invariant
                a <= order@.len(),
                t == self.tables,
                sel == (|i: int| finding_passes(t, *filter, i)),
                sorted_selection(finding_keys(t), sel, positions_view(order@)),
                out@ == finding_records(t, positions_view(order@)).take(a as int),
            decreases order.len() - a,
        {
            assert(positions_view(order@)[a as int] == order@[a as int] as int);
            assert(sel(positions_view(order@)[a as int]));
            let f = &self.tables.findings[order[a]];
            let j = find_file(&self.tables.files, f.file_id).unwrap();
            let rec = FindingRecord {
                rule_id: copy_string(&f.rule_id),
                file_id: f.file_id,
                path: copy_string(&self.tables.files[j].path),
                start_line: f.start_line,
                end_line: f.end_line,
                message: copy_string(&f.message),
            };
            out.push(rec);
            a = a + 1;
            assert(out@ =~= finding_records(t, positions_view(order@)).take(a as int));
        }
        assert(finding_records(t, positions_view(order@)).take(order@.len() as int) =~= finding_records(t, positions_view(order@)));
        out
    }

    /// Edges at a symbol: outgoing, then incoming, each by edge id, of the
    /// given kinds (all kinds when none are given), for the directions
    /// asked.
    pub fn neighbors(&self, id: &SymbolId, kinds: &Vec<EdgeKind>, dir: Direction) -> (r: Vec<NeighborEdge>)
        ensures
            r@ == neighbors_spec(self.tables, id.0@, effective_kinds(kinds@), dir.wants_out(), dir.wants_in()),
    {
        let ks = effective_kinds_exec(kinds);
        let c = chars_of(id.0.as_str());
        let want_out = match dir { Direction::Out | Direction::Both => true, Direction::In => false };
        let want_in = match dir { Direction::In | Direction::Both => true, Direction::Out => false };
        neighbors_inner(&self.tables, &c, &ks, want_out, want_in)
    }
}


/// A lookup reads back what was written: in a well-formed index, looking
/// up the id of a symbol row gives that row joined with its file, and the
/// join succeeds whenever the row's file id has a file row.
pub proof fn law_lookup_reads_written(t: IndexTables, j: int)
    requires
        t.wf(),
        0 <= j < t.symbols@.len(),
    ensures
        fetch_symbol_spec(t, t.symbols@[j].id.0@) == record_for(t.files@, t.symbols@[j]),
        crate::store::has_file_id(t.files@, t.symbols@[j].file_id)
            ==> record_for(t.files@, t.symbols@[j]) is Some,
{
    let syms = t.symbols@;
    let id = syms[j].id.0@;
    assert(symbol_at(syms, id, j)) by {
        assert forall|k: int| 0 <= k < j implies syms[k].id.0@ != id by {}
    }
    lemma_symbol_at(syms, id, j);
    if crate::store::has_file_id(t.files@, syms[j].file_id) {
        let files = t.files@;
        let fid = syms[j].file_id;
        let a = choose|a: int| 0 <= a < files.len() && files[a].id == fid;
        assert(file_at(files, fid, a)) by {
            assert forall|k: int| 0 <= k < a implies files[k].id != fid by {}
        }
        lemma_file_of(files, fid, a);
    }
}

} // verus!
