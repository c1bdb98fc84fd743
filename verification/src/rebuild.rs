//! A build is a function of its inputs: the rows that two builds of the
//! same walk entries, file contents and rules write are the same, up to
//! the timings they measure.
use vstd::prelude::*;
use crate::extract::{edge_view, edge_views, symbol_view, symbol_views};
use crate::file_processor::{entry_language, processed};
use crate::index::{build_fold, built_from, edge_kind_names, outcome_fits, recorded, write_outcome, BuildState, CountersV};
use crate::model::{EdgeConfidence, EdgeKind, FileId, FileRecord, FileStatus, MallardError, ProcessOutcome, Symbol, SymbolId};
use crate::rules::{finding_views, RuleV};
use crate::store::{
    batch_conflicts, callable_ids, dedup_by_id, edge_row_of, finding_row_of, has_file_id, has_symbol_id,
    is_pending, lookup_key, resolve_row, resolve_rows, symbol_rows, EdgeRow, FindingRow,
};
use crate::syntax::parse_error_views;
use crate::walk::{opt_view, WalkEntry};

verus! {

/// A file row, as text.
pub type RecordV = (FileId, Seq<char>, Option<Seq<char>>, u64, FileStatus);

pub open spec fn record_view(f: FileRecord) -> RecordV {
    (f.id, f.path@, opt_view(f.language), f.size_bytes, f.status)
}

pub open spec fn record_views(v: Seq<FileRecord>) -> Seq<RecordV> {
    v.map_values(|f: FileRecord| record_view(f))
}

pub open spec fn id_opt_view(d: Option<SymbolId>) -> Option<Seq<char>> {
    match d {
        Some(x) => Some(x.0@),
        None => None,
    }
}

/// An edge row, as text.
pub type EdgeRowV = (i64, Seq<char>, Option<Seq<char>>, Option<Seq<char>>, EdgeKind, EdgeConfidence, FileId);

pub open spec fn edge_row_view(e: EdgeRow) -> EdgeRowV {
    (e.edge_id, e.src.0@, id_opt_view(e.dst), opt_view(e.dst_unresolved), e.kind, e.confidence, e.file_id)
}

pub open spec fn edge_row_views(v: Seq<EdgeRow>) -> Seq<EdgeRowV> {
    v.map_values(|e: EdgeRow| edge_row_view(e))
}

/// A finding row, as text.
pub type FindingRowV = (i64, Seq<char>, FileId, u32, u32, Seq<char>);

pub open spec fn finding_row_view(f: FindingRow) -> FindingRowV {
    (f.finding_id, f.rule_id@, f.file_id, f.start_line, f.end_line, f.message@)
}

pub open spec fn finding_row_views(v: Seq<FindingRow>) -> Seq<FindingRowV> {
    v.map_values(|f: FindingRow| finding_row_view(f))
}

/// Two states of a build hold the same rows, ids and counts (their
/// timings aside).
pub open spec fn same_state(a: BuildState, b: BuildState) -> bool {
    &&& record_views(a.files) == record_views(b.files)
    &&& symbol_views(a.symbols) == symbol_views(b.symbols)
    &&& edge_row_views(a.edges) == edge_row_views(b.edges)
    &&& finding_row_views(a.findings) == finding_row_views(b.findings)
    &&& parse_error_views(a.parse_errors) == parse_error_views(b.parse_errors)
    &&& a.next_edge == b.next_edge
    &&& a.next_finding == b.next_finding
    &&& a.counters == b.counters
    &&& a.failed == b.failed
}

/// Two outcomes of one file hold the same rows (their timings aside).
pub open spec fn same_outcome(a: ProcessOutcome, b: ProcessOutcome) -> bool {
    &&& record_view(a.file_record) == record_view(b.file_record)
    &&& a.parsed.is_some() == b.parsed.is_some()
    &&& a.parsed.is_some() ==> {
        let p = a.parsed.unwrap();
        let q = b.parsed.unwrap();
        &&& p.file_id == q.file_id
        &&& symbol_views(p.symbols@) == symbol_views(q.symbols@)
        &&& edge_views(p.edges@) == edge_views(q.edges@)
        &&& parse_error_views(p.parse_errors@) == parse_error_views(q.parse_errors@)
    }
    &&& finding_views(a.findings@) == finding_views(b.findings@)
}

pub open spec fn same_slot(a: Option<ProcessOutcome>, b: Option<ProcessOutcome>) -> bool {
    &&& a.is_some() == b.is_some()
    &&& a.is_some() ==> same_outcome(a.unwrap(), b.unwrap())
}

proof fn lemma_bare_same(o1: ProcessOutcome, o2: ProcessOutcome)
    requires
        record_view(o1.file_record) == record_view(o2.file_record),
        o1.parsed.is_none(),
        o2.parsed.is_none(),
        o1.findings@.len() == 0,
        o2.findings@.len() == 0,
    ensures
        same_outcome(o1, o2),
{
    assert(finding_views(o1.findings@) =~= finding_views(o2.findings@));
}

/// Processing one entry with the same bytes and rules gives the same rows.
proof fn lemma_processed_same(rules: Seq<RuleV>, fid: FileId, entry: WalkEntry, raw: Seq<u8>, o1: ProcessOutcome, o2: ProcessOutcome)
    requires
        processed(rules, fid, entry, raw, Ok(o1)),
        processed(rules, fid, entry, raw, Ok(o2)),
    ensures
        same_outcome(o1, o2),
{
    if entry.status != FileStatus::Indexed || !vstd::utf8::valid_utf8(raw) || entry_language(entry).is_none() {
        lemma_bare_same(o1, o2);
    } else {
        let p = o1.parsed.unwrap();
        let q = o2.parsed.unwrap();
        assert(symbol_views(p.symbols@) == symbol_views(q.symbols@));
        assert(edge_views(p.edges@) == edge_views(q.edges@));
    }
}

/// One processing of an entry cannot both succeed and fail.
proof fn lemma_processed_exclusive(rules: Seq<RuleV>, fid: FileId, entry: WalkEntry, raw: Seq<u8>, o: ProcessOutcome, e: MallardError)
    requires
        processed(rules, fid, entry, raw, Ok(o)),
    ensures
        !processed(rules, fid, entry, raw, Err(e)),
{
}

proof fn lemma_fits_same(rules: Seq<RuleV>, entries: Seq<WalkEntry>, contents: Seq<Option<Vec<u8>>>, k: int,
    a: Option<ProcessOutcome>, b: Option<ProcessOutcome>)
    requires
        0 <= k < entries.len(),
        outcome_fits(rules, entries, contents, k, a),
        outcome_fits(rules, entries, contents, k, b),
    ensures
        same_slot(a, b),
{
    match crate::index::entry_bytes(entries, contents, k) {
        None => {},
        Some(raw) => {
            let fid = (k + 1) as i64;
            match (a, b) {
                (Some(x), Some(y)) => lemma_processed_same(rules, fid, entries[k], raw, x, y),
                (Some(x), None) => {
                    let e = choose|e: MallardError| processed(rules, fid, entries[k], raw, Err(e));
                    lemma_processed_exclusive(rules, fid, entries[k], raw, x, e);
                },
                (None, Some(y)) => {
                    let e = choose|e: MallardError| processed(rules, fid, entries[k], raw, Err(e));
                    lemma_processed_exclusive(rules, fid, entries[k], raw, y, e);
                },
                (None, None) => {},
            }
        },
    }
}

proof fn lemma_has_file_id_same(a: Seq<FileRecord>, b: Seq<FileRecord>, id: FileId)
    requires
        record_views(a) == record_views(b),
    ensures
        has_file_id(a, id) == has_file_id(b, id),
{
    assert(a.len() == record_views(a).len() && b.len() == record_views(b).len());
    if has_file_id(a, id) {
        let j = choose|j: int| 0 <= j < a.len() && a[j].id == id;
        assert(record_views(a)[j] == record_views(b)[j]);
    }
    if has_file_id(b, id) {
        let j = choose|j: int| 0 <= j < b.len() && b[j].id == id;
        assert(record_views(a)[j] == record_views(b)[j]);
    }
}

proof fn lemma_has_symbol_id_same(a: Seq<Symbol>, b: Seq<Symbol>, id: Seq<char>)
    requires
        symbol_views(a) == symbol_views(b),
    ensures
        has_symbol_id(a, id) == has_symbol_id(b, id),
{
    assert(a.len() == symbol_views(a).len() && b.len() == symbol_views(b).len());
    if has_symbol_id(a, id) {
        let j = choose|j: int| 0 <= j < a.len() && a[j].id.0@ == id;
        assert(symbol_views(a)[j] == symbol_view(a[j]));
        assert(symbol_views(b)[j] == symbol_view(b[j]));
        assert(b[j].id.0@ == id);
    }
    if has_symbol_id(b, id) {
        let j = choose|j: int| 0 <= j < b.len() && b[j].id.0@ == id;
        assert(symbol_views(a)[j] == symbol_view(a[j]));
        assert(symbol_views(b)[j] == symbol_view(b[j]));
        assert(a[j].id.0@ == id);
    }
}

proof fn lemma_dedup_same(a: Seq<Symbol>, b: Seq<Symbol>)
    requires
        symbol_views(a) == symbol_views(b),
    ensures
        symbol_views(dedup_by_id(a)) == symbol_views(dedup_by_id(b)),
    decreases a.len(),
{
    assert(a.len() == symbol_views(a).len() && b.len() == symbol_views(b).len());
    if a.len() > 0 {
        assert(symbol_views(a.drop_last()) =~= symbol_views(a).drop_last());
        assert(symbol_views(b.drop_last()) =~= symbol_views(b).drop_last());
        lemma_dedup_same(a.drop_last(), b.drop_last());
        let ra = dedup_by_id(a.drop_last());
        let rb = dedup_by_id(b.drop_last());
        assert(ra.len() == symbol_views(ra).len() && rb.len() == symbol_views(rb).len());
        assert(symbol_views(a)[a.len() - 1] == symbol_views(b)[b.len() - 1]);
        let ea = exists|k: int| 0 <= k < ra.len() && ra[k].id.0@ == a.last().id.0@;
        let eb = exists|k: int| 0 <= k < rb.len() && rb[k].id.0@ == b.last().id.0@;
        if ea {
            let k = choose|k: int| 0 <= k < ra.len() && ra[k].id.0@ == a.last().id.0@;
            assert(symbol_views(ra)[k] == symbol_views(rb)[k]);
        }
        if eb {
            let k = choose|k: int| 0 <= k < rb.len() && rb[k].id.0@ == b.last().id.0@;
            assert(symbol_views(ra)[k] == symbol_views(rb)[k]);
        }
        if !ea {
            assert(symbol_views(ra.push(a.last())) =~= symbol_views(ra).push(symbol_view(a.last())));
            assert(symbol_views(rb.push(b.last())) =~= symbol_views(rb).push(symbol_view(b.last())));
        }
    }
}

proof fn lemma_symbol_rows_same(fid: FileId, a: Seq<Symbol>, b: Seq<Symbol>)
    requires
        symbol_views(a) == symbol_views(b),
    ensures
        symbol_views(symbol_rows(fid, a)) == symbol_views(symbol_rows(fid, b)),
{
    lemma_dedup_same(a, b);
    let da = dedup_by_id(a);
    let db = dedup_by_id(b);
    assert(da.len() == symbol_views(da).len() && db.len() == symbol_views(db).len());
    assert forall|k: int| 0 <= k < da.len() implies #[trigger] symbol_views(symbol_rows(fid, a))[k] == symbol_views(symbol_rows(fid, b))[k] by {
        assert(symbol_views(da)[k] == symbol_views(db)[k]);
    }
    assert(symbol_views(symbol_rows(fid, a)) =~= symbol_views(symbol_rows(fid, b)));
}

proof fn lemma_conflicts_same(t1: Seq<Symbol>, t2: Seq<Symbol>, a: Seq<Symbol>, b: Seq<Symbol>)
    requires
        symbol_views(t1) == symbol_views(t2),
        symbol_views(a) == symbol_views(b),
    ensures
        batch_conflicts(t1, a) == batch_conflicts(t2, b),
{
    lemma_dedup_same(a, b);
    let da = dedup_by_id(a);
    let db = dedup_by_id(b);
    assert(da.len() == symbol_views(da).len() && db.len() == symbol_views(db).len());
    if batch_conflicts(t1, a) {
        let k = choose|k: int| 0 <= k < da.len() && has_symbol_id(t1, da[k].id.0@);
        assert(symbol_views(da)[k] == symbol_views(db)[k]);
        lemma_has_symbol_id_same(t1, t2, da[k].id.0@);
    }
    if batch_conflicts(t2, b) {
        let k = choose|k: int| 0 <= k < db.len() && has_symbol_id(t2, db[k].id.0@);
        assert(symbol_views(da)[k] == symbol_views(db)[k]);
        lemma_has_symbol_id_same(t1, t2, db[k].id.0@);
    }
}

proof fn lemma_recorded_same(c: CountersV, o1: ProcessOutcome, o2: ProcessOutcome)
    requires
        same_outcome(o1, o2),
    ensures
        recorded(c, o1) == recorded(c, o2),
{
    assert(o1.file_record.status == o2.file_record.status);
    assert(o1.findings@.len() == finding_views(o1.findings@).len());
    assert(o2.findings@.len() == finding_views(o2.findings@).len());
    if o1.parsed.is_some() {
        let p = o1.parsed.unwrap();
        let q = o2.parsed.unwrap();
        assert(p.symbols@.len() == symbol_views(p.symbols@).len() && q.symbols@.len() == symbol_views(q.symbols@).len());
        assert(p.parse_errors@.len() == parse_error_views(p.parse_errors@).len());
        assert(q.parse_errors@.len() == parse_error_views(q.parse_errors@).len());
        assert(p.edges@.len() == edge_views(p.edges@).len() && q.edges@.len() == edge_views(q.edges@).len());
        assert forall|k: int| 0 <= k < p.edges@.len() implies #[trigger] edge_kind_names(p.edges@)[k] == edge_kind_names(q.edges@)[k] by {
            assert(edge_views(p.edges@)[k] == edge_views(q.edges@)[k]);
        }
        assert(edge_kind_names(p.edges@) =~= edge_kind_names(q.edges@));
    }
}

/// Writing the same rows into the same state gives the same state.
proof fn lemma_write_same(s1: BuildState, s2: BuildState, o1: ProcessOutcome, o2: ProcessOutcome)
    requires
        same_state(s1, s2),
        same_outcome(o1, o2),
    ensures
        same_state(write_outcome(s1, o1), write_outcome(s2, o2)),
{
    let r1 = write_outcome(s1, o1);
    let r2 = write_outcome(s2, o2);
    let f1 = o1.file_record;
    let f2 = o2.file_record;
    assert(f1.id == f2.id && f1.status == f2.status);
    lemma_has_file_id_same(s1.files, s2.files, f1.id);
    lemma_recorded_same(s1.counters, o1, o2);
    assert(record_views(s1.files.push(f1)) =~= record_views(s1.files).push(record_view(f1)));
    assert(record_views(s2.files.push(f2)) =~= record_views(s2.files).push(record_view(f2)));
    if !s1.failed && o1.parsed.is_some() && f1.status == FileStatus::Indexed {
        let p = o1.parsed.unwrap();
        let q = o2.parsed.unwrap();
        lemma_conflicts_same(s1.symbols, s2.symbols, p.symbols@, q.symbols@);
        assert(p.edges@.len() == edge_views(p.edges@).len() && q.edges@.len() == edge_views(q.edges@).len());
        assert(o1.findings@.len() == finding_views(o1.findings@).len());
        assert(o2.findings@.len() == finding_views(o2.findings@).len());
        if !r1.failed {
            lemma_symbol_rows_same(p.file_id, p.symbols@, q.symbols@);
            assert(symbol_views(r1.symbols) =~= symbol_views(s1.symbols) + symbol_views(symbol_rows(p.file_id, p.symbols@)));
            assert(symbol_views(r2.symbols) =~= symbol_views(s2.symbols) + symbol_views(symbol_rows(q.file_id, q.symbols@)));
            let ne1 = Seq::new(p.edges@.len(), |k: int| edge_row_of(p.edges@[k], (s1.next_edge + k) as i64));
            let ne2 = Seq::new(q.edges@.len(), |k: int| edge_row_of(q.edges@[k], (s2.next_edge + k) as i64));
            assert forall|k: int| 0 <= k < ne1.len() implies #[trigger] edge_row_views(ne1)[k] == edge_row_views(ne2)[k] by {
                assert(edge_views(p.edges@)[k] == edge_views(q.edges@)[k]);
            }
            assert(edge_row_views(ne1) =~= edge_row_views(ne2));
            assert(edge_row_views(r1.edges) =~= edge_row_views(s1.edges) + edge_row_views(ne1));
            assert(edge_row_views(r2.edges) =~= edge_row_views(s2.edges) + edge_row_views(ne2));
            let nf1 = Seq::new(o1.findings@.len(), |k: int| finding_row_of(o1.findings@[k], (s1.next_finding + k) as i64));
            let nf2 = Seq::new(o2.findings@.len(), |k: int| finding_row_of(o2.findings@[k], (s2.next_finding + k) as i64));
            assert forall|k: int| 0 <= k < nf1.len() implies #[trigger] finding_row_views(nf1)[k] == finding_row_views(nf2)[k] by {
                assert(finding_views(o1.findings@)[k] == finding_views(o2.findings@)[k]);
            }
            assert(finding_row_views(nf1) =~= finding_row_views(nf2));
            assert(finding_row_views(r1.findings) =~= finding_row_views(s1.findings) + finding_row_views(nf1));
            assert(finding_row_views(r2.findings) =~= finding_row_views(s2.findings) + finding_row_views(nf2));
            assert(parse_error_views(r1.parse_errors) =~= parse_error_views(s1.parse_errors) + parse_error_views(p.parse_errors@));
            assert(parse_error_views(r2.parse_errors) =~= parse_error_views(s2.parse_errors) + parse_error_views(q.parse_errors@));
        }
    }
}

proof fn lemma_fold_same(a: Seq<Option<ProcessOutcome>>, b: Seq<Option<ProcessOutcome>>, n: int)
    requires
        0 <= n <= a.len(),
        n <= b.len(),
        forall|k: int| 0 <= k < n ==> same_slot(#[trigger] a[k], b[k]),
    ensures
        same_state(build_fold(a, n), build_fold(b, n)),
    decreases n,
{
    if n > 0 {
        lemma_fold_same(a, b, n - 1);
        assert(same_slot(a[n - 1], b[n - 1]));
        if a[n - 1].is_some() {
            lemma_write_same(build_fold(a, n - 1), build_fold(b, n - 1), a[n - 1].unwrap(), b[n - 1].unwrap());
        }
    }
}

pub open spec fn ids_view(v: Seq<SymbolId>) -> Seq<Seq<char>> {
    v.map_values(|x: SymbolId| x.0@)
}

proof fn lemma_callable_same(a: Seq<Symbol>, b: Seq<Symbol>, name: Seq<char>, by_short: bool)
    requires
        symbol_views(a) == symbol_views(b),
    ensures
        ids_view(callable_ids(a, name, by_short)) == ids_view(callable_ids(b, name, by_short)),
    decreases a.len(),
{
    assert(a.len() == symbol_views(a).len() && b.len() == symbol_views(b).len());
    if a.len() > 0 {
        assert(symbol_views(a.drop_last()) =~= symbol_views(a).drop_last());
        assert(symbol_views(b.drop_last()) =~= symbol_views(b).drop_last());
        lemma_callable_same(a.drop_last(), b.drop_last(), name, by_short);
        assert(symbol_views(a)[a.len() - 1] == symbol_views(b)[b.len() - 1]);
        assert(lookup_key(a.last(), by_short) == lookup_key(b.last(), by_short));
        let ra = callable_ids(a.drop_last(), name, by_short);
        let rb = callable_ids(b.drop_last(), name, by_short);
        assert(ids_view(ra.push(a.last().id)) =~= ids_view(ra).push(a.last().id.0@));
        assert(ids_view(rb.push(b.last().id)) =~= ids_view(rb).push(b.last().id.0@));
    }
}

proof fn lemma_resolve_row_same(a: Seq<Symbol>, b: Seq<Symbol>, e1: EdgeRow, e2: EdgeRow)
    requires
        symbol_views(a) == symbol_views(b),
        edge_row_view(e1) == edge_row_view(e2),
    ensures
        edge_row_view(resolve_row(a, e1)) == edge_row_view(resolve_row(b, e2)),
{
    assert(is_pending(e1) == is_pending(e2));
    if is_pending(e1) {
        let name = e1.dst_unresolved.unwrap()@;
        assert(e2.dst_unresolved.unwrap()@ == name);
        lemma_callable_same(a, b, name, false);
        lemma_callable_same(a, b, name, true);
        let q1 = callable_ids(a, name, false);
        let q2 = callable_ids(b, name, false);
        let t1 = callable_ids(a, name, true);
        let t2 = callable_ids(b, name, true);
        assert(q1.len() == ids_view(q1).len() && q2.len() == ids_view(q2).len());
        assert(t1.len() == ids_view(t1).len() && t2.len() == ids_view(t2).len());
        if q1.len() == 1 {
            assert(ids_view(q1)[0] == ids_view(q2)[0]);
        } else if q1.len() == 0 && t1.len() == 1 {
            assert(ids_view(t1)[0] == ids_view(t2)[0]);
        }
    }
}

proof fn lemma_resolve_same(a: Seq<Symbol>, b: Seq<Symbol>, e1: Seq<EdgeRow>, e2: Seq<EdgeRow>)
    requires
        symbol_views(a) == symbol_views(b),
        edge_row_views(e1) == edge_row_views(e2),
    ensures
        edge_row_views(resolve_rows(a, e1)) == edge_row_views(resolve_rows(b, e2)),
{
    assert(e1.len() == edge_row_views(e1).len() && e2.len() == edge_row_views(e2).len());
    assert forall|k: int| 0 <= k < e1.len() implies #[trigger] edge_row_views(resolve_rows(a, e1))[k] == edge_row_views(resolve_rows(b, e2))[k] by {
        assert(edge_row_views(e1)[k] == edge_row_views(e2)[k]);
        lemma_resolve_row_same(a, b, e1[k], e2[k]);
    }
    assert(edge_row_views(resolve_rows(a, e1)) =~= edge_row_views(resolve_rows(b, e2)));
}

/// Two successful builds of the same walk entries, file contents and rules
/// write the same file, symbol, edge, finding and parse-error rows and
/// report the same counts; only the measured timings may differ.
pub proof fn law_build_deterministic(rules: Seq<RuleV>, entries: Seq<WalkEntry>, contents: Seq<Option<Vec<u8>>>, n: usize,
    r1: Result<(crate::index::BuildSummary, crate::store::IndexTables), MallardError>,
    r2: Result<(crate::index::BuildSummary, crate::store::IndexTables), MallardError>)
    requires
        exists|outs: Seq<Option<ProcessOutcome>>| built_from(rules, entries, contents, n, outs, r1),
        exists|outs: Seq<Option<ProcessOutcome>>| built_from(rules, entries, contents, n, outs, r2),
        r1.is_ok(),
        r2.is_ok(),
    ensures
        record_views(r1.unwrap().1.files@) == record_views(r2.unwrap().1.files@),
        symbol_views(r1.unwrap().1.symbols@) == symbol_views(r2.unwrap().1.symbols@),
        edge_row_views(r1.unwrap().1.edges@) == edge_row_views(r2.unwrap().1.edges@),
        finding_row_views(r1.unwrap().1.findings@) == finding_row_views(r2.unwrap().1.findings@),
        parse_error_views(r1.unwrap().1.parse_errors@) == parse_error_views(r2.unwrap().1.parse_errors@),
        r1.unwrap().0.counters@ == r2.unwrap().0.counters@,
{
    let o1 = choose|outs: Seq<Option<ProcessOutcome>>| built_from(rules, entries, contents, n, outs, r1);
    let o2 = choose|outs: Seq<Option<ProcessOutcome>>| built_from(rules, entries, contents, n, outs, r2);
    assert forall|k: int| 0 <= k < o1.len() implies same_slot(#[trigger] o1[k], o2[k]) by {
        lemma_fits_same(rules, entries, contents, k, o1[k], o2[k]);
    }
    lemma_fold_same(o1, o2, o1.len() as int);
    let st1 = build_fold(o1, o1.len() as int);
    let st2 = build_fold(o2, o2.len() as int);
    lemma_resolve_same(st1.symbols, st2.symbols, st1.edges, st2.edges);
}

} // verus!
