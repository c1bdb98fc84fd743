//! Building an index: every walk entry is processed in order, written to
//! the index tables, counted, and timed; after the last file the pending
//! call edges are resolved across files.
use vstd::prelude::*;
use crate::clock::{clock_now, millis_since};
use crate::file_processor::{entry_language, extracted_by, processed, FileProcessor};
use crate::extract::{edge_tiered, edge_view};
use crate::syntax::syntax_table;
use crate::model::{Edge, FileId, FileRecord, FileStatus, FileTiming, MallardError, Metadata, ParseError, ProcessOutcome, Symbol};
use crate::order::{key_view, lemma_sorted_selection_len, positions_view, KeyPart, PartV};
use crate::rules::{rule_views, RuleSet, RuleV};
use crate::store::{batch_conflicts, finding_row_of, EdgeRow, FindingRow, edge_row_consistent, has_file_id, symbol_rows, edge_row_of, law_resolve_idempotent, law_resolve_keeps_tiers, metadata_view, resolve_rows, seeded_metadata, IndexTables, IndexWriter, MetadataRow};
use crate::text::{copy_opt_string, copy_string, str_eq};
use crate::walk::{opt_view, WalkEntry};

verus! {

/// Counts of a build.
pub ghost struct CountersV {
    pub files_indexed: u64,
    pub symbols: u64,
    pub edges_by_kind: Map<Seq<char>, u64>,
    pub findings: u64,
    pub files_skipped_by_reason: Map<Seq<char>, u64>,
    pub parse_errors: u64,
}

/// Counts of a build. Each count stops at `u64::MAX`. The two tallies
/// are lists of (name, count) pairs holding each name once, stated as maps
/// from the names' texts; a std map keyed by `String` would leave its
/// contents unproved.
#[derive(Debug, Clone)]
pub struct Counters {
    pub files_indexed: u64,
    pub symbols: u64,
    pub edges_by_kind: Vec<(String, u64)>,
    pub findings: u64,
    pub files_skipped_by_reason: Vec<(String, u64)>,
    pub parse_errors: u64,
}

/// No name occurs twice.
pub open spec fn tally_distinct(v: Seq<(String, u64)>) -> bool {
    forall|a: int, b: int| 0 <= a < b < v.len() ==> v[a].0@ != v[b].0@
}

/// A tally as a map from name to count.
pub open spec fn tally_map(v: Seq<(String, u64)>) -> Map<Seq<char>, u64>
    decreases v.len(),
{
    if v.len() == 0 {
        Map::empty()
    } else {
        tally_map(v.drop_last()).insert(v.last().0@, v.last().1)
    }
}

/// `a + n`, or `u64::MAX` when that does not fit.
pub open spec fn sat_add(a: u64, n: int) -> u64 {
    if a + n > u64::MAX { u64::MAX } else { (a + n) as u64 }
}

/// One more occurrence of `k`.
pub open spec fn bumped(m: Map<Seq<char>, u64>, k: Seq<char>) -> Map<Seq<char>, u64> {
    m.insert(k, if m.contains_key(k) { sat_add(m[k], 1) } else { 1 })
}

/// One more occurrence of each name, in order.
pub open spec fn bumped_all(m: Map<Seq<char>, u64>, ks: Seq<Seq<char>>) -> Map<Seq<char>, u64>
    decreases ks.len(),
{
    if ks.len() == 0 {
        m
    } else {
        bumped(bumped_all(m, ks.drop_last()), ks.last())
    }
}

pub open spec fn edge_kind_names(es: Seq<Edge>) -> Seq<Seq<char>> {
    es.map_values(|e: Edge| e.kind.name())
}

impl View for Counters {
    type V = CountersV;

    open spec fn view(&self) -> CountersV {
        CountersV {
            files_indexed: self.files_indexed,
            symbols: self.symbols,
            edges_by_kind: tally_map(self.edges_by_kind@),
            findings: self.findings,
            files_skipped_by_reason: tally_map(self.files_skipped_by_reason@),
            parse_errors: self.parse_errors,
        }
    }
}

impl Counters {
    pub open spec fn wf(&self) -> bool {
        tally_distinct(self.edges_by_kind@) && tally_distinct(self.files_skipped_by_reason@)
    }
}

/// What recording one outcome does to the counts. An indexed file adds
/// its symbols, parse errors and edges (by kind name) when it was parsed,
/// counts as indexed when it has no parse error, and adds its findings;
/// an unparseable one adds a parse error; a skipped one counts under its
/// status's name.
pub open spec fn recorded(c: CountersV, o: ProcessOutcome) -> CountersV {
    match o.file_record.status {
        FileStatus::Indexed => {
            let c1 = match o.parsed {
                Some(p) => CountersV {
                    symbols: sat_add(c.symbols, p.symbols@.len() as int),
                    parse_errors: sat_add(c.parse_errors, p.parse_errors@.len() as int),
                    edges_by_kind: bumped_all(c.edges_by_kind, edge_kind_names(p.edges@)),
                    files_indexed: if p.parse_errors@.len() == 0 { sat_add(c.files_indexed, 1) } else { c.files_indexed },
                    ..c
                },
                None => c,
            };
            CountersV { findings: sat_add(c1.findings, o.findings@.len() as int), ..c1 }
        },
        FileStatus::Unparseable => CountersV { parse_errors: sat_add(c.parse_errors, 1), ..c },
        s => CountersV { files_skipped_by_reason: bumped(c.files_skipped_by_reason, s.name()), ..c },
    }
}

proof fn lemma_tally_dom(v: Seq<(String, u64)>, k: Seq<char>)
    ensures
        tally_map(v).contains_key(k) <==> exists|i: int| 0 <= i < v.len() && (#[trigger] v[i]).0@ == k,
    decreases v.len(),
{
    if v.len() > 0 {
        lemma_tally_dom(v.drop_last(), k);
        if exists|i: int| 0 <= i < v.drop_last().len() && (#[trigger] v.drop_last()[i]).0@ == k {
            let i = choose|i: int| 0 <= i < v.drop_last().len() && (#[trigger] v.drop_last()[i]).0@ == k;
            assert(v[i].0@ == k);
        }
        if exists|i: int| 0 <= i < v.len() && (#[trigger] v[i]).0@ == k {
            let i = choose|i: int| 0 <= i < v.len() && (#[trigger] v[i]).0@ == k;
            if i < v.len() - 1 {
                assert(v.drop_last()[i].0@ == k);
            }
        }
    }
}

proof fn lemma_tally_update(v: Seq<(String, u64)>, j: int, x: (String, u64))
    requires
        tally_distinct(v),
        0 <= j < v.len(),
        x.0@ == v[j].0@,
    ensures
        tally_map(v).contains_key(v[j].0@),
        tally_map(v)[v[j].0@] == v[j].1,
        tally_map(v.update(j, x)) == tally_map(v).insert(v[j].0@, x.1),
        tally_distinct(v.update(j, x)),
    decreases v.len(),
{
    let w = v.update(j, x);
    if j == v.len() - 1 {
        assert(w.drop_last() =~= v.drop_last());
        assert(tally_map(w) =~= tally_map(v).insert(v[j].0@, x.1));
    } else {
        lemma_tally_update(v.drop_last(), j, x);
        assert(w.drop_last() =~= v.drop_last().update(j, x));
        assert(v.last().0@ != v[j].0@);
        assert(tally_map(w) =~= tally_map(v).insert(v[j].0@, x.1));
    }
}

/// Counts one more occurrence of `name` in a tally.
fn bump(v: &mut Vec<(String, u64)>, name: &str)
    requires
        tally_distinct(old(v)@),
    ensures
        tally_distinct(final(v)@),
        tally_map(final(v)@) == bumped(tally_map(old(v)@), name@),
{
    let mut j: usize = 0;
    while j < v.len()
        invariant
            *v == *old(v),
            tally_distinct(v@),
            j <= v@.len(),
            forall|a: int| 0 <= a < j ==> (#[trigger] v@[a]).0@ != name@,
        decreases v.len() - j,
    {
        if str_eq(v[j].0.as_str(), name) {
            let count = v[j].1;
            let next = if count == u64::MAX { u64::MAX } else { count + 1 };
            let key = copy_string(&v[j].0);
            let ghost old_v = v@;
            proof {
                lemma_tally_update(old_v, j as int, (key, next));
            }
            v.set(j, (key, next));
            assert(v@ == old_v.update(j as int, (key, next)));
            return;
        }
        j = j + 1;
    }
    proof {
        lemma_tally_dom(v@, name@);
    }
    let ghost old_v = v@;
    v.push((name.to_string(), 1u64));
    assert(v@.drop_last() =~= old_v);
}

/// One more occurrence of each edge's kind name.
fn bump_edge_kinds(v: &mut Vec<(String, u64)>, edges: &Vec<Edge>)
    requires
        tally_distinct(old(v)@),
    ensures
        tally_distinct(final(v)@),
        tally_map(final(v)@) == bumped_all(tally_map(old(v)@), edge_kind_names(edges@)),
{
    let mut i: usize = 0;
    while i < edges.len()
        invariant
            i <= edges@.len(),
            tally_distinct(v@),
            tally_map(v@) == bumped_all(tally_map(old(v)@), edge_kind_names(edges@).take(i as int)),
        decreases edges.len() - i,
    {
        bump(v, edges[i].kind.as_str());
        assert(edge_kind_names(edges@).take(i + 1).drop_last() =~= edge_kind_names(edges@).take(i as int));
        i = i + 1;
    }
    assert(edge_kind_names(edges@).take(edges@.len() as int) =~= edge_kind_names(edges@));
}

fn sat_add_exec(a: u64, n: usize) -> (r: u64)
    ensures
        r == sat_add(a, n as int),
{
    let m = n as u64;
    if a > u64::MAX - m { u64::MAX } else { a + m }
}

impl Counters {
    /// All counts zero, both tallies empty.
    pub fn new() -> (r: Counters)
        ensures
            r.wf(),
            r@.files_indexed == 0 && r@.symbols == 0 && r@.findings == 0 && r@.parse_errors == 0,
            r@.edges_by_kind == Map::<Seq<char>, u64>::empty(),
            r@.files_skipped_by_reason == Map::<Seq<char>, u64>::empty(),
    {
        Counters {
            files_indexed: 0,
            symbols: 0,
            edges_by_kind: Vec::new(),
            findings: 0,
            files_skipped_by_reason: Vec::new(),
            parse_errors: 0,
        }
    }

    /// Adds one processed file to the counts.
    pub fn record(&mut self, outcome: &ProcessOutcome)
        requires
            old(self).wf(),
        ensures
            final(self).wf(),
            final(self)@ == recorded(old(self)@, *outcome),
    {
        match outcome.file_record.status {
            FileStatus::Indexed => {
                match &outcome.parsed {
                    Some(parsed) => {
                        self.symbols = sat_add_exec(self.symbols, parsed.symbols.len());
                        self.parse_errors = sat_add_exec(self.parse_errors, parsed.parse_errors.len());
                        bump_edge_kinds(&mut self.edges_by_kind, &parsed.edges);
                        if parsed.parse_errors.len() == 0 {
                            self.files_indexed = sat_add_exec(self.files_indexed, 1);
                        }
                    },
                    None => {},
                }
                self.findings = sat_add_exec(self.findings, outcome.findings.len());
            },
            FileStatus::Unparseable => {
                self.parse_errors = sat_add_exec(self.parse_errors, 1);
            },
            other => {
                bump(&mut self.files_skipped_by_reason, other.as_str());
            },
        }
    }
}

impl Default for Counters {
    fn default() -> (r: Counters)
        ensures
            r.wf(),
            r@.files_indexed == 0 && r@.symbols == 0 && r@.findings == 0 && r@.parse_errors == 0,
            r@.edges_by_kind == Map::<Seq<char>, u64>::empty(),
            r@.files_skipped_by_reason == Map::<Seq<char>, u64>::empty(),
    {
        Counters::new()
    }
}

} // verus!

verus! {

/// Version of the indexer stamped into each index and build summary.
pub const INDEXER_VERSION: &'static str = "0.1.3";

/// What to build: the tree at `root` at commit `sha`, with the rules at
/// `rules_path` if any, into `out_path`.
#[derive(Debug, Clone)]
pub struct BuildRequest {
    pub root: String,
    pub sha: String,
    pub rules_path: Option<String>,
    pub out_path: String,
    pub max_file_bytes: u64,
    pub language_allow_list: Vec<String>,
    pub slowest_files_n: usize,
}

/// What a build reports.
#[derive(Debug, Clone)]
pub struct BuildSummary {
    pub sha: String,
    pub indexer_version: String,
    pub rule_set_hash: Option<String>,
    pub out_path: String,
    pub elapsed_ms: u64,
    pub counters: Counters,
    pub slowest_files: Vec<FileTiming>,
}

/// Total time of one file's passes.
pub open spec fn timing_total(t: FileTiming) -> int {
    t.parse_ms + t.query_ms + t.rules_ms
}

/// The file record describes walk entry `k` (file id `k + 1`).
pub open spec fn record_of_entry(f: FileRecord, entries: Seq<WalkEntry>) -> bool {
    &&& 1 <= f.id <= entries.len()
    &&& f.path@ == entries[f.id - 1].relative_path@
    &&& f.language == entries[f.id - 1].language
    &&& f.size_bytes == entries[f.id - 1].size_bytes
}

/// Some record has file id `id` and status `status`.
pub open spec fn has_record(files: Seq<FileRecord>, id: int, status: FileStatus) -> bool {
    exists|a: int| 0 <= a < files.len() && (#[trigger] files[a]).id == id && files[a].status == status
}

/// The metadata rows of a build.
pub open spec fn build_metadata(rows: Seq<MetadataRow>, req: BuildRequest, hash: Option<Seq<char>>, built_at: Seq<char>) -> bool {
    exists|m: Metadata|
        #![trigger seeded_metadata(m)]
        m.sha@ == req.sha@ && m.indexer_version@ == INDEXER_VERSION@ && opt_view(m.rule_set_hash) == hash
            && m.built_at@ == built_at
            && m.language_allow_list@.map_values(|s: String| s@) == req.language_allow_list@.map_values(|s: String| s@)
            && metadata_view(rows) == seeded_metadata(m)
}

/// What stands in the tables while entries `0..k` have been processed.
pub open spec fn build_progress(files: Seq<FileRecord>, entries: Seq<WalkEntry>, contents: Seq<Option<Vec<u8>>>, k: int) -> bool {
    &&& forall|a: int| 0 <= a < files.len() ==> (#[trigger] files[a]).id <= k && record_of_entry(files[a], entries)
    &&& forall|a: int, b: int| 0 <= a < b < files.len() ==> files[a].id < files[b].id
    &&& forall|j: int| 0 <= j < k && (#[trigger] entries[j]).status != FileStatus::Indexed
        ==> has_record(files, j + 1, entries[j].status)
    &&& forall|j: int| 0 <= j < k && (#[trigger] entries[j]).status == FileStatus::Indexed && contents[j].is_some()
        && !vstd::utf8::valid_utf8(contents[j].unwrap()@)
        ==> has_record(files, j + 1, FileStatus::SkippedBinary)
}

fn copy_strings(v: &Vec<String>) -> (r: Vec<String>)
    ensures
        r@.map_values(|s: String| s@) == v@.map_values(|s: String| s@),
{
    let mut out: Vec<String> = Vec::new();
    let mut i: usize = 0;
    while i < v.len()
        invariant
            i <= v@.len(),
            out@.map_values(|s: String| s@) == v@.take(i as int).map_values(|s: String| s@),
        decreases v.len() - i,
    {
        let ghost before = out@;
        out.push(copy_string(&v[i]));
        assert(out@.map_values(|s: String| s@) =~= before.map_values(|s: String| s@).push(v@[i as int]@));
        assert(v@.take(i + 1) =~= v@.take(i as int).push(v@[i as int]));
        i = i + 1;
    }
    assert(v@.take(v@.len() as int) =~= v@);
    out
}

fn copy_timing(t: &FileTiming) -> (r: FileTiming)
    ensures
        r == *t,
{
    FileTiming { path: copy_string(&t.path), parse_ms: t.parse_ms, query_ms: t.query_ms, rules_ms: t.rules_ms }
}

/// Adds `name` with count 0 when the tally lacks it.
fn ensure_key(v: &mut Vec<(String, u64)>, name: &str)
    requires
        tally_distinct(old(v)@),
    ensures
        tally_distinct(final(v)@),
        tally_map(final(v)@) == if tally_map(old(v)@).contains_key(name@) {
            tally_map(old(v)@)
        } else {
            tally_map(old(v)@).insert(name@, 0u64)
        },
{
    let mut j: usize = 0;
    while j < v.len()
        invariant
            *v == *old(v),
            tally_distinct(v@),
            j <= v@.len(),
            forall|a: int| 0 <= a < j ==> (#[trigger] v@[a]).0@ != name@,
        decreases v.len() - j,
    {
        if str_eq(v[j].0.as_str(), name) {
            proof {
                lemma_tally_dom(v@, name@);
            }
            return;
        }
        j = j + 1;
    }
    proof {
        lemma_tally_dom(v@, name@);
    }
    let ghost old_v = v@;
    v.push((name.to_string(), 0u64));
    assert(v@.drop_last() =~= old_v);
}

/// Sort key of each timing: larger totals first.
pub open spec fn slowest_keys(ts: Seq<FileTiming>) -> Seq<Seq<PartV>> {
    Seq::new(ts.len(), |i: int| seq![PartV::Num(0x4_0000_0000_0000_0000int - timing_total(ts[i]))])
}

/// Positions of the timings, slowest first, ties in their given order.
pub open spec fn slowest_order(ts: Seq<FileTiming>) -> Seq<int> {
    crate::order::sorted_positions(slowest_keys(ts), |i: int| true)
}

/// The two timings hold the same path and the same durations.
pub open spec fn same_timing(a: FileTiming, b: FileTiming) -> bool {
    a.path@ == b.path@ && a.parse_ms == b.parse_ms && a.query_ms == b.query_ms && a.rules_ms == b.rules_ms
}

/// The `n` slowest timings, slowest first; ties keep their order.
fn slowest(timings: &Vec<FileTiming>, n: usize) -> (r: Vec<FileTiming>)
    ensures
        r@.len() == (if n < timings@.len() { n as int } else { timings@.len() as int }),
        forall|c: int| 0 <= c < r@.len() ==> 0 <= slowest_order(timings@)[c] < timings@.len()
            && same_timing(#[trigger] r@[c], timings@[slowest_order(timings@)[c]]),
        forall|a: int, b: int| 0 <= a < b < r@.len() ==> timing_total(r@[a]) >= timing_total(r@[b]),
{
    let big: u128 = 0x4_0000_0000_0000_0000u128;
    let ghost keys = slowest_keys(timings@);
    let mut hits: Vec<bool> = Vec::new();
    let mut ks: Vec<Vec<KeyPart>> = Vec::new();
    let mut i: usize = 0;
    while i < timings.len()
        invariant
            i <= timings@.len(),
            big == 0x4_0000_0000_0000_0000u128,
            keys == slowest_keys(timings@),
            hits@.len() == i,
            ks@.len() == i,
            forall|j: int| 0 <= j < i ==> #[trigger] hits@[j] == (|x: int| true)(j),
            forall|j: int| 0 <= j < i ==> key_view(#[trigger] ks@[j]) == keys[j],
        decreases timings.len() - i,
    {
        let t = &timings[i];
        let total: u128 = (t.parse_ms as u128) + (t.query_ms as u128) + (t.rules_ms as u128);
        let mut key: Vec<KeyPart> = Vec::new();
        key.push(KeyPart::Num(big - total));
        assert(key_view(key) =~= keys[i as int]);
        hits.push(true);
        ks.push(key);
        i = i + 1;
    }
    let order = crate::order::select_sorted(&hits, &ks, Ghost(keys), Ghost(|x: int| true));
    let ghost pv = positions_view(order@);
    let mut out: Vec<FileTiming> = Vec::new();
    let mut a: usize = 0;
    while a < order.len() && a < n
        invariant
            a <= order@.len(),
            a <= n,
            out@.len() == a,
            pv == positions_view(order@),
            crate::order::sorted_selection(keys, |x: int| true, pv),
            keys == slowest_keys(timings@),
            big == 0x4_0000_0000_0000_0000u128,
            forall|c: int| 0 <= c < a ==> 0 <= pv[c] < timings@.len() && (#[trigger] out@[c]).path@ == timings@[pv[c]].path@
                && out@[c].parse_ms == timings@[pv[c]].parse_ms && out@[c].query_ms == timings@[pv[c]].query_ms
                && out@[c].rules_ms == timings@[pv[c]].rules_ms,
        decreases order.len() - a,
    {
        assert(pv[a as int] == order@[a as int] as int);
        assert(0 <= pv[a as int] < keys.len());
        out.push(copy_timing(&timings[order[a]]));
        a = a + 1;
    }
    proof {
        reveal_with_fuel(crate::order::key_lt, 2);
        lemma_sorted_selection_len(keys, |x: int| true, pv);
        crate::order::lemma_permutation_len(keys, pv);
        crate::order::lemma_is_sorted_positions(keys, |x: int| true, pv);
        assert(slowest_order(timings@) == pv);
        assert forall|c: int, d: int| 0 <= c < d < out@.len() implies timing_total(out@[c]) >= timing_total(out@[d]) by {
            assert(crate::order::sorts_before(keys, pv[c], pv[d]));
        }
    }
    out
}


/// The tables, counts and timings of a build as they grow file by file,
/// the next edge and finding ids, and whether a write has failed.
pub ghost struct BuildState {
    pub files: Seq<FileRecord>,
    pub symbols: Seq<Symbol>,
    pub edges: Seq<EdgeRow>,
    pub findings: Seq<FindingRow>,
    pub parse_errors: Seq<ParseError>,
    pub next_edge: int,
    pub next_finding: int,
    pub counters: CountersV,
    pub timings: Seq<FileTiming>,
    pub failed: bool,
}

/// Before the first file: empty tables, ids from 1, zero counts.
pub open spec fn build_start() -> BuildState {
    BuildState {
        files: seq![],
        symbols: seq![],
        edges: seq![],
        findings: seq![],
        parse_errors: seq![],
        next_edge: 1,
        next_finding: 1,
        counters: CountersV {
            files_indexed: 0,
            symbols: 0,
            edges_by_kind: Map::empty(),
            findings: 0,
            files_skipped_by_reason: Map::empty(),
            parse_errors: 0,
        },
        timings: seq![],
        failed: false,
    }
}

pub open spec fn timings_after(ts: Seq<FileTiming>, o: ProcessOutcome) -> Seq<FileTiming> {
    match o.timing {
        Some(t) => ts.push(t),
        None => ts,
    }
}

/// Writing one processed file: a parsed, indexed file adds its file row,
/// symbols, edges and findings (with the next ids) and parse errors, and
/// fails when its file id or a symbol id is taken or an id sequence would
/// run out; any other file adds its file row, and fails when its id is
/// taken. A written file is counted and its timing kept. Nothing is
/// written after a failure.
pub open spec fn write_outcome(st: BuildState, o: ProcessOutcome) -> BuildState {
    if st.failed {
        st
    } else if o.parsed.is_some() && o.file_record.status == FileStatus::Indexed {
        let p = o.parsed.unwrap();
        if !has_file_id(st.files, o.file_record.id) && !batch_conflicts(st.symbols, p.symbols@)
            && st.next_edge + p.edges@.len() <= i64::MAX && st.next_finding + o.findings@.len() <= i64::MAX {
            BuildState {
                files: st.files.push(o.file_record),
                symbols: st.symbols + symbol_rows(p.file_id, p.symbols@),
                edges: st.edges + Seq::new(p.edges@.len(), |k: int| edge_row_of(p.edges@[k], (st.next_edge + k) as i64)),
                findings: st.findings + Seq::new(o.findings@.len(), |k: int| finding_row_of(o.findings@[k], (st.next_finding + k) as i64)),
                parse_errors: st.parse_errors + p.parse_errors@,
                next_edge: st.next_edge + p.edges@.len(),
                next_finding: st.next_finding + o.findings@.len(),
                counters: recorded(st.counters, o),
                timings: timings_after(st.timings, o),
                failed: false,
            }
        } else {
            BuildState { failed: true, ..st }
        }
    } else if !has_file_id(st.files, o.file_record.id) {
        BuildState {
            files: st.files.push(o.file_record),
            counters: recorded(st.counters, o),
            timings: timings_after(st.timings, o),
            ..st
        }
    } else {
        BuildState { failed: true, ..st }
    }
}

/// The state after writing the outcomes of the first `n` entries in turn
/// (an entry without an outcome writes nothing).
pub open spec fn build_fold(outs: Seq<Option<ProcessOutcome>>, n: int) -> BuildState
    decreases n,
{
    if n <= 0 {
        build_start()
    } else {
        match outs[n - 1] {
            Some(o) => write_outcome(build_fold(outs, n - 1), o),
            None => build_fold(outs, n - 1),
        }
    }
}

/// The bytes entry `k` is processed with: none for an entry that is not
/// indexed, the file's contents for one that is; no bytes when its file
/// could not be read.
pub open spec fn entry_bytes(entries: Seq<WalkEntry>, contents: Seq<Option<Vec<u8>>>, k: int) -> Option<Seq<u8>> {
    if entries[k].status != FileStatus::Indexed {
        Some(seq![])
    } else {
        match contents[k] {
            Some(b) => Some(b@),
            None => None,
        }
    }
}

/// `o` is what processing entry `k` as file `k + 1` gives: nothing for an
/// entry whose file could not be read or whose processing fails, otherwise
/// its outcome.
pub open spec fn outcome_fits(rules: Seq<RuleV>, entries: Seq<WalkEntry>, contents: Seq<Option<Vec<u8>>>, k: int, o: Option<ProcessOutcome>) -> bool {
    match entry_bytes(entries, contents, k) {
        None => o.is_none(),
        Some(raw) => match o {
            Some(oc) => processed(rules, (k + 1) as i64, entries[k], raw, Ok(oc)),
            None => exists|e: MallardError| processed(rules, (k + 1) as i64, entries[k], raw, Err(e)),
        },
    }
}

/// A tally with each of the three edge kinds present (count 0 if new).
pub open spec fn with_key(m: Map<Seq<char>, u64>, k: Seq<char>) -> Map<Seq<char>, u64> {
    if m.contains_key(k) { m } else { m.insert(k, 0u64) }
}

pub open spec fn final_tally(m: Map<Seq<char>, u64>) -> Map<Seq<char>, u64> {
    with_key(with_key(with_key(m, "calls"@), "imports"@), "contains"@)
}

/// The build processed entries in order, one outcome each, and wrote them
/// until a write failed: it failed exactly when the last outcome could
/// not be written; on success every entry has its outcome, the tables are
/// what the outcomes wrote (edges resolved), the counters count them, and
/// the slowest timings are the `n` slowest of theirs.
pub open spec fn built_from(rules: Seq<RuleV>, entries: Seq<WalkEntry>, contents: Seq<Option<Vec<u8>>>, n: usize,
    outs: Seq<Option<ProcessOutcome>>, r: Result<(BuildSummary, IndexTables), MallardError>) -> bool {
    &&& outs.len() <= entries.len()
    &&& forall|k: int| 0 <= k < outs.len() ==> outcome_fits(rules, entries, contents, k, #[trigger] outs[k])
    &&& r.is_err() ==> outs.len() > 0 && build_fold(outs, outs.len() as int).failed && !build_fold(outs, outs.len() - 1).failed
    &&& r.is_ok() ==> {
        let st = build_fold(outs, outs.len() as int);
        let s = r.unwrap().0;
        let t = r.unwrap().1;
        &&& outs.len() == entries.len()
        &&& !st.failed
        &&& t.files@ == st.files
        &&& t.symbols@ == st.symbols
        &&& t.edges@ == resolve_rows(st.symbols, st.edges)
        &&& t.findings@ == st.findings
        &&& t.parse_errors@ == st.parse_errors
        &&& s.counters@ == CountersV { edges_by_kind: final_tally(st.counters.edges_by_kind), ..st.counters }
        &&& s.slowest_files@.len() == (if n < st.timings.len() { n as int } else { st.timings.len() as int })
        &&& forall|c: int| 0 <= c < s.slowest_files@.len()
            ==> same_timing(#[trigger] s.slowest_files@[c], st.timings[slowest_order(st.timings)[c]])
    }
}

proof fn lemma_fold_prefix(a: Seq<Option<ProcessOutcome>>, b: Seq<Option<ProcessOutcome>>, n: int)
    requires
        0 <= n <= a.len(),
        n <= b.len(),
        forall|j: int| 0 <= j < n ==> a[j] == b[j],
    ensures
        build_fold(a, n) == build_fold(b, n),
    decreases n,
{
    if n > 0 {
        lemma_fold_prefix(a, b, n - 1);
    }
}

/// Builds the index of the walk entries `entries`, whose file contents the
/// caller read into `contents` (none where reading failed). Entries are
/// processed in order, entry `k` as file `k + 1`; an entry whose file could
/// not be read or parsed is left out. After the last file the pending call
/// edges are resolved across files. Fails only when writing a row fails.
pub fn build(req: &BuildRequest, rules: RuleSet, built_at: String, entries: &Vec<WalkEntry>, contents: &Vec<Option<Vec<u8>>>) -> (r: Result<(BuildSummary, IndexTables), MallardError>)
    requires
        entries@.len() == contents@.len(),
        entries@.len() < i64::MAX,
    ensures
        r.is_ok() ==> {
            let s = r.unwrap().0;
            let t = r.unwrap().1;
            &&& s.sha@ == req.sha@
            &&& s.indexer_version@ == INDEXER_VERSION@
            &&& s.out_path@ == req.out_path@
            &&& s.rule_set_hash == rules.source_hash
            &&& build_metadata(t.metadata@, *req, opt_view(rules.source_hash), built_at@)
            &&& t.wf()
            &&& build_progress(t.files@, entries@, contents@, entries@.len() as int)
            &&& resolve_rows(t.symbols@, t.edges@) == t.edges@
            &&& forall|i: int| 0 <= i < t.edges@.len() ==> #[trigger] edge_row_consistent(t.edges@[i])
            &&& forall|i: int| 0 <= i < t.symbols@.len() ==> has_file_id(t.files@, (#[trigger] t.symbols@[i]).file_id)
            &&& s.counters.wf()
            &&& s.counters@.edges_by_kind.contains_key("calls"@)
            &&& s.counters@.edges_by_kind.contains_key("imports"@)
            &&& s.counters@.edges_by_kind.contains_key("contains"@)
            &&& s.slowest_files@.len() <= req.slowest_files_n
            &&& forall|a: int, b: int| 0 <= a < b < s.slowest_files@.len()
                ==> timing_total(s.slowest_files@[a]) >= timing_total(s.slowest_files@[b])
        },
        r.is_err() ==> r.unwrap_err() is DuckDb,
        exists|outs: Seq<Option<ProcessOutcome>>| #[trigger] built_from(rule_views(rules.rules@), entries@, contents@, req.slowest_files_n, outs, r),
{
    let started = clock_now();
    let ghost hash0 = rules.source_hash;
    let ghost rv = rule_views(rules.rules@);
    let empty: Vec<u8> = Vec::new();
    let mut processor = match FileProcessor::new(rules) {
        Ok(p) => p,
        Err(e) => return Err(e),
    };
    let hash = match processor.rule_set_hash() {
        Some(h) => Some(h.to_string()),
        None => None,
    };
    let metadata = Metadata {
        sha: copy_string(&req.sha),
        indexer_version: INDEXER_VERSION.to_string(),
        rule_set_hash: hash,
        built_at: built_at,
        language_allow_list: copy_strings(&req.language_allow_list),
    };
    proof {
        reveal_strlit("0.1.3");
    }
    let mut writer = IndexWriter::create(&metadata);
    assert(build_metadata(writer.tables.metadata@, *req, opt_view(hash0), built_at@));
    let mut counters = Counters::new();
    let mut timings: Vec<FileTiming> = Vec::new();
    let ghost mut outs: Seq<Option<ProcessOutcome>> = seq![];
    let mut k: usize = 0;
    while k < entries.len()
        invariant
            rule_views(processor.rules.rules@) == rv,
            rv == rule_views(rules.rules@),
            empty@ == Seq::<u8>::empty(),
            outs.len() == k,
            forall|j: int| 0 <= j < k ==> outcome_fits(rv, entries@, contents@, j, #[trigger] outs[j]),
            !build_fold(outs, k as int).failed,
            build_fold(outs, k as int).files == writer.tables.files@,
            build_fold(outs, k as int).symbols == writer.tables.symbols@,
            build_fold(outs, k as int).edges == writer.tables.edges@,
            build_fold(outs, k as int).findings == writer.tables.findings@,
            build_fold(outs, k as int).parse_errors == writer.tables.parse_errors@,
            build_fold(outs, k as int).next_edge == writer.next_edge_id,
            build_fold(outs, k as int).next_finding == writer.next_finding_id,
            build_fold(outs, k as int).counters == counters@,
            build_fold(outs, k as int).timings == timings@,
            k <= entries@.len() == contents@.len(),
            entries@.len() < i64::MAX,
            writer.wf(),
            counters.wf(),
            build_metadata(writer.tables.metadata@, *req, opt_view(hash0), built_at@),
            build_progress(writer.tables.files@, entries@, contents@, k as int),
            processor.rules.source_hash == hash0,
            forall|i: int| 0 <= i < writer.tables.edges@.len() ==> #[trigger] edge_row_consistent(writer.tables.edges@[i]),
            forall|i: int| 0 <= i < writer.tables.symbols@.len() ==> has_file_id(writer.tables.files@, (#[trigger] writer.tables.symbols@[i]).file_id),
        decreases entries.len() - k,
    {
        let entry = &entries[k];
        let file_id = (k as i64) + 1;
        let raw: &[u8] = if entry.status != FileStatus::Indexed {
            empty.as_slice()
        } else {
            match &contents[k] {
                Some(b) => b.as_slice(),
                None => {
                    proof {
                        let prev = outs;
                        outs = outs.push(None);
                        lemma_fold_prefix(outs, prev, k as int);
                        assert forall|j: int| 0 <= j < k + 1 implies outcome_fits(rv, entries@, contents@, j, #[trigger] outs[j]) by {
                            if j < k {
                                assert(outs[j] == prev[j]);
                            }
                        }
                    }
                    k = k + 1;
                    continue;
                },
            }
        };
        proof {
            assert(entry_bytes(entries@, contents@, k as int) == Some(raw@));
        }
        let outcome = match processor.process(file_id, entry, raw) {
            Ok(o) => o,
            Err(e) => {
                proof {
                    let prev = outs;
                    outs = outs.push(None);
                    lemma_fold_prefix(outs, prev, k as int);
                    assert(processed(rv, (k + 1) as i64, entries@[k as int], raw@, Err(e)));
                    assert forall|j: int| 0 <= j < k + 1 implies outcome_fits(rv, entries@, contents@, j, #[trigger] outs[j]) by {
                        if j < k {
                            assert(outs[j] == prev[j]);
                        }
                    }
                }
                k = k + 1;
                continue;
            },
        };
        let ghost st0 = build_fold(outs, k as int);
        let ghost outs1 = outs.push(Some(outcome));
        proof {
            lemma_fold_prefix(outs1, outs, k as int);
            assert(outcome_fits(rv, entries@, contents@, k as int, Some(outcome)));
            assert forall|j: int| 0 <= j < k + 1 implies outcome_fits(rv, entries@, contents@, j, #[trigger] outs1[j]) by {
                if j < k {
                    assert(outs1[j] == outs[j]);
                }
            }
        }
        let ghost next_f_before = writer.next_finding_id;
        let ghost before = writer.tables.files@;
        let ghost edges_before = writer.tables.edges@;
        let ghost syms_before = writer.tables.symbols@;
        let ghost next_before = writer.next_edge_id;
        assert(!crate::store::has_file_id(before, file_id));
        let written = match &outcome.parsed {
            Some(parsed) => if outcome.file_record.status == FileStatus::Indexed {
                writer.write_indexed(&outcome.file_record, parsed, &outcome.findings)
            } else {
                writer.write_skipped(&outcome.file_record)
            },
            None => writer.write_skipped(&outcome.file_record),
        };
        match written {
            Ok(()) => {},
            Err(e) => {
                proof {
                    assert(build_fold(outs1, k + 1) == write_outcome(st0, outcome));
                    assert(build_fold(outs1, k + 1).failed);
                    assert(built_from(rv, entries@, contents@, req.slowest_files_n, outs1, Err(e)));
                }
                return Err(e);
            },
        }
        proof {
            if writer.tables.edges@ != edges_before {
                let parsed = outcome.parsed.unwrap();
                let lang = entry_language(*entry).unwrap();
                let src = vstd::utf8::encode_utf8(vstd::utf8::decode_utf8(raw@));
                assert(extracted_by(lang, syntax_table(lang, src).unwrap(), src, entry.relative_path@, file_id, parsed));
                assert forall|i: int| 0 <= i < writer.tables.edges@.len() implies #[trigger] edge_row_consistent(writer.tables.edges@[i]) by {
                    if i >= edges_before.len() {
                        let q = i - edges_before.len();
                        assert(writer.tables.edges@[i] == edge_row_of(parsed.edges@[q], (next_before + q) as i64));
                        assert(edge_tiered(edge_view(parsed.edges@[q])));
                    }
                }
            }
            let files = writer.tables.files@;
            assert(files == before.push(outcome.file_record));
            assert(files[files.len() - 1].id == file_id);
            assert forall|i: int| 0 <= i < writer.tables.symbols@.len() implies has_file_id(files, (#[trigger] writer.tables.symbols@[i]).file_id) by {
                if i < syms_before.len() {
                    assert(writer.tables.symbols@[i] == syms_before[i]);
                    let a = choose|a: int| 0 <= a < before.len() && before[a].id == syms_before[i].file_id;
                    assert(files[a] == before[a]);
                } else {
                    let parsed = outcome.parsed.unwrap();
                    let lang = entry_language(*entry).unwrap();
                    let src = vstd::utf8::encode_utf8(vstd::utf8::decode_utf8(raw@));
                    assert(extracted_by(lang, syntax_table(lang, src).unwrap(), src, entry.relative_path@, file_id, parsed));
                    let q = i - syms_before.len();
                    assert(writer.tables.symbols@[i] == symbol_rows(parsed.file_id, parsed.symbols@)[q]);
                }
            }
            assert(record_of_entry(outcome.file_record, entries@));
            assert(has_record(files, k + 1, outcome.file_record.status)) by {
                assert(files[files.len() - 1] == outcome.file_record);
            }
            assert forall|j: int| 0 <= j < k + 1 && (#[trigger] entries@[j]).status != FileStatus::Indexed
                implies has_record(files, j + 1, entries@[j].status) by {
                if j < k {
                    assert(has_record(before, j + 1, entries@[j].status));
                    let a = choose|a: int| 0 <= a < before.len() && (#[trigger] before[a]).id == j + 1 && before[a].status == entries@[j].status;
                    assert(files[a] == before[a]);
                }
            }
            assert forall|j: int| 0 <= j < k + 1 && (#[trigger] entries@[j]).status == FileStatus::Indexed && contents@[j].is_some()
                && !vstd::utf8::valid_utf8(contents@[j].unwrap()@)
                implies has_record(files, j + 1, FileStatus::SkippedBinary) by {
                if j < k {
                    assert(has_record(before, j + 1, FileStatus::SkippedBinary));
                    let a = choose|a: int| 0 <= a < before.len() && (#[trigger] before[a]).id == j + 1 && before[a].status == FileStatus::SkippedBinary;
                    assert(files[a] == before[a]);
                } else {
                    assert(contents@[j].unwrap()@ == raw@);
                }
            }
        }
        match &outcome.timing {
            Some(t) => timings.push(copy_timing(t)),
            None => {},
        }
        counters.record(&outcome);
        proof {
            let st1 = write_outcome(st0, outcome);
            assert(build_fold(outs1, k + 1) == st1);
            assert(st1.files == writer.tables.files@);
            assert(st1.symbols == writer.tables.symbols@);
            assert(st1.edges == writer.tables.edges@);
            assert(st1.findings == writer.tables.findings@);
            assert(st1.parse_errors == writer.tables.parse_errors@);
            assert(st1.counters == counters@);
            assert(st1.timings == timings@);
            outs = outs1;
        }
        k = k + 1;
    }
    let ghost pre = writer.tables.edges@;
    let _stats = writer.resolve_edges();
    proof {
        law_resolve_idempotent(writer.tables.symbols@, pre);
        law_resolve_keeps_tiers(writer.tables.symbols@, pre);
    }
    let tables = writer.finalize();
    ensure_key(&mut counters.edges_by_kind, "calls");
    ensure_key(&mut counters.edges_by_kind, "imports");
    ensure_key(&mut counters.edges_by_kind, "contains");
    let slowest_files = slowest(&timings, req.slowest_files_n);
    let ghost stf = build_fold(outs, entries@.len() as int);
    let summary = BuildSummary {
        sha: copy_string(&req.sha),
        indexer_version: INDEXER_VERSION.to_string(),
        rule_set_hash: copy_opt_string(&processor.rules.source_hash),
        out_path: copy_string(&req.out_path),
        elapsed_ms: millis_since(&started),
        counters,
        slowest_files,
    };
    let result = Ok((summary, tables));
    proof {
        assert(result.unwrap().0.counters@ == CountersV { edges_by_kind: final_tally(stf.counters.edges_by_kind), ..stf.counters });
        assert(built_from(rv, entries@, contents@, req.slowest_files_n, outs, result));
    }
    result
}

} // verus!
