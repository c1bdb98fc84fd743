//! The tables of one index and the single writer that fills them during a
//! build: file rows, symbols (deduplicated by id), edges with their
//! sequence ids, findings, parse errors and metadata; plus the post-build
//! resolver that binds unresolved call edges across files.
use vstd::prelude::*;
use crate::model::{
    Edge, EdgeConfidence, EdgeKind, FileId, FileRecord, Finding, MallardError, Metadata,
    ParseError, ParsedFile, Symbol, SymbolId, SymbolKind, INDEX_FORMAT_VERSION,
};
use crate::text::{chars_of, chars_eq, copy_string, copy_opt_string, fmt_decimal, decimal, rfind_exec, substring, last_occurrence, contains_seq, occurs_at};

verus! {

/// One row of the `edges` table.
#[derive(Debug, Clone)]
pub struct EdgeRow {
    pub edge_id: i64,
    pub src: SymbolId,
    pub dst: Option<SymbolId>,
    pub dst_unresolved: Option<String>,
    pub kind: EdgeKind,
    pub confidence: EdgeConfidence,
    pub file_id: FileId,
}

/// One row of the `findings` table.
#[derive(Debug, Clone)]
pub struct FindingRow {
    pub finding_id: i64,
    pub rule_id: String,
    pub file_id: FileId,
    pub start_line: u32,
    pub end_line: u32,
    pub message: String,
}

/// One row of the `metadata` table.
#[derive(Debug, Clone)]
pub struct MetadataRow {
    pub key: String,
    pub value: String,
}

/// All tables of one index, rows in insertion order.
#[derive(Debug, Clone)]
pub struct IndexTables {
    pub files: Vec<FileRecord>,
    pub symbols: Vec<Symbol>,
    pub edges: Vec<EdgeRow>,
    pub parse_errors: Vec<ParseError>,
    pub findings: Vec<FindingRow>,
    pub metadata: Vec<MetadataRow>,
}

impl IndexTables {
    /// Primary keys hold and sequence ids increase with insertion order.
    pub open spec fn wf(&self) -> bool {
        &&& forall|a: int, b: int| 0 <= a < b < self.files@.len() ==> self.files@[a].id != self.files@[b].id
        &&& forall|a: int, b: int| 0 <= a < b < self.symbols@.len() ==> self.symbols@[a].id.0@ != self.symbols@[b].id.0@
        &&& forall|a: int, b: int| 0 <= a < b < self.edges@.len() ==> self.edges@[a].edge_id < self.edges@[b].edge_id
        &&& forall|a: int, b: int| 0 <= a < b < self.findings@.len() ==> self.findings@[a].finding_id < self.findings@[b].finding_id
        &&& forall|a: int, b: int| 0 <= a < b < self.metadata@.len() ==> self.metadata@[a].key@ != self.metadata@[b].key@
    }
}

pub open spec fn edge_row_consistent(e: EdgeRow) -> bool {
    crate::model::edge_tier_consistent(e.dst.is_some(), e.dst_unresolved.is_some(), e.confidence)
}

// ---------------------------------------------------------------------
// Writer.

/// First occurrence of each symbol id in a batch, in order.
pub open spec fn dedup_by_id(syms: Seq<Symbol>) -> Seq<Symbol>
    decreases syms.len(),
{
    if syms.len() == 0 {
        seq![]
    } else {
        let rest = dedup_by_id(syms.drop_last());
        if exists|k: int| 0 <= k < rest.len() && rest[k].id.0@ == syms.last().id.0@ {
            rest
        } else {
            rest.push(syms.last())
        }
    }
}

/// The symbol rows written for a batch: first occurrences, re-filed under
/// `file_id`.
pub open spec fn symbol_rows(file_id: FileId, syms: Seq<Symbol>) -> Seq<Symbol> {
    dedup_by_id(syms).map_values(|s: Symbol| Symbol { file_id: file_id, ..s })
}

/// Row for an extracted edge, given its sequence id.
pub open spec fn edge_row_of(e: Edge, edge_id: i64) -> EdgeRow {
    EdgeRow {
        edge_id: edge_id,
        src: e.src,
        dst: e.dst,
        dst_unresolved: e.dst_unresolved,
        kind: e.kind,
        confidence: e.confidence,
        file_id: e.file_id,
    }
}

/// Row for a finding, given its sequence id.
pub open spec fn finding_row_of(f: Finding, finding_id: i64) -> FindingRow {
    FindingRow {
        finding_id: finding_id,
        rule_id: f.rule_id,
        file_id: f.file_id,
        start_line: f.start_line,
        end_line: f.end_line,
        message: f.message,
    }
}

/// The single writer to a build-time index.
pub struct IndexWriter {
    pub tables: IndexTables,
    pub next_edge_id: i64,
    pub next_finding_id: i64,
}

/// Rows of the `metadata` table seeded from a build's metadata: sha,
/// indexer version, rule-set hash when present, build time, comma-joined
/// language allow-list, and the index format version.
pub open spec fn seeded_metadata(meta: Metadata) -> Seq<(Seq<char>, Seq<char>)> {
    let head = seq![("sha"@, meta.sha@), ("indexer_version"@, meta.indexer_version@)];
    let hash = match meta.rule_set_hash {
        Some(h) => seq![("rule_set_hash"@, h@)],
        None => seq![],
    };
    head + hash + seq![
        ("built_at"@, meta.built_at@),
        ("language_allow_list"@, join_comma(meta.language_allow_list@.map_values(|s: String| s@))),
        ("index_format_version"@, decimal(INDEX_FORMAT_VERSION as nat)),
    ]
}

/// Items joined by `,`.
pub open spec fn join_comma(items: Seq<Seq<char>>) -> Seq<char>
    decreases items.len(),
{
    if items.len() == 0 {
        seq![]
    } else if items.len() == 1 {
        items[0]
    } else {
        join_comma(items.drop_last()) + seq![','] + items.last()
    }
}

pub open spec fn metadata_view(rows: Seq<MetadataRow>) -> Seq<(Seq<char>, Seq<char>)> {
    rows.map_values(|r: MetadataRow| (r.key@, r.value@))
}

fn join_comma_exec(items: &Vec<String>) -> (r: String)
    ensures
        r@ == join_comma(items@.map_values(|s: String| s@)),
{
    let ghost v = items@.map_values(|s: String| s@);
    let mut out: Vec<char> = Vec::new();
    let mut i: usize = 0;
    while i < items.len()
        invariant
            i <= items.len(),
            v == items@.map_values(|s: String| s@),
            out@ == join_comma(v.take(i as int)),
        decreases items.len() - i,
    {
        let c = chars_of(items[i].as_str());
        let ghost before = out@;
        if i > 0 {
            out.push(',');
        }
        let mut k: usize = 0;
        while k < c.len()
            invariant
                k <= c.len(),
                out@ == (if i > 0 { before.push(',') } else { before }) + c@.take(k as int),
            decreases c.len() - k,
        {
            out.push(c[k]);
            k = k + 1;
            assert(out@ =~= (if i > 0 { before.push(',') } else { before }) + c@.take(k as int));
        }
        assert(c@.take(c.len() as int) =~= c@);
        assert(v.take(i + 1).drop_last() =~= v.take(i as int));
        assert(v.take(i + 1).last() == c@);
        if i > 0 {
            assert(out@ =~= join_comma(v.take(i as int)) + seq![','] + c@);
        } else {
            assert(v.take(1) =~= seq![c@]);
            assert(out@ =~= c@);
        }
        i = i + 1;
    }
    assert(v.take(items.len() as int) =~= v);
    crate::text::string_of(out.as_slice())
}

fn meta_row(key: &str, value: String) -> (r: MetadataRow)
    ensures
        r.key@ == key@,
        r.value@ == value@,
{
    MetadataRow { key: String::from_str(key), value }
}

impl IndexWriter {
    pub open spec fn wf(&self) -> bool {
        &&& self.tables.wf()
        &&& self.next_edge_id >= 1
        &&& self.next_finding_id >= 1
        &&& forall|i: int| 0 <= i < self.tables.edges@.len() ==> self.tables.edges@[i].edge_id < self.next_edge_id
        &&& forall|i: int| 0 <= i < self.tables.findings@.len() ==> self.tables.findings@[i].finding_id < self.next_finding_id
    }

    /// Empty tables with the metadata rows seeded.
    pub fn create(meta: &Metadata) -> (r: IndexWriter)
        ensures
            r.wf(),
            r.tables.files@.len() == 0,
            r.tables.symbols@.len() == 0,
            r.tables.edges@.len() == 0,
            r.tables.findings@.len() == 0,
            r.tables.parse_errors@.len() == 0,
            metadata_view(r.tables.metadata@) == seeded_metadata(*meta),
            r.next_edge_id == 1,
            r.next_finding_id == 1,
    {
        let mut md: Vec<MetadataRow> = Vec::new();
        md.push(meta_row("sha", copy_string(&meta.sha)));
        md.push(meta_row("indexer_version", copy_string(&meta.indexer_version)));
        match &meta.rule_set_hash {
            Some(h) => md.push(meta_row("rule_set_hash", copy_string(h))),
            None => {},
        }
        md.push(meta_row("built_at", copy_string(&meta.built_at)));
        md.push(meta_row("language_allow_list", join_comma_exec(&meta.language_allow_list)));
        md.push(meta_row("index_format_version", fmt_decimal(INDEX_FORMAT_VERSION as u64)));
        proof {
            reveal_strlit("sha");
            reveal_strlit("indexer_version");
            reveal_strlit("rule_set_hash");
            reveal_strlit("built_at");
            reveal_strlit("language_allow_list");
            reveal_strlit("index_format_version");
            assert(metadata_view(md@) =~= seeded_metadata(*meta));
            assert forall|a: int, b: int| 0 <= a < b < md@.len() implies md@[a].key@ != md@[b].key@ by {
                assert(md@[a].key@.len() != md@[b].key@.len() || md@[a].key@[0] != md@[b].key@[0] || md@[a].key@[1] != md@[b].key@[1]);
            }
        }
        IndexWriter {
            tables: IndexTables {
                files: Vec::new(),
                symbols: Vec::new(),
                edges: Vec::new(),
                parse_errors: Vec::new(),
                findings: Vec::new(),
                metadata: md,
            },
            next_edge_id: 1,
            next_finding_id: 1,
        }
    }
}


/// A file with this id is already recorded.
pub open spec fn has_file_id(files: Seq<FileRecord>, id: FileId) -> bool {
    exists|j: int| 0 <= j < files.len() && files[j].id == id
}

/// A symbol with this id text is already recorded.
pub open spec fn has_symbol_id(symbols: Seq<Symbol>, id: Seq<char>) -> bool {
    exists|j: int| 0 <= j < symbols.len() && symbols[j].id.0@ == id
}

/// Writing the batch would repeat an id already in the table.
pub open spec fn batch_conflicts(table: Seq<Symbol>, batch: Seq<Symbol>) -> bool {
    exists|k: int| 0 <= k < dedup_by_id(batch).len() && has_symbol_id(table, dedup_by_id(batch)[k].id.0@)
}

fn find_symbol_id(symbols: &Vec<Symbol>, id: &Vec<char>) -> (r: bool)
    ensures
        r == has_symbol_id(symbols@, id@),
{
    let mut j: usize = 0;
    while j < symbols.len()
        invariant
            j <= symbols.len(),
            forall|k: int| 0 <= k < j ==> symbols@[k].id.0@ != id@,
        decreases symbols.len() - j,
    {
        let c = chars_of(symbols[j].id.0.as_str());
        if chars_eq(c.as_slice(), id.as_slice()) {
            return true;
        }
        j = j + 1;
    }
    false
}

proof fn lemma_dedup_distinct(syms: Seq<Symbol>)
    ensures
        forall|a: int, b: int| 0 <= a < b < dedup_by_id(syms).len() ==> dedup_by_id(syms)[a].id.0@ != dedup_by_id(syms)[b].id.0@,
    decreases syms.len(),
{
    if syms.len() > 0 {
        lemma_dedup_distinct(syms.drop_last());
    }
}

/// The deduplicated batch (exec).
fn dedup_batch(file_id: FileId, syms: &Vec<Symbol>) -> (r: Vec<Symbol>)
    ensures
        r@ == symbol_rows(file_id, syms@),
{
    let mut kept: Vec<Symbol> = Vec::new();
    let mut i: usize = 0;
    while i < syms.len()
        invariant
            i <= syms.len(),
            kept@ == dedup_by_id(syms@.take(i as int)),
        decreases syms.len() - i,
    {
        let id = chars_of(syms[i].id.0.as_str());
        let seen = find_symbol_id(&kept, &id);
        assert(syms@.take(i + 1).drop_last() =~= syms@.take(i as int));
        assert(syms@.take(i + 1).last() == syms@[i as int]);
        if !seen {
            kept.push(syms[i].duplicate());
        }
        i = i + 1;
    }
    assert(syms@.take(syms.len() as int) =~= syms@);
    let mut out: Vec<Symbol> = Vec::new();
    let mut k: usize = 0;
    while k < kept.len()
        invariant
            k <= kept.len(),
            out@ == kept@.take(k as int).map_values(|s: Symbol| Symbol { file_id: file_id, ..s }),
        decreases kept.len() - k,
    {
        let mut s = kept[k].duplicate();
        s.file_id = file_id;
        out.push(s);
        k = k + 1;
        assert(out@ =~= kept@.take(k as int).map_values(|s: Symbol| Symbol { file_id: file_id, ..s }));
    }
    assert(kept@.take(kept.len() as int) =~= kept@);
    out
}

impl IndexWriter {
    /// Appends one file row. Fails when the file id is already taken.
    pub fn write_skipped(&mut self, file: &FileRecord) -> (r: Result<(), MallardError>)
        requires
            old(self).wf(),
        ensures
            final(self).wf(),
            r.is_ok() == !has_file_id(old(self).tables.files@, file.id),
            r.is_ok() ==> final(self).tables.files@ == old(self).tables.files@.push(*file),
            final(self).tables.symbols@ == old(self).tables.symbols@,
            final(self).tables.edges@ == old(self).tables.edges@,
            final(self).tables.findings@ == old(self).tables.findings@,
            final(self).tables.parse_errors@ == old(self).tables.parse_errors@,
            final(self).tables.metadata@ == old(self).tables.metadata@,
            final(self).next_edge_id == old(self).next_edge_id,
            final(self).next_finding_id == old(self).next_finding_id,
            r.is_err() ==> final(self).tables.files@ == old(self).tables.files@,
            r.is_err() ==> r.unwrap_err() is DuckDb,
    {
        let mut j: usize = 0;
        while j < self.tables.files.len()
            invariant
                *self == *old(self),
                old(self).wf(),
                j <= self.tables.files.len(),
                forall|k: int| 0 <= k < j ==> self.tables.files@[k].id != file.id,
            decreases self.tables.files.len() - j,
        {
            if self.tables.files[j].id == file.id {
                return Err(MallardError::DuckDb(String::from_str("duplicate key in files")));
            }
            j = j + 1;
        }
        let row = FileRecord {
            id: file.id,
            path: copy_string(&file.path),
            language: copy_opt_string(&file.language),
            size_bytes: file.size_bytes,
            status: file.status,
        };
        self.tables.files.push(row);
        Ok(())
    }

    /// Appends an indexed file: its file row, its symbols (first occurrence
    /// of each id, filed under the parse's file id), its edges and findings
    /// with fresh sequence ids, and its parse errors. Fails when the file id
    /// or a symbol id is already taken, or a sequence is exhausted.
    pub fn write_indexed(&mut self, file: &FileRecord, parsed: &ParsedFile, findings: &Vec<Finding>) -> (r: Result<(), MallardError>)
        requires
            old(self).wf(),
        ensures
            final(self).wf(),
            r.is_ok() <==> (!has_file_id(old(self).tables.files@, file.id)
                && !batch_conflicts(old(self).tables.symbols@, parsed.symbols@)
                && old(self).next_edge_id + parsed.edges@.len() <= i64::MAX
                && old(self).next_finding_id + findings@.len() <= i64::MAX),
            r.is_err() ==> r.unwrap_err() is DuckDb,
            r.is_ok() ==> {
                &&& final(self).tables.files@ == old(self).tables.files@.push(*file)
                &&& final(self).tables.symbols@ == old(self).tables.symbols@ + symbol_rows(parsed.file_id, parsed.symbols@)
                &&& final(self).tables.edges@ == old(self).tables.edges@ + Seq::new(parsed.edges@.len(), |k: int| edge_row_of(parsed.edges@[k], (old(self).next_edge_id + k) as i64))
                &&& final(self).tables.findings@ == old(self).tables.findings@ + Seq::new(findings@.len(), |k: int| finding_row_of(findings@[k], (old(self).next_finding_id + k) as i64))
                &&& final(self).tables.parse_errors@ == old(self).tables.parse_errors@ + parsed.parse_errors@
                &&& final(self).tables.metadata@ == old(self).tables.metadata@
                &&& final(self).next_edge_id == old(self).next_edge_id + parsed.edges@.len()
                &&& final(self).next_finding_id == old(self).next_finding_id + findings@.len()
            },
    {
        let ghost old_tables = self.tables;
        if parsed.edges.len() as u64 > (i64::MAX as u64) || self.next_edge_id > i64::MAX - (parsed.edges.len() as i64) {
            return Err(MallardError::DuckDb(String::from_str("edge id sequence exhausted")));
        }
        if findings.len() as u64 > (i64::MAX as u64) || self.next_finding_id > i64::MAX - (findings.len() as i64) {
            return Err(MallardError::DuckDb(String::from_str("finding id sequence exhausted")));
        }
        let batch = dedup_batch(parsed.file_id, &parsed.symbols);
        proof {
            lemma_dedup_distinct(parsed.symbols@);
        }
        // Primary-key check on the symbol table before anything is written.
        let mut k: usize = 0;
        while k < batch.len()
            invariant
                k <= batch.len(),
                batch@ == symbol_rows(parsed.file_id, parsed.symbols@),
                self.tables == old_tables,
                *self == *old(self),
                old(self).wf(),
                forall|x: int| 0 <= x < k ==> !has_symbol_id(self.tables.symbols@, dedup_by_id(parsed.symbols@)[x].id.0@),
            decreases batch.len() - k,
        {
            let id = chars_of(batch[k].id.0.as_str());
            assert(batch@[k as int].id == dedup_by_id(parsed.symbols@)[k as int].id);
            if find_symbol_id(&self.tables.symbols, &id) {
                return Err(MallardError::DuckDb(String::from_str("duplicate key in symbols")));
            }
            k = k + 1;
        }
        match self.write_skipped(file) {
            Ok(()) => {},
            Err(e) => return Err(e),
        }
        // Symbols.
        let ghost syms_before = self.tables.symbols@;
        let mut i: usize = 0;
        while i < batch.len()
            invariant
                i <= batch.len(),
                batch@ == symbol_rows(parsed.file_id, parsed.symbols@),
                self.tables.symbols@ == syms_before + batch@.take(i as int),
                syms_before == old_tables.symbols@,
                forall|x: int| 0 <= x < batch@.len() ==> !has_symbol_id(syms_before, dedup_by_id(parsed.symbols@)[x].id.0@),
                forall|a: int, b: int| 0 <= a < b < syms_before.len() ==> syms_before[a].id.0@ != syms_before[b].id.0@,
                forall|a: int, b: int| 0 <= a < b < dedup_by_id(parsed.symbols@).len() ==> dedup_by_id(parsed.symbols@)[a].id.0@ != dedup_by_id(parsed.symbols@)[b].id.0@,
                self.tables.files@ == old_tables.files@.push(*file),
                self.tables.edges@ == old_tables.edges@,
                self.tables.findings@ == old_tables.findings@,
                self.tables.parse_errors@ == old_tables.parse_errors@,
                self.tables.metadata@ == old_tables.metadata@,
                self.next_edge_id == old(self).next_edge_id,
                self.next_finding_id == old(self).next_finding_id,
                forall|a: int, b: int| 0 <= a < b < self.tables.files@.len() ==> self.tables.files@[a].id != self.tables.files@[b].id,
            decreases batch.len() - i,
        {
            let s = batch[i].duplicate();
            self.tables.symbols.push(s);
            i = i + 1;
            assert(self.tables.symbols@ =~= syms_before + batch@.take(i as int));
        }
        assert(batch@.take(batch.len() as int) =~= batch@);
        proof {
            let t = self.tables.symbols@;
            let d = dedup_by_id(parsed.symbols@);
            assert forall|a: int, b: int| 0 <= a < b < t.len() implies t[a].id.0@ != t[b].id.0@ by {
                let n0 = syms_before.len() as int;
                if b >= n0 && a < n0 {
                    assert(t[b].id == d[b - n0].id);
                    if t[a].id.0@ == t[b].id.0@ {
                        assert(has_symbol_id(syms_before, d[b - n0].id.0@));
                    }
                } else if a >= n0 {
                    assert(t[a].id == d[a - n0].id);
                    assert(t[b].id == d[b - n0].id);
                }
            }
        }
        assert(self.wf());
        // Edges.
        let ghost edges_before = self.tables.edges@;
        let ghost first_id = self.next_edge_id;
        let mut e: usize = 0;
        while e < parsed.edges.len()
            invariant
                e <= parsed.edges.len(),
                first_id == old(self).next_edge_id,
                first_id + parsed.edges@.len() <= i64::MAX,
                self.next_edge_id == first_id + e,
                self.tables.edges@ == edges_before + Seq::new(e as nat, |k: int| edge_row_of(parsed.edges@[k], (first_id + k) as i64)),
                edges_before == old_tables.edges@,
                forall|a: int, b: int| 0 <= a < b < edges_before.len() ==> edges_before[a].edge_id < edges_before[b].edge_id,
                forall|a: int| 0 <= a < edges_before.len() ==> edges_before[a].edge_id < first_id,
                self.wf(),
                self.tables.files@ == old_tables.files@.push(*file),
                self.tables.symbols@ == old_tables.symbols@ + symbol_rows(parsed.file_id, parsed.symbols@),
                self.tables.findings@ == old_tables.findings@,
                self.tables.parse_errors@ == old_tables.parse_errors@,
                self.tables.metadata@ == old_tables.metadata@,
                self.next_finding_id == old(self).next_finding_id,
            decreases parsed.edges.len() - e,
        {
            let src = &parsed.edges[e];
            let row = EdgeRow {
                edge_id: self.next_edge_id,
                src: src.src.duplicate(),
                dst: match &src.dst { Some(d) => Some(d.duplicate()), None => None },
                dst_unresolved: copy_opt_string(&src.dst_unresolved),
                kind: src.kind,
                confidence: src.confidence,
                file_id: src.file_id,
            };
            self.tables.edges.push(row);
            self.next_edge_id = self.next_edge_id + 1;
            e = e + 1;
            assert(self.tables.edges@ =~= edges_before + Seq::new(e as nat, |k: int| edge_row_of(parsed.edges@[k], (first_id + k) as i64)));
        }
        proof {
            let t = self.tables.edges@;
            let n0 = edges_before.len() as int;
            assert forall|a: int, b: int| 0 <= a < b < t.len() implies t[a].edge_id < t[b].edge_id by {
                if a >= n0 {
                    assert(t[a].edge_id == first_id + (a - n0));
                    assert(t[b].edge_id == first_id + (b - n0));
                } else if b >= n0 {
                    assert(t[b].edge_id == first_id + (b - n0));
                }
            }
            assert forall|a: int| 0 <= a < t.len() implies t[a].edge_id < self.next_edge_id by {
                if a >= n0 {
                    assert(t[a].edge_id == first_id + (a - n0));
                }
            }
        }
        // Findings.
        let ghost findings_before = self.tables.findings@;
        let ghost first_fid = self.next_finding_id;
        let mut f: usize = 0;
        while f < findings.len()
            invariant
                f <= findings.len(),
                first_fid == old(self).next_finding_id,
                first_fid + findings@.len() <= i64::MAX,
                self.next_finding_id == first_fid + f,
                self.tables.findings@ == findings_before + Seq::new(f as nat, |k: int| finding_row_of(findings@[k], (first_fid + k) as i64)),
                findings_before == old_tables.findings@,
                self.tables.files@ == old_tables.files@.push(*file),
                self.tables.symbols@ == old_tables.symbols@ + symbol_rows(parsed.file_id, parsed.symbols@),
                self.tables.edges@ == old_tables.edges@ + Seq::new(parsed.edges@.len(), |k: int| edge_row_of(parsed.edges@[k], (old(self).next_edge_id + k) as i64)),
                self.tables.parse_errors@ == old_tables.parse_errors@,
                self.tables.metadata@ == old_tables.metadata@,
                self.next_edge_id == old(self).next_edge_id + parsed.edges@.len(),
                self.wf(),
            decreases findings.len() - f,
        {
            let src = &findings[f];
            let row = FindingRow {
                finding_id: self.next_finding_id,
                rule_id: copy_string(&src.rule_id),
                file_id: src.file_id,
                start_line: src.start_line,
                end_line: src.end_line,
                message: copy_string(&src.message),
            };
            self.tables.findings.push(row);
            self.next_finding_id = self.next_finding_id + 1;
            f = f + 1;
            assert(self.tables.findings@ =~= findings_before + Seq::new(f as nat, |k: int| finding_row_of(findings@[k], (first_fid + k) as i64)));
        }
        proof {
            let t = self.tables.findings@;
            let n0 = findings_before.len() as int;
            assert forall|a: int, b: int| 0 <= a < b < t.len() implies t[a].finding_id < t[b].finding_id by {
                if a >= n0 {
                    assert(t[a].finding_id == first_fid + (a - n0));
                    assert(t[b].finding_id == first_fid + (b - n0));
                } else if b >= n0 {
                    assert(t[b].finding_id == first_fid + (b - n0));
                }
            }
            assert forall|a: int| 0 <= a < t.len() implies t[a].finding_id < self.next_finding_id by {
                if a >= n0 {
                    assert(t[a].finding_id == first_fid + (a - n0));
                }
            }
        }
        // Parse errors.
        let ghost errs_before = self.tables.parse_errors@;
        let mut p: usize = 0;
        while p < parsed.parse_errors.len()
            invariant
                p <= parsed.parse_errors.len(),
                self.tables.parse_errors@ == errs_before + parsed.parse_errors@.take(p as int),
                errs_before == old_tables.parse_errors@,
                self.wf(),
                self.tables.files@ == old_tables.files@.push(*file),
                self.tables.symbols@ == old_tables.symbols@ + symbol_rows(parsed.file_id, parsed.symbols@),
                self.tables.edges@ == old_tables.edges@ + Seq::new(parsed.edges@.len(), |k: int| edge_row_of(parsed.edges@[k], (old(self).next_edge_id + k) as i64)),
                self.tables.findings@ == old_tables.findings@ + Seq::new(findings@.len(), |k: int| finding_row_of(findings@[k], (old(self).next_finding_id + k) as i64)),
                self.tables.metadata@ == old_tables.metadata@,
                self.next_edge_id == old(self).next_edge_id + parsed.edges@.len(),
                self.next_finding_id == old(self).next_finding_id + findings@.len(),
            decreases parsed.parse_errors.len() - p,
        {
            let pe = &parsed.parse_errors[p];
            let row = ParseError {
                file_id: pe.file_id,
                message: copy_string(&pe.message),
                line: pe.line,
                col: pe.col,
            };
            assert(row == *pe);
            self.tables.parse_errors.push(row);
            p = p + 1;
            assert(self.tables.parse_errors@ =~= errs_before + parsed.parse_errors@.take(p as int));
        }
        assert(parsed.parse_errors@.take(parsed.parse_errors.len() as int) =~= parsed.parse_errors@);
        Ok(())
    }
}

// ---------------------------------------------------------------------
// Resolver.

/// Counts produced by post-write resolution.
#[derive(Debug, Clone, Copy, Default, PartialEq, Eq)]
pub struct ResolveStats {
    pub inspected: u64,
    pub resolved: u64,
    pub ambiguous: u64,
}

/// Outcome of looking a call name up in the symbol table.
#[derive(Debug)]
pub enum NameMatch {
    Unique(SymbolId),
    Ambiguous,
    NoMatch,
}

/// A qualified-name separator (`::` or `.`) ends right before index `e`.
pub open spec fn sep_ends_at(q: Seq<char>, e: int) -> bool {
    ||| (2 <= e <= q.len() && q[e - 2] == ':' && q[e - 1] == ':')
    ||| (1 <= e <= q.len() && q[e - 1] == '.')
}

/// The largest index `<= e` right after a separator, or 0.
pub open spec fn segment_start(q: Seq<char>, e: int) -> int
    decreases e,
{
    if e <= 0 {
        0
    } else if sep_ends_at(q, e) {
        e
    } else {
        segment_start(q, e - 1)
    }
}

proof fn lemma_segment_start_bounds(q: Seq<char>, e: int)
    requires
        0 <= e,
    ensures
        0 <= segment_start(q, e) <= e,
    decreases e,
{
    if e > 0 && !sep_ends_at(q, e) {
        lemma_segment_start_bounds(q, e - 1);
    }
}

/// The rightmost segment of a qualified name after either `::` or `.`
/// (the whole name when it has neither).
pub open spec fn resolver_short(q: Seq<char>) -> Seq<char> {
    q.subrange(segment_start(q, q.len() as int), q.len() as int)
}

/// Function, method and macro symbols are the only call targets.
pub open spec fn is_call_target(k: SymbolKind) -> bool {
    k == SymbolKind::Function || k == SymbolKind::Method || k == SymbolKind::Macro
}

/// The key under which a symbol is found: its qualified name, or its
/// rightmost segment.
pub open spec fn lookup_key(s: Symbol, by_short: bool) -> Seq<char> {
    if by_short { resolver_short(s.qualified_name@) } else { s.qualified_name@ }
}

/// Ids of the callable symbols whose key is `name`, in table order.
pub open spec fn callable_ids(syms: Seq<Symbol>, name: Seq<char>, by_short: bool) -> Seq<SymbolId>
    decreases syms.len(),
{
    if syms.len() == 0 {
        seq![]
    } else {
        let rest = callable_ids(syms.drop_last(), name, by_short);
        let s = syms.last();
        if is_call_target(s.kind) && lookup_key(s, by_short) == name {
            rest.push(s.id)
        } else {
            rest
        }
    }
}

/// How a call name resolves: by qualified name first; when no callable
/// has that qualified name, by rightmost segment. One callable is a
/// unique match, several are ambiguous.
pub open spec fn classify_name(syms: Seq<Symbol>, name: Seq<char>) -> NameMatch {
    let q = callable_ids(syms, name, false);
    let s = callable_ids(syms, name, true);
    if q.len() == 1 {
        NameMatch::Unique(q[0])
    } else if q.len() > 1 {
        NameMatch::Ambiguous
    } else if s.len() == 1 {
        NameMatch::Unique(s[0])
    } else if s.len() > 1 {
        NameMatch::Ambiguous
    } else {
        NameMatch::NoMatch
    }
}

/// A parser-tier unresolved call edge, the only kind the resolver touches.
pub open spec fn is_pending(e: EdgeRow) -> bool {
    &&& e.dst.is_none()
    &&& e.dst_unresolved.is_some()
    &&& e.kind == EdgeKind::Calls
    &&& e.confidence == EdgeConfidence::Unresolved
}

/// The row after resolution.
pub open spec fn resolve_row(syms: Seq<Symbol>, e: EdgeRow) -> EdgeRow {
    if is_pending(e) {
        match classify_name(syms, e.dst_unresolved.unwrap()@) {
            NameMatch::Unique(id) => EdgeRow {
                dst: Some(id),
                dst_unresolved: None,
                confidence: EdgeConfidence::Inferred,
                ..e
            },
            NameMatch::Ambiguous => EdgeRow { confidence: EdgeConfidence::Ambiguous, ..e },
            NameMatch::NoMatch => e,
        }
    } else {
        e
    }
}

pub open spec fn resolve_rows(syms: Seq<Symbol>, edges: Seq<EdgeRow>) -> Seq<EdgeRow> {
    edges.map_values(|e: EdgeRow| resolve_row(syms, e))
}

/// Number of pending rows.
pub open spec fn count_pending(edges: Seq<EdgeRow>) -> nat
    decreases edges.len(),
{
    if edges.len() == 0 {
        0
    } else {
        count_pending(edges.drop_last()) + if is_pending(edges.last()) { 1nat } else { 0nat }
    }
}

/// Number of pending rows whose name classifies as `unique` (or as
/// ambiguous when `unique` is false).
pub open spec fn count_classified(syms: Seq<Symbol>, edges: Seq<EdgeRow>, unique: bool) -> nat
    decreases edges.len(),
{
    if edges.len() == 0 {
        0
    } else {
        let e = edges.last();
        let hit = is_pending(e) && match classify_name(syms, e.dst_unresolved.unwrap()@) {
            NameMatch::Unique(_) => unique,
            NameMatch::Ambiguous => !unique,
            NameMatch::NoMatch => false,
        };
        count_classified(syms, edges.drop_last(), unique) + if hit { 1nat } else { 0nat }
    }
}

/// Index at which the rightmost segment of a qualified name starts.
fn segment_start_exec(q: &Vec<char>) -> (r: usize)
    ensures
        r as int == segment_start(q@, q@.len() as int),
        r <= q@.len(),
{
    proof {
        lemma_segment_start_bounds(q@, q@.len() as int);
    }
    let mut e: usize = q.len();
    while e > 0
        invariant
            e <= q.len(),
            segment_start(q@, e as int) == segment_start(q@, q@.len() as int),
        decreases e,
    {
        let dot = q[e - 1] == '.';
        let colons = e >= 2 && q[e - 2] == ':' && q[e - 1] == ':';
        if dot || colons {
            return e;
        }
        e = e - 1;
    }
    0
}

/// The rightmost segment of a qualified name (exec).
fn resolver_short_exec(q: &Vec<char>) -> (r: Vec<char>)
    ensures
        r@ == resolver_short(q@),
{
    let from = segment_start_exec(q);
    let mut out: Vec<char> = Vec::new();
    let mut i: usize = from;
    while i < q.len()
        invariant
            from <= i <= q.len(),
            out@ == q@.subrange(from as int, i as int),
        decreases q.len() - i,
    {
        out.push(q[i]);
        i = i + 1;
        assert(out@ =~= q@.subrange(from as int, i as int));
    }
    out
}

/// Callable matches of `name` among the keys: how many, and the first.
fn count_callables(symbols: &Vec<Symbol>, keys: &Vec<Vec<char>>, name: &Vec<char>, Ghost(by_short): Ghost<bool>) -> (r: (usize, Option<usize>))
    requires
        keys@.len() == symbols@.len(),
        forall|j: int| 0 <= j < keys@.len() ==> keys@[j]@ == lookup_key(symbols@[j], by_short),
    ensures
        r.0 == callable_ids(symbols@, name@, by_short).len(),
        r.0 > 0 ==> r.1.is_some() && r.1.unwrap() < symbols@.len()
            && callable_ids(symbols@, name@, by_short)[0] == symbols@[r.1.unwrap() as int].id,
{
    let mut count: usize = 0;
    let mut first: Option<usize> = None;
    let mut i: usize = 0;
    while i < symbols.len()
        invariant
            i <= symbols.len(),
            keys@.len() == symbols@.len(),
            forall|j: int| 0 <= j < keys@.len() ==> keys@[j]@ == lookup_key(symbols@[j], by_short),
            count == callable_ids(symbols@.take(i as int), name@, by_short).len(),
            count <= i,
            count > 0 ==> first.is_some() && first.unwrap() < i
                && callable_ids(symbols@.take(i as int), name@, by_short)[0] == symbols@[first.unwrap() as int].id,
        decreases symbols.len() - i,
    {
        let s = &symbols[i];
        let callable = match s.kind {
            SymbolKind::Function | SymbolKind::Method | SymbolKind::Macro => true,
            _ => false,
        };
        let same = chars_eq(keys[i].as_slice(), name.as_slice());
        assert(symbols@.take(i + 1).drop_last() =~= symbols@.take(i as int));
        assert(symbols@.take(i + 1).last() == symbols@[i as int]);
        if callable && same {
            if count == 0 {
                first = Some(i);
            }
            count = count + 1;
        }
        i = i + 1;
    }
    assert(symbols@.take(symbols.len() as int) =~= symbols@);
    (count, first)
}

/// Lookup keys of every symbol: qualified names and rightmost segments.
fn lookup_keys(symbols: &Vec<Symbol>) -> (r: (Vec<Vec<char>>, Vec<Vec<char>>))
    ensures
        r.0@.len() == symbols@.len(),
        r.1@.len() == symbols@.len(),
        forall|j: int| 0 <= j < symbols@.len() ==> r.0@[j]@ == lookup_key(symbols@[j], false),
        forall|j: int| 0 <= j < symbols@.len() ==> r.1@[j]@ == lookup_key(symbols@[j], true),
{
    let mut qs: Vec<Vec<char>> = Vec::new();
    let mut ss: Vec<Vec<char>> = Vec::new();
    let mut i: usize = 0;
    while i < symbols.len()
        invariant
            i <= symbols.len(),
            qs@.len() == i,
            ss@.len() == i,
            forall|j: int| 0 <= j < i ==> qs@[j]@ == lookup_key(symbols@[j], false),
            forall|j: int| 0 <= j < i ==> ss@[j]@ == lookup_key(symbols@[j], true),
        decreases symbols.len() - i,
    {
        let q = chars_of(symbols[i].qualified_name.as_str());
        let sh = resolver_short_exec(&q);
        qs.push(q);
        ss.push(sh);
        i = i + 1;
    }
    (qs, ss)
}

/// Classifies a call name against the symbol table (exec).
fn classify_name_exec(symbols: &Vec<Symbol>, qkeys: &Vec<Vec<char>>, skeys: &Vec<Vec<char>>, name: &Vec<char>) -> (r: NameMatch)
    requires
        qkeys@.len() == symbols@.len(),
        skeys@.len() == symbols@.len(),
        forall|j: int| 0 <= j < symbols@.len() ==> qkeys@[j]@ == lookup_key(symbols@[j], false),
        forall|j: int| 0 <= j < symbols@.len() ==> skeys@[j]@ == lookup_key(symbols@[j], true),
    ensures
        r == classify_name(symbols@, name@),
{
    let (qn, qf) = count_callables(symbols, qkeys, name, Ghost(false));
    if qn == 1 {
        return NameMatch::Unique(symbols[qf.unwrap()].id.duplicate());
    } else if qn > 1 {
        return NameMatch::Ambiguous;
    }
    let (sn, sf) = count_callables(symbols, skeys, name, Ghost(true));
    if sn == 1 {
        NameMatch::Unique(symbols[sf.unwrap()].id.duplicate())
    } else if sn > 1 {
        NameMatch::Ambiguous
    } else {
        NameMatch::NoMatch
    }
}

impl IndexWriter {
    /// Resolves the unresolved call edges against the whole symbol table:
    /// a unique callable match (by qualified name, else by rightmost
    /// segment) becomes the edge's target at the inferred tier; several
    /// matches mark the edge ambiguous; no match leaves it as it is. Other
    /// edges are not touched.
    pub fn resolve_edges(&mut self) -> (r: ResolveStats)
        requires
            old(self).wf(),
        ensures
            final(self).wf(),
            final(self).tables.edges@ == resolve_rows(old(self).tables.symbols@, old(self).tables.edges@),
            final(self).tables.files@ == old(self).tables.files@,
            final(self).tables.symbols@ == old(self).tables.symbols@,
            final(self).tables.findings@ == old(self).tables.findings@,
            final(self).tables.parse_errors@ == old(self).tables.parse_errors@,
            final(self).tables.metadata@ == old(self).tables.metadata@,
            final(self).next_edge_id == old(self).next_edge_id,
            final(self).next_finding_id == old(self).next_finding_id,
            r.inspected == count_pending(old(self).tables.edges@),
            r.resolved == count_classified(old(self).tables.symbols@, old(self).tables.edges@, true),
            r.ambiguous == count_classified(old(self).tables.symbols@, old(self).tables.edges@, false),
    {
        let (qkeys, skeys) = lookup_keys(&self.tables.symbols);
        let ghost syms = self.tables.symbols@;
        let ghost old_edges = self.tables.edges@;
        let mut inspected: u64 = 0;
        let mut resolved: u64 = 0;
        let mut ambiguous: u64 = 0;
        let mut i: usize = 0;
        while i < self.tables.edges.len()
            invariant
                i <= self.tables.edges@.len() == old_edges.len(),
                syms == old(self).tables.symbols@,
                old_edges == old(self).tables.edges@,
                old(self).wf(),
                qkeys@.len() == syms.len(),
                skeys@.len() == syms.len(),
                forall|j: int| 0 <= j < syms.len() ==> qkeys@[j]@ == lookup_key(syms[j], false),
                forall|j: int| 0 <= j < syms.len() ==> skeys@[j]@ == lookup_key(syms[j], true),
                self.tables.symbols@ == syms,
                forall|j: int| 0 <= j < i ==> self.tables.edges@[j] == resolve_row(syms, old_edges[j]),
                forall|j: int| i <= j < old_edges.len() ==> self.tables.edges@[j] == old_edges[j],
                self.tables.files@ == old(self).tables.files@,
                self.tables.findings@ == old(self).tables.findings@,
                self.tables.parse_errors@ == old(self).tables.parse_errors@,
                self.tables.metadata@ == old(self).tables.metadata@,
                self.next_edge_id == old(self).next_edge_id,
                self.next_finding_id == old(self).next_finding_id,
                inspected == count_pending(old_edges.take(i as int)),
                resolved == count_classified(syms, old_edges.take(i as int), true),
                ambiguous == count_classified(syms, old_edges.take(i as int), false),
                inspected <= i,
                resolved <= i,
                ambiguous <= i,
            decreases old_edges.len() - i,
        {
            assert(old_edges.take(i + 1).drop_last() =~= old_edges.take(i as int));
            assert(old_edges.take(i + 1).last() == old_edges[i as int]);
            let pending = {
                let e = &self.tables.edges[i];
                e.dst.is_none() && e.dst_unresolved.is_some()
                    && match e.kind { EdgeKind::Calls => true, _ => false }
                    && match e.confidence { EdgeConfidence::Unresolved => true, _ => false }
            };
            if pending {
                inspected = inspected + 1;
                let name = match &self.tables.edges[i].dst_unresolved {
                    Some(n) => chars_of(n.as_str()),
                    None => Vec::new(),
                };
                let m = classify_name_exec(&self.tables.symbols, &qkeys, &skeys, &name);
                match m {
                    NameMatch::Unique(id) => {
                        let e = &self.tables.edges[i];
                        let row = EdgeRow {
                            edge_id: e.edge_id,
                            src: e.src.duplicate(),
                            dst: Some(id),
                            dst_unresolved: None,
                            kind: e.kind,
                            confidence: EdgeConfidence::Inferred,
                            file_id: e.file_id,
                        };
                        self.tables.edges.set(i, row);
                        resolved = resolved + 1;
                    },
                    NameMatch::Ambiguous => {
                        let e = &self.tables.edges[i];
                        let row = EdgeRow {
                            edge_id: e.edge_id,
                            src: e.src.duplicate(),
                            dst: None,
                            dst_unresolved: copy_opt_string(&e.dst_unresolved),
                            kind: e.kind,
                            confidence: EdgeConfidence::Ambiguous,
                            file_id: e.file_id,
                        };
                        self.tables.edges.set(i, row);
                        ambiguous = ambiguous + 1;
                    },
                    NameMatch::NoMatch => {},
                }
            }
            i = i + 1;
        }
        assert(old_edges.take(old_edges.len() as int) =~= old_edges);
        assert(self.tables.edges@ =~= resolve_rows(syms, old_edges));
        ResolveStats { inspected, resolved, ambiguous }
    }
}

impl IndexWriter {
    /// Ends writing and hands over the tables as written.
    pub fn finalize(self) -> (r: IndexTables)
        ensures
            r == self.tables,
    {
        self.tables
    }
}

/// Resolution keeps every edge's target fields in agreement with its tier.
pub proof fn law_resolve_keeps_tiers(syms: Seq<Symbol>, edges: Seq<EdgeRow>)
    requires
        forall|i: int| 0 <= i < edges.len() ==> #[trigger] edge_row_consistent(edges[i]),
    ensures
        forall|i: int| 0 <= i < edges.len() ==> #[trigger] edge_row_consistent(resolve_rows(syms, edges)[i]),
{
    assert forall|i: int| 0 <= i < edges.len() implies #[trigger] edge_row_consistent(resolve_rows(syms, edges)[i]) by {
        assert(edge_row_consistent(edges[i]));
    }
}

/// Resolving twice gives what resolving once gave.
pub proof fn law_resolve_idempotent(syms: Seq<Symbol>, edges: Seq<EdgeRow>)
    ensures
        resolve_rows(syms, resolve_rows(syms, edges)) == resolve_rows(syms, edges),
{
    assert(resolve_rows(syms, resolve_rows(syms, edges)) =~= resolve_rows(syms, edges));
}

/// Resolution changes no edge's id, source, kind or file, and leaves
/// every edge that is not a pending unresolved call as it was.
pub proof fn law_resolve_touches_only_pending(syms: Seq<Symbol>, edges: Seq<EdgeRow>, i: int)
    requires
        0 <= i < edges.len(),
    ensures
        resolve_rows(syms, edges)[i].edge_id == edges[i].edge_id,
        resolve_rows(syms, edges)[i].src == edges[i].src,
        resolve_rows(syms, edges)[i].kind == edges[i].kind,
        resolve_rows(syms, edges)[i].file_id == edges[i].file_id,
        !is_pending(edges[i]) ==> resolve_rows(syms, edges)[i] == edges[i],
{
}


/// A second resolution over the same symbols finds nothing more: no row it
/// inspects is resolved or ambiguous, and it inspects exactly the calls the
/// first one left unresolved.
pub proof fn law_second_resolve_touches_nothing(syms: Seq<Symbol>, edges: Seq<EdgeRow>)
    ensures
        count_classified(syms, resolve_rows(syms, edges), true) == 0,
        count_classified(syms, resolve_rows(syms, edges), false) == 0,
        count_pending(resolve_rows(syms, edges)) + count_classified(syms, edges, true) + count_classified(syms, edges, false)
            == count_pending(edges),
    decreases edges.len(),
{
    if edges.len() > 0 {
        let pre = edges.drop_last();
        law_second_resolve_touches_nothing(syms, pre);
        assert(resolve_rows(syms, edges).drop_last() =~= resolve_rows(syms, pre));
        assert(resolve_rows(syms, edges).last() == resolve_row(syms, edges.last()));
    }
}

} // verus!

verus! {

/// Symbol `k` is a callable (function, method or macro) found under
/// `name`: by its qualified name, or, when `by_short`, by the rightmost
/// segment of it.
pub open spec fn callable_named(syms: Seq<Symbol>, k: int, name: Seq<char>, by_short: bool) -> bool {
    &&& 0 <= k < syms.len()
    &&& is_call_target(syms[k].kind)
    &&& if by_short { resolver_short(syms[k].qualified_name@) == name } else { syms[k].qualified_name@ == name }
}

proof fn lemma_callable_ids_count(syms: Seq<Symbol>, name: Seq<char>, by_short: bool)
    ensures
        callable_ids(syms, name, by_short).len() == 0 ==> forall|k: int| !callable_named(syms, k, name, by_short),
        forall|k1: int, k2: int| k1 != k2 && callable_named(syms, k1, name, by_short) && callable_named(syms, k2, name, by_short)
            ==> callable_ids(syms, name, by_short).len() >= 2,
        callable_ids(syms, name, by_short).len() == 1 ==> exists|k: int| callable_named(syms, k, name, by_short)
            && callable_ids(syms, name, by_short)[0] == syms[k].id
            && forall|j: int| callable_named(syms, j, name, by_short) ==> j == k,
    decreases syms.len(),
{
    if syms.len() > 0 {
        let pre = syms.drop_last();
        let n = syms.len() - 1;
        lemma_callable_ids_count(pre, name, by_short);
        assert forall|k: int| 0 <= k < n implies callable_named(syms, k, name, by_short) == callable_named(pre, k, name, by_short) by {
            assert(syms[k] == pre[k]);
        }
        let ids = callable_ids(syms, name, by_short);
        let pids = callable_ids(pre, name, by_short);
        let last_in = callable_named(syms, n, name, by_short);
        assert(last_in == (is_call_target(syms.last().kind) && lookup_key(syms.last(), by_short) == name));
        if last_in {
            assert(ids == pids.push(syms.last().id));
        } else {
            assert(ids == pids);
        }
        assert forall|k: int| ids.len() == 0 implies !callable_named(syms, k, name, by_short) by {
            if callable_named(syms, k, name, by_short) && k < n {
                assert(callable_named(pre, k, name, by_short));
            }
        }
        assert forall|k1: int, k2: int| k1 != k2 && callable_named(syms, k1, name, by_short) && callable_named(syms, k2, name, by_short)
            implies ids.len() >= 2 by {
            if k1 < n && k2 < n {
                assert(callable_named(pre, k1, name, by_short) && callable_named(pre, k2, name, by_short));
            } else if k1 < n {
                assert(callable_named(pre, k1, name, by_short));
            } else {
                assert(callable_named(pre, k2, name, by_short));
            }
        }
        if ids.len() == 1 {
            if last_in {
                assert(pids.len() == 0);
                assert(ids[0] == syms[n].id);
                assert forall|j: int| callable_named(syms, j, name, by_short) implies j == n by {
                    if j < n {
                        assert(callable_named(pre, j, name, by_short));
                    }
                }
            } else {
                let k = choose|k: int| callable_named(pre, k, name, by_short)
                    && callable_ids(pre, name, by_short)[0] == pre[k].id
                    && forall|j: int| callable_named(pre, j, name, by_short) ==> j == k;
                assert(callable_named(syms, k, name, by_short));
                assert(syms[k] == pre[k]);
                assert forall|j: int| callable_named(syms, j, name, by_short) implies j == k by {
                    if j < n {
                        assert(callable_named(pre, j, name, by_short));
                    }
                }
            }
        }
    }
}

/// The resolver gives a pending call a target only when exactly one
/// callable answers to the call's name: the only callable of that
/// qualified name, or, when no callable has it, the only callable whose
/// rightmost segment it is. When two or more callables share the
/// qualified name, or none has it and two or more share the segment, the
/// call keeps no target and is marked ambiguous.
pub proof fn law_resolve_unique_target(syms: Seq<Symbol>, edges: Seq<EdgeRow>, i: int)
    requires
        0 <= i < edges.len(),
        is_pending(edges[i]),
    ensures
        ({
            let r = resolve_rows(syms, edges)[i];
            let name = edges[i].dst_unresolved.unwrap()@;
            &&& r.dst.is_some() ==> exists|k: int| #![trigger syms[k]] r.dst == Some(syms[k].id) && {
                ||| callable_named(syms, k, name, false) && forall|j: int| callable_named(syms, j, name, false) ==> j == k
                ||| callable_named(syms, k, name, true) && (forall|j: int| callable_named(syms, j, name, true) ==> j == k)
                    && forall|j: int| !callable_named(syms, j, name, false)
            }
            &&& (exists|j1: int, j2: int| j1 != j2 && callable_named(syms, j1, name, false) && callable_named(syms, j2, name, false))
                ==> r.dst.is_none() && r.confidence == EdgeConfidence::Ambiguous
            &&& (forall|j: int| !callable_named(syms, j, name, false))
                && (exists|j1: int, j2: int| j1 != j2 && callable_named(syms, j1, name, true) && callable_named(syms, j2, name, true))
                ==> r.dst.is_none() && r.confidence == EdgeConfidence::Ambiguous
        }),
{
    let name = edges[i].dst_unresolved.unwrap()@;
    lemma_callable_ids_count(syms, name, false);
    lemma_callable_ids_count(syms, name, true);
    let r = resolve_rows(syms, edges)[i];
    assert(r == resolve_row(syms, edges[i]));
    let q = callable_ids(syms, name, false);
    let s = callable_ids(syms, name, true);
    if r.dst.is_some() {
        if q.len() == 1 {
            let k = choose|k: int| callable_named(syms, k, name, false) && q[0] == syms[k].id
                && forall|j: int| callable_named(syms, j, name, false) ==> j == k;
            assert(r.dst == Some(syms[k].id));
        } else {
            assert(q.len() == 0 && s.len() == 1);
            let k = choose|k: int| callable_named(syms, k, name, true) && s[0] == syms[k].id
                && forall|j: int| callable_named(syms, j, name, true) ==> j == k;
            assert(r.dst == Some(syms[k].id));
        }
    }
    if exists|j1: int, j2: int| j1 != j2 && callable_named(syms, j1, name, false) && callable_named(syms, j2, name, false) {
        let (j1, j2) = choose|j1: int, j2: int| j1 != j2 && callable_named(syms, j1, name, false) && callable_named(syms, j2, name, false);
        assert(q.len() >= 2);
    }
    if (forall|j: int| !callable_named(syms, j, name, false))
        && exists|j1: int, j2: int| j1 != j2 && callable_named(syms, j1, name, true) && callable_named(syms, j2, name, true) {
        let (j1, j2) = choose|j1: int, j2: int| j1 != j2 && callable_named(syms, j1, name, true) && callable_named(syms, j2, name, true);
        assert(s.len() >= 2);
        if q.len() > 0 {
            assert(q.len() == 1 || q.len() >= 2);
        }
    }
}

} // verus!
