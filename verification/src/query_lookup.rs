//! Lookups over one index: its metadata, files under a path prefix,
//! symbols by qualified name, callers of unresolved names, importers of a
//! file.
use vstd::prelude::*;
use crate::model::{EdgeConfidence, EdgeKind, FileRecord, MallardError, INDEX_FORMAT_VERSION};
use crate::order::{key_view, positions_view, sorted_positions, sorted_selection, KeyPart, PartV};
use crate::query::{
    effective_kinds, fetch_symbol_spec, file_of, path_start_keys, record_for, records_at, symbol_at,
    Direction, FileRecordOut, IndexReader, SymbolRecord,
};
use crate::store::{IndexTables, MetadataRow};
use crate::text::{chars_eq, chars_of, copy_opt_string, copy_string, ends_with, ends_with_exec, parse_u32, parse_u32_exec, starts_with, starts_with_exec, str_eq, string_of};
use crate::walk::opt_view;

verus! {

impl Direction {
    /// The direction named `out`, `in` or `both`.
    pub fn parse(s: &str) -> (r: Result<Direction, MallardError>)
        ensures
            s@ == "out"@ ==> r == Ok::<Direction, MallardError>(Direction::Out),
            s@ == "in"@ ==> r == Ok::<Direction, MallardError>(Direction::In),
            s@ == "both"@ ==> r == Ok::<Direction, MallardError>(Direction::Both),
            s@ != "out"@ && s@ != "in"@ && s@ != "both"@ ==>
                (r matches Err(MallardError::Other(m)) && m@ == "unknown direction "@ + crate::text::debug_quoted(s@)),
    {
        proof {
            reveal_strlit("out");
            reveal_strlit("in");
            reveal_strlit("both");
            assert("in"@.len() == 2 && "out"@.len() == 3 && "both"@.len() == 4);
            assert("in"@ != "out"@ && "both"@ != "out"@ && "both"@ != "in"@);
        }
        if str_eq(s, "out") {
            Ok(Direction::Out)
        } else if str_eq(s, "in") {
            Ok(Direction::In)
        } else if str_eq(s, "both") {
            Ok(Direction::Both)
        } else {
            let mut m = String::new();
            crate::text::push_str(&mut m, "unknown direction ");
            let q = crate::text::debug_str(s);
            crate::text::push_str(&mut m, q.as_str());
            Err(MallardError::Other(m))
        }
    }
}

/// The build metadata of an index.
#[derive(Debug, Clone, PartialEq, Eq)]
pub struct MetadataRecord {
    pub sha: Option<String>,
    pub indexer_version: Option<String>,
    pub rule_set_hash: Option<String>,
    pub built_at: Option<String>,
    pub language_allow_list: Vec<String>,
    pub index_format_version: u32,
}

/// Build metadata, as text.
pub ghost struct MetadataV {
    pub sha: Option<Seq<char>>,
    pub indexer_version: Option<Seq<char>>,
    pub rule_set_hash: Option<Seq<char>>,
    pub built_at: Option<Seq<char>>,
    pub language_allow_list: Seq<Seq<char>>,
    pub index_format_version: u32,
}

pub open spec fn metadata_record_view(m: MetadataRecord) -> MetadataV {
    MetadataV {
        sha: opt_view(m.sha),
        indexer_version: opt_view(m.indexer_version),
        rule_set_hash: opt_view(m.rule_set_hash),
        built_at: opt_view(m.built_at),
        language_allow_list: m.language_allow_list@.map_values(|s: String| s@),
        index_format_version: m.index_format_version,
    }
}

/// The pieces seen so far of a split at commas, and the open piece.
pub open spec fn split_state(v: Seq<char>) -> (Seq<Seq<char>>, Seq<char>)
    decreases v.len(),
{
    if v.len() == 0 {
        (seq![], seq![])
    } else {
        let st = split_state(v.drop_last());
        if v.last() == ',' { (st.0.push(st.1), seq![]) } else { (st.0, st.1.push(v.last())) }
    }
}

/// A text cut at each comma (std `str::split(',')`).
pub open spec fn split_commas(v: Seq<char>) -> Seq<Seq<char>> {
    split_state(v).0.push(split_state(v).1)
}

/// Metadata read from rows in order; a later row of a key wins. An empty
/// allow list reads as no languages; an unreadable format version as the
/// current one.
pub open spec fn metadata_fold(rows: Seq<MetadataRow>) -> MetadataV
    decreases rows.len(),
{
    if rows.len() == 0 {
        MetadataV {
            sha: None,
            indexer_version: None,
            rule_set_hash: None,
            built_at: None,
            language_allow_list: seq![],
            index_format_version: INDEX_FORMAT_VERSION,
        }
    } else {
        let m = metadata_fold(rows.drop_last());
        let k = rows.last().key@;
        let v = rows.last().value@;
        if k == "sha"@ {
            MetadataV { sha: Some(v), ..m }
        } else if k == "indexer_version"@ {
            MetadataV { indexer_version: Some(v), ..m }
        } else if k == "rule_set_hash"@ {
            MetadataV { rule_set_hash: Some(v), ..m }
        } else if k == "built_at"@ {
            MetadataV { built_at: Some(v), ..m }
        } else if k == "language_allow_list"@ {
            MetadataV { language_allow_list: if v.len() == 0 { seq![] } else { split_commas(v) }, ..m }
        } else if k == "index_format_version"@ {
            MetadataV {
                index_format_version: match parse_u32(v) { Some(n) => n, None => INDEX_FORMAT_VERSION },
                ..m
            }
        } else {
            m
        }
    }
}

fn split_commas_exec(v: &str) -> (r: Vec<String>)
    ensures
        r@.map_values(|s: String| s@) == split_commas(v@),
{
    let cs = chars_of(v);
    let mut done: Vec<String> = Vec::new();
    let mut cur: Vec<char> = Vec::new();
    let mut i: usize = 0;
    while i < cs.len()
        invariant
            i <= cs@.len(),
            cs@ == v@,
            (done@.map_values(|s: String| s@), cur@) == split_state(cs@.take(i as int)),
        decreases cs.len() - i,
    {
        assert(cs@.take(i + 1).drop_last() =~= cs@.take(i as int));
        assert(cs@.take(i + 1).last() == cs@[i as int]);
        if cs[i] == ',' {
            let piece = string_of(cur.as_slice());
            let ghost before = done@;
            done.push(piece);
            assert(done@.map_values(|s: String| s@) =~= before.map_values(|s: String| s@).push(cur@));
            cur = Vec::new();
            assert(cur@ =~= Seq::<char>::empty());
        } else {
            cur.push(cs[i]);
        }
        i = i + 1;
    }
    assert(cs@.take(cs@.len() as int) =~= cs@);
    let last = string_of(cur.as_slice());
    let ghost before = done@;
    done.push(last);
    assert(done@.map_values(|s: String| s@) =~= before.map_values(|s: String| s@).push(cur@));
    done
}

/// The format version an index records, checked against this library's:
/// a missing or unreadable version counts as 0.
pub open spec fn format_version_check(rows: Seq<MetadataRow>) -> Result<(), MallardError> {
    let found: u32 = if exists|j: int| 0 <= j < rows.len() && (#[trigger] rows[j]).key@ == "index_format_version"@ {
        let j = choose|j: int| 0 <= j < rows.len() && (#[trigger] rows[j]).key@ == "index_format_version"@
            && forall|k: int| 0 <= k < j ==> rows[k].key@ != "index_format_version"@;
        match parse_u32(rows[j].value@) { Some(n) => n, None => 0 }
    } else {
        0
    };
    if found == INDEX_FORMAT_VERSION {
        Ok(())
    } else {
        Err(MallardError::VersionMismatch { found, expected: INDEX_FORMAT_VERSION })
    }
}

fn verify_format_version(rows: &Vec<MetadataRow>) -> (r: Result<(), MallardError>)
    ensures
        r == format_version_check(rows@),
{
    let mut j: usize = 0;
    while j < rows.len()
        invariant
            j <= rows@.len(),
            forall|k: int| 0 <= k < j ==> rows@[k].key@ != "index_format_version"@,
        decreases rows.len() - j,
    {
        if str_eq(rows[j].key.as_str(), "index_format_version") {
            let ghost jj = choose|x: int| 0 <= x < rows@.len() && (#[trigger] rows@[x]).key@ == "index_format_version"@
                && forall|k: int| 0 <= k < x ==> rows@[k].key@ != "index_format_version"@;
            proof {
                assert(rows@[j as int].key@ == "index_format_version"@);
                if jj < j {
                } else if jj > j {
                    assert(rows@[j as int].key@ != "index_format_version"@);
                }
            }
            let v = chars_of(rows[j].value.as_str());
            let found = match parse_u32_exec(v.as_slice()) {
                Some(n) => n,
                None => 0,
            };
            if found == INDEX_FORMAT_VERSION {
                return Ok(());
            } else {
                return Err(MallardError::VersionMismatch { found, expected: INDEX_FORMAT_VERSION });
            }
        }
        j = j + 1;
    }
    Err(MallardError::VersionMismatch { found: 0, expected: INDEX_FORMAT_VERSION })
}

/// A file row as returned to callers.
pub open spec fn file_out_of(f: FileRecord) -> FileRecordOut {
    FileRecordOut { file_id: f.id, path: f.path, language: f.language, size_bytes: f.size_bytes, status: f.status }
}

pub open spec fn path_keys(files: Seq<FileRecord>) -> Seq<Seq<PartV>> {
    Seq::new(files.len(), |i: int| seq![PartV::Text(files[i].path@)])
}

/// The files whose path starts with `prefix`, by path.
pub open spec fn files_under(files: Seq<FileRecord>, prefix: Seq<char>) -> Seq<FileRecordOut> {
    sorted_positions(path_keys(files), |i: int| starts_with(files[i].path@, prefix)).map_values(|p: int| file_out_of(files[p]))
}

/// The qualified name is `qname`, or ends with `.qname` or `::qname`.
pub open spec fn qname_matches(q: Seq<char>, qname: Seq<char>) -> bool {
    q == qname || ends_with(q, seq!['.'] + qname) || ends_with(q, seq![':', ':'] + qname)
}

/// Exact matches first, then path, then anchor start byte.
pub open spec fn qname_keys(files: Seq<FileRecord>, syms: Seq<crate::model::Symbol>, qname: Seq<char>) -> Seq<Seq<PartV>> {
    Seq::new(syms.len(), |i: int| seq![PartV::Num(if syms[i].qualified_name@ == qname { 0 } else { 1 })] + path_start_keys(files, syms)[i])
}

/// The symbols found by a qualified name.
pub open spec fn qname_hits(t: IndexTables, qname: Seq<char>) -> Seq<SymbolRecord> {
    records_at(t.files@, t.symbols@, sorted_positions(qname_keys(t.files@, t.symbols@, qname),
        |i: int| record_for(t.files@, t.symbols@[i]).is_some() && qname_matches(t.symbols@[i].qualified_name@, qname)))
}

/// A call site naming an unresolved target.
#[derive(Debug, Clone, PartialEq, Eq)]
pub struct UnresolvedCallerHit {
    pub unresolved_name: String,
    pub edge_kind: EdgeKind,
    pub confidence: EdgeConfidence,
    pub caller: SymbolRecord,
}

/// Edge `i` has no target, names one of `names`, has one of `kinds`, and
/// its source symbol has a record.
pub open spec fn unresolved_hit(t: IndexTables, names: Seq<Seq<char>>, kinds: Seq<EdgeKind>, i: int) -> bool {
    let e = t.edges@[i];
    &&& e.dst.is_none()
    &&& e.dst_unresolved.is_some()
    &&& names.contains(e.dst_unresolved.unwrap()@)
    &&& kinds.contains(e.kind)
    &&& fetch_symbol_spec(t, e.src.0@).is_some()
}

/// Caller path, then caller anchor start byte, of each edge.
pub open spec fn caller_keys(t: IndexTables) -> Seq<Seq<PartV>> {
    Seq::new(t.edges@.len(), |i: int| match fetch_symbol_spec(t, t.edges@[i].src.0@) {
        Some(s) => seq![PartV::Text(s.path@), PartV::Num(s.anchor.start_byte as int)],
        None => seq![],
    })
}

pub open spec fn hit_of(t: IndexTables, i: int) -> UnresolvedCallerHit {
    UnresolvedCallerHit {
        unresolved_name: t.edges@[i].dst_unresolved.unwrap(),
        edge_kind: t.edges@[i].kind,
        confidence: t.edges@[i].confidence,
        caller: fetch_symbol_spec(t, t.edges@[i].src.0@).unwrap(),
    }
}

/// The unresolved call sites naming any of `names`, by caller path and
/// position; none when no name is given.
pub open spec fn unresolved_hits(t: IndexTables, names: Seq<Seq<char>>, kinds: Seq<EdgeKind>) -> Seq<UnresolvedCallerHit> {
    if names.len() == 0 {
        seq![]
    } else {
        sorted_positions(caller_keys(t), |i: int| unresolved_hit(t, names, effective_kinds(kinds), i)).map_values(|p: int| hit_of(t, p))
    }
}

/// Symbol `j` (the first row of its id, with a record) is the source of
/// an import edge whose target lies in the file at `path`.
pub open spec fn importer(t: IndexTables, path: Seq<char>, j: int) -> bool {
    let s = t.symbols@[j];
    &&& record_for(t.files@, s).is_some()
    &&& symbol_at(t.symbols@, s.id.0@, j)
    &&& exists|i: int| 0 <= i < t.edges@.len() && (#[trigger] t.edges@[i]).kind == EdgeKind::Imports
        && t.edges@[i].src.0@ == s.id.0@ && t.edges@[i].dst.is_some()
        && fetch_symbol_spec(t, t.edges@[i].dst.unwrap().0@).is_some()
        && fetch_symbol_spec(t, t.edges@[i].dst.unwrap().0@).unwrap().path@ == path
}

/// The distinct importers of the file at `path`, by path and position.
pub open spec fn importers(t: IndexTables, path: Seq<char>) -> Seq<SymbolRecord> {
    records_at(t.files@, t.symbols@, sorted_positions(path_start_keys(t.files@, t.symbols@), |j: int| importer(t, path, j)))
}


/// A qualified-name lookup misses nothing: every symbol with a file row
/// whose qualified name is the name itself, or ends with `.` (Python,
/// TypeScript, JavaScript members) or `::` (Rust paths) followed by the
/// name, is among the records found.
pub proof fn law_find_complete(t: IndexTables, qname: Seq<char>)
    ensures
        forall|i: int| 0 <= i < t.symbols@.len() && record_for(t.files@, t.symbols@[i]).is_some()
            && (t.symbols@[i].qualified_name@ == qname
                || ends_with(t.symbols@[i].qualified_name@, seq!['.'] + qname)
                || ends_with(t.symbols@[i].qualified_name@, seq![':', ':'] + qname))
            ==> qname_hits(t, qname).contains(#[trigger] record_for(t.files@, t.symbols@[i]).unwrap()),
{
    let files = t.files@;
    let syms = t.symbols@;
    let keys = qname_keys(files, syms, qname);
    let sel = |i: int| record_for(files, syms[i]).is_some() && qname_matches(syms[i].qualified_name@, qname);
    crate::order::lemma_sorted_positions_sorted(keys, sel);
    let pos = sorted_positions(keys, sel);
    let hits = qname_hits(t, qname);
    assert(hits == records_at(files, syms, pos));
    assert forall|i: int| 0 <= i < syms.len() && record_for(files, syms[i]).is_some()
        && (syms[i].qualified_name@ == qname
            || ends_with(syms[i].qualified_name@, seq!['.'] + qname)
            || ends_with(syms[i].qualified_name@, seq![':', ':'] + qname))
        implies hits.contains(#[trigger] record_for(files, syms[i]).unwrap()) by {
        assert(keys.len() == syms.len());
        assert(sel(i));
        assert(pos.contains(i));
        let a = choose|a: int| 0 <= a < pos.len() && pos[a] == i;
        assert(hits[a] == record_for(files, syms[i]).unwrap());
    }
}

/// Every symbol that a qualified-name lookup finds matches the name, and
/// the exact matches come before the suffix matches.
pub proof fn law_find_exact_first(t: IndexTables, qname: Seq<char>)
    ensures
        forall|a: int| 0 <= a < qname_hits(t, qname).len()
            ==> qname_matches((#[trigger] qname_hits(t, qname)[a]).qualified_name@, qname),
        forall|a: int, b: int| 0 <= a < b < qname_hits(t, qname).len()
            && (#[trigger] qname_hits(t, qname)[b]).qualified_name@ == qname
            ==> (#[trigger] qname_hits(t, qname)[a]).qualified_name@ == qname,
{
    let files = t.files@;
    let syms = t.symbols@;
    let keys = qname_keys(files, syms, qname);
    let sel = |i: int| record_for(files, syms[i]).is_some() && qname_matches(syms[i].qualified_name@, qname);
    crate::order::lemma_sorted_positions_sorted(keys, sel);
    let pos = sorted_positions(keys, sel);
    let hits = qname_hits(t, qname);
    assert(hits == records_at(files, syms, pos));
    assert forall|a: int| 0 <= a < hits.len() implies qname_matches((#[trigger] hits[a]).qualified_name@, qname) by {
        assert(sel(pos[a]));
        assert(hits[a] == record_for(files, syms[pos[a]]).unwrap());
    }
    assert forall|a: int, b: int| 0 <= a < b < hits.len() && (#[trigger] hits[b]).qualified_name@ == qname
        implies (#[trigger] hits[a]).qualified_name@ == qname by {
        assert(hits[a] == record_for(files, syms[pos[a]]).unwrap());
        assert(hits[b] == record_for(files, syms[pos[b]]).unwrap());
        assert(crate::order::sorts_before(keys, pos[a], pos[b]));
        let ka = keys[pos[a]];
        let kb = keys[pos[b]];
        assert(kb[0] == PartV::Num(0));
        if syms[pos[a]].qualified_name@ != qname {
            assert(ka[0] == PartV::Num(1));
            assert(!crate::order::key_lt(ka, kb));
            assert(ka != kb);
        }
    }
}


pub open spec fn comma_free(s: Seq<char>) -> bool {
    forall|i: int| 0 <= i < s.len() ==> s[i] != ','
}

proof fn lemma_split_comma_free_tail(a: Seq<char>, b: Seq<char>)
    requires
        comma_free(b),
    ensures
        split_state(a + b) == (split_state(a).0, split_state(a).1 + b),
    decreases b.len(),
{
    if b.len() == 0 {
        assert(a + b =~= a);
        assert(split_state(a).1 + b =~= split_state(a).1);
    } else {
        lemma_split_comma_free_tail(a, b.drop_last());
        assert((a + b).drop_last() =~= a + b.drop_last());
        assert((a + b).last() == b.last());
        assert((split_state(a).1 + b.drop_last()).push(b.last()) =~= split_state(a).1 + b);
    }
}

proof fn lemma_split_joined(items: Seq<Seq<char>>)
    requires
        items.len() >= 1,
        forall|i: int| 0 <= i < items.len() ==> comma_free(#[trigger] items[i]),
    ensures
        split_state(crate::store::join_comma(items)) == (items.drop_last(), items.last()),
    decreases items.len(),
{
    if items.len() == 1 {
        lemma_split_comma_free_tail(seq![], items[0]);
        assert(Seq::<char>::empty() + items[0] =~= items[0]);
        assert(items.drop_last() =~= Seq::<Seq<char>>::empty());
    } else {
        let dl = items.drop_last();
        assert forall|i: int| 0 <= i < dl.len() implies comma_free(#[trigger] dl[i]) by {
            assert(dl[i] == items[i]);
        }
        lemma_split_joined(dl);
        let j = crate::store::join_comma(dl);
        let jc = j + seq![','];
        assert(jc.drop_last() =~= j);
        assert(split_state(jc) == (dl.drop_last().push(dl.last()), Seq::<char>::empty()));
        assert(dl.drop_last().push(dl.last()) =~= dl);
        assert(comma_free(items[items.len() - 1]));
        lemma_split_comma_free_tail(jc, items.last());
        assert(Seq::<char>::empty() + items.last() =~= items.last());
    }
}

/// A list of names with no comma in any of them reads back from its
/// comma-joined text as itself, but for the list of one empty name, whose
/// text is empty and reads as no names.
pub proof fn lemma_allow_list_round_trip(items: Seq<Seq<char>>)
    requires
        forall|i: int| 0 <= i < items.len() ==> comma_free(#[trigger] items[i]),
        !(items.len() == 1 && items[0].len() == 0),
    ensures
        (if crate::store::join_comma(items).len() == 0 { seq![] } else { split_commas(crate::store::join_comma(items)) }) == items,
{
    let j = crate::store::join_comma(items);
    if items.len() == 0 {
        assert(j.len() == 0);
    } else {
        lemma_split_joined(items);
        assert(split_commas(j) =~= items.drop_last().push(items.last()));
        assert(items.drop_last().push(items.last()) =~= items);
        if items.len() >= 2 {
            assert(j == crate::store::join_comma(items.drop_last()) + seq![','] + items.last());
            assert(j.len() >= 1);
        } else {
            assert(j == items[0]);
        }
    }
}

/// What the build writes into the metadata table reads back: sha, indexer
/// version, rule-set hash (absent when there was none), build time and the
/// language allow list are the build's own, and the format version is this
/// library's. The allow list is given back as written when no language
/// name in it holds a comma and it is not a single empty name.
pub proof fn law_metadata_round_trip(rows: Seq<MetadataRow>, m: crate::model::Metadata)
    requires
        crate::store::metadata_view(rows) == crate::store::seeded_metadata(m),
        forall|i: int| 0 <= i < m.language_allow_list@.len() ==> comma_free(#[trigger] m.language_allow_list@[i]@),
        !(m.language_allow_list@.len() == 1 && m.language_allow_list@[0]@.len() == 0),
    ensures
        metadata_fold(rows).sha == Some(m.sha@),
        metadata_fold(rows).indexer_version == Some(m.indexer_version@),
        metadata_fold(rows).rule_set_hash == opt_view(m.rule_set_hash),
        metadata_fold(rows).built_at == Some(m.built_at@),
        metadata_fold(rows).language_allow_list == m.language_allow_list@.map_values(|s: String| s@),
        metadata_fold(rows).index_format_version == INDEX_FORMAT_VERSION,
{
    let items = m.language_allow_list@.map_values(|s: String| s@);
    assert forall|i: int| 0 <= i < items.len() implies comma_free(#[trigger] items[i]) by {
        assert(items[i] == m.language_allow_list@[i]@);
    }
    lemma_allow_list_round_trip(items);
    let ver = crate::text::decimal(INDEX_FORMAT_VERSION as nat);
    assert(ver =~= seq!['2']);
    assert(parse_u32(ver) == Some(2u32)) by {
        assert(crate::text::all_digits(ver));
        assert(ver.drop_last() =~= Seq::<char>::empty());
        assert(crate::text::digits_value(Seq::<char>::empty()) == 0);
        assert(crate::text::digit_value('2') == 2);
        assert(crate::text::digits_value(ver) == 2);
    }

    reveal_strlit("sha");
    reveal_strlit("indexer_version");
    reveal_strlit("rule_set_hash");
    reveal_strlit("built_at");
    reveal_strlit("language_allow_list");
    reveal_strlit("index_format_version");
    let v = crate::store::metadata_view(rows);
    let n = rows.len() as int;
    assert(v.len() == n);
    assert forall|i: int| 0 <= i < n implies (#[trigger] rows[i]).key@ == v[i].0 && rows[i].value@ == v[i].1 by {}
    assert forall|k: int| 1 <= k <= n implies #[trigger] rows.take(k).drop_last() == rows.take(k - 1) && rows.take(k).last() == rows[k - 1] by {
        assert(rows.take(k).drop_last() =~= rows.take(k - 1));
    }
    assert(rows.take(n) =~= rows);
    let f0 = metadata_fold(rows.take(0));
    assert(rows.take(0) =~= Seq::<MetadataRow>::empty());
    let f1 = metadata_fold(rows.take(1));
    let f2 = metadata_fold(rows.take(2));
    let f3 = metadata_fold(rows.take(3));
    let f4 = metadata_fold(rows.take(4));
    let f5 = metadata_fold(rows.take(5));
    let sm = crate::store::seeded_metadata(m);
    assert(sm[0] == ("sha"@, m.sha@));
    assert(sm[1] == ("indexer_version"@, m.indexer_version@));
    assert("sha"@.len() == 3 && "built_at"@.len() == 8 && "rule_set_hash"@.len() == 13 && "indexer_version"@.len() == 15
        && "language_allow_list"@.len() == 19 && "index_format_version"@.len() == 20);
    assert(f1.sha == Some(m.sha@));
    assert(rows[1].key@ == "indexer_version"@);
    assert(f2.sha == Some(m.sha@) && f2.indexer_version == Some(m.indexer_version@) && f2.rule_set_hash.is_none() && f2.built_at.is_none());
    match m.rule_set_hash {
        Some(h) => {
            assert(n == 6);
            assert(sm[2] == ("rule_set_hash"@, h@));
            assert(sm[3] == ("built_at"@, m.built_at@));
            assert(sm[4].0 == "language_allow_list"@);
            assert(sm[5].0 == "index_format_version"@);
            assert(rows[2].key@ == "rule_set_hash"@ && rows[3].key@ == "built_at"@);
            assert(rows[4].key@ == "language_allow_list"@ && rows[5].key@ == "index_format_version"@);
            assert(f3.rule_set_hash == Some(h@) && f3.sha == f2.sha && f3.indexer_version == f2.indexer_version && f3.built_at.is_none());
            assert(f4.built_at == Some(m.built_at@) && f4.sha == f2.sha && f4.indexer_version == f2.indexer_version && f4.rule_set_hash == f3.rule_set_hash);
            assert(f5.built_at == f4.built_at && f5.sha == f2.sha && f5.indexer_version == f2.indexer_version && f5.rule_set_hash == f3.rule_set_hash);
            assert(sm[4].1 == crate::store::join_comma(items) && sm[5].1 == ver);
            assert(f5.language_allow_list == items);
            let f6 = metadata_fold(rows.take(6));
            assert(f6.built_at == f4.built_at && f6.sha == f2.sha && f6.indexer_version == f2.indexer_version && f6.rule_set_hash == f3.rule_set_hash);
            assert(f6.language_allow_list == items && f6.index_format_version == INDEX_FORMAT_VERSION);
        },
        None => {
            assert(n == 5);
            assert(sm[2] == ("built_at"@, m.built_at@));
            assert(sm[3].0 == "language_allow_list"@);
            assert(sm[4].0 == "index_format_version"@);
            assert(rows[2].key@ == "built_at"@ && rows[3].key@ == "language_allow_list"@ && rows[4].key@ == "index_format_version"@);
            assert(f3.built_at == Some(m.built_at@) && f3.sha == f2.sha && f3.indexer_version == f2.indexer_version && f3.rule_set_hash.is_none());
            assert(f4.built_at == f3.built_at && f4.sha == f2.sha && f4.indexer_version == f2.indexer_version && f4.rule_set_hash.is_none());
            assert(f5.built_at == f3.built_at && f5.sha == f2.sha && f5.indexer_version == f2.indexer_version && f5.rule_set_hash.is_none());
            assert(sm[3].1 == crate::store::join_comma(items) && sm[4].1 == ver);
            assert(f4.language_allow_list == items);
            assert(f5.language_allow_list == items && f5.index_format_version == INDEX_FORMAT_VERSION);
        },
    }
}

} // verus!

verus! {

use crate::query::{effective_kinds_exec, fetch_symbol, find_file, kinds_contain, records_from};

impl IndexReader {
    /// An index whose tables record this library's format version;
    /// otherwise the version found (0 when missing or unreadable).
    pub fn open(tables: IndexTables) -> (r: Result<IndexReader, MallardError>)
        ensures
            format_version_check(tables.metadata@).is_ok() ==> r.is_ok() && r.unwrap().tables == tables,
            format_version_check(tables.metadata@).is_err() ==> r.is_err()
                && r.unwrap_err() == format_version_check(tables.metadata@).unwrap_err(),
    {
        match verify_format_version(&tables.metadata) {
            Ok(()) => Ok(IndexReader { tables }),
            Err(e) => Err(e),
        }
    }

    /// The build metadata the index records.
    pub fn metadata(&self) -> (r: MetadataRecord)
        ensures
            metadata_record_view(r) == metadata_fold(self.tables.metadata@),
    {
        let rows = &self.tables.metadata;
        let mut out = MetadataRecord {
            sha: None,
            indexer_version: None,
            rule_set_hash: None,
            built_at: None,
            language_allow_list: Vec::new(),
            index_format_version: INDEX_FORMAT_VERSION,
        };
        assert(metadata_record_view(out).language_allow_list =~= Seq::<Seq<char>>::empty());
        assert(rows@.take(0) =~= Seq::<MetadataRow>::empty());
        let mut i: usize = 0;
        while i < rows.len()
            invariant
                i <= rows@.len(),
                metadata_record_view(out) == metadata_fold(rows@.take(i as int)),
            decreases rows.len() - i,
        {
            assert(rows@.take(i + 1).drop_last() =~= rows@.take(i as int));
            assert(rows@.take(i + 1).last() == rows@[i as int]);
            let k = rows[i].key.as_str();
            let v = &rows[i].value;
            if str_eq(k, "sha") {
                out.sha = Some(copy_string(v));
            } else if str_eq(k, "indexer_version") {
                out.indexer_version = Some(copy_string(v));
            } else if str_eq(k, "rule_set_hash") {
                out.rule_set_hash = Some(copy_string(v));
            } else if str_eq(k, "built_at") {
                out.built_at = Some(copy_string(v));
            } else if str_eq(k, "language_allow_list") {
                let vc = chars_of(v.as_str());
                if vc.len() == 0 {
                    out.language_allow_list = Vec::new();
                    assert(out.language_allow_list@.map_values(|s: String| s@) =~= Seq::<Seq<char>>::empty());
                } else {
                    out.language_allow_list = split_commas_exec(v.as_str());
                }
            } else if str_eq(k, "index_format_version") {
                let c = chars_of(v.as_str());
                out.index_format_version = match parse_u32_exec(c.as_slice()) {
                    Some(n) => n,
                    None => INDEX_FORMAT_VERSION,
                };
            }
            i = i + 1;
        }
        assert(rows@.take(rows@.len() as int) =~= rows@);
        out
    }

    /// The files whose path starts with `prefix`, by path.
    pub fn files_at_prefix(&self, prefix: &str) -> (r: Vec<FileRecordOut>)
        ensures
            r@ == files_under(self.tables.files@, prefix@),
    {
        let ghost files = self.tables.files@;
        let ghost sel = |i: int| starts_with(files[i].path@, prefix@);
        let p = chars_of(prefix);
        let mut hits: Vec<bool> = Vec::new();
        let mut keys: Vec<Vec<KeyPart>> = Vec::new();
        let mut i: usize = 0;
        while i < self.tables.files.len()
            invariant
                i <= files.len(),
                files == self.tables.files@,
                p@ == prefix@,
                sel == (|i: int| starts_with(files[i].path@, prefix@)),
                hits@.len() == i,
                keys@.len() == i,
                forall|j: int| 0 <= j < i ==> #[trigger] hits@[j] == sel(j),
                forall|j: int| 0 <= j < i ==> key_view(#[trigger] keys@[j]) == path_keys(files)[j],
            decreases files.len() - i,
        {
            let path = chars_of(self.tables.files[i].path.as_str());
            let hit = starts_with_exec(path.as_slice(), p.as_slice());
            let mut key: Vec<KeyPart> = Vec::new();
            key.push(KeyPart::Text(path));
            assert(key_view(key) =~= path_keys(files)[i as int]);
            hits.push(hit);
            keys.push(key);
            i = i + 1;
        }
        let order = crate::order::select_sorted(&hits, &keys, Ghost(path_keys(files)), Ghost(sel));
        let ghost pv = positions_view(order@);
        let mut out: Vec<FileRecordOut> = Vec::new();
        let mut a: usize = 0;
        while a < order.len()
            invariant
                a <= order@.len(),
                files == self.tables.files@,
                pv == positions_view(order@),
                sorted_selection(path_keys(files), sel, pv),
                out@ == pv.take(a as int).map_values(|q: int| file_out_of(files[q])),
            decreases order.len() - a,
        {
            assert(pv[a as int] == order@[a as int] as int);
            let f = &self.tables.files[order[a]];
            let rec = FileRecordOut {
                file_id: f.id,
                path: copy_string(&f.path),
                language: copy_opt_string(&f.language),
                size_bytes: f.size_bytes,
                status: f.status,
            };
            out.push(rec);
            a = a + 1;
            assert(out@ =~= pv.take(a as int).map_values(|q: int| file_out_of(files[q])));
        }
        assert(pv.take(order@.len() as int) =~= pv);
        out
    }

    /// Symbols whose qualified name is `qname` or ends with `.qname` or
    /// `::qname`: exact matches first, then by path and anchor start byte.
    pub fn find_by_qname(&self, qname: &str) -> (r: Vec<SymbolRecord>)
        ensures
            r@ == qname_hits(self.tables, qname@),
    {
        let ghost files = self.tables.files@;
        let ghost syms = self.tables.symbols@;
        let ghost sel = |i: int| record_for(files, syms[i]).is_some() && qname_matches(syms[i].qualified_name@, qname@);
        let q = chars_of(qname);
        let mut dq: Vec<char> = Vec::new();
        dq.push('.');
        let mut cq: Vec<char> = Vec::new();
        cq.push(':');
        cq.push(':');
        let mut k: usize = 0;
        while k < q.len()
            invariant
                k <= q@.len(),
                dq@ == seq!['.'] + q@.take(k as int),
                cq@ == seq![':', ':'] + q@.take(k as int),
            decreases q.len() - k,
        {
            dq.push(q[k]);
            cq.push(q[k]);
            k = k + 1;
            assert(dq@ =~= seq!['.'] + q@.take(k as int));
            assert(cq@ =~= seq![':', ':'] + q@.take(k as int));
        }
        assert(q@.take(q@.len() as int) =~= q@);
        let mut hits: Vec<bool> = Vec::new();
        let mut keys: Vec<Vec<KeyPart>> = Vec::new();
        let mut i: usize = 0;
        while i < self.tables.symbols.len()
            invariant
                i <= syms.len(),
                files == self.tables.files@,
                syms == self.tables.symbols@,
                q@ == qname@,
                dq@ == seq!['.'] + qname@,
                cq@ == seq![':', ':'] + qname@,
                sel == (|i: int| record_for(files, syms[i]).is_some() && qname_matches(syms[i].qualified_name@, qname@)),
                hits@.len() == i,
                keys@.len() == i,
                forall|j: int| 0 <= j < i ==> #[trigger] hits@[j] == sel(j),
                forall|j: int| 0 <= j < i ==> key_view(#[trigger] keys@[j]) == qname_keys(files, syms, qname@)[j],
            decreases syms.len() - i,
        {
            let s = &self.tables.symbols[i];
            let (has_file, path) = match find_file(&self.tables.files, s.file_id) {
                Some(j) => (true, chars_of(self.tables.files[j].path.as_str())),
                None => (false, Vec::new()),
            };
            let qn = chars_of(s.qualified_name.as_str());
            let exact = chars_eq(qn.as_slice(), q.as_slice());
            let hit = has_file && (exact || ends_with_exec(qn.as_slice(), dq.as_slice()) || ends_with_exec(qn.as_slice(), cq.as_slice()));
            let mut key: Vec<KeyPart> = Vec::new();
            key.push(KeyPart::Num(if exact { 0 } else { 1 }));
            key.push(KeyPart::Text(path));
            key.push(KeyPart::Num(s.anchor.start_byte as u128));
            assert(key_view(key) =~= qname_keys(files, syms, qname@)[i as int]);
            assert(hit == sel(i as int));
            hits.push(hit);
            keys.push(key);
            i = i + 1;
        }
        let order = crate::order::select_sorted(&hits, &keys, Ghost(qname_keys(files, syms, qname@)), Ghost(sel));
        proof {
            assert forall|a: int| 0 <= a < order@.len() implies (#[trigger] order@[a] as int) < syms.len()
                && record_for(files, syms[order@[a] as int]).is_some() by {
                assert(positions_view(order@)[a] == order@[a] as int);
                assert(sel(positions_view(order@)[a]));
            }
        }
        records_from(&self.tables.files, &self.tables.symbols, &order)
    }

    /// Call sites whose target did not resolve and whose name is one of
    /// `names`, of the given kinds (all when none), with their caller, by
    /// caller path and position; none when no name is given.
    pub fn unresolved_callers(&self, names: &Vec<String>, kinds: &Vec<EdgeKind>) -> (r: Vec<UnresolvedCallerHit>)
        ensures
            r@ == unresolved_hits(self.tables, names@.map_values(|s: String| s@), kinds@),
    {
        let ghost nv = names@.map_values(|s: String| s@);
        if names.len() == 0 {
            return Vec::new();
        }
        let ks = effective_kinds_exec(kinds);
        let ghost t = self.tables;
        let ghost sel = |i: int| unresolved_hit(t, nv, ks@, i);
        let mut hits: Vec<bool> = Vec::new();
        let mut keys: Vec<Vec<KeyPart>> = Vec::new();
        let mut i: usize = 0;
        while i < self.tables.edges.len()
            invariant
                i <= t.edges@.len(),
                t == self.tables,
                nv == names@.map_values(|s: String| s@),
                ks@ == effective_kinds(kinds@),
                sel == (|i: int| unresolved_hit(t, nv, ks@, i)),
                hits@.len() == i,
                keys@.len() == i,
                forall|j: int| 0 <= j < i ==> #[trigger] hits@[j] == sel(j),
                forall|j: int| 0 <= j < i ==> key_view(#[trigger] keys@[j]) == caller_keys(t)[j],
            decreases t.edges@.len() - i,
        {
            let e = &self.tables.edges[i];
            let src = chars_of(e.src.0.as_str());
            let caller = fetch_symbol(&self.tables, &src);
            let mut key: Vec<KeyPart> = Vec::new();
            match &caller {
                Some(c) => {
                    key.push(KeyPart::Text(chars_of(c.path.as_str())));
                    key.push(KeyPart::Num(c.anchor.start_byte as u128));
                },
                None => {},
            }
            assert(key_view(key) =~= caller_keys(t)[i as int]);
            let name_ok = match &e.dst_unresolved {
                Some(n) => {
                    let mut found = false;
                    let mut x: usize = 0;
                    while x < names.len()
                        invariant
                            x <= names@.len(),
                            nv == names@.map_values(|s: String| s@),
                            found == (exists|y: int| 0 <= y < x && nv[y] == n@),
                        decreases names.len() - x,
                    {
                        if str_eq(names[x].as_str(), n.as_str()) {
                            assert(nv[x as int] == n@);
                            found = true;
                        }
                        x = x + 1;
                    }
                    proof {
                        if found {
                            let y = choose|y: int| 0 <= y < names@.len() && nv[y] == n@;
                            assert(nv.contains(n@));
                        } else {
                            assert(!nv.contains(n@));
                        }
                    }
                    found
                },
                None => false,
            };
            let hit = e.dst.is_none() && name_ok && kinds_contain(&ks, e.kind) && caller.is_some();
            assert(hit == sel(i as int));
            hits.push(hit);
            keys.push(key);
            i = i + 1;
        }
        let order = crate::order::select_sorted(&hits, &keys, Ghost(caller_keys(t)), Ghost(sel));
        let ghost pv = positions_view(order@);
        let mut out: Vec<UnresolvedCallerHit> = Vec::new();
        let mut a: usize = 0;
        while a < order.len()
            invariant
                a <= order@.len(),
                t == self.tables,
                pv == positions_view(order@),
                sel == (|i: int| unresolved_hit(t, nv, ks@, i)),
                sorted_selection(caller_keys(t), sel, pv),
                out@ == pv.take(a as int).map_values(|q: int| hit_of(t, q)),
            decreases order.len() - a,
        {
            assert(pv[a as int] == order@[a as int] as int);
            assert(sel(pv[a as int]));
            let e = &self.tables.edges[order[a]];
            let src = chars_of(e.src.0.as_str());
            let caller = fetch_symbol(&self.tables, &src).unwrap();
            let hit = UnresolvedCallerHit {
                unresolved_name: copy_string(e.dst_unresolved.as_ref().unwrap()),
                edge_kind: e.kind,
                confidence: e.confidence,
                caller,
            };
            out.push(hit);
            a = a + 1;
            assert(out@ =~= pv.take(a as int).map_values(|q: int| hit_of(t, q)));
        }
        assert(pv.take(order@.len() as int) =~= pv);
        out
    }

    /// The distinct symbols that import something defined in the file at
    /// `path`, by path and position.
    pub fn importers_of_file(&self, path: &str) -> (r: Vec<SymbolRecord>)
        ensures
            r@ == importers(self.tables, path@),
    {
        let ghost t = self.tables;
        let ghost files = t.files@;
        let ghost syms = t.symbols@;
        let ghost sel = |j: int| importer(t, path@, j);
        let p = chars_of(path);
        let mut hits: Vec<bool> = Vec::new();
        let mut keys: Vec<Vec<KeyPart>> = Vec::new();
        let mut j: usize = 0;
        while j < self.tables.symbols.len()
            invariant
                j <= syms.len(),
                t == self.tables,
                files == t.files@,
                syms == t.symbols@,
                p@ == path@,
                sel == (|j: int| importer(t, path@, j)),
                hits@.len() == j,
                keys@.len() == j,
                forall|x: int| 0 <= x < j ==> #[trigger] hits@[x] == sel(x),
                forall|x: int| 0 <= x < j ==> key_view(#[trigger] keys@[x]) == path_start_keys(files, syms)[x],
            decreases syms.len() - j,
        {
            let s = &self.tables.symbols[j];
            let sid = chars_of(s.id.0.as_str());
            let (has_file, spath) = match find_file(&self.tables.files, s.file_id) {
                Some(f) => (true, chars_of(self.tables.files[f].path.as_str())),
                None => (false, Vec::new()),
            };
            // First row of its id?
            let mut first = true;
            let mut k: usize = 0;
            while k < j
                invariant
                    k <= j < syms.len(),
                    syms == self.tables.symbols@,
                    sid@ == syms[j as int].id.0@,
                    first == (forall|y: int| 0 <= y < k ==> syms[y].id.0@ != sid@),
                decreases j - k,
            {
                let other = chars_of(self.tables.symbols[k].id.0.as_str());
                if chars_eq(other.as_slice(), sid.as_slice()) {
                    first = false;
                }
                k = k + 1;
            }
            // An import edge from it into the file?
            let mut imports = false;
            let mut e: usize = 0;
            while e < self.tables.edges.len()
                invariant
                    e <= t.edges@.len(),
                    t == self.tables,
                    sid@ == syms[j as int].id.0@,
                    syms == t.symbols@,
                    p@ == path@,
                    imports == (exists|i: int| 0 <= i < e && (#[trigger] t.edges@[i]).kind == EdgeKind::Imports
                        && t.edges@[i].src.0@ == sid@ && t.edges@[i].dst.is_some()
                        && fetch_symbol_spec(t, t.edges@[i].dst.unwrap().0@).is_some()
                        && fetch_symbol_spec(t, t.edges@[i].dst.unwrap().0@).unwrap().path@ == path@),
                decreases t.edges@.len() - e,
            {
                let edge = &self.tables.edges[e];
                if edge.kind == EdgeKind::Imports {
                    let src = chars_of(edge.src.0.as_str());
                    if chars_eq(src.as_slice(), sid.as_slice()) {
                        match &edge.dst {
                            Some(d) => {
                                let did = chars_of(d.0.as_str());
                                match fetch_symbol(&self.tables, &did) {
                                    Some(rec) => {
                                        let rp = chars_of(rec.path.as_str());
                                        if chars_eq(rp.as_slice(), p.as_slice()) {
                                            imports = true;
                                        }
                                    },
                                    None => {},
                                }
                            },
                            None => {},
                        }
                    }
                }
                e = e + 1;
            }
            let hit = has_file && first && imports;
            proof {
                if first {
                    assert(symbol_at(syms, syms[j as int].id.0@, j as int));
                } else {
                    assert(!symbol_at(syms, syms[j as int].id.0@, j as int));
                }
                assert(hit == sel(j as int));
            }
            let mut key: Vec<KeyPart> = Vec::new();
            key.push(KeyPart::Text(spath));
            key.push(KeyPart::Num(s.anchor.start_byte as u128));
            assert(key_view(key) =~= path_start_keys(files, syms)[j as int]);
            hits.push(hit);
            keys.push(key);
            j = j + 1;
        }
        let order = crate::order::select_sorted(&hits, &keys, Ghost(path_start_keys(files, syms)), Ghost(sel));
        proof {
            assert forall|a: int| 0 <= a < order@.len() implies (#[trigger] order@[a] as int) < syms.len()
                && record_for(files, syms[order@[a] as int]).is_some() by {
                assert(positions_view(order@)[a] == order@[a] as int);
                assert(sel(positions_view(order@)[a]));
            }
        }
        records_from(&self.tables.files, &self.tables.symbols, &order)
    }
}

} // verus!
