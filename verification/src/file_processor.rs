//! The per-file pass of a build: a walk entry and the file's bytes become
//! a file record and, for an indexed file, its symbols, edges, parse
//! errors and rule findings.
use vstd::prelude::*;
use crate::clock::{clock_now, millis_since};
use crate::extract::{edge_tiered, edge_view, edge_views, file_edges, starts_sorted, symbol_views, SymbolExtractor};
use crate::extractor_common::TypeKinds;
use crate::extractor_python::{python_imports_upto, python_refs_upto, python_symbols_upto, PythonExtractor};
use crate::extractor_rust::{rust_imports_upto, rust_refs_upto, rust_symbols_upto, RustExtractor};
use crate::extractor_typescript::{ts_imports_upto, ts_refs_upto, ts_symbols_upto, TypeScriptExtractor};
use crate::model::{FileId, FileRecord, FileStatus, FileTiming, MallardError, ParsedFile, ProcessOutcome};
use crate::parsed_source::ParsedSource;
use crate::rules::{language_for_name, language_named, rule_views, run_rules, RuleSet, RuleV};
use crate::syntax::{parse_error_views, syntax_table, tree_errors, tree_view, NodeV, SourceLang, SyntaxTree};
use crate::text::{copy_opt_string, copy_string, utf8_str};
use crate::walk::WalkEntry;

verus! {

/// What the extractor of a language gives for a tree: its symbols in
/// order, its edges, its parse errors.
pub open spec fn extracted_by(lang: SourceLang, t: Seq<NodeV>, src: Seq<u8>, path: Seq<char>, fid: FileId, p: ParsedFile) -> bool {
    let n = t.len() as int;
    &&& p.file_id == fid
    &&& starts_sorted(p.symbols@)
    &&& parse_error_views(p.parse_errors@) == tree_errors(t, src, fid)
    &&& forall|i: int| 0 <= i < p.edges@.len() ==> edge_tiered(#[trigger] edge_view(p.edges@[i]))
    &&& match lang {
        SourceLang::Rust => {
            &&& symbol_views(p.symbols@) == rust_symbols_upto(t, src, path, fid, n)
            &&& edge_views(p.edges@) == file_edges(symbol_views(p.symbols@), rust_refs_upto(t, src, n), rust_imports_upto(t, src, n), path, fid,
                "::"@, seq!["Ok"@, "Err"@, "Some"@, "None"@], TypeKinds::Rust)
        },
        SourceLang::Python => {
            &&& symbol_views(p.symbols@) == python_symbols_upto(t, src, path, fid, n)
            &&& edge_views(p.edges@) == file_edges(symbol_views(p.symbols@), python_refs_upto(t, src, n), python_imports_upto(t, src, n), path, fid,
                "."@, Seq::<Seq<char>>::empty(), TypeKinds::Python)
        },
        _ => {
            &&& symbol_views(p.symbols@) == ts_symbols_upto(t, src, path, fid, n)
            &&& edge_views(p.edges@) == file_edges(symbol_views(p.symbols@), ts_refs_upto(t, src, n), ts_imports_upto(t, src, n), path, fid,
                "."@, Seq::<Seq<char>>::empty(), TypeKinds::TypeScript)
        },
    }
}

/// The language an entry is processed as, by its language name.
pub open spec fn entry_language(e: WalkEntry) -> Option<SourceLang> {
    match e.language {
        Some(l) => language_for_name(l@),
        None => None,
    }
}

/// An outcome with no parse, findings or timing.
pub open spec fn bare_outcome(o: ProcessOutcome, file_id: FileId, e: WalkEntry, status: FileStatus) -> bool {
    &&& o.file_record.id == file_id
    &&& o.file_record.path@ == e.relative_path@
    &&& o.file_record.language == e.language
    &&& o.file_record.size_bytes == e.size_bytes
    &&& o.file_record.status == status
    &&& o.parsed.is_none()
    &&& o.findings@.len() == 0
    &&& o.timing.is_none()
}

/// What processing entry `entry` as file `file_id`, with bytes `raw` and
/// rules `rules`, gives.
pub open spec fn processed(rules: Seq<RuleV>, file_id: FileId, entry: WalkEntry, raw: Seq<u8>, r: Result<ProcessOutcome, MallardError>) -> bool {
    &&& entry.status != FileStatus::Indexed ==> r.is_ok() && bare_outcome(r.unwrap(), file_id, entry, entry.status)
    &&& entry.status == FileStatus::Indexed && !vstd::utf8::valid_utf8(raw) ==>
        r.is_ok() && bare_outcome(r.unwrap(), file_id, entry, FileStatus::SkippedBinary)
    &&& entry.status == FileStatus::Indexed && vstd::utf8::valid_utf8(raw) && entry_language(entry).is_none() ==>
        r.is_ok() && bare_outcome(r.unwrap(), file_id, entry, FileStatus::SkippedExtension)
    &&& entry.status == FileStatus::Indexed && vstd::utf8::valid_utf8(raw) && entry_language(entry).is_some() ==>
        r.is_ok() == syntax_table(entry_language(entry).unwrap(), vstd::utf8::encode_utf8(vstd::utf8::decode_utf8(raw))).is_some()
    &&& entry.status == FileStatus::Indexed && vstd::utf8::valid_utf8(raw) && entry_language(entry).is_some() && r.is_ok() ==> {
        let o = r.unwrap();
        let lang = entry_language(entry).unwrap();
        let src = vstd::utf8::encode_utf8(vstd::utf8::decode_utf8(raw));
        &&& o.file_record.id == file_id
        &&& o.file_record.path@ == entry.relative_path@
        &&& o.file_record.language == entry.language
        &&& o.file_record.size_bytes == entry.size_bytes
        &&& o.file_record.status == FileStatus::Indexed
        &&& o.parsed.is_some()
        &&& extracted_by(lang, syntax_table(lang, src).unwrap(), src, entry.relative_path@, file_id, o.parsed.unwrap())
        &&& crate::rules::finding_views(o.findings@)
                == run_rules(rules, file_id, raw, entry.language.unwrap()@)
        &&& o.timing.is_some()
        &&& o.timing.unwrap().path@ == entry.relative_path@
        &&& o.timing.unwrap().parse_ms == o.parsed.unwrap().parse_ms
        &&& o.timing.unwrap().query_ms == o.parsed.unwrap().query_ms
    }
    &&& r.is_err() ==> entry.status == FileStatus::Indexed && vstd::utf8::valid_utf8(raw) && entry_language(entry).is_some()
}

/// Extractors for each language and the rule set.
pub struct FileProcessor {
    pub rust: RustExtractor,
    pub python: PythonExtractor,
    pub typescript: TypeScriptExtractor,
    pub rules: RuleSet,
}

impl FileProcessor {
    /// A processor that applies `rules`.
    pub fn new(rules: RuleSet) -> (r: Result<FileProcessor, MallardError>)
        ensures
            r.is_ok(),
            rule_views(r.unwrap().rules.rules@) == rule_views(rules.rules@),
            r.unwrap().rules.source_hash == rules.source_hash,
    {
        let rust = RustExtractor::new()?;
        let python = PythonExtractor::new()?;
        let typescript = TypeScriptExtractor::new()?;
        Ok(FileProcessor { rust, python, typescript, rules })
    }

    /// The hash of the rule file, if rules were read from one.
    pub fn rule_set_hash(&self) -> (r: Option<&str>)
        ensures
            r.is_some() == self.rules.source_hash.is_some(),
            r.is_some() ==> r.unwrap()@ == self.rules.source_hash.unwrap()@,
    {
        match &self.rules.source_hash {
            Some(h) => Some(h.as_str()),
            None => None,
        }
    }

    /// Processes one walk entry whose file holds `raw`. An entry that the
    /// walk did not mark indexed passes through with its status. Bytes that
    /// are not UTF-8 make the file binary; a language that names no built-in
    /// grammar makes it skipped by extension. Otherwise the file is parsed
    /// (the only step that can fail), its symbols and edges extracted by
    /// its language's extractor, and the rules of its language run over it.
    pub fn process(&mut self, file_id: FileId, entry: &WalkEntry, raw: &[u8]) -> (r: Result<ProcessOutcome, MallardError>)
        ensures
            *final(self) == *old(self),
            processed(rule_views(old(self).rules.rules@), file_id, *entry, raw@, r),
    {
        let record = FileRecord {
            id: file_id,
            path: copy_string(&entry.relative_path),
            language: copy_opt_string(&entry.language),
            size_bytes: entry.size_bytes,
            status: entry.status,
        };
        if entry.status != FileStatus::Indexed {
            return Ok(ProcessOutcome { file_record: record, parsed: None, findings: Vec::new(), timing: None });
        }
        let source = match utf8_str(raw) {
            Some(s) => s,
            None => return Ok(skipped(record, FileStatus::SkippedBinary)),
        };
        let lang = match &entry.language {
            Some(l) => language_named(l.as_str()),
            None => None,
        };
        let lang = match lang {
            Some(l) => l,
            None => return Ok(skipped(record, FileStatus::SkippedExtension)),
        };
        let parsed_source = ParsedSource::parse(lang, file_id, copy_string(&entry.relative_path), source.as_str())?;
        let t_rules = clock_now();
        let language_name = match &entry.language {
            Some(l) => l.as_str(),
            None => "",
        };
        let findings = self.rules.run(file_id, raw, language_name);
        let rules_ms = millis_since(&t_rules);
        let parsed = match lang {
            SourceLang::Rust => self.rust.extract(&parsed_source),
            SourceLang::Python => self.python.extract(&parsed_source),
            _ => self.typescript.extract(&parsed_source),
        };
        let timing = FileTiming {
            path: copy_string(&entry.relative_path),
            parse_ms: parsed.parse_ms,
            query_ms: parsed.query_ms,
            rules_ms,
        };
        let ghost t = parsed_source.tree;
        assert(t.wf(vstd::utf8::encode_utf8(vstd::utf8::decode_utf8(raw@)).len()));
        assert(extracted_by(lang, tree_view(t), parsed_source.bytes(), entry.relative_path@, file_id, parsed));
        Ok(ProcessOutcome { file_record: record, parsed: Some(parsed), findings, timing: Some(timing) })
    }
}

fn skipped(record: FileRecord, status: FileStatus) -> (r: ProcessOutcome)
    ensures
        r.file_record == (FileRecord { status, ..record }),
        r.parsed.is_none(),
        r.findings@.len() == 0,
        r.timing.is_none(),
{
    ProcessOutcome { file_record: FileRecord { status, ..record }, parsed: None, findings: Vec::new(), timing: None }
}

} // verus!
