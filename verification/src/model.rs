//! Core data types of the index: symbols, edges, findings, file records,
//! per-build counters.
use vstd::prelude::*;
use crate::text::{chars_of, decimal, push_decimal, push_str, str_eq, substring};

verus! {

/// Row identifier of a file inside one index.
pub type FileId = i64;

/// Version of the index layout stamped into every index's metadata.
pub const INDEX_FORMAT_VERSION: u32 = 2;

/// Content-addressed symbol identifier (32 lowercase hex digits).
#[derive(Debug, Clone, PartialEq, Eq, Hash)]
pub struct SymbolId(pub String);

impl SymbolId {
    pub fn as_str(&self) -> (r: &str)
        ensures
            r@ == self.0@,
    {
        self.0.as_str()
    }

    /// A second identifier with the same text.
    pub fn duplicate(&self) -> (r: SymbolId)
        ensures
            r == *self,
    {
        SymbolId(self.0.clone())
    }

    /// Identifier of a symbol from the file it is defined in, its qualified
    /// name, its kind and its normalised signature: the first 32 hex digits
    /// of the BLAKE3 digest of the four fields, each followed by a zero byte
    /// but the last.
    pub fn compute(file_path: &str, qualified_name: &str, kind: SymbolKind, signature: &str) -> (r: SymbolId)
        ensures
            r.0@ == symbol_id_text(file_path@, qualified_name@, kind, signature@),
            r.0@.len() == 32,
            lower_hex(r.0@),
    {
        let mut data: Vec<u8> = Vec::new();
        append_bytes(&mut data, file_path.as_bytes());
        data.push(0u8);
        append_bytes(&mut data, qualified_name.as_bytes());
        data.push(0u8);
        append_bytes(&mut data, kind.as_str().as_bytes());
        data.push(0u8);
        append_bytes(&mut data, signature.as_bytes());
        assert(data@ =~= symbol_id_input(file_path@, qualified_name@, kind, signature@));
        let digest = blake3_hex(data.as_slice());
        let d = chars_of(digest.as_str());
        let id = substring(d.as_slice(), 0, 32);
        assert(lower_hex(id@)) by {
            assert forall|i: int| 0 <= i < id@.len() implies is_lower_hex(#[trigger] id@[i]) by {
                assert(id@[i] == digest@[i]);
            }
        }
        SymbolId(id)
    }
}

fn append_bytes(v: &mut Vec<u8>, b: &[u8])
    ensures
        final(v)@ == old(v)@ + b@,
{
    let mut i: usize = 0;
    while i < b.len()
        invariant
            i <= b.len(),
            v@ == old(v)@ + b@.take(i as int),
        decreases b.len() - i,
    {
        v.push(b[i]);
        i = i + 1;
        assert(v@ =~= old(v)@ + b@.take(i as int));
    }
    assert(b@.take(b.len() as int) =~= b@);
}

/// Lowercase hex encoding of the BLAKE3 digest of a byte string.
pub uninterp spec fn blake3_hex_digest(data: Seq<u8>) -> Seq<char>;

/// Bytes hashed for a symbol identifier.
pub open spec fn symbol_id_input(file_path: Seq<char>, qualified_name: Seq<char>, kind: SymbolKind, signature: Seq<char>) -> Seq<u8> {
    vstd::utf8::encode_utf8(file_path) + seq![0u8] + vstd::utf8::encode_utf8(qualified_name) + seq![0u8]
        + vstd::utf8::encode_utf8(kind.name()) + seq![0u8] + vstd::utf8::encode_utf8(signature)
}

pub open spec fn symbol_id_text(file_path: Seq<char>, qualified_name: Seq<char>, kind: SymbolKind, signature: Seq<char>) -> Seq<char> {
    blake3_hex_digest(symbol_id_input(file_path, qualified_name, kind, signature)).take(32)
}

/// A lowercase hexadecimal digit.
pub open spec fn is_lower_hex(c: char) -> bool {
    ('0' <= c && c <= '9') || ('a' <= c && c <= 'f')
}

/// Every character is a lowercase hexadecimal digit.
pub open spec fn lower_hex(s: Seq<char>) -> bool {
    forall|i: int| 0 <= i < s.len() ==> is_lower_hex(#[trigger] s[i])
}

/// `blake3::hash(data).to_hex()`: the digest is a function of the input
/// bytes alone, rendered as 64 lowercase hex digits.
#[verifier::external_body]
fn blake3_hex(data: &[u8]) -> (r: String)
    ensures
        r@ == blake3_hex_digest(data@),
        r@.len() == 64,
        lower_hex(r@),
{
    blake3::hash(data).to_hex().to_string()
}

/// First 32 hex digits of a 64-digit digest (what `short_hash` keeps).
pub fn short_hash(hex_digest: &str) -> (r: String)
    requires
        hex_digest@.len() == 64,
    ensures
        r@ == hex_digest@.take(32),
{
    let d = chars_of(hex_digest);
    substring(d.as_slice(), 0, 32)
}

/// Hash of a rule file's bytes as recorded in index metadata: 32
/// lowercase hex digits.
pub fn content_hash(bytes: &[u8]) -> (r: String)
    ensures
        r@ == blake3_hex_digest(bytes@).take(32),
        r@.len() == 32,
        lower_hex(r@),
{
    let digest = blake3_hex(bytes);
    let r = short_hash(digest.as_str());
    assert(lower_hex(r@)) by {
        assert forall|i: int| 0 <= i < r@.len() implies is_lower_hex(#[trigger] r@[i]) by {
            assert(r@[i] == digest@[i]);
        }
    }
    r
}

#[derive(Debug, Clone, Copy, PartialEq, Eq, Hash, Structural)]
pub enum SymbolKind {
    Function,
    Method,
    Struct,
    Enum,
    Trait,
    Module,
    Impl,
    Const,
    Static,
    Macro,
    TypeAlias,
    Field,
    Variant,
    Other,
}

impl SymbolKind {
    pub open spec fn name(self) -> Seq<char> {
        match self {
            SymbolKind::Function => "function"@,
            SymbolKind::Method => "method"@,
            SymbolKind::Struct => "struct"@,
            SymbolKind::Enum => "enum"@,
            SymbolKind::Trait => "trait"@,
            SymbolKind::Module => "module"@,
            SymbolKind::Impl => "impl"@,
            SymbolKind::Const => "const"@,
            SymbolKind::Static => "static"@,
            SymbolKind::Macro => "macro"@,
            SymbolKind::TypeAlias => "type_alias"@,
            SymbolKind::Field => "field"@,
            SymbolKind::Variant => "variant"@,
            SymbolKind::Other => "other"@,
        }
    }

    pub fn as_str(self) -> (r: &'static str)
        ensures
            r@ == self.name(),
    {
        match self {
            SymbolKind::Function => "function",
            SymbolKind::Method => "method",
            SymbolKind::Struct => "struct",
            SymbolKind::Enum => "enum",
            SymbolKind::Trait => "trait",
            SymbolKind::Module => "module",
            SymbolKind::Impl => "impl",
            SymbolKind::Const => "const",
            SymbolKind::Static => "static",
            SymbolKind::Macro => "macro",
            SymbolKind::TypeAlias => "type_alias",
            SymbolKind::Field => "field",
            SymbolKind::Variant => "variant",
            SymbolKind::Other => "other",
        }
    }

    /// The kind whose name is `s`, if any.
    pub fn parse(s: &str) -> (r: Option<SymbolKind>)
        ensures
            r.is_some() ==> r.unwrap().name() == s@,
            r.is_none() ==> forall|k: SymbolKind| k.name() != s@,
    {
        let all = [
            SymbolKind::Function, SymbolKind::Method, SymbolKind::Struct, SymbolKind::Enum,
            SymbolKind::Trait, SymbolKind::Module, SymbolKind::Impl, SymbolKind::Const,
            SymbolKind::Static, SymbolKind::Macro, SymbolKind::TypeAlias, SymbolKind::Field,
            SymbolKind::Variant, SymbolKind::Other,
        ];
        let mut i: usize = 0;
        while i < 14
            invariant
                0 <= i <= 14,
                all@ == seq![
                    SymbolKind::Function, SymbolKind::Method, SymbolKind::Struct, SymbolKind::Enum,
                    SymbolKind::Trait, SymbolKind::Module, SymbolKind::Impl, SymbolKind::Const,
                    SymbolKind::Static, SymbolKind::Macro, SymbolKind::TypeAlias, SymbolKind::Field,
                    SymbolKind::Variant, SymbolKind::Other,
                ],
                forall|j: int| 0 <= j < i ==> all@[j].name() != s@,
            decreases 14 - i,
        {
            if str_eq(all[i].as_str(), s) {
                return Some(all[i]);
            }
            i = i + 1;
        }
        assert forall|k: SymbolKind| k.name() != s@ by {
            match k {
                SymbolKind::Function => assert(all@[0] == k),
                SymbolKind::Method => assert(all@[1] == k),
                SymbolKind::Struct => assert(all@[2] == k),
                SymbolKind::Enum => assert(all@[3] == k),
                SymbolKind::Trait => assert(all@[4] == k),
                SymbolKind::Module => assert(all@[5] == k),
                SymbolKind::Impl => assert(all@[6] == k),
                SymbolKind::Const => assert(all@[7] == k),
                SymbolKind::Static => assert(all@[8] == k),
                SymbolKind::Macro => assert(all@[9] == k),
                SymbolKind::TypeAlias => assert(all@[10] == k),
                SymbolKind::Field => assert(all@[11] == k),
                SymbolKind::Variant => assert(all@[12] == k),
                SymbolKind::Other => assert(all@[13] == k),
            }
        }
        None
    }
}

#[derive(Debug, Clone, Copy, PartialEq, Eq, Hash, Structural)]
pub enum EdgeKind {
    Calls,
    Imports,
    References,
    Contains,
    TestsFor,
    TestedBy,
}

impl EdgeKind {
    pub open spec fn name(self) -> Seq<char> {
        match self {
            EdgeKind::Calls => "calls"@,
            EdgeKind::Imports => "imports"@,
            EdgeKind::References => "references"@,
            EdgeKind::Contains => "contains"@,
            EdgeKind::TestsFor => "tests_for"@,
            EdgeKind::TestedBy => "tested_by"@,
        }
    }

    pub fn as_str(self) -> (r: &'static str)
        ensures
            r@ == self.name(),
    {
        match self {
            EdgeKind::Calls => "calls",
            EdgeKind::Imports => "imports",
            EdgeKind::References => "references",
            EdgeKind::Contains => "contains",
            EdgeKind::TestsFor => "tests_for",
            EdgeKind::TestedBy => "tested_by",
        }
    }

    /// Every edge kind, in declaration order.
    pub fn all() -> (r: Vec<EdgeKind>)
        ensures
            r@ == seq![
                EdgeKind::Calls, EdgeKind::Imports, EdgeKind::References, EdgeKind::Contains,
                EdgeKind::TestsFor, EdgeKind::TestedBy,
            ],
    {
        vec![
            EdgeKind::Calls, EdgeKind::Imports, EdgeKind::References, EdgeKind::Contains,
            EdgeKind::TestsFor, EdgeKind::TestedBy,
        ]
    }

    /// The edge kind whose name is `s`, if any.
    pub fn parse(s: &str) -> (r: Option<EdgeKind>)
        ensures
            r.is_some() ==> r.unwrap().name() == s@,
            r.is_none() ==> forall|k: EdgeKind| k.name() != s@,
    {
        let all = EdgeKind::all();
        let mut i: usize = 0;
        while i < all.len()
            invariant
                0 <= i <= all.len(),
                all@ == seq![
                    EdgeKind::Calls, EdgeKind::Imports, EdgeKind::References, EdgeKind::Contains,
                    EdgeKind::TestsFor, EdgeKind::TestedBy,
                ],
                forall|j: int| 0 <= j < i ==> all@[j].name() != s@,
            decreases all.len() - i,
        {
            if str_eq(all[i].as_str(), s) {
                return Some(all[i]);
            }
            i = i + 1;
        }
        assert forall|k: EdgeKind| k.name() != s@ by {
            match k {
                EdgeKind::Calls => assert(all@[0] == k),
                EdgeKind::Imports => assert(all@[1] == k),
                EdgeKind::References => assert(all@[2] == k),
                EdgeKind::Contains => assert(all@[3] == k),
                EdgeKind::TestsFor => assert(all@[4] == k),
                EdgeKind::TestedBy => assert(all@[5] == k),
            }
        }
        None
    }
}

/// How an edge's target was established (see the confidence tiers).
#[derive(Debug, Clone, Copy, PartialEq, Eq, Hash, Structural)]
pub enum EdgeConfidence {
    Extracted,
    Inferred,
    Ambiguous,
    Unresolved,
}

impl EdgeConfidence {
    pub open spec fn name(self) -> Seq<char> {
        match self {
            EdgeConfidence::Extracted => "extracted"@,
            EdgeConfidence::Inferred => "inferred"@,
            EdgeConfidence::Ambiguous => "ambiguous"@,
            EdgeConfidence::Unresolved => "unresolved"@,
        }
    }

    pub fn as_str(self) -> (r: &'static str)
        ensures
            r@ == self.name(),
    {
        match self {
            EdgeConfidence::Extracted => "extracted",
            EdgeConfidence::Inferred => "inferred",
            EdgeConfidence::Ambiguous => "ambiguous",
            EdgeConfidence::Unresolved => "unresolved",
        }
    }

    /// The confidence whose name is `s`, if any.
    pub fn parse(s: &str) -> (r: Option<EdgeConfidence>)
        ensures
            r.is_some() ==> r.unwrap().name() == s@,
            r.is_none() ==> forall|k: EdgeConfidence| k.name() != s@,
    {
        if str_eq("extracted", s) {
            Some(EdgeConfidence::Extracted)
        } else if str_eq("inferred", s) {
            Some(EdgeConfidence::Inferred)
        } else if str_eq("ambiguous", s) {
            Some(EdgeConfidence::Ambiguous)
        } else if str_eq("unresolved", s) {
            Some(EdgeConfidence::Unresolved)
        } else {
            None
        }
    }

    /// Whether an edge of this tier carries a resolved target.
    pub open spec fn has_target(self) -> bool {
        self == EdgeConfidence::Extracted || self == EdgeConfidence::Inferred
    }
}

#[derive(Debug, Clone, Copy, PartialEq, Eq, Structural)]
pub struct Anchor {
    pub start_byte: u64,
    pub end_byte: u64,
    pub start_line: u32,
    pub end_line: u32,
}

#[derive(Debug, Clone, PartialEq, Eq)]
pub struct Symbol {
    pub id: SymbolId,
    pub file_id: FileId,
    pub qualified_name: String,
    pub kind: SymbolKind,
    pub signature: String,
    pub anchor: Anchor,
}

impl Symbol {
    pub fn duplicate(&self) -> (r: Symbol)
        ensures
            r == *self,
    {
        Symbol {
            id: self.id.duplicate(),
            file_id: self.file_id,
            qualified_name: self.qualified_name.clone(),
            kind: self.kind,
            signature: self.signature.clone(),
            anchor: self.anchor,
        }
    }
}

#[derive(Debug, Clone, PartialEq, Eq)]
pub struct Edge {
    pub src: SymbolId,
    pub dst: Option<SymbolId>,
    pub dst_unresolved: Option<String>,
    pub kind: EdgeKind,
    pub confidence: EdgeConfidence,
    pub file_id: FileId,
    pub order_key: u64,
}

/// The target fields agree with the confidence tier: a target id exactly
/// for extracted / inferred edges, an unresolved name exactly otherwise.
pub open spec fn edge_tier_consistent(dst_is_some: bool, unresolved_is_some: bool, confidence: EdgeConfidence) -> bool {
    &&& dst_is_some == confidence.has_target()
    &&& unresolved_is_some == !confidence.has_target()
}

#[derive(Debug, Clone, PartialEq, Eq)]
pub struct Finding {
    pub rule_id: String,
    pub file_id: FileId,
    pub start_line: u32,
    pub end_line: u32,
    pub message: String,
}

#[derive(Debug, Clone, PartialEq, Eq)]
pub struct ParseError {
    pub file_id: FileId,
    pub message: String,
    pub line: u32,
    pub col: u32,
}

#[derive(Debug, Clone, Copy, PartialEq, Eq, Hash, Structural)]
pub enum FileStatus {
    Indexed,
    Unparseable,
    SkippedSize,
    SkippedBinary,
    SkippedSymlink,
    SkippedExtension,
}

impl FileStatus {
    pub open spec fn name(self) -> Seq<char> {
        match self {
            FileStatus::Indexed => "indexed"@,
            FileStatus::Unparseable => "unparseable"@,
            FileStatus::SkippedSize => "skipped:size"@,
            FileStatus::SkippedBinary => "skipped:binary"@,
            FileStatus::SkippedSymlink => "skipped:symlink"@,
            FileStatus::SkippedExtension => "skipped:extension"@,
        }
    }

    pub fn as_str(self) -> (r: &'static str)
        ensures
            r@ == self.name(),
    {
        match self {
            FileStatus::Indexed => "indexed",
            FileStatus::Unparseable => "unparseable",
            FileStatus::SkippedSize => "skipped:size",
            FileStatus::SkippedBinary => "skipped:binary",
            FileStatus::SkippedSymlink => "skipped:symlink",
            FileStatus::SkippedExtension => "skipped:extension",
        }
    }

    /// The status whose name is `s`, if any.
    pub fn parse(s: &str) -> (r: Option<FileStatus>)
        ensures
            r.is_some() ==> r.unwrap().name() == s@,
            r.is_none() ==> forall|k: FileStatus| k.name() != s@,
    {
        if str_eq("indexed", s) {
            Some(FileStatus::Indexed)
        } else if str_eq("unparseable", s) {
            Some(FileStatus::Unparseable)
        } else if str_eq("skipped:size", s) {
            Some(FileStatus::SkippedSize)
        } else if str_eq("skipped:binary", s) {
            Some(FileStatus::SkippedBinary)
        } else if str_eq("skipped:symlink", s) {
            Some(FileStatus::SkippedSymlink)
        } else if str_eq("skipped:extension", s) {
            Some(FileStatus::SkippedExtension)
        } else {
            None
        }
    }
}

/// Names are distinct, so each kind's name parses back to that kind.
pub proof fn law_symbol_kind_names_distinct(a: SymbolKind, b: SymbolKind)
    ensures
        a.name() == b.name() ==> a == b,
{
    reveal_strlit("function");
    reveal_strlit("method");
    reveal_strlit("struct");
    reveal_strlit("enum");
    reveal_strlit("trait");
    reveal_strlit("module");
    reveal_strlit("impl");
    reveal_strlit("const");
    reveal_strlit("static");
    reveal_strlit("macro");
    reveal_strlit("type_alias");
    reveal_strlit("field");
    reveal_strlit("variant");
    reveal_strlit("other");
    if a.name() == b.name() {
        assert(a.name().len() == b.name().len());
        assert(a.name()[0] == b.name()[0]);
        assert(a.name()[1] == b.name()[1]);
        assert(a.name()[2] == b.name()[2]);
    }
}

/// Edge kind names are distinct.
pub proof fn law_edge_kind_names_distinct(a: EdgeKind, b: EdgeKind)
    ensures
        a.name() == b.name() ==> a == b,
{
    reveal_strlit("calls");
    reveal_strlit("imports");
    reveal_strlit("references");
    reveal_strlit("contains");
    reveal_strlit("tests_for");
    reveal_strlit("tested_by");
    if a.name() == b.name() {
        assert(a.name().len() == b.name().len());
        assert(a.name()[0] == b.name()[0]);
        assert(a.name()[6] == b.name()[6]);
    }
}

/// Confidence names are distinct.
pub proof fn law_confidence_names_distinct(a: EdgeConfidence, b: EdgeConfidence)
    ensures
        a.name() == b.name() ==> a == b,
{
    reveal_strlit("extracted");
    reveal_strlit("inferred");
    reveal_strlit("ambiguous");
    reveal_strlit("unresolved");
    if a.name() == b.name() {
        assert(a.name()[0] == b.name()[0]);
    }
}

/// File status names are distinct.
pub proof fn law_file_status_names_distinct(a: FileStatus, b: FileStatus)
    ensures
        a.name() == b.name() ==> a == b,
{
    reveal_strlit("indexed");
    reveal_strlit("unparseable");
    reveal_strlit("skipped:size");
    reveal_strlit("skipped:binary");
    reveal_strlit("skipped:symlink");
    reveal_strlit("skipped:extension");
    if a.name() == b.name() {
        assert(a.name().len() == b.name().len());
        assert(a.name()[0] == b.name()[0]);
        assert(a.name()[8] == b.name()[8]);
    }
}

#[derive(Debug, Clone, PartialEq, Eq)]
pub struct FileRecord {
    pub id: FileId,
    pub path: String,
    pub language: Option<String>,
    pub size_bytes: u64,
    pub status: FileStatus,
}

#[derive(Debug, Clone, PartialEq, Eq)]
pub struct Metadata {
    pub sha: String,
    pub indexer_version: String,
    pub rule_set_hash: Option<String>,
    pub built_at: String,
    pub language_allow_list: Vec<String>,
}

#[derive(Debug, Clone)]
pub struct ParsedFile {
    pub file_id: FileId,
    pub symbols: Vec<Symbol>,
    pub edges: Vec<Edge>,
    pub parse_errors: Vec<ParseError>,
    pub parse_ms: u64,
    pub query_ms: u64,
}

#[derive(Debug, Clone)]
pub struct FileTiming {
    pub path: String,
    pub parse_ms: u64,
    pub query_ms: u64,
    pub rules_ms: u64,
}

#[derive(Debug, Clone)]
pub struct ProcessOutcome {
    pub file_record: FileRecord,
    pub parsed: Option<ParsedFile>,
    pub findings: Vec<Finding>,
    pub timing: Option<FileTiming>,
}

/// Errors of the library. Outside errors are carried by their message.
#[derive(Debug, Clone, PartialEq, Eq)]
pub enum MallardError {
    Io(String),
    DuckDb(String),
    TsLanguage(String),
    TsQuery(String),
    Yaml(String),
    Json(String),
    InvalidPath(String),
    IndexNotFound(String),
    VersionMismatch { found: u32, expected: u32 },
    Other(String),
}

impl MallardError {
    /// The error's message.
    pub open spec fn text(self) -> Seq<char> {
        match self {
            MallardError::Io(m) => "io error: "@ + m@,
            MallardError::DuckDb(m) => "duckdb error: "@ + m@,
            MallardError::TsLanguage(m) => "tree-sitter language error: "@ + m@,
            MallardError::TsQuery(m) => "tree-sitter query error: "@ + m@,
            MallardError::Yaml(m) => "yaml error: "@ + m@,
            MallardError::Json(m) => "json error: "@ + m@,
            MallardError::InvalidPath(m) => "invalid path: "@ + m@,
            MallardError::IndexNotFound(p) => "index not found: "@ + p@,
            MallardError::VersionMismatch { found, expected } =>
                "index format version mismatch: found "@ + decimal(found as nat) + ", expected "@ + decimal(expected as nat),
            MallardError::Other(m) => m@,
        }
    }

    /// The error's message, as it is shown to users.
    pub fn message(&self) -> (r: String)
        ensures
            r@ == self.text(),
    {
        let mut s = String::new();
        match self {
            MallardError::Io(m) => { push_str(&mut s, "io error: "); push_str(&mut s, m.as_str()); },
            MallardError::DuckDb(m) => { push_str(&mut s, "duckdb error: "); push_str(&mut s, m.as_str()); },
            MallardError::TsLanguage(m) => { push_str(&mut s, "tree-sitter language error: "); push_str(&mut s, m.as_str()); },
            MallardError::TsQuery(m) => { push_str(&mut s, "tree-sitter query error: "); push_str(&mut s, m.as_str()); },
            MallardError::Yaml(m) => { push_str(&mut s, "yaml error: "); push_str(&mut s, m.as_str()); },
            MallardError::Json(m) => { push_str(&mut s, "json error: "); push_str(&mut s, m.as_str()); },
            MallardError::InvalidPath(m) => { push_str(&mut s, "invalid path: "); push_str(&mut s, m.as_str()); },
            MallardError::IndexNotFound(p) => { push_str(&mut s, "index not found: "); push_str(&mut s, p.as_str()); },
            MallardError::VersionMismatch { found, expected } => {
                push_str(&mut s, "index format version mismatch: found ");
                push_decimal(&mut s, *found as u64);
                push_str(&mut s, ", expected ");
                push_decimal(&mut s, *expected as u64);
            },
            MallardError::Other(m) => { push_str(&mut s, m.as_str()); },
        }
        assert(s@ =~= self.text());
        s
    }
}

} // verus!
