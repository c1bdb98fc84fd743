//! One parse of one file, shared by symbol extraction and the per-file
//! passes that follow it.
use vstd::prelude::*;
use crate::clock::{clock_now, millis_since};
use crate::model::{FileId, MallardError};
use crate::syntax::{build_syntax_tree, syntax_table, tree_view, SourceLang, SyntaxTree};

verus! {

/// A file's text and the syntax tree of its bytes.
pub struct ParsedSource {
    pub language: SourceLang,
    pub file_id: FileId,
    pub relative_path: String,
    pub source: String,
    pub tree: SyntaxTree,
    pub parse_ms: u64,
}

impl ParsedSource {
    /// The bytes the tree was built from: the text in UTF-8.
    pub open spec fn bytes(&self) -> Seq<u8> {
        vstd::utf8::encode_utf8(self.source@)
    }

    /// The tree spans the bytes of the text.
    pub open spec fn wf(&self) -> bool {
        self.tree.wf(self.bytes().len())
    }

    /// Parses a file's text with the grammar of its language. It succeeds
    /// exactly when tree-sitter gives a table for the text's bytes, and then
    /// holds that table and the language, file id, path and text it was
    /// given.
    pub fn parse(language: SourceLang, file_id: FileId, relative_path: String, source: &str) -> (r: Result<ParsedSource, MallardError>)
        ensures
            r.is_ok() == syntax_table(language, vstd::utf8::encode_utf8(source@)).is_some(),
            r.is_ok() ==> {
                let p = r.unwrap();
                &&& p.wf()
                &&& p.language == language
                &&& p.file_id == file_id
                &&& p.relative_path@ == relative_path@
                &&& p.source@ == source@
                &&& tree_view(p.tree) == syntax_table(language, p.bytes()).unwrap()
            },
    {
        let t = clock_now();
        let tree = build_syntax_tree(language, source.as_bytes())?;
        let parse_ms = millis_since(&t);
        Ok(ParsedSource {
            language,
            file_id,
            relative_path,
            source: source.to_string(),
            tree,
            parse_ms,
        })
    }

    pub fn language(&self) -> (r: SourceLang)
        ensures
            r == self.language,
    {
        self.language
    }

    pub fn file_id(&self) -> (r: FileId)
        ensures
            r == self.file_id,
    {
        self.file_id
    }

    pub fn relative_path(&self) -> (r: &str)
        ensures
            r@ == self.relative_path@,
    {
        self.relative_path.as_str()
    }

    pub fn source(&self) -> (r: &str)
        ensures
            r@ == self.source@,
    {
        self.source.as_str()
    }

    /// The syntax tree; its node 0 is the root.
    pub fn ts_root(&self) -> (r: &SyntaxTree)
        ensures
            *r == self.tree,
    {
        &self.tree
    }
}

} // verus!
