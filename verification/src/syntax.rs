//! Concrete syntax trees as flat tables: tree-sitter parses a source file,
//! and the tree is copied into a pre-order table of nodes with their kind,
//! field, parent and span. Everything the extractors read of a tree they
//! read from this table.
use vstd::prelude::*;
use crate::model::MallardError;
use tree_sitter::Parser;
use tree_sitter_python::LANGUAGE as PYTHON;
use tree_sitter_rust::LANGUAGE as RUST;
use tree_sitter_typescript::{LANGUAGE_TSX as TSX, LANGUAGE_TYPESCRIPT as TYPESCRIPT};

verus! {

/// Grammars the extractors read.
#[derive(Debug, Clone, Copy, PartialEq, Eq, Structural)]
pub enum SourceLang {
    Rust,
    Python,
    TypeScript,
    Tsx,
}

/// One node as tree-sitter reports it, in pre-order: kind, whether it is
/// named, the field it hangs under, its depth below the root, start and end
/// byte, and whether it is an error node, a missing node, or holds an
/// error.
pub type NodeRow = (String, bool, Option<String>, u32, usize, usize, bool, bool, bool);

/// What a node row holds, with texts as character sequences.
pub type RowV = (Seq<char>, bool, Option<Seq<char>>, u32, usize, usize, bool, bool, bool);

pub open spec fn row_view(r: NodeRow) -> RowV {
    (r.0@, r.1, match r.2 { Some(f) => Some(f@), None => None }, r.3, r.4, r.5, r.6, r.7, r.8)
}

pub open spec fn rows_view(rs: Seq<NodeRow>) -> Seq<RowV> {
    rs.map_values(|r: NodeRow| row_view(r))
}

/// The nodes, in pre-order, of the tree that tree-sitter's parser builds
/// for `source` with the grammar of `lang`; none when no tree comes back.
pub uninterp spec fn parsed_rows(lang: SourceLang, source: Seq<u8>) -> Option<Seq<RowV>>;

/// `tree_sitter::Parser::parse` of `source` with the grammar of `lang`
/// (the grammar crates' `LANGUAGE` constants), its tree read out node by
/// node in pre-order through a `TreeCursor`; none when the grammar is
/// refused or no tree comes back. A function of the language and the
/// bytes alone.
#[verifier::external_body]
fn parse_rows(lang: SourceLang, source: &[u8]) -> (r: Option<Vec<NodeRow>>)
    ensures
        match r { Some(v) => parsed_rows(lang, source@) == Some(rows_view(v@)), None => parsed_rows(lang, source@).is_none() },
{
    let g = match lang { SourceLang::Rust => RUST, SourceLang::Python => PYTHON, SourceLang::TypeScript => TYPESCRIPT, SourceLang::Tsx => TSX };
    let mut p = Parser::new();
    p.set_language(&g.into()).ok()?;
    let tree = p.parse(source, None)?;
    let mut c = tree.walk();
    let mut rows = Vec::new();
    for i in 0..c.node().descendant_count() {
        c.goto_descendant(i);
        let n = c.node();
        rows.push((n.kind().into(), n.is_named(), c.field_name().map(Into::into), c.depth(), n.start_byte(), n.end_byte(), n.is_error(), n.is_missing(), n.has_error()));
    }
    Some(rows)
}

/// Newlines among the first `b` bytes: the 0-based row of byte `b`, as
/// tree-sitter counts rows.
pub open spec fn newlines_before(src: Seq<u8>, b: int) -> nat
    decreases b,
{
    if b <= 0 { 0 } else { newlines_before(src, b - 1) + if src[b - 1] == 10u8 { 1nat } else { 0nat } }
}

/// Where the line holding byte `b` starts; `b` minus it is the byte
/// column, as tree-sitter counts columns.
pub open spec fn line_start(src: Seq<u8>, b: int) -> int
    decreases b,
{
    if b <= 0 { 0 } else if src[b - 1] == 10u8 { b } else { line_start(src, b - 1) }
}

proof fn lemma_line_start_bounds(src: Seq<u8>, b: int)
    requires
        0 <= b,
    ensures
        0 <= line_start(src, b) <= b,
        newlines_before(src, b) <= b,
    decreases b,
{
    if b > 0 {
        lemma_line_start_bounds(src, b - 1);
    }
}

/// For each byte position `0..=len`, its row and the start of its line.
fn line_table(src: &[u8]) -> (r: (Vec<usize>, Vec<usize>))
    ensures
        r.0@.len() == src@.len() + 1,
        r.1@.len() == src@.len() + 1,
        forall|b: int| 0 <= b <= src@.len() ==> #[trigger] r.0@[b] == newlines_before(src@, b),
        forall|b: int| 0 <= b <= src@.len() ==> #[trigger] (r.1)@[b] == line_start(src@, b),
{
    let mut rows: Vec<usize> = Vec::new();
    let mut starts: Vec<usize> = Vec::new();
    rows.push(0);
    starts.push(0);
    let mut b: usize = 0;
    while b < src.len()
        invariant
            b <= src@.len(),
            rows@.len() == b + 1,
            starts@.len() == b + 1,
            forall|x: int| 0 <= x <= b ==> #[trigger] rows@[x] == newlines_before(src@, x) && starts@[x] == line_start(src@, x),
        decreases src.len() - b,
    {
        proof {
            lemma_line_start_bounds(src@, b as int);
        }
        let r = rows[b];
        let st = starts[b];
        if src[b] == 10u8 {
            rows.push(r + 1);
            starts.push(b + 1);
        } else {
            rows.push(r);
            starts.push(st);
        }
        proof {
            assert(newlines_before(src@, b + 1) == newlines_before(src@, b as int) + if src@[b as int] == 10u8 { 1nat } else { 0nat });
            assert(rows@[b + 1] == newlines_before(src@, b + 1));
            assert(starts@[b + 1] == line_start(src@, b + 1));
        }
        b = b + 1;
    }
    assert forall|x: int| 0 <= x <= src@.len() implies #[trigger] starts@[x] == line_start(src@, x) by {
        assert(rows@[x] == newlines_before(src@, x));
    }
    (rows, starts)
}

/// Text of a byte range as `String::from_utf8_lossy` reads it.
pub uninterp spec fn lossy_text(bytes: Seq<u8>) -> Seq<char>;

/// `String::from_utf8_lossy`: the text of the bytes, invalid sequences
/// replaced; a function of the bytes alone.
#[verifier::external_body]
fn utf8_lossy(bytes: &[u8]) -> (r: String)
    ensures
        r@ == lossy_text(bytes@),
{
    String::from_utf8_lossy(bytes).into_owned()
}

/// One node of a syntax tree.
#[derive(Debug, Clone)]
pub struct SyntaxNode {
    pub kind: String,
    pub named: bool,
    pub field: Option<String>,
    pub parent: Option<usize>,
    pub start_byte: u64,
    pub end_byte: u64,
    pub start_row: u32,
    pub start_col: u32,
    pub end_row: u32,
    pub is_error: bool,
    pub is_missing: bool,
    pub has_error: bool,
}

/// A syntax tree as a table of nodes in pre-order; node 0 is the root.
#[derive(Debug, Clone)]
pub struct SyntaxTree {
    pub nodes: Vec<SyntaxNode>,
}

impl SyntaxTree {
    /// A root first, every other node's parent before it, and every span
    /// inside a source of `src_len` bytes.
    pub open spec fn wf(&self, src_len: nat) -> bool {
        &&& self.nodes@.len() > 0
        &&& self.nodes@[0].parent.is_none()
        &&& forall|i: int| 0 < i < self.nodes@.len() ==> (#[trigger] self.nodes@[i]).parent.is_some()
            && (self.nodes@[i].parent.unwrap() as int) < i
        &&& forall|i: int| 0 <= i < self.nodes@.len() ==> (#[trigger] self.nodes@[i]).start_byte <= self.nodes@[i].end_byte
            && self.nodes@[i].end_byte <= src_len
        &&& forall|i: int, j: int| 0 <= i < j < self.nodes@.len() ==> self.nodes@[i].start_byte <= self.nodes@[j].start_byte
    }
}

/// What a node of a table holds, with texts as character sequences.
pub ghost struct NodeV {
    pub kind: Seq<char>,
    pub named: bool,
    pub field: Option<Seq<char>>,
    pub parent: Option<usize>,
    pub start_byte: u64,
    pub end_byte: u64,
    pub start_row: u32,
    pub start_col: u32,
    pub end_row: u32,
    pub is_error: bool,
    pub is_missing: bool,
    pub has_error: bool,
}

pub open spec fn node_view(n: SyntaxNode) -> NodeV {
    NodeV {
        kind: n.kind@,
        named: n.named,
        field: match n.field { Some(f) => Some(f@), None => None },
        parent: n.parent,
        start_byte: n.start_byte,
        end_byte: n.end_byte,
        start_row: n.start_row,
        start_col: n.start_col,
        end_row: n.end_row,
        is_error: n.is_error,
        is_missing: n.is_missing,
        has_error: n.has_error,
    }
}

pub open spec fn nodes_view(ns: Seq<SyntaxNode>) -> Seq<NodeV> {
    ns.map_values(|n: SyntaxNode| node_view(n))
}

/// The table of a tree, node by node.
pub open spec fn tree_view(t: SyntaxTree) -> Seq<NodeV> {
    nodes_view(t.nodes@)
}

/// Adds one pre-order row to a table under construction (its nodes, and
/// the nodes on the path from the root to the last one, by depth). The
/// row's parent is the node one level up on that path. None when the row
/// does not fit a pre-order walk of a source of `src_len` bytes: a first
/// row below the root, a later row at depth 0 or deeper than one below its
/// predecessor's path, a span that is reversed or runs past the source,
/// or a start before the previous row's start.
pub open spec fn table_step(st: Option<(Seq<NodeV>, Seq<usize>)>, r: RowV, src: Seq<u8>) -> Option<(Seq<NodeV>, Seq<usize>)> {
    match st {
        None => None,
        Some(st) => {
            let nodes = st.0;
            let stack = st.1;
            let i = nodes.len();
            let d = r.3 as int;
            if (i == 0 && d != 0) || (i > 0 && (d == 0 || d > stack.len())) {
                None
            } else if r.4 > r.5 || r.5 > src.len() {
                None
            } else if i > 0 && (r.4 as int) < nodes.last().start_byte {
                None
            } else {
                let node = NodeV {
                    kind: r.0,
                    named: r.1,
                    field: r.2,
                    parent: if i == 0 { None } else { Some(stack[d - 1]) },
                    start_byte: r.4 as u64,
                    end_byte: r.5 as u64,
                    start_row: newlines_before(src, r.4 as int) as u32,
                    start_col: (r.4 - line_start(src, r.4 as int)) as u32,
                    end_row: newlines_before(src, r.5 as int) as u32,
                    is_error: r.6,
                    is_missing: r.7,
                    has_error: r.8,
                };
                Some((nodes.push(node), stack.take(d).push(i as usize)))
            }
        },
    }
}

/// The table built from the first `n` rows.
pub open spec fn table_fold(rows: Seq<RowV>, n: int, src: Seq<u8>) -> Option<(Seq<NodeV>, Seq<usize>)>
    decreases n,
{
    if n <= 0 {
        Some((seq![], seq![]))
    } else {
        table_step(table_fold(rows, n - 1, src), rows[n - 1], src)
    }
}

/// The table of the tree that tree-sitter builds for `source` with the
/// grammar of `lang`: none when no tree comes back, or its nodes are not a
/// non-empty pre-order walk of the source.
pub open spec fn syntax_table(lang: SourceLang, source: Seq<u8>) -> Option<Seq<NodeV>> {
    match parsed_rows(lang, source) {
        None => None,
        Some(rows) => match table_fold(rows, rows.len() as int, source) {
            Some(st) => if st.0.len() > 0 { Some(st.0) } else { None },
            None => None,
        },
    }
}

proof fn lemma_table_fold_none(rows: Seq<RowV>, n: int, m: int, src: Seq<u8>)
    requires
        0 <= n <= m,
        table_fold(rows, n, src).is_none(),
    ensures
        table_fold(rows, m, src).is_none(),
    decreases m - n,
{
    if n < m {
        lemma_table_fold_none(rows, n, m - 1, src);
    }
}

/// Copies the tree that tree-sitter builds for `source` into a table.
/// Fails when no tree comes back or the tree is not a well-formed
/// pre-order walk of the source; otherwise the table is that tree's.
pub fn build_syntax_tree(lang: SourceLang, source: &[u8]) -> (r: Result<SyntaxTree, MallardError>)
    ensures
        r.is_ok() == syntax_table(lang, source@).is_some(),
        r.is_ok() ==> r.unwrap().wf(source@.len()) && tree_view(r.unwrap()) == syntax_table(lang, source@).unwrap(),
{
    let rows = match parse_rows(lang, source) {
        Some(v) => v,
        None => return Err(MallardError::Other(String::from_str("parser returned no tree"))),
    };
    let ghost rv = rows_view(rows@);
    let ghost src = source@;
    let (line_rows, line_starts) = line_table(source);
    let mut nodes: Vec<SyntaxNode> = Vec::new();
    let mut stack: Vec<usize> = Vec::new();
    let mut i: usize = 0;
    while i < rows.len()
        invariant
            i <= rows@.len(),
            rv == rows_view(rows@),
            src == source@,
            line_rows@.len() == src.len() + 1,
            line_starts@.len() == src.len() + 1,
            forall|b: int| 0 <= b <= src.len() ==> #[trigger] line_rows@[b] == newlines_before(src, b),
            forall|b: int| 0 <= b <= src.len() ==> #[trigger] line_starts@[b] == line_start(src, b),
            parsed_rows(lang, source@) == Some(rv),
            nodes@.len() == i,
            table_fold(rv, i as int, src) == Some((nodes_view(nodes@), stack@)),
            forall|k: int| 0 <= k < stack@.len() ==> (#[trigger] stack@[k] as int) < i,
            i > 0 ==> nodes@[0].parent.is_none(),
            forall|k: int| 0 < k < i ==> (#[trigger] nodes@[k]).parent.is_some() && (nodes@[k].parent.unwrap() as int) < k,
            forall|k: int| 0 <= k < i ==> (#[trigger] nodes@[k]).start_byte <= nodes@[k].end_byte
                && nodes@[k].end_byte <= source@.len(),
            forall|a: int, b: int| 0 <= a < b < i ==> nodes@[a].start_byte <= nodes@[b].start_byte,
        decreases rows.len() - i,
    {
        let row = &rows[i];
        let ghost rw = rv[i as int];
        assert(rw == row_view(rows@[i as int]));
        let depth = row.3 as usize;
        let ghost before = table_fold(rv, i as int, src);
        if (i == 0 && depth != 0) || (i > 0 && (depth == 0 || depth > stack.len())) {
            proof {
                assert(table_fold(rv, i + 1, src).is_none());
                lemma_table_fold_none(rv, i + 1, rv.len() as int, src);
            }
            return Err(MallardError::Other(String::from_str("malformed syntax tree")));
        }
        let start = row.4;
        let end = row.5;
        if start > end || end > source.len() {
            proof {
                assert(table_fold(rv, i + 1, src).is_none());
                lemma_table_fold_none(rv, i + 1, rv.len() as int, src);
            }
            return Err(MallardError::Other(String::from_str("malformed syntax tree")));
        }
        if i > 0 && (start as u64) < nodes[i - 1].start_byte {
            proof {
                assert(nodes_view(nodes@).last() == node_view(nodes@[i - 1]));
                assert(table_fold(rv, i + 1, src).is_none());
                lemma_table_fold_none(rv, i + 1, rv.len() as int, src);
            }
            return Err(MallardError::Other(String::from_str("malformed syntax tree")));
        }
        proof {
            lemma_line_start_bounds(src, start as int);
        }
        let start_row = line_rows[start];
        let start_col = start - line_starts[start];
        let end_row = line_rows[end];
        let parent: Option<usize> = if i == 0 {
            None
        } else {
            stack.truncate(depth);
            Some(stack[depth - 1])
        };
        let ghost st_old = stack@;
        if i == 0 {
            stack.truncate(0);
        }
        stack.push(i);
        let node = SyntaxNode {
            kind: crate::text::copy_string(&row.0),
            named: row.1,
            field: crate::text::copy_opt_string(&row.2),
            parent: parent,
            start_byte: start as u64,
            end_byte: end as u64,
            start_row: start_row as u32,
            start_col: start_col as u32,
            end_row: end_row as u32,
            is_error: row.6,
            is_missing: row.7,
            has_error: row.8,
        };
        let ghost nodes_old = nodes@;
        nodes.push(node);
        proof {
            assert(nodes_view(nodes@) =~= nodes_view(nodes_old).push(node_view(node)));
            if i > 0 {
                assert(nodes_view(nodes_old).last() == node_view(nodes_old[i - 1]));
            }
            assert(table_fold(rv, i + 1, src) == Some((nodes_view(nodes@), stack@)));
        }
        i = i + 1;
    }
    if nodes.len() == 0 {
        return Err(MallardError::Other(String::from_str("empty syntax tree")));
    }
    Ok(SyntaxTree { nodes })
}


// ---------------------------------------------------------------------
// Reading a tree.

pub open spec fn kind_of(t: Seq<NodeV>, i: int) -> Seq<char> {
    t[i].kind
}

pub open spec fn parent_of(t: Seq<NodeV>, i: int) -> Option<int> {
    match t[i].parent {
        Some(p) => Some(p as int),
        None => None,
    }
}

/// Node `c` hangs from `p` under field `f`.
pub open spec fn is_field_child(t: Seq<NodeV>, p: int, f: Seq<char>, c: int) -> bool {
    &&& parent_of(t, c) == Some(p)
    &&& match t[c].field { Some(x) => x == f, None => false }
}

/// First node at or after `k` hanging from `p` under field `f` (the
/// table's length when there is none).
pub open spec fn field_child_from(t: Seq<NodeV>, p: int, f: Seq<char>, k: nat) -> nat
    decreases t.len() - k,
{
    if k >= t.len() {
        t.len()
    } else if is_field_child(t, p, f, k as int) {
        k
    } else {
        field_child_from(t, p, f, k + 1)
    }
}

/// The child of `p` under field `f` (the first, should there be several).
pub open spec fn field_child(t: Seq<NodeV>, p: int, f: Seq<char>) -> Option<int> {
    let c = field_child_from(t, p, f, (p + 1) as nat);
    if c < t.len() { Some(c as int) } else { None }
}

/// Next node after `c` with the same parent (the table's length when
/// there is none).
pub open spec fn next_sibling_from(t: Seq<NodeV>, c: int, k: nat) -> nat
    decreases t.len() - k,
{
    if k >= t.len() {
        t.len()
    } else if t[k as int].parent.is_some() && t[k as int].parent == t[c].parent {
        k
    } else {
        next_sibling_from(t, c, k + 1)
    }
}

pub open spec fn next_sibling(t: Seq<NodeV>, c: int) -> Option<int> {
    let k = next_sibling_from(t, c, (c + 1) as nat);
    if k < t.len() { Some(k as int) } else { None }
}

/// Nearest node before index `k` (exclusive) with the same parent as `c`.
pub open spec fn prev_sibling_below(t: Seq<NodeV>, c: int, k: int) -> Option<int>
    decreases k,
{
    if k <= 0 {
        None
    } else if t[k - 1].parent.is_some() && t[k - 1].parent == t[c].parent {
        Some(k - 1)
    } else {
        prev_sibling_below(t, c, k - 1)
    }
}

pub open spec fn prev_sibling(t: Seq<NodeV>, c: int) -> Option<int> {
    prev_sibling_below(t, c, c)
}

/// The children of `p` among the first `m` nodes, named ones only when
/// asked, in order.
pub open spec fn children_upto(t: Seq<NodeV>, p: int, m: int, named_only: bool) -> Seq<int>
    decreases m,
{
    if m <= 0 {
        seq![]
    } else {
        let rest = children_upto(t, p, m - 1, named_only);
        if parent_of(t, m - 1) == Some(p) && (!named_only || t[m - 1].named) {
            rest.push(m - 1)
        } else {
            rest
        }
    }
}

pub open spec fn children(t: Seq<NodeV>, p: int) -> Seq<int> {
    children_upto(t, p, t.len() as int, false)
}

pub open spec fn named_children(t: Seq<NodeV>, p: int) -> Seq<int> {
    children_upto(t, p, t.len() as int, true)
}

/// Text of node `i` (its bytes, read as `from_utf8_lossy` reads them).
pub open spec fn node_text(t: Seq<NodeV>, src: Seq<u8>, i: int) -> Seq<char> {
    lossy_text(src.subrange(t[i].start_byte as int, t[i].end_byte as int))
}

pub proof fn lemma_field_child_from(t: Seq<NodeV>, p: int, f: Seq<char>, k: nat)
    requires
        k <= t.len(),
    ensures
        k <= field_child_from(t, p, f, k) <= t.len(),
        field_child_from(t, p, f, k) < t.len() ==> is_field_child(t, p, f, field_child_from(t, p, f, k) as int),
    decreases t.len() - k,
{
    if k < t.len() && !is_field_child(t, p, f, k as int) {
        lemma_field_child_from(t, p, f, k + 1);
    }
}

impl SyntaxTree {
    pub fn kind_is(&self, i: usize, k: &str) -> (r: bool)
        requires
            i < self.nodes@.len(),
        ensures
            r == (kind_of(tree_view(*self), i as int) == k@),
    {
        crate::text::str_eq(self.nodes[i].kind.as_str(), k)
    }

    /// The child of `p` under field `f`.
    pub fn field_child(&self, p: usize, f: &str) -> (r: Option<usize>)
        requires
            p < self.nodes@.len(),
        ensures
            r.is_some() == field_child(tree_view(*self), p as int, f@).is_some(),
            r.is_some() ==> r.unwrap() as int == field_child(tree_view(*self), p as int, f@).unwrap(),
            r.is_some() ==> r.unwrap() < self.nodes@.len() && is_field_child(tree_view(*self), p as int, f@, r.unwrap() as int),
    {
        let fc = crate::text::chars_of(f);
        let n_nodes = self.nodes.len();
        assert(p < n_nodes);
        let mut k: usize = p + 1;
        proof {
            lemma_field_child_from(tree_view(*self), p as int, f@, (p + 1) as nat);
        }
        while k < self.nodes.len()
            invariant
                p < k <= self.nodes@.len(),
                fc@ == f@,
                field_child_from(tree_view(*self), p as int, f@, k as nat) == field_child_from(tree_view(*self), p as int, f@, (p + 1) as nat),
            decreases self.nodes.len() - k,
        {
            let n = &self.nodes[k];
            let hit = match n.parent {
                Some(q) => q == p && match &n.field {
                    Some(x) => {
                        let xc = crate::text::chars_of(x.as_str());
                        crate::text::chars_eq(xc.as_slice(), fc.as_slice())
                    },
                    None => false,
                },
                None => false,
            };
            if hit {
                proof {
                    lemma_field_child_from(tree_view(*self), p as int, f@, (p + 1) as nat);
                }
                return Some(k);
            }
            k = k + 1;
        }
        None
    }

    /// The next node with the same parent as `c`.
    pub fn next_sibling(&self, c: usize) -> (r: Option<usize>)
        requires
            c < self.nodes@.len(),
        ensures
            r.is_some() == next_sibling(tree_view(*self), c as int).is_some(),
            r.is_some() ==> r.unwrap() as int == next_sibling(tree_view(*self), c as int).unwrap() && r.unwrap() < self.nodes@.len(),
    {
        let n_nodes = self.nodes.len();
        assert(c < n_nodes);
        let mut k: usize = c + 1;
        while k < self.nodes.len()
            invariant
                c < k <= self.nodes@.len(),
                next_sibling_from(tree_view(*self), c as int, k as nat) == next_sibling_from(tree_view(*self), c as int, (c + 1) as nat),
            decreases self.nodes.len() - k,
        {
            let same = match (self.nodes[k].parent, self.nodes[c].parent) {
                (Some(a), Some(b)) => a == b,
                _ => false,
            };
            if same {
                return Some(k);
            }
            k = k + 1;
        }
        None
    }

    /// The nearest earlier node with the same parent as `c`.
    pub fn prev_sibling(&self, c: usize) -> (r: Option<usize>)
        requires
            c < self.nodes@.len(),
        ensures
            r == match prev_sibling(tree_view(*self), c as int) { Some(x) => Some(x as usize), None => None::<usize> },
            r.is_some() ==> r.unwrap() < c,
            prev_sibling(tree_view(*self), c as int).is_some() ==> 0 <= prev_sibling(tree_view(*self), c as int).unwrap() < c,
    {
        let mut k: usize = c;
        while k > 0
            invariant
                k <= c < self.nodes@.len(),
                prev_sibling_below(tree_view(*self), c as int, k as int) == prev_sibling_below(tree_view(*self), c as int, c as int),
            decreases k,
        {
            let same = match (self.nodes[k - 1].parent, self.nodes[c].parent) {
                (Some(a), Some(b)) => a == b,
                _ => false,
            };
            if same {
                return Some(k - 1);
            }
            k = k - 1;
        }
        None
    }

    /// Children of `p`, named ones only when asked, in order.
    pub fn children_of(&self, p: usize, named_only: bool) -> (r: Vec<usize>)
        ensures
            r@.map_values(|x: usize| x as int) == children_upto(tree_view(*self), p as int, self.nodes@.len() as int, named_only),
            forall|k: int| 0 <= k < r@.len() ==> (#[trigger] r@[k]) < self.nodes@.len(),
    {
        let mut out: Vec<usize> = Vec::new();
        let mut m: usize = 0;
        while m < self.nodes.len()
            invariant
                m <= self.nodes@.len(),
                out@.map_values(|x: usize| x as int) == children_upto(tree_view(*self), p as int, m as int, named_only),
                forall|k: int| 0 <= k < out@.len() ==> (#[trigger] out@[k]) < m,
            decreases self.nodes.len() - m,
        {
            let n = &self.nodes[m];
            let is_child = match n.parent { Some(q) => q == p, None => false };
            if is_child && (!named_only || n.named) {
                let ghost before = out@;
                out.push(m);
                assert(out@.map_values(|x: usize| x as int) =~= before.map_values(|x: usize| x as int).push(m as int));
            }
            m = m + 1;
        }
        out
    }

    /// Text of node `i`.
    pub fn text_of(&self, src: &[u8], i: usize) -> (r: String)
        requires
            self.wf(src@.len()),
            i < self.nodes@.len(),
        ensures
            r@ == node_text(tree_view(*self), src@, i as int),
    {
        let node = &self.nodes[i];
        let len = src.len();
        assert(node.start_byte <= node.end_byte && node.end_byte <= src@.len());
        assert(src@.len() == len);
        assert(node.end_byte <= usize::MAX);
        let a: usize = node.start_byte as usize;
        let b: usize = node.end_byte as usize;
        assert(a == node.start_byte);
        assert(b == node.end_byte);
        let mut bytes: Vec<u8> = Vec::new();
        let mut k: usize = a;
        while k < b
            invariant
                i < self.nodes@.len(),
                a <= k <= b <= src@.len(),
                a == self.nodes@[i as int].start_byte,
                b == self.nodes@[i as int].end_byte,
                bytes@ == src@.subrange(a as int, k as int),
            decreases b - k,
        {
            bytes.push(src[k]);
            k = k + 1;
            assert(bytes@ =~= src@.subrange(a as int, k as int));
        }
        utf8_lossy(bytes.as_slice())
    }
}


// ---------------------------------------------------------------------
// Parse errors.

/// A parse error as values: file, message, line, column.
pub type ParseErrorV = (crate::model::FileId, Seq<char>, u32, u32);

pub open spec fn parse_error_view(e: crate::model::ParseError) -> ParseErrorV {
    (e.file_id, e.message@, e.line, e.col)
}

pub open spec fn parse_error_views(v: Seq<crate::model::ParseError>) -> Seq<ParseErrorV> {
    v.map_values(|e: crate::model::ParseError| parse_error_view(e))
}

/// Node `c` is, or holds, an error.
pub open spec fn error_flag(t: Seq<NodeV>, c: int) -> bool {
    t[c].has_error || t[c].is_error || t[c].is_missing
}

/// The error reported for node `i` itself, if it is an error or missing
/// node: the missing kind, or up to 64 characters of the text near it.
pub open spec fn own_error(t: Seq<NodeV>, src: Seq<u8>, fid: crate::model::FileId, i: int) -> Seq<ParseErrorV> {
    let n = t[i];
    if n.is_error || n.is_missing {
        let text = node_text(t, src, i);
        let message = if n.is_missing {
            "missing node: "@ + n.kind
        } else {
            "syntax error near: "@ + text.take(if text.len() < 64 { text.len() as int } else { 64 })
        };
        seq![(fid, message, n.start_row, n.start_col)]
    } else {
        seq![]
    }
}

/// Errors under node `i`, depth first: its own, then those of each child
/// that is or holds an error, in order.
pub open spec fn errors_at(t: Seq<NodeV>, src: Seq<u8>, fid: crate::model::FileId, i: int) -> Seq<ParseErrorV>
    decreases t.len() - i, 1int, 0int,
{
    own_error(t, src, fid, i) + errors_of_children(t, src, fid, i, i + 1)
}

pub open spec fn errors_of_children(t: Seq<NodeV>, src: Seq<u8>, fid: crate::model::FileId, p: int, j: int) -> Seq<ParseErrorV>
    decreases t.len() - p, 0int, t.len() - j,
{
    if j >= t.len() || j <= p {
        seq![]
    } else if parent_of(t, j) == Some(p) && error_flag(t, j) {
        errors_at(t, src, fid, j) + errors_of_children(t, src, fid, p, j + 1)
    } else {
        errors_of_children(t, src, fid, p, j + 1)
    }
}

/// The parse errors of a tree: none when the root holds no error.
pub open spec fn tree_errors(t: Seq<NodeV>, src: Seq<u8>, fid: crate::model::FileId) -> Seq<ParseErrorV> {
    if t[0].has_error { errors_at(t, src, fid, 0) } else { seq![] }
}

fn own_error_exec(t: &SyntaxTree, src: &[u8], fid: crate::model::FileId, i: usize, out: &mut Vec<crate::model::ParseError>)
    requires
        t.wf(src@.len()),
        i < t.nodes@.len(),
    ensures
        parse_error_views(final(out)@) == parse_error_views(old(out)@) + own_error(tree_view(*t), src@, fid, i as int),
{
    let n = &t.nodes[i];
    if n.is_error || n.is_missing {
        let mut message = String::new();
        if n.is_missing {
            crate::text::push_str(&mut message, "missing node: ");
            crate::text::push_str(&mut message, n.kind.as_str());
        } else {
            let text = t.text_of(src, i);
            let cs = crate::text::chars_of(text.as_str());
            let k: usize = if cs.len() < 64 { cs.len() } else { 64 };
            let head = crate::text::slice_vec(cs.as_slice(), 0, k);
            crate::text::push_str(&mut message, "syntax error near: ");
            let hs = crate::text::string_of(head.as_slice());
            crate::text::push_str(&mut message, hs.as_str());
            assert(head@ =~= text@.take(k as int));
        }
        let e = crate::model::ParseError { file_id: fid, message, line: n.start_row, col: n.start_col };
        let ghost before = out@;
        out.push(e);
        assert(parse_error_views(out@) =~= parse_error_views(before) + own_error(tree_view(*t), src@, fid, i as int));
    } else {
        assert(parse_error_views(out@) =~= parse_error_views(out@) + seq![]);
    }
}

fn collect_errors_at(t: &SyntaxTree, src: &[u8], fid: crate::model::FileId, i: usize, out: &mut Vec<crate::model::ParseError>)
    requires
        t.wf(src@.len()),
        i < t.nodes@.len(),
    ensures
        parse_error_views(final(out)@) == parse_error_views(old(out)@) + errors_at(tree_view(*t), src@, fid, i as int),
    decreases t.nodes@.len() - i,
{
    let ghost start = parse_error_views(out@);
    own_error_exec(t, src, fid, i, out);
    let ghost mid = parse_error_views(out@);
    let n_nodes = t.nodes.len();
    assert(i < n_nodes);
    let mut j: usize = i + 1;
    while j < t.nodes.len()
        invariant
            t.wf(src@.len()),
            i < j <= t.nodes@.len(),
            mid == start + own_error(tree_view(*t), src@, fid, i as int),
            parse_error_views(out@) + errors_of_children(tree_view(*t), src@, fid, i as int, j as int)
                == mid + errors_of_children(tree_view(*t), src@, fid, i as int, (i + 1) as int),
        decreases t.nodes.len() - j,
    {
        let n = &t.nodes[j];
        let child = match n.parent { Some(q) => q == i, None => false };
        if child && (n.has_error || n.is_error || n.is_missing) {
            let ghost before = parse_error_views(out@);
            collect_errors_at(t, src, fid, j, out);
            assert(before + errors_of_children(tree_view(*t), src@, fid, i as int, j as int)
                =~= parse_error_views(out@) + errors_of_children(tree_view(*t), src@, fid, i as int, (j + 1) as int));
        }
        j = j + 1;
    }
    assert(parse_error_views(out@) + seq![] =~= parse_error_views(out@));
    assert(parse_error_views(out@) =~= start + errors_at(tree_view(*t), src@, fid, i as int));
}

/// The parse errors of a tree, depth first.
pub fn collect_parse_errors(t: &SyntaxTree, src: &[u8], fid: crate::model::FileId) -> (r: Vec<crate::model::ParseError>)
    requires
        t.wf(src@.len()),
    ensures
        parse_error_views(r@) == tree_errors(tree_view(*t), src@, fid),
{
    let mut out: Vec<crate::model::ParseError> = Vec::new();
    if t.nodes[0].has_error {
        collect_errors_at(t, src, fid, 0, &mut out);
        assert(parse_error_views(out@) =~= errors_at(tree_view(*t), src@, fid, 0));
    } else {
        assert(parse_error_views(out@) =~= seq![]);
    }
    out
}


// ---------------------------------------------------------------------
// Shared walks.

/// Some strict ancestor of `x` has kind `k1` or `k2`.
pub open spec fn has_ancestor_kind(t: Seq<NodeV>, x: int, k1: Seq<char>, k2: Seq<char>) -> bool
    decreases x,
{
    match parent_of(t, x) {
        None => false,
        Some(p) => if 0 <= p < x {
            kind_of(t, p) == k1 || kind_of(t, p) == k2 || has_ancestor_kind(t, p, k1, k2)
        } else {
            false
        },
    }
}

/// First node of `kids` with kind `k`.
pub open spec fn first_of_kind(t: Seq<NodeV>, kids: Seq<int>, k: Seq<char>) -> Option<int>
    decreases kids.len(),
{
    if kids.len() == 0 {
        None
    } else {
        match first_of_kind(t, kids.drop_last(), k) {
            Some(x) => Some(x),
            None => if kind_of(t, kids.last()) == k { Some(kids.last()) } else { None },
        }
    }
}

pub open spec fn anchor_of(t: Seq<NodeV>, i: int) -> crate::model::Anchor {
    crate::model::Anchor {
        start_byte: t[i].start_byte,
        end_byte: t[i].end_byte,
        start_line: t[i].start_row,
        end_line: t[i].end_row,
    }
}

/// Parts joined by `sep`.
pub open spec fn join_sep(parts: Seq<Seq<char>>, sep: Seq<char>) -> Seq<char>
    decreases parts.len(),
{
    if parts.len() == 0 {
        seq![]
    } else if parts.len() == 1 {
        parts[0]
    } else {
        join_sep(parts.drop_last(), sep) + sep + parts.last()
    }
}

pub fn join_sep_exec(parts: &Vec<String>, sep: &str) -> (r: String)
    ensures
        r@ == join_sep(parts@.map_values(|s: String| s@), sep@),
{
    let ghost v = parts@.map_values(|s: String| s@);
    let mut out = String::new();
    let mut i: usize = 0;
    while i < parts.len()
        invariant
            i <= parts@.len(),
            v == parts@.map_values(|s: String| s@),
            out@ == join_sep(v.take(i as int), sep@),
        decreases parts.len() - i,
    {
        assert(v.take(i + 1).drop_last() =~= v.take(i as int));
        assert(v.take(i + 1).last() == parts@[i as int]@);
        if i > 0 {
            crate::text::push_str(&mut out, sep);
        } else {
            assert(v.take(1) =~= seq![parts@[0]@]);
        }
        crate::text::push_str(&mut out, parts[i].as_str());
        i = i + 1;
        assert(out@ =~= join_sep(v.take(i as int), sep@));
    }
    assert(v.take(parts@.len() as int) =~= v);
    out
}

impl SyntaxTree {
    pub fn anchor(&self, i: usize) -> (r: crate::model::Anchor)
        requires
            i < self.nodes@.len(),
        ensures
            r == anchor_of(tree_view(*self), i as int),
    {
        crate::model::Anchor {
            start_byte: self.nodes[i].start_byte,
            end_byte: self.nodes[i].end_byte,
            start_line: self.nodes[i].start_row,
            end_line: self.nodes[i].end_row,
        }
    }

    /// Whether some strict ancestor of `x` has kind `k1` or `k2`.
    pub fn has_ancestor_kind(&self, x: usize, k1: &str, k2: &str) -> (r: bool)
        requires
            x < self.nodes@.len(),
        ensures
            r == has_ancestor_kind(tree_view(*self), x as int, k1@, k2@),
    {
        let mut cur: usize = x;
        loop
            invariant
                cur < self.nodes@.len(),
                has_ancestor_kind(tree_view(*self), cur as int, k1@, k2@) == has_ancestor_kind(tree_view(*self), x as int, k1@, k2@),
            decreases cur,
        {
            match self.nodes[cur].parent {
                None => return false,
                Some(p) => {
                    if p >= cur {
                        return false;
                    }
                    if self.kind_is(p, k1) || self.kind_is(p, k2) {
                        return true;
                    }
                    cur = p;
                },
            }
        }
    }

    /// First of `kids` with kind `k`.
    pub fn first_of_kind(&self, kids: &Vec<usize>, k: &str) -> (r: Option<usize>)
        requires
            forall|j: int| 0 <= j < kids@.len() ==> (#[trigger] kids@[j]) < self.nodes@.len(),
        ensures
            r.is_some() == first_of_kind(tree_view(*self), kids@.map_values(|x: usize| x as int), k@).is_some(),
            r.is_some() ==> first_of_kind(tree_view(*self), kids@.map_values(|x: usize| x as int), k@).unwrap() == r.unwrap() as int,
            r.is_some() ==> r.unwrap() < self.nodes@.len(),
    {
        let ghost kv = kids@.map_values(|x: usize| x as int);
        let mut i: usize = 0;
        while i < kids.len()
            invariant
                i <= kids@.len(),
                kv == kids@.map_values(|x: usize| x as int),
                forall|j: int| 0 <= j < kids@.len() ==> (#[trigger] kids@[j]) < self.nodes@.len(),
                first_of_kind(tree_view(*self), kv.take(i as int), k@).is_none(),
            decreases kids.len() - i,
        {
            assert(kv.take(i + 1).drop_last() =~= kv.take(i as int));
            assert(kv.take(i + 1).last() == kids@[i as int] as int);
            if self.kind_is(kids[i], k) {
                proof {
                    assert(first_of_kind(tree_view(*self), kv.take(i + 1), k@) == Some(kids@[i as int] as int));
                    lemma_first_of_kind_prefix(tree_view(*self), kv, k@, i as int + 1);
                }
                return Some(kids[i]);
            }
            i = i + 1;
        }
        assert(kv.take(kids@.len() as int) =~= kv);
        None
    }
}

/// A hit in a prefix is the first hit of the whole list.
pub proof fn lemma_first_of_kind_prefix(t: Seq<NodeV>, kids: Seq<int>, k: Seq<char>, n: int)
    requires
        0 <= n <= kids.len(),
        first_of_kind(t, kids.take(n), k).is_some(),
    ensures
        first_of_kind(t, kids, k) == first_of_kind(t, kids.take(n), k),
    decreases kids.len() - n,
{
    if n < kids.len() {
        assert(kids.take(n + 1).drop_last() =~= kids.take(n));
        lemma_first_of_kind_prefix(t, kids, k, n + 1);
    } else {
        assert(kids.take(n) =~= kids);
    }
}

} // verus!
