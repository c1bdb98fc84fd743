//! Arguments of the command-line program that are read the same way
//! everywhere: edge-kind lists and the default index location.
use vstd::prelude::*;
use crate::model::{law_edge_kind_names_distinct, EdgeKind, MallardError};
use crate::query_lookup::{split_commas, split_state};
use crate::text::{chars_of, is_ws, is_ws_exec, push_str, slice_vec, string_of};

verus! {

/// Leading white space removed.
pub open spec fn trim_start(s: Seq<char>) -> Seq<char>
    decreases s.len(),
{
    if s.len() > 0 && is_ws(s[0]) { trim_start(s.drop_first()) } else { s }
}

/// Trailing white space removed.
pub open spec fn trim_end(s: Seq<char>) -> Seq<char>
    decreases s.len(),
{
    if s.len() > 0 && is_ws(s.last()) { trim_end(s.drop_last()) } else { s }
}

/// White space removed at both ends (std `str::trim`).
pub open spec fn trim(s: Seq<char>) -> Seq<char> {
    trim_end(trim_start(s))
}

/// The edge kind with this name.
pub open spec fn edge_kind_named(t: Seq<char>) -> Option<EdgeKind> {
    if t == EdgeKind::Calls.name() {
        Some(EdgeKind::Calls)
    } else if t == EdgeKind::Imports.name() {
        Some(EdgeKind::Imports)
    } else if t == EdgeKind::References.name() {
        Some(EdgeKind::References)
    } else if t == EdgeKind::Contains.name() {
        Some(EdgeKind::Contains)
    } else if t == EdgeKind::TestsFor.name() {
        Some(EdgeKind::TestsFor)
    } else if t == EdgeKind::TestedBy.name() {
        Some(EdgeKind::TestedBy)
    } else {
        None
    }
}

/// The kinds named by comma-separated pieces, blanks skipped; the first
/// unknown name is the error.
pub open spec fn kinds_of(pieces: Seq<Seq<char>>) -> Result<Seq<EdgeKind>, Seq<char>>
    decreases pieces.len(),
{
    if pieces.len() == 0 {
        Ok(seq![])
    } else {
        match kinds_of(pieces.drop_last()) {
            Err(e) => Err(e),
            Ok(ks) => {
                let t = trim(pieces.last());
                if t.len() == 0 {
                    Ok(ks)
                } else {
                    match edge_kind_named(t) {
                        Some(k) => Ok(ks.push(k)),
                        None => Err("unknown edge kind: "@ + t),
                    }
                }
            },
        }
    }
}

fn trim_exec(s: &Vec<char>) -> (r: Vec<char>)
    ensures
        r@ == trim(s@),
{
    let mut a: usize = 0;
    assert(s@.subrange(0, s@.len() as int) =~= s@);
    while a < s.len() && is_ws_exec(s[a])
        invariant
            a <= s@.len(),
            trim_start(s@) == trim_start(s@.subrange(a as int, s@.len() as int)),
        decreases s.len() - a,
    {
        assert(s@.subrange(a as int, s@.len() as int).drop_first() =~= s@.subrange(a + 1, s@.len() as int));
        a = a + 1;
    }
    let ghost mid = s@.subrange(a as int, s@.len() as int);
    assert(trim_start(mid) == mid);
    let mut b: usize = s.len();
    while b > a && is_ws_exec(s[b - 1])
        invariant
            a <= b <= s@.len(),
            mid == s@.subrange(a as int, s@.len() as int),
            trim_end(mid) == trim_end(s@.subrange(a as int, b as int)),
        decreases b - a,
    {
        assert(s@.subrange(a as int, b as int).drop_last() =~= s@.subrange(a as int, b - 1));
        b = b - 1;
    }
    assert(trim_end(s@.subrange(a as int, b as int)) == s@.subrange(a as int, b as int));
    slice_vec(s.as_slice(), a, b)
}

fn edge_kind_exec(t: &Vec<char>) -> (r: Option<EdgeKind>)
    ensures
        r == edge_kind_named(t@),
{
    let s = string_of(t.as_slice());
    let r = EdgeKind::parse(s.as_str());
    proof {
        match r {
            Some(k) => {
                law_edge_kind_names_distinct(k, EdgeKind::Calls);
                law_edge_kind_names_distinct(k, EdgeKind::Imports);
                law_edge_kind_names_distinct(k, EdgeKind::References);
                law_edge_kind_names_distinct(k, EdgeKind::Contains);
                law_edge_kind_names_distinct(k, EdgeKind::TestsFor);
                law_edge_kind_names_distinct(k, EdgeKind::TestedBy);
            },
            None => {
                assert(EdgeKind::Calls.name() != t@);
                assert(EdgeKind::Imports.name() != t@);
                assert(EdgeKind::References.name() != t@);
                assert(EdgeKind::Contains.name() != t@);
                assert(EdgeKind::TestsFor.name() != t@);
                assert(EdgeKind::TestedBy.name() != t@);
            },
        }
    }
    r
}

/// The edge kinds of a comma-separated list such as `calls, imports`;
/// blank entries are skipped, and an unknown name is refused.
pub fn parse_edge_kinds(s: &str) -> (r: Result<Vec<EdgeKind>, MallardError>)
    ensures
        match kinds_of(split_commas(s@)) {
            Ok(ks) => r.is_ok() && r.unwrap()@ == ks,
            Err(m) => r.is_err() && (r.unwrap_err() matches MallardError::Other(x) && x@ == m),
        },
{
    let cs = chars_of(s);
    let ghost pieces = split_commas(s@);
    // Cut into pieces, as `split(',')` does.
    let mut parts: Vec<Vec<char>> = Vec::new();
    let mut cur: Vec<char> = Vec::new();
    let mut i: usize = 0;
    while i < cs.len()
        invariant
            i <= cs@.len(),
            cs@ == s@,
            (parts@.map_values(|v: Vec<char>| v@), cur@) == split_state(cs@.take(i as int)),
        decreases cs.len() - i,
    {
        assert(cs@.take(i + 1).drop_last() =~= cs@.take(i as int));
        assert(cs@.take(i + 1).last() == cs@[i as int]);
        if cs[i] == ',' {
            let ghost before = parts@;
            let piece = cur;
            parts.push(piece);
            assert(parts@.map_values(|v: Vec<char>| v@) =~= before.map_values(|v: Vec<char>| v@).push(piece@));
            cur = Vec::new();
            assert(cur@ =~= Seq::<char>::empty());
        } else {
            cur.push(cs[i]);
        }
        i = i + 1;
    }
    assert(cs@.take(cs@.len() as int) =~= cs@);
    let ghost before = parts@;
    let ghost last = cur@;
    parts.push(cur);
    assert(parts@.map_values(|v: Vec<char>| v@) =~= before.map_values(|v: Vec<char>| v@).push(last));
    assert(parts@.map_values(|v: Vec<char>| v@) == pieces);
    let mut kinds: Vec<EdgeKind> = Vec::new();
    let mut j: usize = 0;
    while j < parts.len()
        invariant
            j <= parts@.len(),
            pieces == split_commas(s@),
            parts@.map_values(|v: Vec<char>| v@) == pieces,
            kinds_of(pieces.take(j as int)) == Ok::<Seq<EdgeKind>, Seq<char>>(kinds@),
        decreases parts.len() - j,
    {
        assert(pieces.take(j + 1).drop_last() =~= pieces.take(j as int));
        assert(pieces.take(j + 1).last() == parts@[j as int]@);
        let t = trim_exec(&parts[j]);
        if t.len() > 0 {
            match edge_kind_exec(&t) {
                Some(k) => kinds.push(k),
                None => {
                    let mut m = String::new();
                    push_str(&mut m, "unknown edge kind: ");
                    let ts = string_of(t.as_slice());
                    push_str(&mut m, ts.as_str());
                    proof {
                        assert(m@ == "unknown edge kind: "@ + t@);
                        assert(kinds_of(pieces.take(j + 1)) == Err::<Seq<EdgeKind>, Seq<char>>("unknown edge kind: "@ + t@));
                        lemma_kinds_error_sticks(pieces, j as int + 1);
                        assert(kinds_of(split_commas(s@)) == Err::<Seq<EdgeKind>, Seq<char>>(m@));
                    }
                    let e = MallardError::Other(m);
                    assert(e matches MallardError::Other(x) && x@ == m@);
                    return Err(e);
                },
            }
        }
        j = j + 1;
    }
    assert(pieces.take(parts@.len() as int) =~= pieces);
    Ok(kinds)
}

proof fn lemma_kinds_error_sticks(pieces: Seq<Seq<char>>, n: int)
    requires
        0 < n <= pieces.len(),
        kinds_of(pieces.take(n)).is_err(),
    ensures
        kinds_of(pieces) == kinds_of(pieces.take(n)),
    decreases pieces.len() - n,
{
    if n < pieces.len() {
        assert(pieces.take(n + 1).drop_last() =~= pieces.take(n));
        lemma_kinds_error_sticks(pieces, n + 1);
    } else {
        assert(pieces.take(n) =~= pieces);
    }
}

/// Where an index of commit `sha` is written when no path is given:
/// `.mallard/index-<first 12 characters of the sha>.duckdb`.
pub fn default_index_path(sha: &str) -> (r: String)
    ensures
        r@ == ".mallard/index-"@ + sha@.take(if sha@.len() < 12 { sha@.len() as int } else { 12 }) + ".duckdb"@,
{
    let cs = chars_of(sha);
    let n: usize = if cs.len() < 12 { cs.len() } else { 12 };
    let head = string_of(slice_vec(cs.as_slice(), 0, n).as_slice());
    let mut out = String::new();
    push_str(&mut out, ".mallard/index-");
    push_str(&mut out, head.as_str());
    push_str(&mut out, ".duckdb");
    assert(cs@.subrange(0, n as int) =~= sha@.take(n as int));
    out
}

} // verus!
