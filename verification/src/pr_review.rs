//! Deterministic review of a change between two indexes: signature and
//! outbound-call diffs per changed file, rule findings on the head side,
//! restate suppression, and a comment budget that keeps the highest tiers.
use vstd::prelude::*;
use crate::model::{EdgeKind, SymbolKind};
use crate::order::PartV;
use crate::query::{
    file_symbols, findings_under, neighbors_spec, FindingRecord, IndexReader, NeighborEdge, SymbolRecord,
};
use crate::store::IndexTables;
use crate::text::{
    occurs_at, chars_of, contains_seq, ends_with, find_index, find_pos, lemma_scan_to, parse_u32,
    parse_u32_exec, rfind_index, rfind_pos, scan_to, scan_to_exec, slice_vec, starts_with,
    starts_with_exec, ends_with_exec, contains_exec, string_of, unicode_lowercase,
};

verus! {

/// 1-based inclusive line range of a changed region.
#[derive(Debug, Clone, Copy, PartialEq, Eq, Structural)]
pub struct DiffRange {
    pub start: u32,
    pub end: u32,
}

impl DiffRange {
    /// The range shares a line with `anchor_start..=anchor_end`.
    pub fn overlaps(&self, anchor_start: u32, anchor_end: u32) -> (r: bool)
        ensures
            r == (self.start <= anchor_end && self.end >= anchor_start),
    {
        self.start <= anchor_end && self.end >= anchor_start
    }
}

/// Changed ranges of one file.
#[derive(Debug, Clone, PartialEq, Eq)]
pub struct FileHunks {
    pub path: String,
    pub ranges: Vec<DiffRange>,
}

/// Per-file diff hunks, one entry per file. A list of (path, ranges)
/// entries rather than a map keyed by path text: Verus proves little of a
/// std map with `String` keys, while the list's contents are stated, one
/// entry per path, as a sequence of texts and ranges.
#[derive(Debug, Clone, Default, PartialEq, Eq)]
pub struct DiffHunks {
    pub files: Vec<FileHunks>,
}

/// Files and their ranges, in first-seen order.
pub type HunkMap = Seq<(Seq<char>, Seq<DiffRange>)>;

impl DiffHunks {
    pub open spec fn view_map(&self) -> HunkMap {
        self.files@.map_values(|f: FileHunks| (f.path@, f.ranges@))
    }
}

/// Index of the entry for `key`, or the map's length when it has none.
pub open spec fn key_index(m: HunkMap, key: Seq<char>) -> int
    decreases m.len(),
{
    if m.len() == 0 {
        0
    } else if key_index(m.drop_last(), key) < m.len() - 1 {
        key_index(m.drop_last(), key)
    } else if m.last().0 == key {
        m.len() - 1
    } else {
        m.len() as int
    }
}

/// The ranges of `key`, empty when it has none.
pub open spec fn ranges_of(m: HunkMap, key: Seq<char>) -> Seq<DiffRange> {
    if key_index(m, key) < m.len() { m[key_index(m, key)].1 } else { seq![] }
}

/// Appends a range to `key`'s entry, opening one at the end if needed.
pub open spec fn add_range(m: HunkMap, key: Seq<char>, r: DiffRange) -> HunkMap {
    let i = key_index(m, key);
    if i < m.len() {
        m.update(i, (key, m[i].1.push(r)))
    } else {
        m.push((key, seq![r]))
    }
}

proof fn lemma_key_index(m: HunkMap, key: Seq<char>)
    ensures
        0 <= key_index(m, key) <= m.len(),
        key_index(m, key) < m.len() ==> m[key_index(m, key)].0 == key,
        forall|j: int| 0 <= j < key_index(m, key) ==> m[j].0 != key,
    decreases m.len(),
{
    if m.len() > 0 {
        lemma_key_index(m.drop_last(), key);
        assert forall|j: int| 0 <= j < m.len() - 1 implies m.drop_last()[j] == m[j] by {}
    }
}

// ---------------------------------------------------------------------
// Lines.

/// Drops one trailing carriage return.
pub open spec fn strip_cr(s: Seq<char>) -> Seq<char> {
    if s.len() > 0 && s.last() == '\r' { s.drop_last() } else { s }
}

/// The lines of a text as std's `str::lines` yields them: split at `\n`,
/// a `\r` before the `\n` dropped, no empty line after a final `\n`.
pub open spec fn lines_of(s: Seq<char>) -> Seq<Seq<char>>
    decreases s.len(),
{
    if s.len() == 0 {
        seq![]
    } else {
        let i = scan_to(s, seq!['\n'], 0);
        if i >= s.len() {
            seq![s]
        } else {
            seq![strip_cr(s.take(i as int))] + lines_of(s.skip(i + 1 as int))
        }
    }
}

// ---------------------------------------------------------------------
// Unified diff.

/// Start line and line count of a `@@ -A,B +C,D @@` header's head side,
/// when the line is such a header with a readable start and a non-zero
/// count (a missing or unreadable count is 1).
pub open spec fn hunk_of(line: Seq<char>) -> Option<(u32, u32)> {
    if !starts_with(line, "@@ "@) {
        None
    } else {
        let rest = line.skip(3);
        let plus = scan_to(rest, seq!['+'], 0);
        if plus >= rest.len() {
            None
        } else {
            let after = rest.skip(plus + 1 as int);
            let end = scan_to(after, seq![' ', '@'], 0);
            let part = after.take(end as int);
            let comma = scan_to(part, seq![','], 0);
            let start_text = if comma < part.len() { part.take(comma as int) } else { part };
            let count = if comma < part.len() {
                match parse_u32(part.skip(comma + 1 as int)) { Some(c) => c, None => 1u32 }
            } else {
                1u32
            };
            match parse_u32(start_text) {
                None => None,
                Some(start) => if count == 0 { None } else { Some((start, count)) },
            }
        }
    }
}

/// Each hunk header's last line fits in `u32`.
pub open spec fn hunk_fits(line: Seq<char>) -> bool {
    match hunk_of(line) {
        Some((start, count)) => start + count <= u32::MAX,
        None => true,
    }
}

pub open spec fn hunks_fit(diff_text: Seq<char>) -> bool {
    forall|k: int| 0 <= k < lines_of(diff_text).len() ==> hunk_fits(#[trigger] lines_of(diff_text)[k])
}

/// One line's effect on the scan: the file being read and the map so far.
pub open spec fn diff_step(st: (Option<Seq<char>>, HunkMap), line: Seq<char>) -> (Option<Seq<char>>, HunkMap) {
    let (current, m) = st;
    if starts_with(line, "diff --git "@) {
        let rest = line.skip(11);
        match find_pos(rest, " b/"@) {
            Some(b) => (Some(rest.skip(b + 3)), m),
            None => (None, m),
        }
    } else if starts_with(line, "+++ b/"@) {
        (Some(line.skip(6)), m)
    } else {
        match hunk_of(line) {
            Some((start, count)) => match current {
                Some(file) => (current, add_range(m, file, DiffRange { start: start, end: (start + count - 1) as u32 })),
                None => (current, m),
            },
            None => (current, m),
        }
    }
}

pub open spec fn diff_scan(lines: Seq<Seq<char>>) -> (Option<Seq<char>>, HunkMap)
    decreases lines.len(),
{
    if lines.len() == 0 {
        (None, seq![])
    } else {
        diff_step(diff_scan(lines.drop_last()), lines.last())
    }
}

/// Lines of a text (exec).
fn split_lines(s: &Vec<char>) -> (r: Vec<Vec<char>>)
    ensures
        r@.map_values(|l: Vec<char>| l@) == lines_of(s@),
{
    let mut out: Vec<Vec<char>> = Vec::new();
    let mut start: usize = 0;
    let nl: Vec<char> = vec!['\n'];
    assert(s@.skip(0) =~= s@);
    assert(out@.map_values(|l: Vec<char>| l@) =~= seq![]);
    assert(seq![] + lines_of(s@) =~= lines_of(s@));
    while start < s.len()
        invariant
            start <= s@.len(),
            nl@ == seq!['\n'],
            out@.map_values(|l: Vec<char>| l@) + lines_of(s@.skip(start as int)) == lines_of(s@),
        decreases s.len() - start,
    {
        let ghost rest = s@.skip(start as int);
        let i = scan_to_exec(s.as_slice(), nl.as_slice(), start);
        proof {
            lemma_scan_rebase(s@, seq!['\n'], start as nat);
        }
        let ghost before = out@.map_values(|l: Vec<char>| l@);
        if i >= s.len() {
            let line = slice_vec(s.as_slice(), start, s.len());
            out.push(line);
            assert(rest =~= line@);
            assert(lines_of(rest) == seq![rest]);
            assert(out@.map_values(|l: Vec<char>| l@) =~= before.push(rest));
            assert(s@.skip(s@.len() as int) =~= seq![]);
            assert(before + seq![rest] =~= before.push(rest));
            start = s.len();
        } else {
            let end = if i > start && s[i - 1] == '\r' { i - 1 } else { i };
            let line = slice_vec(s.as_slice(), start, end);
            assert(line@ =~= strip_cr(rest.take(i - start)));
            out.push(line);
            assert(rest.skip(i - start + 1) =~= s@.skip(i + 1));
            assert(out@.map_values(|l: Vec<char>| l@) =~= before.push(line@));
            assert(before + lines_of(rest) =~= before.push(line@) + lines_of(s@.skip(i + 1)));
            start = i + 1;
        }
    }
    assert(s@.skip(start as int) =~= seq![]);
    assert(out@.map_values(|l: Vec<char>| l@) + seq![] =~= out@.map_values(|l: Vec<char>| l@));
    out
}

/// Scanning from `start` in `s` is scanning from 0 in `s.skip(start)`.
proof fn lemma_scan_rebase(s: Seq<char>, stops: Seq<char>, start: nat)
    requires
        start <= s.len(),
    ensures
        scan_to(s.skip(start as int), stops, 0) + start == scan_to(s, stops, start),
{
    lemma_scan_rebase_at(s, stops, start, start);
}

proof fn lemma_scan_rebase_at(s: Seq<char>, stops: Seq<char>, start: nat, k: nat)
    requires
        start <= k <= s.len(),
    ensures
        scan_to(s.skip(start as int), stops, (k - start) as nat) + start == scan_to(s, stops, k),
    decreases s.len() - k,
{
    let t = s.skip(start as int);
    if k < s.len() {
        assert(t[(k - start) as int] == s[k as int]);
        if !stops.contains(s[k as int]) {
            lemma_scan_rebase_at(s, stops, start, k + 1);
        }
    }
}

/// Start line and count of a hunk header (exec).
fn hunk_of_exec(line: &Vec<char>) -> (r: Option<(u32, u32)>)
    ensures
        r == hunk_of(line@),
{
    let at: Vec<char> = vec!['@', '@', ' '];
    proof {
        reveal_strlit("@@ ");
        assert(at@ =~= "@@ "@);
    }
    if !starts_with_exec(line.as_slice(), at.as_slice()) {
        return None;
    }
    let rest = slice_vec(line.as_slice(), 3, line.len());
    assert(rest@ =~= line@.skip(3));
    let plus_stop: Vec<char> = vec!['+'];
    let plus = scan_to_exec(rest.as_slice(), plus_stop.as_slice(), 0);
    assert(plus_stop@ =~= seq!['+']);
    if plus >= rest.len() {
        return None;
    }
    let after = slice_vec(rest.as_slice(), plus + 1, rest.len());
    assert(after@ =~= rest@.skip(plus + 1));
    let end_stops: Vec<char> = vec![' ', '@'];
    assert(end_stops@ =~= seq![' ', '@']);
    let end = scan_to_exec(after.as_slice(), end_stops.as_slice(), 0);
    let part = slice_vec(after.as_slice(), 0, end);
    assert(part@ =~= after@.take(end as int));
    let comma_stop: Vec<char> = vec![','];
    assert(comma_stop@ =~= seq![',']);
    let comma = scan_to_exec(part.as_slice(), comma_stop.as_slice(), 0);
    let start_text = if comma < part.len() { slice_vec(part.as_slice(), 0, comma) } else { slice_vec(part.as_slice(), 0, part.len()) };
    assert(comma < part@.len() ==> start_text@ =~= part@.take(comma as int));
    assert(comma >= part@.len() ==> start_text@ =~= part@);
    let count: u32 = if comma < part.len() {
        let ct = slice_vec(part.as_slice(), comma + 1, part.len());
        assert(ct@ =~= part@.skip(comma + 1));
        match parse_u32_exec(ct.as_slice()) {
            Some(c) => c,
            None => 1,
        }
    } else {
        1
    };
    match parse_u32_exec(start_text.as_slice()) {
        None => None,
        Some(start) => if count == 0 { None } else { Some((start, count)) },
    }
}

/// Whether every hunk header of a diff names a last line that fits in
/// `u32`, which parsing it requires.
pub fn hunk_counts_fit(diff_text: &str) -> (r: bool)
    ensures
        r == hunks_fit(diff_text@),
{
    let text = chars_of(diff_text);
    let lines = split_lines(&text);
    let ghost ls = lines_of(diff_text@);
    let mut k: usize = 0;
    while k < lines.len()
        invariant
            k <= lines@.len(),
            lines@.map_values(|l: Vec<char>| l@) == ls,
            ls == lines_of(diff_text@),
            forall|j: int| 0 <= j < k ==> hunk_fits(#[trigger] ls[j]),
        decreases lines.len() - k,
    {
        assert(ls[k as int] == lines@[k as int]@);
        match hunk_of_exec(&lines[k]) {
            Some((start, count)) => {
                if count as u64 + start as u64 > 4294967295u64 {
                    assert(!hunk_fits(ls[k as int]));
                    return false;
                }
            },
            None => {},
        }
        k = k + 1;
    }
    true
}

/// Index of `key`'s entry in the exec map (its length when absent).
fn key_index_exec(files: &Vec<FileHunks>, key: &Vec<char>) -> (r: usize)
    ensures
        r as int == key_index(files@.map_values(|f: FileHunks| (f.path@, f.ranges@)), key@),
{
    let ghost m = files@.map_values(|f: FileHunks| (f.path@, f.ranges@));
    proof {
        lemma_key_index(m, key@);
    }
    let mut j: usize = 0;
    while j < files.len()
        invariant
            j <= files@.len(),
            m == files@.map_values(|f: FileHunks| (f.path@, f.ranges@)),
            0 <= key_index(m, key@) <= m.len(),
            key_index(m, key@) < m.len() ==> m[key_index(m, key@)].0 == key@,
            forall|i: int| 0 <= i < key_index(m, key@) ==> m[i].0 != key@,
            forall|i: int| 0 <= i < j ==> m[i].0 != key@,
        decreases files.len() - j,
    {
        let p = chars_of(files[j].path.as_str());
        if crate::text::chars_eq(p.as_slice(), key.as_slice()) {
            assert(m[j as int].0 == key@);
            return j;
        }
        j = j + 1;
    }
    files.len()
}

/// Per-file diff hunks of the output of `git diff --unified=0`: each
/// `@@ -A,B +C,D @@` header adds the head-side range `C..C+D-1` (a missing
/// count is 1; a zero count adds nothing) to the file named by the latest
/// `+++ b/<path>` line, or by the `b/` side of the latest `diff --git`
/// line.
pub fn parse_unified_diff_hunks(diff_text: &str) -> (r: DiffHunks)
    requires
        hunks_fit(diff_text@),
    ensures
        r.view_map() == diff_scan(lines_of(diff_text@)).1,
{
    let text = chars_of(diff_text);
    let lines = split_lines(&text);
    let ghost ls = lines_of(diff_text@);
    let dg: Vec<char> = vec!['d', 'i', 'f', 'f', ' ', '-', '-', 'g', 'i', 't', ' '];
    let pb: Vec<char> = vec!['+', '+', '+', ' ', 'b', '/'];
    let sb: Vec<char> = vec![' ', 'b', '/'];
    proof {
        reveal_strlit("diff --git ");
        reveal_strlit("+++ b/");
        reveal_strlit(" b/");
        assert(dg@ =~= "diff --git "@);
        assert(pb@ =~= "+++ b/"@);
        assert(sb@ =~= " b/"@);
    }
    let mut current: Option<Vec<char>> = None;
    let mut files: Vec<FileHunks> = Vec::new();
    let mut k: usize = 0;
    while k < lines.len()
        invariant
            k <= lines@.len(),
            lines@.map_values(|l: Vec<char>| l@) == ls,
            ls == lines_of(diff_text@),
            hunks_fit(diff_text@),
            dg@ == "diff --git "@,
            pb@ == "+++ b/"@,
            sb@ == " b/"@,
            dg@.len() == 11,
            pb@.len() == 6,
            sb@.len() == 3,
            (match current { Some(c) => Some(c@), None => None::<Seq<char>> }, files@.map_values(|f: FileHunks| (f.path@, f.ranges@)))
                == diff_scan(ls.take(k as int)),
        decreases lines.len() - k,
    {
        let line = &lines[k];
        let ghost st = diff_scan(ls.take(k as int));
        assert(ls[k as int] == line@);
        assert(ls.take(k + 1).drop_last() =~= ls.take(k as int));
        assert(ls.take(k + 1).last() == line@);
        assert(hunk_fits(ls[k as int]));
        if starts_with_exec(line.as_slice(), dg.as_slice()) {
            let rest = slice_vec(line.as_slice(), 11, line.len());
            assert(rest@ =~= line@.skip(11));
            match find_index(rest.as_slice(), sb.as_slice()) {
                Some(b) => {
                    let name = slice_vec(rest.as_slice(), b + 3, rest.len());
                    assert(name@ =~= rest@.skip(b + 3));
                    current = Some(name);
                },
                None => {
                    current = None;
                },
            }
        } else if starts_with_exec(line.as_slice(), pb.as_slice()) {
            let name = slice_vec(line.as_slice(), 6, line.len());
            assert(name@ =~= line@.skip(6));
            current = Some(name);
        } else {
            match hunk_of_exec(line) {
                Some((start, count)) => {
                    let end_line = start + count - 1;
                    match &current {
                        Some(file) => {
                            let ghost m = files@.map_values(|f: FileHunks| (f.path@, f.ranges@));
                            let i = key_index_exec(&files, file);
                            proof {
                                lemma_key_index(m, file@);
                            }
                            let range = DiffRange { start: start, end: end_line };
                            if i < files.len() {
                                let mut entry = FileHunks {
                                    path: crate::text::copy_string(&files[i].path),
                                    ranges: files[i].ranges.clone(),
                                };
                                assert(entry.ranges@ == files@[i as int].ranges@);
                                entry.ranges.push(range);
                                files.set(i, entry);
                                assert(files@.map_values(|f: FileHunks| (f.path@, f.ranges@)) =~= add_range(m, file@, range));
                            } else {
                                let mut rs: Vec<DiffRange> = Vec::new();
                                rs.push(range);
                                files.push(FileHunks { path: string_of(file.as_slice()), ranges: rs });
                                assert(files@.map_values(|f: FileHunks| (f.path@, f.ranges@)) =~= add_range(m, file@, range));
                            }
                        },
                        None => {},
                    }
                },
                None => {},
            }
        }
        k = k + 1;
    }
    assert(ls.take(lines@.len() as int) =~= ls);
    DiffHunks { files }
}

/// Two entries of a parsed diff never share a file, and every range's
/// start is at most its end.
pub proof fn law_diff_entries_distinct(diff_text: Seq<char>)
    requires
        hunks_fit(diff_text),
    ensures
        forall|a: int, b: int| 0 <= a < b < diff_scan(lines_of(diff_text)).1.len() ==>
            diff_scan(lines_of(diff_text)).1[a].0 != diff_scan(lines_of(diff_text)).1[b].0,
        forall|a: int, j: int| 0 <= a < diff_scan(lines_of(diff_text)).1.len()
            && 0 <= j < diff_scan(lines_of(diff_text)).1[a].1.len() ==>
            diff_scan(lines_of(diff_text)).1[a].1[j].start <= diff_scan(lines_of(diff_text)).1[a].1[j].end,
{
    lemma_scan_wf(lines_of(diff_text), lines_of(diff_text).len() as int);
    assert(lines_of(diff_text).take(lines_of(diff_text).len() as int) =~= lines_of(diff_text));
}

pub open spec fn hunk_map_wf(m: HunkMap) -> bool {
    &&& forall|a: int, b: int| 0 <= a < b < m.len() ==> m[a].0 != m[b].0
    &&& forall|a: int, j: int| 0 <= a < m.len() && 0 <= j < m[a].1.len() ==> m[a].1[j].start <= m[a].1[j].end
}

proof fn lemma_scan_wf(lines: Seq<Seq<char>>, k: int)
    requires
        0 <= k <= lines.len(),
        forall|i: int| 0 <= i < lines.len() ==> hunk_fits(#[trigger] lines[i]),
    ensures
        hunk_map_wf(diff_scan(lines.take(k)).1),
    decreases k,
{
    if k > 0 {
        lemma_scan_wf(lines, k - 1);
        assert(lines.take(k).drop_last() =~= lines.take(k - 1));
        let m = diff_scan(lines.take(k - 1)).1;
        let line = lines[k - 1];
        assert(hunk_fits(line));
        match hunk_of(line) {
            Some((start, count)) => {
                match diff_scan(lines.take(k - 1)).0 {
                    Some(file) => {
                        lemma_key_index(m, file);
                    },
                    None => {},
                }
            },
            None => {},
        }
    } else {
        assert(lines.take(0) =~= seq![]);
    }
}


// ---------------------------------------------------------------------
// Classifiers.

/// Test-shaped path, by directory or file-name convention (on the
/// lower-cased path).
pub open spec fn test_path_rule(lower: Seq<char>) -> bool {
    let name = match rfind_pos(lower, "/"@) {
        Some(i) => lower.skip(i + 1),
        None => lower,
    };
    ||| starts_with(lower, "tests/"@)
    ||| starts_with(lower, "test/"@)
    ||| contains_seq(lower, "/tests/"@)
    ||| contains_seq(lower, "/test/"@)
    ||| contains_seq(lower, "/__tests__/"@)
    ||| ends_with(lower, "_test.rs"@)
    ||| ends_with(lower, ".test.ts"@)
    ||| ends_with(lower, ".test.tsx"@)
    ||| ends_with(lower, ".test.js"@)
    ||| ends_with(lower, ".test.jsx"@)
    ||| ends_with(lower, ".spec.ts"@)
    ||| ends_with(lower, ".spec.tsx"@)
    ||| ends_with(lower, ".spec.js"@)
    ||| ends_with(lower, ".spec.jsx"@)
    ||| (starts_with(name, "test_"@) && ends_with(name, ".py"@))
    ||| ends_with(name, "_test.py"@)
}

/// Whether a path looks like a test file.
pub fn is_test_path(path: &str) -> (r: bool)
    ensures
        r == test_path_rule(unicode_lowercase(path@)),
{
    let lowered = crate::text::to_lowercase(path);
    let lower = chars_of(lowered.as_str());
    let l = lower.as_slice();
    let slash = chars_of("/");
    let name = match rfind_index(l, slash.as_slice()) {
        Some(i) => {
            proof {
                reveal_strlit("/");
                assert(slash@.len() == 1);
                assert(occurs_at(lower@, slash@, i as int));
                assert(i + 1 <= lower@.len());
                assert(lower@.len() == lower.len());
            }
            slice_vec(l, i + 1, lower.len())
        },
        None => slice_vec(l, 0, lower.len()),
    };
    proof {
        match rfind_pos(lower@, "/"@) {
            Some(i) => { assert(name@ =~= lower@.skip(i + 1)); },
            None => { assert(name@ =~= lower@); },
        }
    }
    let n = name.as_slice();
    starts_with_exec(l, chars_of("tests/").as_slice())
        || starts_with_exec(l, chars_of("test/").as_slice())
        || contains_exec(l, chars_of("/tests/").as_slice())
        || contains_exec(l, chars_of("/test/").as_slice())
        || contains_exec(l, chars_of("/__tests__/").as_slice())
        || ends_with_exec(l, chars_of("_test.rs").as_slice())
        || ends_with_exec(l, chars_of(".test.ts").as_slice())
        || ends_with_exec(l, chars_of(".test.tsx").as_slice())
        || ends_with_exec(l, chars_of(".test.js").as_slice())
        || ends_with_exec(l, chars_of(".test.jsx").as_slice())
        || ends_with_exec(l, chars_of(".spec.ts").as_slice())
        || ends_with_exec(l, chars_of(".spec.tsx").as_slice())
        || ends_with_exec(l, chars_of(".spec.js").as_slice())
        || ends_with_exec(l, chars_of(".spec.jsx").as_slice())
        || (starts_with_exec(n, chars_of("test_").as_slice()) && ends_with_exec(n, chars_of(".py").as_slice()))
        || ends_with_exec(n, chars_of("_test.py").as_slice())
}

/// The segment after the last `sep` (the whole name without one).
pub open spec fn after_last(q: Seq<char>, sep: Seq<char>) -> Seq<char> {
    match rfind_pos(q, sep) {
        Some(i) => q.skip(i + sep.len()),
        None => q,
    }
}

fn after_last_exec(q: &Vec<char>, sep: &str) -> (r: Vec<char>)
    ensures
        r@ == after_last(q@, sep@),
{
    let s = chars_of(sep);
    match rfind_index(q.as_slice(), s.as_slice()) {
        Some(i) => {
            assert(occurs_at(q@, s@, i as int));
            assert(i + s@.len() <= q@.len());
            assert(q@.len() == q.len());
            assert(s@.len() == s.len());
            let r = slice_vec(q.as_slice(), i + s.len(), q.len());
            assert(r@ =~= q@.skip(i + sep@.len()));
            r
        },
        None => slice_vec(q.as_slice(), 0, q.len()),
    }
}

/// The name with its last segment and the separator before it removed
/// (none for a name of one segment).
pub open spec fn owner_name(q: Seq<char>) -> Option<Seq<char>> {
    let last = after_last(after_last(q, "::"@), "."@);
    if last.len() < q.len() {
        let rest = q.take(q.len() - last.len());
        Some(if ends_with(rest, "::"@) { rest.take(rest.len() - 2) } else if ends_with(rest, "."@) { rest.take(rest.len() - 1) } else { rest })
    } else {
        None
    }
}

/// The symbol sits inside a class (or other owner) whose name starts with
/// `Test`, such as `TestFoo.method`.
pub open spec fn in_test_class(q: Seq<char>) -> bool {
    match owner_name(q) {
        Some(o) => starts_with(after_last(after_last(o, "::"@), "."@), "Test"@),
        None => false,
    }
}

/// Test-shaped symbol: in a test-shaped file, under a `tests` / `test`
/// module, named `test_*`, or inside a `Test*` class.
pub open spec fn test_symbol_rule(path: Seq<char>, qualified_name: Option<Seq<char>>) -> bool {
    ||| test_path_rule(unicode_lowercase(path))
    ||| match qualified_name {
        Some(q) => {
            ||| starts_with(q, "tests::"@)
            ||| starts_with(q, "tests."@)
            ||| starts_with(q, "test::"@)
            ||| starts_with(q, "test."@)
            ||| starts_with(after_last(after_last(q, "::"@), "."@), "test_"@)
            ||| in_test_class(q)
        },
        None => false,
    }
}

proof fn lemma_after_last_suffix(q: Seq<char>, sep: Seq<char>)
    ensures
        after_last(q, sep).len() <= q.len(),
        after_last(q, sep) == q.skip(q.len() - after_last(q, sep).len()),
{
    match rfind_pos(q, sep) {
        Some(i) => {
            assert(crate::text::last_occurrence(q, sep, i));
            assert(q.skip(i + sep.len()) =~= q.skip(q.len() - q.skip(i + sep.len()).len()));
        },
        None => {
            assert(q.skip(0) =~= q);
        },
    }
}

fn in_test_class_exec(q: &Vec<char>) -> (r: bool)
    ensures
        r == in_test_class(q@),
{
    let l1 = after_last_exec(q, "::");
    let last = after_last_exec(&l1, ".");
    proof {
        lemma_after_last_suffix(q@, "::"@);
        lemma_after_last_suffix(l1@, "."@);
    }
    if last.len() >= q.len() {
        return false;
    }
    let rest = slice_vec(q.as_slice(), 0, q.len() - last.len());
    proof {
        reveal_strlit("::");
        reveal_strlit(".");
    }
    let owner = if ends_with_exec(rest.as_slice(), chars_of("::").as_slice()) {
        slice_vec(rest.as_slice(), 0, rest.len() - 2)
    } else if ends_with_exec(rest.as_slice(), chars_of(".").as_slice()) {
        slice_vec(rest.as_slice(), 0, rest.len() - 1)
    } else {
        rest
    };
    proof {
        assert(rest@ =~= q@.take(q@.len() - last@.len()));
        reveal_strlit("::");
        reveal_strlit(".");
        if ends_with(rest@, "::"@) {
            assert(owner@ =~= rest@.take(rest@.len() - 2));
        } else if ends_with(rest@, "."@) {
            assert(owner@ =~= rest@.take(rest@.len() - 1));
        }
    }
    let o1 = after_last_exec(&owner, "::");
    let o2 = after_last_exec(&o1, ".");
    starts_with_exec(o2.as_slice(), chars_of("Test").as_slice())
}

/// Whether a symbol looks like a test.
pub fn is_test_symbol(path: &str, qualified_name: Option<&str>) -> (r: bool)
    ensures
        r == test_symbol_rule(path@, match qualified_name { Some(q) => Some(q@), None => None }),
{
    if is_test_path(path) {
        return true;
    }
    match qualified_name {
        Some(qn) => {
            let q = chars_of(qn);
            let qs = q.as_slice();
            if starts_with_exec(qs, chars_of("tests::").as_slice())
                || starts_with_exec(qs, chars_of("tests.").as_slice())
                || starts_with_exec(qs, chars_of("test::").as_slice())
                || starts_with_exec(qs, chars_of("test.").as_slice())
            {
                return true;
            }
            let last = after_last_exec(&q, "::");
            let last = after_last_exec(&last, ".");
            if starts_with_exec(last.as_slice(), chars_of("test_").as_slice()) {
                return true;
            }
            in_test_class_exec(&q)
        },
        None => false,
    }
}

/// Functions, methods and macros have a body in the function sense.
pub open spec fn callable_kind(k: SymbolKind) -> bool {
    k == SymbolKind::Function || k == SymbolKind::Method || k == SymbolKind::Macro
}

pub fn is_callable_kind(kind: SymbolKind) -> (r: bool)
    ensures
        r == callable_kind(kind),
{
    match kind {
        SymbolKind::Function | SymbolKind::Method | SymbolKind::Macro => true,
        _ => false,
    }
}

/// Structs, traits, type aliases, modules and enums contain other symbols.
pub open spec fn container_kind(k: Option<SymbolKind>) -> bool {
    match k {
        Some(k) => k == SymbolKind::Struct || k == SymbolKind::Trait || k == SymbolKind::TypeAlias
            || k == SymbolKind::Module || k == SymbolKind::Enum,
        None => false,
    }
}

pub fn is_container_kind(kind: Option<SymbolKind>) -> (r: bool)
    ensures
        r == container_kind(kind),
{
    match kind {
        Some(SymbolKind::Struct) | Some(SymbolKind::Trait) | Some(SymbolKind::TypeAlias)
        | Some(SymbolKind::Module) | Some(SymbolKind::Enum) => true,
        _ => false,
    }
}

pub open spec fn fn_family(k: Option<SymbolKind>) -> bool {
    k == Some(SymbolKind::Function) || k == Some(SymbolKind::Method)
}

pub fn is_fn_family(kind: Option<SymbolKind>) -> (r: bool)
    ensures
        r == fn_family(kind),
{
    match kind {
        Some(SymbolKind::Function) | Some(SymbolKind::Method) => true,
        _ => false,
    }
}

/// Budget rank of a confidence tier: lower is kept first.
pub open spec fn tier_rank(tier: Seq<char>) -> u32 {
    if tier == "structural-rule"@ {
        0
    } else if tier == "extracted"@ {
        1
    } else if tier == "inferred"@ {
        2
    } else if tier == "ambiguous"@ {
        3
    } else {
        4
    }
}

pub fn tier_priority(tier: &str) -> (r: u32)
    ensures
        r == tier_rank(tier@),
{
    let t = chars_of(tier);
    let ts = t.as_slice();
    if crate::text::chars_eq(ts, chars_of("structural-rule").as_slice()) {
        0
    } else if crate::text::chars_eq(ts, chars_of("extracted").as_slice()) {
        1
    } else if crate::text::chars_eq(ts, chars_of("inferred").as_slice()) {
        2
    } else if crate::text::chars_eq(ts, chars_of("ambiguous").as_slice()) {
        3
    } else {
        4
    }
}

// ---------------------------------------------------------------------
// Comments.

#[derive(Debug, Clone, PartialEq, Eq)]
pub struct ReviewComment {
    pub file: String,
    pub line: u32,
    pub end_line: u32,
    pub symbol_qualified_name: Option<String>,
    pub symbol_id: Option<String>,
    pub source_kind: String,
    pub confidence_tier: String,
    pub rule_id: Option<String>,
    pub body: String,
}

impl ReviewComment {
    pub fn duplicate(&self) -> (r: ReviewComment)
        ensures
            r == *self,
    {
        ReviewComment {
            file: crate::text::copy_string(&self.file),
            line: self.line,
            end_line: self.end_line,
            symbol_qualified_name: crate::text::copy_opt_string(&self.symbol_qualified_name),
            symbol_id: crate::text::copy_opt_string(&self.symbol_id),
            source_kind: crate::text::copy_string(&self.source_kind),
            confidence_tier: crate::text::copy_string(&self.confidence_tier),
            rule_id: crate::text::copy_opt_string(&self.rule_id),
            body: crate::text::copy_string(&self.body),
        }
    }
}

/// A comment with what the restate filters need: the kind and byte span
/// of the symbol it is about (none for rule findings).
#[derive(Debug, Clone, PartialEq, Eq)]
pub struct PendingComment {
    pub comment: ReviewComment,
    pub symbol_kind: Option<SymbolKind>,
    pub anchor: Option<(u64, u64)>,
}

impl PendingComment {
    pub fn duplicate(&self) -> (r: PendingComment)
        ensures
            r == *self,
    {
        PendingComment { comment: self.comment.duplicate(), symbol_kind: self.symbol_kind, anchor: self.anchor }
    }
}

/// What a review comment says, as text.
pub ghost struct CommentV {
    pub file: Seq<char>,
    pub line: u32,
    pub end_line: u32,
    pub symbol_qualified_name: Option<Seq<char>>,
    pub symbol_id: Option<Seq<char>>,
    pub source_kind: Seq<char>,
    pub confidence_tier: Seq<char>,
    pub rule_id: Option<Seq<char>>,
    pub body: Seq<char>,
}

impl View for ReviewComment {
    type V = CommentV;

    open spec fn view(&self) -> CommentV {
        CommentV {
            file: self.file@,
            line: self.line,
            end_line: self.end_line,
            symbol_qualified_name: opt_text(self.symbol_qualified_name),
            symbol_id: opt_text(self.symbol_id),
            source_kind: self.source_kind@,
            confidence_tier: self.confidence_tier@,
            rule_id: opt_text(self.rule_id),
            body: self.body@,
        }
    }
}

/// A pending comment, as text.
pub ghost struct PendingV {
    pub comment: CommentV,
    pub symbol_kind: Option<SymbolKind>,
    pub anchor: Option<(u64, u64)>,
}

impl View for PendingComment {
    type V = PendingV;

    open spec fn view(&self) -> PendingV {
        PendingV { comment: self.comment@, symbol_kind: self.symbol_kind, anchor: self.anchor }
    }
}

pub open spec fn pending_views(p: Seq<PendingComment>) -> Seq<PendingV> {
    p.map_values(|c: PendingComment| c@)
}

pub open spec fn comment_views(c: Seq<ReviewComment>) -> Seq<CommentV> {
    c.map_values(|x: ReviewComment| x@)
}

/// Comment `j`'s anchor lies strictly inside comment `i`'s, in the same file.
pub open spec fn strictly_inside(p: Seq<PendingV>, i: int, j: int) -> bool {
    &&& p[j].comment.file == p[i].comment.file
    &&& p[i].anchor.is_some()
    &&& p[j].anchor.is_some()
    &&& p[j].anchor.unwrap().0 > p[i].anchor.unwrap().0
    &&& p[j].anchor.unwrap().1 < p[i].anchor.unwrap().1
}

/// A container comment that encloses a non-container comment of its file.
pub open spec fn container_restates(p: Seq<PendingV>, i: int) -> bool {
    &&& container_kind(p[i].symbol_kind)
    &&& exists|j: int| 0 <= j < p.len() && j != i && !container_kind(p[j].symbol_kind) && #[trigger] strictly_inside(p, i, j)
}

/// A function or method comment that encloses another one of its file.
pub open spec fn outer_fn_restates(p: Seq<PendingV>, i: int) -> bool {
    &&& fn_family(p[i].symbol_kind)
    &&& exists|j: int| 0 <= j < p.len() && j != i && fn_family(p[j].symbol_kind) && #[trigger] strictly_inside(p, i, j)
}

/// The first `n` comments without the dropped ones, in order.
pub open spec fn kept(p: Seq<PendingV>, drop: spec_fn(int) -> bool, n: int) -> Seq<PendingV>
    decreases n,
{
    if n <= 0 {
        seq![]
    } else if drop(n - 1) {
        kept(p, drop, n - 1)
    } else {
        kept(p, drop, n - 1).push(p[n - 1])
    }
}

pub open spec fn after_container_pass(p: Seq<PendingV>) -> Seq<PendingV> {
    kept(p, |i: int| container_restates(p, i), p.len() as int)
}

pub open spec fn after_outer_fn_pass(p: Seq<PendingV>) -> Seq<PendingV> {
    kept(p, |i: int| outer_fn_restates(p, i), p.len() as int)
}

fn strictly_inside_exec(p: &Vec<PendingComment>, i: usize, j: usize) -> (r: bool)
    requires
        i < p@.len(),
        j < p@.len(),
    ensures
        r == strictly_inside(pending_views(p@), i as int, j as int),
{
    let fi = chars_of(p[i].comment.file.as_str());
    let fj = chars_of(p[j].comment.file.as_str());
    if !crate::text::chars_eq(fi.as_slice(), fj.as_slice()) {
        return false;
    }
    match (p[i].anchor, p[j].anchor) {
        (Some((cs, ce)), Some((os, oe))) => os > cs && oe < ce,
        _ => false,
    }
}

/// Keeps the comments whose flag is unset.
fn keep_unflagged(p: &Vec<PendingComment>, flags: &Vec<bool>, Ghost(drop): Ghost<spec_fn(int) -> bool>) -> (r: Vec<PendingComment>)
    requires
        flags@.len() == p@.len(),
        forall|i: int| 0 <= i < p@.len() ==> #[trigger] flags@[i] == drop(i),
    ensures
        pending_views(r@) == kept(pending_views(p@), drop, p@.len() as int),
{
    let ghost pv = pending_views(p@);
    let mut out: Vec<PendingComment> = Vec::new();
    let mut i: usize = 0;
    while i < p.len()
        invariant
            i <= p@.len() == flags@.len(),
            forall|k: int| 0 <= k < p@.len() ==> #[trigger] flags@[k] == drop(k),
            pv == pending_views(p@),
            pending_views(out@) == kept(pv, drop, i as int),
        decreases p.len() - i,
    {
        assert(flags@[i as int] == drop(i as int));
        if !flags[i] {
            let ghost before = out@;
            out.push(p[i].duplicate());
            assert(pending_views(out@) =~= pending_views(before).push(pv[i as int]));
        }
        i = i + 1;
    }
    out
}

/// Drops each container comment (struct, trait, type alias, module, enum)
/// whose anchor strictly encloses a non-container comment's anchor in the
/// same file.
pub fn suppress_container_restate(pending: &mut Vec<PendingComment>)
    ensures
        pending_views(final(pending)@) == after_container_pass(pending_views(old(pending)@)),
{
    let ghost p0 = pending_views(pending@);
    let mut flags: Vec<bool> = Vec::new();
    let mut i: usize = 0;
    while i < pending.len()
        invariant
            i <= pending@.len(),
            pending_views(pending@) == p0,
            flags@.len() == i,
            forall|k: int| 0 <= k < i ==> #[trigger] flags@[k] == container_restates(p0, k),
        decreases pending.len() - i,
    {
        let mut hit = false;
        if is_container_kind(pending[i].symbol_kind) {
            let mut j: usize = 0;
            while j < pending.len()
                invariant
                    i < pending@.len(),
                    pending_views(pending@) == p0,
                    j <= pending@.len(),
                    container_kind(p0[i as int].symbol_kind),
                    hit == exists|m: int| 0 <= m < j && m != i && !container_kind(p0[m].symbol_kind) && #[trigger] strictly_inside(p0, i as int, m),
                decreases pending.len() - j,
            {
                if j != i && !is_container_kind(pending[j].symbol_kind) && strictly_inside_exec(pending, i, j) {
                    hit = true;
                }
                j = j + 1;
            }
        }
        flags.push(hit);
        i = i + 1;
    }
    let out = keep_unflagged(pending, &flags, Ghost(|k: int| container_restates(p0, k)));
    *pending = out;
}

/// Drops each function or method comment whose anchor strictly encloses
/// another function or method comment's anchor in the same file.
pub fn suppress_outer_function_restate(pending: &mut Vec<PendingComment>)
    ensures
        pending_views(final(pending)@) == after_outer_fn_pass(pending_views(old(pending)@)),
{
    let ghost p0 = pending_views(pending@);
    let mut flags: Vec<bool> = Vec::new();
    let mut i: usize = 0;
    while i < pending.len()
        invariant
            i <= pending@.len(),
            pending_views(pending@) == p0,
            flags@.len() == i,
            forall|k: int| 0 <= k < i ==> #[trigger] flags@[k] == outer_fn_restates(p0, k),
        decreases pending.len() - i,
    {
        let mut hit = false;
        if is_fn_family(pending[i].symbol_kind) {
            let mut j: usize = 0;
            while j < pending.len()
                invariant
                    i < pending@.len(),
                    pending_views(pending@) == p0,
                    j <= pending@.len(),
                    fn_family(p0[i as int].symbol_kind),
                    hit == exists|m: int| 0 <= m < j && m != i && fn_family(p0[m].symbol_kind) && #[trigger] strictly_inside(p0, i as int, m),
                decreases pending.len() - j,
            {
                if j != i && is_fn_family(pending[j].symbol_kind) && strictly_inside_exec(pending, i, j) {
                    hit = true;
                }
                j = j + 1;
            }
        }
        flags.push(hit);
        i = i + 1;
    }
    let out = keep_unflagged(pending, &flags, Ghost(|k: int| outer_fn_restates(p0, k)));
    *pending = out;
}

proof fn lemma_kept_members(p: Seq<PendingV>, drop: spec_fn(int) -> bool, n: int)
    requires
        0 <= n <= p.len(),
    ensures
        forall|k: int| 0 <= k < kept(p, drop, n).len() ==> exists|i: int| 0 <= i < n && !drop(i) && #[trigger] kept(p, drop, n)[k] == p[i],
        forall|i: int| 0 <= i < n && !drop(i) ==> kept(p, drop, n).contains(#[trigger] p[i]),
        kept(p, drop, n).len() <= n,
    decreases n,
{
    if n > 0 {
        lemma_kept_members(p, drop, n - 1);
        let prev = kept(p, drop, n - 1);
        if !drop(n - 1) {
            let cur = kept(p, drop, n);
            assert(cur == prev.push(p[n - 1]));
            assert forall|k: int| 0 <= k < cur.len() implies exists|i: int| 0 <= i < n && !drop(i) && #[trigger] cur[k] == p[i] by {
                if k < prev.len() {
                    assert(cur[k] == prev[k]);
                } else {
                    assert(cur[k] == p[n - 1]);
                }
            }
            assert forall|i: int| 0 <= i < n && !drop(i) implies cur.contains(#[trigger] p[i]) by {
                if i < n - 1 {
                    assert(prev.contains(p[i]));
                    let k = choose|k: int| 0 <= k < prev.len() && prev[k] == p[i];
                    assert(cur[k] == p[i]);
                } else {
                    assert(cur[cur.len() - 1] == p[i]);
                }
            }
        }
    }
}

proof fn lemma_kept_none_dropped(p: Seq<PendingV>, drop: spec_fn(int) -> bool, n: int)
    requires
        0 <= n <= p.len(),
        forall|i: int| 0 <= i < n ==> !#[trigger] drop(i),
    ensures
        kept(p, drop, n) == p.take(n),
    decreases n,
{
    if n > 0 {
        lemma_kept_none_dropped(p, drop, n - 1);
        assert(p.take(n) =~= p.take(n - 1).push(p[n - 1]));
    } else {
        assert(p.take(0) =~= seq![]);
    }
}

/// Every comment that is not about a container survives the container
/// pass.
pub proof fn law_container_pass_keeps_leaves(p: Seq<PendingV>, i: int)
    requires
        0 <= i < p.len(),
        !container_kind(p[i].symbol_kind),
    ensures
        after_container_pass(p).contains(p[i]),
{
    lemma_kept_members(p, |k: int| container_restates(p, k), p.len() as int);
}

/// Running the container pass twice drops nothing more.
pub proof fn law_container_pass_idempotent(p: Seq<PendingV>)
    ensures
        after_container_pass(after_container_pass(p)) == after_container_pass(p),
{
    let drop = |k: int| container_restates(p, k);
    let q = after_container_pass(p);
    lemma_kept_members(p, drop, p.len() as int);
    assert forall|k: int| 0 <= k < q.len() implies !container_restates(q, k) by {
        let i = choose|i: int| 0 <= i < p.len() && !drop(i) && q[k] == p[i];
        if container_restates(q, k) {
            let m = choose|m: int| 0 <= m < q.len() && m != k && !container_kind(q[m].symbol_kind) && #[trigger] strictly_inside(q, k, m);
            let j = choose|j: int| 0 <= j < p.len() && !drop(j) && q[m] == p[j];
            assert(strictly_inside(p, i, j));
            assert(j != i);
            assert(container_restates(p, i));
        }
    }
    lemma_kept_none_dropped(q, |k: int| container_restates(q, k), q.len() as int);
    assert(q.take(q.len() as int) =~= q);
}

/// Every function or method comment that encloses no other one survives
/// the outer-function pass.
pub proof fn law_outer_fn_pass_keeps_innermost(p: Seq<PendingV>, i: int)
    requires
        0 <= i < p.len(),
        !outer_fn_restates(p, i),
    ensures
        after_outer_fn_pass(p).contains(p[i]),
{
    lemma_kept_members(p, |k: int| outer_fn_restates(p, k), p.len() as int);
}

/// Running the outer-function pass twice drops nothing more.
pub proof fn law_outer_fn_pass_idempotent(p: Seq<PendingV>)
    ensures
        after_outer_fn_pass(after_outer_fn_pass(p)) == after_outer_fn_pass(p),
{
    let drop = |k: int| outer_fn_restates(p, k);
    let q = after_outer_fn_pass(p);
    lemma_kept_members(p, drop, p.len() as int);
    assert forall|k: int| 0 <= k < q.len() implies !outer_fn_restates(q, k) by {
        let i = choose|i: int| 0 <= i < p.len() && !drop(i) && q[k] == p[i];
        if outer_fn_restates(q, k) {
            let m = choose|m: int| 0 <= m < q.len() && m != k && fn_family(q[m].symbol_kind) && #[trigger] strictly_inside(q, k, m);
            let j = choose|j: int| 0 <= j < p.len() && !drop(j) && q[m] == p[j];
            assert(strictly_inside(p, i, j));
            assert(j != i);
            assert(outer_fn_restates(p, i));
        }
    }
    lemma_kept_none_dropped(q, |k: int| outer_fn_restates(q, k), q.len() as int);
    assert(q.take(q.len() as int) =~= q);
}

/// Neither pass adds a comment: each keeps at most what it was given.
pub proof fn law_passes_never_grow(p: Seq<PendingV>)
    ensures
        after_container_pass(p).len() <= p.len(),
        after_outer_fn_pass(p).len() <= p.len(),
{
    lemma_kept_members(p, |k: int| container_restates(p, k), p.len() as int);
    lemma_kept_members(p, |k: int| outer_fn_restates(p, k), p.len() as int);
}


// ---------------------------------------------------------------------
// Rendering.

/// One bullet line per callee name.
pub open spec fn callee_lines(names: Seq<Seq<char>>) -> Seq<char>
    decreases names.len(),
{
    if names.len() == 0 {
        seq![]
    } else {
        callee_lines(names.drop_last()) + "- `"@ + names.last() + "`\n"@
    }
}

/// Body of a comment on a changed outbound-call set.
pub open spec fn modified_body_text(qualified_name: Seq<char>, added: Seq<Seq<char>>, removed: Seq<Seq<char>>) -> Seq<char> {
    "`"@ + qualified_name + "` outbound-call set changed.\n"@
        + (if added.len() > 0 { "\n**+ Added callees:**\n"@ + callee_lines(added) } else { seq![] })
        + (if removed.len() > 0 { "\n**\u{2212} Removed callees:**\n"@ + callee_lines(removed) } else { seq![] })
}

fn push_callee_lines(buf: &mut String, names: &Vec<String>)
    ensures
        final(buf)@ == old(buf)@ + callee_lines(names@.map_values(|n: String| n@)),
{
    let ghost v = names@.map_values(|n: String| n@);
    let ghost start = buf@;
    let mut i: usize = 0;
    while i < names.len()
        invariant
            i <= names@.len(),
            v == names@.map_values(|n: String| n@),
            buf@ == start + callee_lines(v.take(i as int)),
        decreases names.len() - i,
    {
        crate::text::push_str(buf, "- `");
        crate::text::push_str(buf, names[i].as_str());
        crate::text::push_str(buf, "`\n");
        assert(v.take(i + 1).drop_last() =~= v.take(i as int));
        assert(v.take(i + 1).last() == names@[i as int]@);
        i = i + 1;
        assert(buf@ =~= start + callee_lines(v.take(i as int)));
    }
    assert(v.take(names@.len() as int) =~= v);
}

/// The comment body listing added and removed callees.
pub fn render_modified_body_comment(qualified_name: &str, added: &Vec<String>, removed: &Vec<String>) -> (r: String)
    ensures
        r@ == modified_body_text(qualified_name@, added@.map_values(|n: String| n@), removed@.map_values(|n: String| n@)),
{
    let mut buf = String::new();
    crate::text::push_str(&mut buf, "`");
    crate::text::push_str(&mut buf, qualified_name);
    crate::text::push_str(&mut buf, "` outbound-call set changed.\n");
    let ghost head = buf@;
    if added.len() > 0 {
        crate::text::push_str(&mut buf, "\n**+ Added callees:**\n");
        push_callee_lines(&mut buf, added);
    }
    let ghost mid = buf@;
    if removed.len() > 0 {
        crate::text::push_str(&mut buf, "\n**\u{2212} Removed callees:**\n");
        push_callee_lines(&mut buf, removed);
    }
    assert(buf@ =~= modified_body_text(qualified_name@, added@.map_values(|n: String| n@), removed@.map_values(|n: String| n@)));
    buf
}

/// Count of comments of one source kind. A summary holds a list of these,
/// one per kind, in place of a map keyed by the kind's text; the list is
/// stated as a map from kind texts to counts.
#[derive(Debug, Clone, PartialEq, Eq)]
pub struct SourceKindCount {
    pub source_kind: String,
    pub count: usize,
}

#[derive(Debug, Clone, Default, PartialEq, Eq)]
pub struct PrReviewSummary {
    pub files_in_scope: usize,
    pub symbols_added: usize,
    pub symbols_removed: usize,
    pub symbols_modified_body: usize,
    pub comments_emitted: usize,
    pub comments_dropped_to_budget: usize,
    pub by_source_kind: Vec<SourceKindCount>,
}

#[derive(Debug, Clone, PartialEq, Eq)]
pub struct PrReviewResult {
    pub summary: PrReviewSummary,
    pub comments: Vec<ReviewComment>,
}

pub open spec fn opt_text(o: Option<String>) -> Option<Seq<char>> {
    match o {
        Some(s) => Some(s@),
        None => None,
    }
}

/// Markdown block of one comment.
pub open spec fn comment_markdown(c: ReviewComment) -> Seq<char> {
    "### "@ + "["@ + c.confidence_tier@ + "]"@ + " \u{b7} `"@ + c.file@ + ":"@ + crate::text::decimal(c.line as nat) + "` "@
        + (match c.rule_id { Some(r) => " \u{b7} `"@ + r@ + "`"@, None => seq![] })
        + "\n"@ + c.source_kind@ + "\n\n"@ + c.body@ + "\n\n"@
}

pub open spec fn comments_markdown(cs: Seq<ReviewComment>) -> Seq<char>
    decreases cs.len(),
{
    if cs.len() == 0 {
        seq![]
    } else {
        comments_markdown(cs.drop_last()) + comment_markdown(cs.last())
    }
}

/// The whole review as markdown: a title, the summary line, then one block
/// per comment.
pub open spec fn review_markdown(r: PrReviewResult) -> Seq<char> {
    let s = r.summary;
    "# mallard PR review\n\n"@
        + "Files in scope: "@ + crate::text::decimal(s.files_in_scope as nat)
        + " \u{b7} symbols +"@ + crate::text::decimal(s.symbols_added as nat)
        + "/\u{2212}"@ + crate::text::decimal(s.symbols_removed as nat)
        + " \u{b7} modified-body "@ + crate::text::decimal(s.symbols_modified_body as nat)
        + " \u{b7} comments "@ + crate::text::decimal(s.comments_emitted as nat)
        + " (dropped "@ + crate::text::decimal(s.comments_dropped_to_budget as nat) + ")\n\n"@
        + comments_markdown(r.comments@)
}

fn push_decimal_usize(buf: &mut String, n: usize)
    ensures
        final(buf)@ == old(buf)@ + crate::text::decimal(n as nat),
{
    crate::text::push_decimal(buf, n as u64);
}

fn push_comment_markdown(buf: &mut String, c: &ReviewComment)
    ensures
        final(buf)@ == old(buf)@ + comment_markdown(*c),
{
    let ghost before = buf@;
    crate::text::push_str(buf, "### ");
    crate::text::push_str(buf, "[");
    crate::text::push_str(buf, c.confidence_tier.as_str());
    crate::text::push_str(buf, "]");
    crate::text::push_str(buf, " \u{b7} `");
    crate::text::push_str(buf, c.file.as_str());
    crate::text::push_str(buf, ":");
    crate::text::push_decimal(buf, c.line as u64);
    crate::text::push_str(buf, "` ");
    let ghost mid = buf@;
    match &c.rule_id {
        Some(r) => {
            crate::text::push_str(buf, " \u{b7} `");
            crate::text::push_str(buf, r.as_str());
            crate::text::push_str(buf, "`");
        },
        None => {},
    }
    let ghost mid2 = buf@;
    crate::text::push_str(buf, "\n");
    crate::text::push_str(buf, c.source_kind.as_str());
    crate::text::push_str(buf, "\n\n");
    crate::text::push_str(buf, c.body.as_str());
    crate::text::push_str(buf, "\n\n");
    assert(buf@ =~= before + comment_markdown(*c));
}

pub fn render_markdown(result: &PrReviewResult) -> (r: String)
    ensures
        r@ == review_markdown(*result),
{
    let s = &result.summary;
    let mut buf = String::new();
    crate::text::push_str(&mut buf, "# mallard PR review\n\n");
    crate::text::push_str(&mut buf, "Files in scope: ");
    push_decimal_usize(&mut buf, s.files_in_scope);
    crate::text::push_str(&mut buf, " \u{b7} symbols +");
    push_decimal_usize(&mut buf, s.symbols_added);
    crate::text::push_str(&mut buf, "/\u{2212}");
    push_decimal_usize(&mut buf, s.symbols_removed);
    crate::text::push_str(&mut buf, " \u{b7} modified-body ");
    push_decimal_usize(&mut buf, s.symbols_modified_body);
    crate::text::push_str(&mut buf, " \u{b7} comments ");
    push_decimal_usize(&mut buf, s.comments_emitted);
    crate::text::push_str(&mut buf, " (dropped ");
    push_decimal_usize(&mut buf, s.comments_dropped_to_budget);
    crate::text::push_str(&mut buf, ")\n\n");
    let ghost head = buf@;
    let cs = &result.comments;
    let mut i: usize = 0;
    while i < cs.len()
        invariant
            i <= cs@.len(),
            buf@ == head + comments_markdown(cs@.take(i as int)),
        decreases cs.len() - i,
    {
        let c = &cs[i];
        let ghost before = buf@;
        push_comment_markdown(&mut buf, c);
        assert(buf@ =~= before + comment_markdown(*c));
        assert(cs@.take(i + 1).drop_last() =~= cs@.take(i as int));
        assert(cs@.take(i + 1).last() == *c);
        i = i + 1;
    }
    assert(cs@.take(cs@.len() as int) =~= cs@);
    assert(buf@ =~= review_markdown(*result));
    buf
}

// ---------------------------------------------------------------------
// Budget and tally.

/// Number of comments of each source kind, in first-seen order.
pub type Tally = Seq<(Seq<char>, nat)>;

pub open spec fn tally_index(t: Tally, key: Seq<char>) -> int
    decreases t.len(),
{
    if t.len() == 0 {
        0
    } else if tally_index(t.drop_last(), key) < t.len() - 1 {
        tally_index(t.drop_last(), key)
    } else if t.last().0 == key {
        t.len() - 1
    } else {
        t.len() as int
    }
}

proof fn lemma_tally_index(t: Tally, key: Seq<char>)
    ensures
        0 <= tally_index(t, key) <= t.len(),
        tally_index(t, key) < t.len() ==> t[tally_index(t, key)].0 == key,
        forall|j: int| 0 <= j < tally_index(t, key) ==> t[j].0 != key,
    decreases t.len(),
{
    if t.len() > 0 {
        lemma_tally_index(t.drop_last(), key);
        assert forall|j: int| 0 <= j < t.len() - 1 implies t.drop_last()[j] == t[j] by {}
    }
}

pub open spec fn tally_of(kinds: Seq<Seq<char>>) -> Tally
    decreases kinds.len(),
{
    if kinds.len() == 0 {
        seq![]
    } else {
        let t = tally_of(kinds.drop_last());
        let i = tally_index(t, kinds.last());
        if i < t.len() {
            t.update(i, (kinds.last(), t[i].1 + 1))
        } else {
            t.push((kinds.last(), 1nat))
        }
    }
}

pub open spec fn tally_view(v: Seq<SourceKindCount>) -> Tally {
    v.map_values(|c: SourceKindCount| (c.source_kind@, c.count as nat))
}

proof fn lemma_tally_bounded(kinds: Seq<Seq<char>>)
    ensures
        forall|j: int| 0 <= j < tally_of(kinds).len() ==> tally_of(kinds)[j].1 <= kinds.len(),
    decreases kinds.len(),
{
    if kinds.len() > 0 {
        lemma_tally_bounded(kinds.drop_last());
        lemma_tally_index(tally_of(kinds.drop_last()), kinds.last());
    }
}

fn tally_source_kinds(cs: &Vec<ReviewComment>) -> (r: Vec<SourceKindCount>)
    ensures
        tally_view(r@) == tally_of(cs@.map_values(|c: ReviewComment| c.source_kind@)),
{
    let ghost kinds = cs@.map_values(|c: ReviewComment| c.source_kind@);
    let mut out: Vec<SourceKindCount> = Vec::new();
    let mut i: usize = 0;
    while i < cs.len()
        invariant
            i <= cs@.len(),
            kinds == cs@.map_values(|c: ReviewComment| c.source_kind@),
            tally_view(out@) == tally_of(kinds.take(i as int)),
        decreases cs.len() - i,
    {
        let ghost t = tally_view(out@);
        assert(kinds.take(i + 1).drop_last() =~= kinds.take(i as int));
        assert(kinds.take(i + 1).last() == cs@[i as int].source_kind@);
        proof {
            lemma_tally_index(t, cs@[i as int].source_kind@);
            lemma_tally_bounded(kinds.take(i as int));
        }
        let key = chars_of(cs[i].source_kind.as_str());
        let mut j: usize = 0;
        let mut found = false;
        while j < out.len() && !found
            invariant
                j <= out@.len(),
                t == tally_view(out@),
                key@ == cs@[i as int].source_kind@,
                forall|m: int| 0 <= m < j ==> t[m].0 != key@,
                found ==> j < out@.len() && t[j as int].0 == key@,
            decreases out.len() - j + (if found { 0int } else { 1int }),
        {
            let k = chars_of(out[j].source_kind.as_str());
            if crate::text::chars_eq(k.as_slice(), key.as_slice()) {
                found = true;
            } else {
                j = j + 1;
            }
        }
        if found {
            assert(tally_index(t, key@) == j as int) by {
                if tally_index(t, key@) < j {
                    assert(t[tally_index(t, key@)].0 == key@);
                }
            }
            assert(t[j as int].1 <= i);
            let entry = SourceKindCount { source_kind: crate::text::copy_string(&out[j].source_kind), count: out[j].count + 1 };
            out.set(j, entry);
        } else {
            out.push(SourceKindCount { source_kind: crate::text::copy_string(&cs[i].source_kind), count: 1 });
        }
        i = i + 1;
        assert(tally_view(out@) =~= tally_of(kinds.take(i as int)));
    }
    assert(kinds.take(cs@.len() as int) =~= kinds);
    out
}

/// Budget rank of each comment.
pub open spec fn rank_keys(cs: Seq<CommentV>) -> Seq<Seq<crate::order::PartV>> {
    Seq::new(cs.len(), |i: int| seq![crate::order::PartV::Num(tier_rank(cs[i].confidence_tier) as int)])
}

/// Comments kept under a budget of `max`: all of them when they fit;
/// otherwise the first `max` by tier rank, ties in their order.
pub open spec fn budgeted(cs: Seq<CommentV>, max: nat) -> Seq<CommentV> {
    if cs.len() <= max {
        cs
    } else {
        crate::order::sorted_positions(rank_keys(cs), |i: int| true).take(max as int).map_values(|p: int| cs[p])
    }
}

fn apply_budget(cs: Vec<ReviewComment>, max: usize) -> (r: (Vec<ReviewComment>, usize))
    ensures
        comment_views(r.0@) == budgeted(comment_views(cs@), max as nat),
        r.1 == (if cs@.len() > max { cs@.len() - max } else { 0 }),
        r.0@.len() == (if cs@.len() > max { max as int } else { cs@.len() as int }),
{
    let total = cs.len();
    let ghost cv = comment_views(cs@);
    if total <= max {
        return (cs, 0);
    }
    let mut hits: Vec<bool> = Vec::new();
    let mut keys: Vec<Vec<crate::order::KeyPart>> = Vec::new();
    let mut i: usize = 0;
    while i < cs.len()
        invariant
            i <= cs@.len(),
            hits@.len() == i,
            keys@.len() == i,
            forall|j: int| 0 <= j < i ==> #[trigger] hits@[j] == (|k: int| true)(j),
            forall|j: int| 0 <= j < i ==> crate::order::key_view(#[trigger] keys@[j]) == rank_keys(cv)[j],
            cv == comment_views(cs@),
        decreases cs.len() - i,
    {
        let rank = tier_priority(cs[i].confidence_tier.as_str());
        let mut k: Vec<crate::order::KeyPart> = Vec::new();
        k.push(crate::order::KeyPart::Num(rank as u128));
        assert(crate::order::key_view(k) =~= rank_keys(cv)[i as int]);
        hits.push(true);
        keys.push(k);
        i = i + 1;
    }
    let order = crate::order::select_sorted(&hits, &keys, Ghost(rank_keys(cv)), Ghost(|k: int| true));
    let ghost pv = crate::order::positions_view(order@);
    let mut out: Vec<ReviewComment> = Vec::new();
    let mut a: usize = 0;
    while a < max && a < order.len()
        invariant
            a <= max,
            a <= order@.len(),
            pv == crate::order::positions_view(order@),
            crate::order::sorted_selection(rank_keys(cv), |k: int| true, pv),
            pv == crate::order::sorted_positions(rank_keys(cv), |k: int| true),
            cv == comment_views(cs@),
            comment_views(out@) == pv.take(a as int).map_values(|p: int| cv[p]),
        decreases order.len() - a,
    {
        assert(pv[a as int] == order@[a as int] as int);
        assert(0 <= pv[a as int] < rank_keys(cv).len());
        let ghost before = out@;
        out.push(cs[order[a]].duplicate());
        assert(cv[pv[a as int]] == cs@[order@[a as int] as int]@);
        assert(comment_views(out@) =~= comment_views(before).push(cv[pv[a as int]]));
        assert(pv.take(a + 1) =~= pv.take(a as int).push(pv[a as int]));
        a = a + 1;
        assert(comment_views(out@) =~= pv.take(a as int).map_values(|p: int| cv[p]));
    }
    proof {
        assert forall|k: int| 0 <= k < cs@.len() implies pv.contains(k) by {
            assert((|k: int| true)(k));
        }
        lemma_positions_cover(pv, cs@.len() as int);
    }
    (out, total - max)
}

/// A list naming every position below `n`, each below `n` and in strict
/// order of distinct positions, has at least `n` entries.
proof fn lemma_positions_cover(pv: Seq<int>, n: int)
    requires
        0 <= n,
        forall|k: int| 0 <= k < n ==> pv.contains(k),
    ensures
        pv.len() >= n,
{
    let s = vstd::set_lib::set_int_range(0, n);
    vstd::set_lib::lemma_int_range(0, n);
    assert(s.subset_of(pv.to_set()));
    vstd::set_lib::lemma_len_subset(s, pv.to_set());
    pv.lemma_cardinality_of_set();
}


// ---------------------------------------------------------------------
// Review of one file.

pub open spec fn strs_view(v: Seq<String>) -> Seq<Seq<char>> {
    v.map_values(|s: String| s@)
}

/// The structural-rule comment of a finding.
pub open spec fn rule_comment(f: FindingRecord) -> PendingV {
    PendingV {
        comment: CommentV {
            file: f.path@,
            line: f.start_line,
            end_line: f.end_line,
            symbol_qualified_name: None,
            symbol_id: None,
            source_kind: "structural-rule"@,
            confidence_tier: "structural-rule"@,
            rule_id: Some(f.rule_id@),
            body: f.message@,
        },
        symbol_kind: None,
        anchor: None,
    }
}

pub open spec fn hunk_overlaps(r: DiffRange, start: int, end: int) -> bool {
    r.start <= end && r.end >= start
}

/// Rule comments of the findings in the file at `path`: all of them
/// without diff hunks, otherwise those whose lines overlap a hunk (finding
/// lines count from 0, hunk lines from 1). Findings in other files, such as
/// one whose path only starts with `path`, get none.
pub open spec fn rule_comments(fs: Seq<FindingRecord>, hunks: Seq<DiffRange>, path: Seq<char>) -> Seq<PendingV>
    decreases fs.len(),
{
    if fs.len() == 0 {
        seq![]
    } else {
        let f = fs.last();
        let rest = rule_comments(fs.drop_last(), hunks, path);
        if f.path@ == path && (hunks.len() == 0 || overlapping(hunks, f.start_line + 1, f.end_line + 1).len() > 0) {
            rest.push(rule_comment(f))
        } else {
            rest
        }
    }
}

/// Label of an outbound call: the callee's qualified name, or the
/// unresolved name in brackets.
pub open spec fn callee_label(n: NeighborEdge) -> Seq<char> {
    match n.dst {
        Some(d) => d.qualified_name@,
        None => match n.dst_unresolved {
            Some(u) => "["@ + u@ + "]"@,
            None => seq![],
        },
    }
}

/// Non-empty labels of the edges, in order.
pub open spec fn callee_labels(ns: Seq<NeighborEdge>) -> Seq<Seq<char>>
    decreases ns.len(),
{
    if ns.len() == 0 {
        seq![]
    } else {
        let rest = callee_labels(ns.drop_last());
        if callee_label(ns.last()).len() > 0 { rest.push(callee_label(ns.last())) } else { rest }
    }
}

pub open spec fn text_keys(names: Seq<Seq<char>>) -> Seq<Seq<PartV>> {
    Seq::new(names.len(), |i: int| seq![PartV::Text(names[i])])
}

/// Names sorted by code point, ties in order.
pub open spec fn sorted_texts(names: Seq<Seq<char>>) -> Seq<Seq<char>> {
    crate::order::sorted_positions(text_keys(names), |i: int| true).map_values(|p: int| names[p])
}

/// Drops each element equal to the one before it.
pub open spec fn dedup_adjacent(xs: Seq<Seq<char>>) -> Seq<Seq<char>>
    decreases xs.len(),
{
    if xs.len() == 0 {
        seq![]
    } else {
        let rest = dedup_adjacent(xs.drop_last());
        if rest.len() > 0 && rest.last() == xs.last() { rest } else { rest.push(xs.last()) }
    }
}

/// Sorted, distinct labels of the outbound calls of symbol `id`.
pub open spec fn callee_names(t: IndexTables, id: Seq<char>) -> Seq<Seq<char>> {
    dedup_adjacent(sorted_texts(callee_labels(neighbors_spec(t, id, seq![EdgeKind::Calls], true, false))))
}

/// The names of `xs` that `ys` lacks, in order.
pub open spec fn names_not_in(xs: Seq<Seq<char>>, ys: Seq<Seq<char>>) -> Seq<Seq<char>>
    decreases xs.len(),
{
    if xs.len() == 0 {
        seq![]
    } else {
        let rest = names_not_in(xs.drop_last(), ys);
        if ys.contains(xs.last()) { rest } else { rest.push(xs.last()) }
    }
}

pub open spec fn has_id(rs: Seq<SymbolRecord>, id: Seq<char>) -> bool {
    exists|k: int| 0 <= k < rs.len() && #[trigger] rs[k].id.0@ == id
}

/// The last record with this id.
pub open spec fn last_with_id(rs: Seq<SymbolRecord>, id: Seq<char>) -> SymbolRecord
    decreases rs.len(),
{
    if rs.len() == 0 {
        rs[0]
    } else if rs.last().id.0@ == id {
        rs.last()
    } else {
        last_with_id(rs.drop_last(), id)
    }
}

/// Number of records of `xs` whose id `ys` lacks.
pub open spec fn count_missing(xs: Seq<SymbolRecord>, ys: Seq<SymbolRecord>) -> nat
    decreases xs.len(),
{
    if xs.len() == 0 {
        0
    } else {
        count_missing(xs.drop_last(), ys) + if has_id(ys, xs.last().id.0@) { 0nat } else { 1nat }
    }
}

/// Byte length of an anchor (zero when reversed).
pub open spec fn span(a: crate::model::Anchor) -> nat {
    if a.end_byte >= a.start_byte { (a.end_byte - a.start_byte) as nat } else { 0 }
}

/// The hunks that overlap lines `start..=end`, in order.
pub open spec fn overlapping(hunks: Seq<DiffRange>, start: int, end: int) -> Seq<DiffRange>
    decreases hunks.len(),
{
    if hunks.len() == 0 {
        seq![]
    } else {
        let rest = overlapping(hunks.drop_last(), start, end);
        if hunk_overlaps(hunks.last(), start, end) { rest.push(hunks.last()) } else { rest }
    }
}

/// Lines covered by the ranges, counted with repeats.
pub open spec fn span_total(rs: Seq<DiffRange>) -> nat
    decreases rs.len(),
{
    if rs.len() == 0 {
        0
    } else {
        span_total(rs.drop_last()) + (if rs.last().end >= rs.last().start { (rs.last().end - rs.last().start) as nat } else { 0nat }) + 1
    }
}

/// `a-b` for each range, joined by `, `.
pub open spec fn ranges_text(rs: Seq<DiffRange>) -> Seq<char>
    decreases rs.len(),
{
    if rs.len() == 0 {
        seq![]
    } else if rs.len() == 1 {
        crate::text::decimal(rs[0].start as nat) + "-"@ + crate::text::decimal(rs[0].end as nat)
    } else {
        ranges_text(rs.drop_last()) + ", "@ + crate::text::decimal(rs.last().start as nat) + "-"@ + crate::text::decimal(rs.last().end as nat)
    }
}

pub open spec fn logic_text(q: Seq<char>, base_span: nat, head_span: nat) -> Seq<char> {
    "`"@ + q + "` body length changed ("@ + crate::text::decimal(base_span) + " \u{2192} "@ + crate::text::decimal(head_span)
        + " bytes) with the outbound call set intact. Pure-logic / control-flow change \u{2014} manual review recommended."@
}

pub open spec fn touched_text(q: Seq<char>, rs: Seq<DiffRange>) -> Seq<char> {
    "`"@ + q + "` was touched by the PR diff (lines "@ + ranges_text(rs)
        + ") without changing its outbound call set or byte-span. Single-line guard / assertion / inline tweak \u{2014} verify the change reads correctly in context."@
}

/// A symbol comment of the given source kind, tier and body.
pub open spec fn symbol_pending(sym: SymbolRecord, source_kind: Seq<char>, tier: Seq<char>, body: Seq<char>) -> PendingV {
    PendingV {
        comment: CommentV {
            file: sym.path@,
            line: sym.anchor.start_line,
            end_line: sym.anchor.end_line,
            symbol_qualified_name: Some(sym.qualified_name@),
            symbol_id: Some(sym.id.0@),
            source_kind: source_kind,
            confidence_tier: tier,
            rule_id: None,
            body: body,
        },
        symbol_kind: Some(sym.kind),
        anchor: Some((sym.anchor.start_byte, sym.anchor.end_byte)),
    }
}

/// Every label names a resolved callee.
pub open spec fn all_resolved(names: Seq<Seq<char>>) -> bool {
    forall|k: int| 0 <= k < names.len() ==> !starts_with(#[trigger] names[k], "["@)
}

/// The comment on a symbol present in both indexes: a changed outbound
/// call set; else, for callables, a changed byte span; else, for
/// callables under diff hunks, the touching hunks (skipped for test
/// trivia when asked).
pub open spec fn symbol_comment(base: IndexTables, head: IndexTables, base_syms: Seq<SymbolRecord>, sym: SymbolRecord, hunks: Seq<DiffRange>, ignore_test_trivia: bool) -> Option<PendingV> {
    let id = sym.id.0@;
    let hc = callee_names(head, id);
    let bc = callee_names(base, id);
    let added = names_not_in(hc, bc);
    let removed = names_not_in(bc, hc);
    let q = sym.qualified_name@;
    if added.len() > 0 || removed.len() > 0 {
        Some(symbol_pending(sym, "modified-body"@, if all_resolved(hc) { "extracted"@ } else { "inferred"@ }, modified_body_text(q, added, removed)))
    } else {
        let hs = span(sym.anchor);
        let bs = span(last_with_id(base_syms, id).anchor);
        if hs != bs && callable_kind(sym.kind) {
            Some(symbol_pending(sym, "modified-body-logic"@, "inferred"@, logic_text(q, bs, hs)))
        } else if hunks.len() > 0 && callable_kind(sym.kind) {
            let ov = overlapping(hunks, sym.anchor.start_line + 1, sym.anchor.end_line + 1);
            if ov.len() == 0 {
                None
            } else if ignore_test_trivia && test_symbol_rule(sym.path@, Some(q)) && span_total(ov) <= 2 {
                None
            } else {
                Some(symbol_pending(sym, "modified-body-touched"@, "inferred"@, touched_text(q, ov)))
            }
        } else {
            None
        }
    }
}

/// Comments on the head symbols that the base also has, in head order.
pub open spec fn symbol_comments(base: IndexTables, head: IndexTables, base_syms: Seq<SymbolRecord>, head_syms: Seq<SymbolRecord>, hunks: Seq<DiffRange>, ignore_test_trivia: bool) -> Seq<PendingV>
    decreases head_syms.len(),
{
    if head_syms.len() == 0 {
        seq![]
    } else {
        let rest = symbol_comments(base, head, base_syms, head_syms.drop_last(), hunks, ignore_test_trivia);
        let s = head_syms.last();
        if has_id(base_syms, s.id.0@) {
            match symbol_comment(base, head, base_syms, s, hunks, ignore_test_trivia) {
                Some(c) => rest.push(c),
                None => rest,
            }
        } else {
            rest
        }
    }
}

/// Everything one changed file contributes: its comments, and how many
/// symbols it adds, removes and modifies.
pub open spec fn file_review(base: IndexTables, head: IndexTables, path: Seq<char>, hunks: Seq<DiffRange>, ignore_test_trivia: bool) -> (Seq<PendingV>, nat, nat, nat) {
    let base_syms = file_symbols(base, path);
    let head_syms = file_symbols(head, path);
    let sc = symbol_comments(base, head, base_syms, head_syms, hunks, ignore_test_trivia);
    (
        rule_comments(findings_under(head, path), hunks, path) + sc,
        count_missing(head_syms, base_syms),
        count_missing(base_syms, head_syms),
        sc.len(),
    )
}


fn label_of(n: &NeighborEdge) -> (r: String)
    ensures
        r@ == callee_label(*n),
{
    match &n.dst {
        Some(d) => crate::text::copy_string(&d.qualified_name),
        None => match &n.dst_unresolved {
            Some(u) => {
                let mut s = String::new();
                crate::text::push_str(&mut s, "[");
                crate::text::push_str(&mut s, u.as_str());
                crate::text::push_str(&mut s, "]");
                s
            },
            None => String::new(),
        },
    }
}

/// Strings sorted by code point, ties in order.
fn sort_texts(names: &Vec<String>) -> (r: Vec<String>)
    ensures
        strs_view(r@) == sorted_texts(strs_view(names@)),
{
    let ghost nv = strs_view(names@);
    let mut hits: Vec<bool> = Vec::new();
    let mut keys: Vec<Vec<crate::order::KeyPart>> = Vec::new();
    let mut i: usize = 0;
    while i < names.len()
        invariant
            i <= names@.len(),
            nv == strs_view(names@),
            hits@.len() == i,
            keys@.len() == i,
            forall|j: int| 0 <= j < i ==> #[trigger] hits@[j] == (|k: int| true)(j),
            forall|j: int| 0 <= j < i ==> crate::order::key_view(#[trigger] keys@[j]) == text_keys(nv)[j],
        decreases names.len() - i,
    {
        let mut k: Vec<crate::order::KeyPart> = Vec::new();
        k.push(crate::order::KeyPart::Text(chars_of(names[i].as_str())));
        assert(crate::order::key_view(k) =~= text_keys(nv)[i as int]);
        hits.push(true);
        keys.push(k);
        i = i + 1;
    }
    let order = crate::order::select_sorted(&hits, &keys, Ghost(text_keys(nv)), Ghost(|k: int| true));
    let ghost pv = crate::order::positions_view(order@);
    let mut out: Vec<String> = Vec::new();
    let mut a: usize = 0;
    while a < order.len()
        invariant
            a <= order@.len(),
            nv == strs_view(names@),
            pv == crate::order::positions_view(order@),
            crate::order::sorted_selection(text_keys(nv), |k: int| true, pv),
            pv == crate::order::sorted_positions(text_keys(nv), |k: int| true),
            strs_view(out@) == pv.take(a as int).map_values(|p: int| nv[p]),
        decreases order.len() - a,
    {
        assert(pv[a as int] == order@[a as int] as int);
        assert(0 <= pv[a as int] < text_keys(nv).len());
        let ghost before = out@;
        out.push(crate::text::copy_string(&names[order[a]]));
        assert(strs_view(out@) =~= strs_view(before).push(nv[pv[a as int]]));
        assert(pv.take(a + 1) =~= pv.take(a as int).push(pv[a as int]));
        a = a + 1;
    }
    assert(pv.take(order@.len() as int) =~= pv);
    out
}

/// Sorted, distinct labels of a symbol's outbound calls.
fn collect_outbound_callee_names(reader: &IndexReader, id: &crate::model::SymbolId) -> (r: Vec<String>)
    ensures
        strs_view(r@) == callee_names(reader.tables, id.0@),
{
    let kinds: Vec<EdgeKind> = vec![EdgeKind::Calls];
    assert(kinds@ =~= seq![EdgeKind::Calls]);
    let edges = reader.neighbors(id, &kinds, crate::query::Direction::Out);
    assert(crate::query::effective_kinds(kinds@) == seq![EdgeKind::Calls]);
    let mut labels: Vec<String> = Vec::new();
    let mut i: usize = 0;
    while i < edges.len()
        invariant
            i <= edges@.len(),
            strs_view(labels@) == callee_labels(edges@.take(i as int)),
        decreases edges.len() - i,
    {
        let l = label_of(&edges[i]);
        assert(edges@.take(i + 1).drop_last() =~= edges@.take(i as int));
        assert(edges@.take(i + 1).last() == edges@[i as int]);
        if chars_of(l.as_str()).len() > 0 {
            let ghost before = labels@;
            labels.push(l);
            assert(strs_view(labels@) =~= strs_view(before).push(callee_label(edges@[i as int])));
        }
        i = i + 1;
    }
    assert(edges@.take(edges@.len() as int) =~= edges@);
    let sorted = sort_texts(&labels);
    let ghost sv = strs_view(sorted@);
    let mut out: Vec<String> = Vec::new();
    let mut k: usize = 0;
    while k < sorted.len()
        invariant
            k <= sorted@.len(),
            sv == strs_view(sorted@),
            strs_view(out@) == dedup_adjacent(sv.take(k as int)),
            out@.len() > 0 ==> k > 0 && out@.last()@ == sv[k - 1],
        decreases sorted.len() - k,
    {
        assert(sv.take(k + 1).drop_last() =~= sv.take(k as int));
        assert(sv.take(k + 1).last() == sv[k as int]);
        let same = out.len() > 0 && {
            let a = chars_of(out[out.len() - 1].as_str());
            let b = chars_of(sorted[k].as_str());
            crate::text::chars_eq(a.as_slice(), b.as_slice())
        };
        proof {
            let d = dedup_adjacent(sv.take(k as int));
            if out@.len() > 0 {
                assert(d.last() == out@.last()@);
            }
        }
        if !same {
            let ghost before = out@;
            out.push(crate::text::copy_string(&sorted[k]));
            assert(strs_view(out@) =~= strs_view(before).push(sv[k as int]));
        }
        k = k + 1;
    }
    assert(sv.take(sorted@.len() as int) =~= sv);
    out
}

fn strs_contain(ys: &Vec<String>, x: &String) -> (r: bool)
    ensures
        r == strs_view(ys@).contains(x@),
{
    let xc = chars_of(x.as_str());
    let mut j: usize = 0;
    while j < ys.len()
        invariant
            j <= ys@.len(),
            xc@ == x@,
            forall|m: int| 0 <= m < j ==> ys@[m]@ != x@,
        decreases ys.len() - j,
    {
        let yc = chars_of(ys[j].as_str());
        if crate::text::chars_eq(yc.as_slice(), xc.as_slice()) {
            assert(strs_view(ys@)[j as int] == x@);
            return true;
        }
        j = j + 1;
    }
    false
}

fn names_not_in_exec(xs: &Vec<String>, ys: &Vec<String>) -> (r: Vec<String>)
    ensures
        strs_view(r@) == names_not_in(strs_view(xs@), strs_view(ys@)),
{
    let ghost xv = strs_view(xs@);
    let mut out: Vec<String> = Vec::new();
    let mut i: usize = 0;
    while i < xs.len()
        invariant
            i <= xs@.len(),
            xv == strs_view(xs@),
            strs_view(out@) == names_not_in(xv.take(i as int), strs_view(ys@)),
        decreases xs.len() - i,
    {
        assert(xv.take(i + 1).drop_last() =~= xv.take(i as int));
        assert(xv.take(i + 1).last() == xs@[i as int]@);
        if !strs_contain(ys, &xs[i]) {
            let ghost before = out@;
            out.push(crate::text::copy_string(&xs[i]));
            assert(strs_view(out@) =~= strs_view(before).push(xs@[i as int]@));
        }
        i = i + 1;
    }
    assert(xv.take(xs@.len() as int) =~= xv);
    out
}

fn all_resolved_exec(names: &Vec<String>) -> (r: bool)
    ensures
        r == all_resolved(strs_view(names@)),
{
    let open = chars_of("[");
    let mut i: usize = 0;
    while i < names.len()
        invariant
            i <= names@.len(),
            open@ == "["@,
            forall|k: int| 0 <= k < i ==> !starts_with(#[trigger] strs_view(names@)[k], "["@),
        decreases names.len() - i,
    {
        let c = chars_of(names[i].as_str());
        if starts_with_exec(c.as_slice(), open.as_slice()) {
            assert(starts_with(strs_view(names@)[i as int], "["@));
            return false;
        }
        i = i + 1;
    }
    true
}

fn ids_contain(rs: &Vec<SymbolRecord>, id: &Vec<char>) -> (r: bool)
    ensures
        r == has_id(rs@, id@),
{
    let mut j: usize = 0;
    while j < rs.len()
        invariant
            j <= rs@.len(),
            forall|m: int| 0 <= m < j ==> rs@[m].id.0@ != id@,
        decreases rs.len() - j,
    {
        let c = chars_of(rs[j].id.0.as_str());
        if crate::text::chars_eq(c.as_slice(), id.as_slice()) {
            return true;
        }
        j = j + 1;
    }
    false
}

/// Index of the last record with this id.
fn last_with_id_exec(rs: &Vec<SymbolRecord>, id: &Vec<char>) -> (r: usize)
    requires
        has_id(rs@, id@),
    ensures
        r < rs@.len(),
        rs@[r as int] == last_with_id(rs@, id@),
{
    let mut j: usize = rs.len();
    assert(rs@.take(rs@.len() as int) =~= rs@);
    while j > 0
        invariant
            j <= rs@.len(),
            has_id(rs@.take(j as int), id@),
            last_with_id(rs@.take(j as int), id@) == last_with_id(rs@, id@),
        decreases j,
    {
        let c = chars_of(rs[j - 1].id.0.as_str());
        assert(rs@.take(j as int).last() == rs@[j - 1]);
        if crate::text::chars_eq(c.as_slice(), id.as_slice()) {
            return j - 1;
        }
        assert(rs@.take(j as int).drop_last() =~= rs@.take(j - 1));
        proof {
            let k = choose|k: int| 0 <= k < j && #[trigger] rs@.take(j as int)[k].id.0@ == id@;
            assert(k < j - 1);
            assert(rs@.take(j - 1)[k].id.0@ == id@);
        }
        j = j - 1;
    }
    assert(rs@.take(0) =~= seq![]);
    0
}

fn overlapping_exec(hunks: &Vec<DiffRange>, start_line: u32, end_line: u32) -> (r: Vec<DiffRange>)
    ensures
        r@ == overlapping(hunks@, start_line + 1, end_line + 1),
{
    let s: u64 = start_line as u64 + 1;
    let e: u64 = end_line as u64 + 1;
    let mut out: Vec<DiffRange> = Vec::new();
    let mut i: usize = 0;
    while i < hunks.len()
        invariant
            i <= hunks@.len(),
            s == start_line + 1,
            e == end_line + 1,
            out@ == overlapping(hunks@.take(i as int), start_line + 1, end_line + 1),
        decreases hunks.len() - i,
    {
        assert(hunks@.take(i + 1).drop_last() =~= hunks@.take(i as int));
        assert(hunks@.take(i + 1).last() == hunks@[i as int]);
        let r = hunks[i];
        if (r.start as u64) <= e && (r.end as u64) >= s {
            out.push(r);
        }
        i = i + 1;
    }
    assert(hunks@.take(hunks@.len() as int) =~= hunks@);
    out
}

/// Whether the ranges cover at most two lines, counted with repeats.
fn span_total_at_most_two(rs: &Vec<DiffRange>) -> (r: bool)
    ensures
        r == (span_total(rs@) <= 2),
{
    let mut total: u64 = 0;
    let mut i: usize = 0;
    while i < rs.len()
        invariant
            i <= rs@.len(),
            total <= 2,
            total == span_total(rs@.take(i as int)),
        decreases rs.len() - i,
    {
        assert(rs@.take(i + 1).drop_last() =~= rs@.take(i as int));
        assert(rs@.take(i + 1).last() == rs@[i as int]);
        let r = rs[i];
        let w: u64 = if r.end >= r.start { (r.end - r.start) as u64 } else { 0 };
        if total + w + 1 > 2 {
            proof {
                lemma_span_total_monotone(rs@, i + 1);
            }
            return false;
        }
        total = total + w + 1;
        i = i + 1;
    }
    assert(rs@.take(rs@.len() as int) =~= rs@);
    true
}

proof fn lemma_span_total_monotone(rs: Seq<DiffRange>, k: int)
    requires
        0 <= k <= rs.len(),
    ensures
        span_total(rs.take(k)) <= span_total(rs),
    decreases rs.len() - k,
{
    if k < rs.len() {
        lemma_span_total_monotone(rs, k + 1);
        assert(rs.take(k + 1).drop_last() =~= rs.take(k));
    } else {
        assert(rs.take(k) =~= rs);
    }
}

fn ranges_text_exec(rs: &Vec<DiffRange>) -> (r: String)
    ensures
        r@ == ranges_text(rs@),
{
    let mut buf = String::new();
    let mut i: usize = 0;
    while i < rs.len()
        invariant
            i <= rs@.len(),
            buf@ == ranges_text(rs@.take(i as int)),
        decreases rs.len() - i,
    {
        assert(rs@.take(i + 1).drop_last() =~= rs@.take(i as int));
        assert(rs@.take(i + 1).last() == rs@[i as int]);
        if i > 0 {
            crate::text::push_str(&mut buf, ", ");
        }
        crate::text::push_decimal(&mut buf, rs[i].start as u64);
        crate::text::push_str(&mut buf, "-");
        crate::text::push_decimal(&mut buf, rs[i].end as u64);
        proof {
            if i == 0 {
                assert(rs@.take(1)[0] == rs@[0]);
            }
        }
        i = i + 1;
    }
    assert(rs@.take(rs@.len() as int) =~= rs@);
    buf
}

fn logic_text_exec(q: &str, base_span: u64, head_span: u64) -> (r: String)
    ensures
        r@ == logic_text(q@, base_span as nat, head_span as nat),
{
    let mut s = String::new();
    crate::text::push_str(&mut s, "`");
    crate::text::push_str(&mut s, q);
    crate::text::push_str(&mut s, "` body length changed (");
    crate::text::push_decimal(&mut s, base_span);
    crate::text::push_str(&mut s, " \u{2192} ");
    crate::text::push_decimal(&mut s, head_span);
    crate::text::push_str(&mut s, " bytes) with the outbound call set intact. Pure-logic / control-flow change \u{2014} manual review recommended.");
    assert(s@ =~= logic_text(q@, base_span as nat, head_span as nat));
    s
}

fn touched_text_exec(q: &str, rs: &Vec<DiffRange>) -> (r: String)
    ensures
        r@ == touched_text(q@, rs@),
{
    let mut s = String::new();
    crate::text::push_str(&mut s, "`");
    crate::text::push_str(&mut s, q);
    crate::text::push_str(&mut s, "` was touched by the PR diff (lines ");
    let rt = ranges_text_exec(rs);
    crate::text::push_str(&mut s, rt.as_str());
    crate::text::push_str(&mut s, ") without changing its outbound call set or byte-span. Single-line guard / assertion / inline tweak \u{2014} verify the change reads correctly in context.");
    assert(s@ =~= touched_text(q@, rs@));
    s
}


fn make_pending(sym: &SymbolRecord, source_kind: &str, tier: &str, body: String) -> (r: PendingComment)
    ensures
        r@ == symbol_pending(*sym, source_kind@, tier@, body@),
{
    PendingComment {
        comment: ReviewComment {
            file: crate::text::copy_string(&sym.path),
            line: sym.anchor.start_line,
            end_line: sym.anchor.end_line,
            symbol_qualified_name: Some(crate::text::copy_string(&sym.qualified_name)),
            symbol_id: Some(crate::text::copy_string(&sym.id.0)),
            source_kind: String::from_str(source_kind),
            confidence_tier: String::from_str(tier),
            rule_id: None,
            body: body,
        },
        symbol_kind: Some(sym.kind),
        anchor: Some((sym.anchor.start_byte, sym.anchor.end_byte)),
    }
}

fn symbol_comment_exec(base: &IndexReader, head: &IndexReader, base_syms: &Vec<SymbolRecord>, sym: &SymbolRecord, hunks: &Vec<DiffRange>, ignore_test_trivia: bool) -> (r: Option<PendingComment>)
    requires
        has_id(base_syms@, sym.id.0@),
    ensures
        match r {
            Some(c) => symbol_comment(base.tables, head.tables, base_syms@, *sym, hunks@, ignore_test_trivia) == Some(c@),
            None => symbol_comment(base.tables, head.tables, base_syms@, *sym, hunks@, ignore_test_trivia).is_none(),
        },
{
    let hc = collect_outbound_callee_names(head, &sym.id);
    let bc = collect_outbound_callee_names(base, &sym.id);
    let added = names_not_in_exec(&hc, &bc);
    let removed = names_not_in_exec(&bc, &hc);
    if added.len() > 0 || removed.len() > 0 {
        let body = render_modified_body_comment(sym.qualified_name.as_str(), &added, &removed);
        let tier = if all_resolved_exec(&hc) { "extracted" } else { "inferred" };
        return Some(make_pending(sym, "modified-body", tier, body));
    }
    let idc = chars_of(sym.id.0.as_str());
    let bi = last_with_id_exec(base_syms, &idc);
    let b = &base_syms[bi];
    let hs: u64 = if sym.anchor.end_byte >= sym.anchor.start_byte { sym.anchor.end_byte - sym.anchor.start_byte } else { 0 };
    let bs: u64 = if b.anchor.end_byte >= b.anchor.start_byte { b.anchor.end_byte - b.anchor.start_byte } else { 0 };
    let callable = is_callable_kind(sym.kind);
    if hs != bs && callable {
        let body = logic_text_exec(sym.qualified_name.as_str(), bs, hs);
        return Some(make_pending(sym, "modified-body-logic", "inferred", body));
    }
    if hunks.len() > 0 && callable {
        let ov = overlapping_exec(hunks, sym.anchor.start_line, sym.anchor.end_line);
        if ov.len() == 0 {
            return None;
        }
        if ignore_test_trivia && is_test_symbol(sym.path.as_str(), Some(sym.qualified_name.as_str()))
            && span_total_at_most_two(&ov)
        {
            return None;
        }
        let body = touched_text_exec(sym.qualified_name.as_str(), &ov);
        return Some(make_pending(sym, "modified-body-touched", "inferred", body));
    }
    None
}

proof fn lemma_count_missing_bound(xs: Seq<SymbolRecord>, ys: Seq<SymbolRecord>)
    ensures
        count_missing(xs, ys) <= xs.len(),
    decreases xs.len(),
{
    if xs.len() > 0 {
        lemma_count_missing_bound(xs.drop_last(), ys);
    }
}

proof fn lemma_symbol_comments_bound(base: IndexTables, head: IndexTables, bs: Seq<SymbolRecord>, hs: Seq<SymbolRecord>, hunks: Seq<DiffRange>, t: bool)
    ensures
        symbol_comments(base, head, bs, hs, hunks, t).len() <= hs.len(),
    decreases hs.len(),
{
    if hs.len() > 0 {
        lemma_symbol_comments_bound(base, head, bs, hs.drop_last(), hunks, t);
    }
}

/// Reviews one changed file: appends its comments and returns how many
/// symbols it adds, removes and modifies.
fn review_file(base: &IndexReader, head: &IndexReader, path: &str, hunks: &Vec<DiffRange>, ignore_test_trivia: bool, out: &mut Vec<PendingComment>) -> (r: (usize, usize, usize))
    ensures
        pending_views(final(out)@) == pending_views(old(out)@) + file_review(base.tables, head.tables, path@, hunks@, ignore_test_trivia).0,
        r.0 == file_review(base.tables, head.tables, path@, hunks@, ignore_test_trivia).1,
        r.1 == file_review(base.tables, head.tables, path@, hunks@, ignore_test_trivia).2,
        r.2 == file_review(base.tables, head.tables, path@, hunks@, ignore_test_trivia).3,
        r.0 <= head.tables.symbols@.len(),
        r.1 <= base.tables.symbols@.len(),
        r.2 <= head.tables.symbols@.len(),
{
    let ghost t = head.tables;
    let ghost p0 = pending_views(out@);
    let filter = crate::query::FindingFilter {
        rule_id: None,
        path_prefix: Some(String::from_str(path)),
        symbol_id: None,
    };
    let fs = head.findings(&filter);
    proof {
        assert((|i: int| crate::query::finding_passes(t, filter, i)) =~= (|i: int| crate::query::finding_under(t, path@, i)));
        assert(fs@ == findings_under(t, path@));
    }
    let overlap_required = hunks.len() > 0;
    let mut i: usize = 0;
    while i < fs.len()
        invariant
            i <= fs@.len(),
            fs@ == findings_under(head.tables, path@),
            overlap_required == (hunks@.len() > 0),
            pending_views(out@) == p0 + rule_comments(fs@.take(i as int), hunks@, path@),
        decreases fs.len() - i,
    {
        let f = &fs[i];
        assert(fs@.take(i + 1).drop_last() =~= fs@.take(i as int));
        assert(fs@.take(i + 1).last() == *f);
        if crate::text::str_eq(f.path.as_str(), path) && (!overlap_required || overlapping_exec(hunks, f.start_line, f.end_line).len() > 0) {
            let c = PendingComment {
                comment: ReviewComment {
                    file: crate::text::copy_string(&f.path),
                    line: f.start_line,
                    end_line: f.end_line,
                    symbol_qualified_name: None,
                    symbol_id: None,
                    source_kind: String::from_str("structural-rule"),
                    confidence_tier: String::from_str("structural-rule"),
                    rule_id: Some(crate::text::copy_string(&f.rule_id)),
                    body: crate::text::copy_string(&f.message),
                },
                symbol_kind: None,
                anchor: None,
            };
            assert(c@ == rule_comment(*f));
            let ghost before = out@;
            out.push(c);
            assert(pending_views(out@) =~= pending_views(before).push(rule_comment(*f)));
        }
        i = i + 1;
    }
    assert(fs@.take(fs@.len() as int) =~= fs@);
    let ghost p1 = pending_views(out@);
    let base_syms = base.symbols_in_file(path);
    let head_syms = head.symbols_in_file(path);
    // Added and removed symbols.
    let mut added: usize = 0;
    let mut k: usize = 0;
    while k < head_syms.len()
        invariant
            k <= head_syms@.len(),
            added == count_missing(head_syms@.take(k as int), base_syms@),
            added <= k,
        decreases head_syms.len() - k,
    {
        assert(head_syms@.take(k + 1).drop_last() =~= head_syms@.take(k as int));
        assert(head_syms@.take(k + 1).last() == head_syms@[k as int]);
        let idc = chars_of(head_syms[k].id.0.as_str());
        if !ids_contain(&base_syms, &idc) {
            added = added + 1;
        }
        k = k + 1;
    }
    assert(head_syms@.take(head_syms@.len() as int) =~= head_syms@);
    let mut removed: usize = 0;
    let mut k: usize = 0;
    while k < base_syms.len()
        invariant
            k <= base_syms@.len(),
            removed == count_missing(base_syms@.take(k as int), head_syms@),
            removed <= k,
        decreases base_syms.len() - k,
    {
        assert(base_syms@.take(k + 1).drop_last() =~= base_syms@.take(k as int));
        assert(base_syms@.take(k + 1).last() == base_syms@[k as int]);
        let idc = chars_of(base_syms[k].id.0.as_str());
        if !ids_contain(&head_syms, &idc) {
            removed = removed + 1;
        }
        k = k + 1;
    }
    assert(base_syms@.take(base_syms@.len() as int) =~= base_syms@);
    // Symbols present on both sides.
    let mut modified: usize = 0;
    let mut k: usize = 0;
    while k < head_syms.len()
        invariant
            k <= head_syms@.len(),
            pending_views(out@) == p1 + symbol_comments(base.tables, head.tables, base_syms@, head_syms@.take(k as int), hunks@, ignore_test_trivia),
            modified == symbol_comments(base.tables, head.tables, base_syms@, head_syms@.take(k as int), hunks@, ignore_test_trivia).len(),
            modified <= k,
        decreases head_syms.len() - k,
    {
        assert(head_syms@.take(k + 1).drop_last() =~= head_syms@.take(k as int));
        assert(head_syms@.take(k + 1).last() == head_syms@[k as int]);
        proof {
            lemma_symbol_comments_bound(base.tables, head.tables, base_syms@, head_syms@.take(k as int), hunks@, ignore_test_trivia);
        }
        let sym = &head_syms[k];
        let idc = chars_of(sym.id.0.as_str());
        if ids_contain(&base_syms, &idc) {
            match symbol_comment_exec(base, head, &base_syms, sym, hunks, ignore_test_trivia) {
                Some(c) => {
                    let ghost cv = c@;
                    let ghost before = out@;
                    out.push(c);
                    assert(pending_views(out@) =~= pending_views(before).push(cv));
                    modified = modified + 1;
                },
                None => {},
            }
        }
        k = k + 1;
    }
    assert(head_syms@.take(head_syms@.len() as int) =~= head_syms@);
    proof {
        assert(pending_views(out@) =~= p0 + (rule_comments(fs@, hunks@, path@) + symbol_comments(base.tables, head.tables, base_syms@, head_syms@, hunks@, ignore_test_trivia)));
    }
    (added, removed, modified)
}


// ---------------------------------------------------------------------
// Whole review.

/// What to review: the changed files, the comment budget, optional diff
/// hunks, and whether to skip test trivia. The two index locations are
/// carried for the caller that opens them.
#[derive(Debug, Clone, PartialEq, Eq)]
pub struct PrReviewRequest {
    pub base_db: String,
    pub head_db: String,
    pub changed_files: Vec<String>,
    pub max_comments: usize,
    pub diff_hunks: Option<DiffHunks>,
    pub ignore_test_trivia: bool,
}

impl DiffHunks {
    /// The ranges recorded for `path` (none when it has no entry).
    pub fn ranges_for(&self, path: &str) -> (r: Vec<DiffRange>)
        ensures
            r@ == ranges_of(self.view_map(), path@),
    {
        let key = chars_of(path);
        let i = key_index_exec(&self.files, &key);
        proof {
            lemma_key_index(self.view_map(), path@);
        }
        if i < self.files.len() {
            let rs = self.files[i].ranges.clone();
            assert(rs@ == self.files@[i as int].ranges@);
            rs
        } else {
            Vec::new()
        }
    }
}

/// Diff hunks given for `path`.
pub open spec fn hunks_for(hunks: Option<DiffHunks>, path: Seq<char>) -> Seq<DiffRange> {
    match hunks {
        Some(h) => ranges_of(h.view_map(), path),
        None => seq![],
    }
}

/// Comments and counts of the first `n` changed files.
pub open spec fn review_scan(base: IndexTables, head: IndexTables, files: Seq<String>, hunks: Option<DiffHunks>, trivia: bool, n: int) -> (Seq<PendingV>, nat, nat, nat)
    decreases n,
{
    if n <= 0 {
        (seq![], 0, 0, 0)
    } else {
        let prev = review_scan(base, head, files, hunks, trivia, n - 1);
        let path = files[n - 1]@;
        let f = file_review(base, head, path, hunks_for(hunks, path), trivia);
        (prev.0 + f.0, prev.1 + f.1, prev.2 + f.2, prev.3 + f.3)
    }
}

/// The comments that survive both restate passes, in order.
pub open spec fn surviving_comments(base: IndexTables, head: IndexTables, files: Seq<String>, hunks: Option<DiffHunks>, trivia: bool) -> Seq<CommentV> {
    let all = review_scan(base, head, files, hunks, trivia, files.len() as int).0;
    after_outer_fn_pass(after_container_pass(all)).map_values(|p: PendingV| p.comment)
}

/// What a review of `files` returns: the surviving comments under the
/// budget, and a summary that counts files, symbols and comments.
pub open spec fn review_result(base: IndexTables, head: IndexTables, files: Seq<String>, hunks: Option<DiffHunks>, trivia: bool, max: usize, r: PrReviewResult) -> bool {
    let scan = review_scan(base, head, files, hunks, trivia, files.len() as int);
    let surviving = surviving_comments(base, head, files, hunks, trivia);
    &&& comment_views(r.comments@) == budgeted(surviving, max as nat)
    &&& r.summary.files_in_scope == files.len()
    &&& r.summary.symbols_added == scan.1
    &&& r.summary.symbols_removed == scan.2
    &&& r.summary.symbols_modified_body == scan.3
    &&& r.summary.comments_emitted == r.comments@.len()
    &&& r.summary.comments_dropped_to_budget == (if surviving.len() > max { surviving.len() - max } else { 0 })
    &&& tally_view(r.summary.by_source_kind@) == tally_of(comment_views(r.comments@).map_values(|c: CommentV| c.source_kind))
}

/// Counts of a review fit the summary's fields.
pub open spec fn review_fits(files: Seq<String>, base: IndexTables, head: IndexTables) -> bool {
    files.len() * (base.symbols@.len() + head.symbols@.len()) <= usize::MAX
}

proof fn lemma_mul_step(i: int, x: int)
    requires
        0 <= i,
        0 <= x,
    ensures
        (i + 1) * x == i * x + x,
        i * x >= 0,
{
    assert((i + 1) * x == i * x + x) by (nonlinear_arith);
    assert(i * x >= 0) by (nonlinear_arith) requires 0 <= i, 0 <= x;
}

proof fn lemma_mul_mono(i: int, n: int, x: int)
    requires
        0 <= i <= n,
        0 <= x,
    ensures
        i * x <= n * x,
{
    assert(i * x <= n * x) by (nonlinear_arith) requires 0 <= i <= n, 0 <= x;
}

/// Reviews the changed files between a base and a head index: rule
/// findings, added / removed symbols and body changes per file, restate
/// suppression, then the comment budget (lowest tiers dropped first).
pub fn run(req: &PrReviewRequest, base: &IndexReader, head: &IndexReader) -> (r: PrReviewResult)
    requires
        review_fits(req.changed_files@, base.tables, head.tables),
    ensures
        review_result(base.tables, head.tables, req.changed_files@, req.diff_hunks, req.ignore_test_trivia, req.max_comments, r),
        r.summary.comments_emitted <= req.max_comments,
        r.summary.comments_emitted + r.summary.comments_dropped_to_budget
            == surviving_comments(base.tables, head.tables, req.changed_files@, req.diff_hunks, req.ignore_test_trivia).len(),
{
    let ghost bt = base.tables;
    let ghost ht = head.tables;
    let ghost hb = base.tables.symbols@.len() + head.tables.symbols@.len();
    let n = req.changed_files.len();
    let mut pending: Vec<PendingComment> = Vec::new();
    let mut added: usize = 0;
    let mut removed: usize = 0;
    let mut modified: usize = 0;
    let mut i: usize = 0;
    while i < n
        invariant
            i <= n == req.changed_files@.len(),
            review_fits(req.changed_files@, bt, ht),
            bt == base.tables,
            ht == head.tables,
            hb == bt.symbols@.len() + ht.symbols@.len(),
            pending_views(pending@) == review_scan(bt, ht, req.changed_files@, req.diff_hunks, req.ignore_test_trivia, i as int).0,
            added == review_scan(bt, ht, req.changed_files@, req.diff_hunks, req.ignore_test_trivia, i as int).1,
            removed == review_scan(bt, ht, req.changed_files@, req.diff_hunks, req.ignore_test_trivia, i as int).2,
            modified == review_scan(bt, ht, req.changed_files@, req.diff_hunks, req.ignore_test_trivia, i as int).3,
            added + removed <= i * hb,
            modified + removed <= i * hb,
        decreases n - i,
    {
        let path = req.changed_files[i].as_str();
        let hunks = match &req.diff_hunks {
            Some(h) => h.ranges_for(path),
            None => Vec::new(),
        };
        assert(hunks@ == hunks_for(req.diff_hunks, req.changed_files@[i as int]@));
        let (a, r, m) = review_file(base, head, path, &hunks, req.ignore_test_trivia, &mut pending);
        proof {
            lemma_mul_step(i as int, hb as int);
            lemma_mul_mono(i + 1, n as int, hb as int);
        }
        added = added + a;
        removed = removed + r;
        modified = modified + m;
        i = i + 1;
    }
    suppress_container_restate(&mut pending);
    suppress_outer_function_restate(&mut pending);
    let ghost kept_v = pending_views(pending@);
    let mut comments: Vec<ReviewComment> = Vec::new();
    let mut k: usize = 0;
    while k < pending.len()
        invariant
            k <= pending@.len(),
            kept_v == pending_views(pending@),
            comment_views(comments@) == kept_v.take(k as int).map_values(|p: PendingV| p.comment),
        decreases pending.len() - k,
    {
        let ghost before = comments@;
        comments.push(pending[k].comment.duplicate());
        assert(comment_views(comments@) =~= comment_views(before).push(kept_v[k as int].comment));
        assert(kept_v.take(k + 1) =~= kept_v.take(k as int).push(kept_v[k as int]));
        k = k + 1;
        assert(comment_views(comments@) =~= kept_v.take(k as int).map_values(|p: PendingV| p.comment));
    }
    assert(kept_v.take(pending@.len() as int) =~= kept_v);
    let total = comments.len();
    assert(comment_views(comments@).len() == comments@.len());
    let (kept, dropped) = apply_budget(comments, req.max_comments);
    let by_kind = tally_source_kinds(&kept);
    proof {
        assert(kept@.map_values(|c: ReviewComment| c.source_kind@) =~= comment_views(kept@).map_values(|c: CommentV| c.source_kind));
    }
    let emitted = kept.len();
    PrReviewResult {
        summary: PrReviewSummary {
            files_in_scope: n,
            symbols_added: added,
            symbols_removed: removed,
            symbols_modified_body: modified,
            comments_emitted: emitted,
            comments_dropped_to_budget: dropped,
            by_source_kind: by_kind,
        },
        comments: kept,
    }
}

/// A review request from the two index locations and the changed files,
/// with no diff hunks and test trivia kept, run against the opened
/// indexes.
pub fn from_paths(base_db: &str, head_db: &str, changed_files: Vec<String>, max_comments: usize, base: &IndexReader, head: &IndexReader) -> (r: PrReviewResult)
    requires
        review_fits(changed_files@, base.tables, head.tables),
    ensures
        review_result(base.tables, head.tables, changed_files@, None, false, max_comments, r),
{
    let req = PrReviewRequest {
        base_db: String::from_str(base_db),
        head_db: String::from_str(head_db),
        changed_files: changed_files,
        max_comments: max_comments,
        diff_hunks: None,
        ignore_test_trivia: false,
    };
    run(&req, base, head)
}


// ---------------------------------------------------------------------
// Laws of a review.

/// The order in which comments compete for the budget: by tier rank,
/// ties in their order.
pub open spec fn budget_order(cs: Seq<CommentV>) -> Seq<int> {
    crate::order::sorted_positions(rank_keys(cs), |i: int| true)
}

/// Over budget, the comments kept are the first `max` of the budget
/// order, and none of them has a lower tier (a higher rank) than any
/// comment dropped.
pub proof fn law_budget_drops_lowest_tiers(cs: Seq<CommentV>, max: nat)
    requires
        cs.len() > max,
    ensures
        budgeted(cs, max) == budget_order(cs).take(max as int).map_values(|p: int| cs[p]),
        budget_order(cs).len() == cs.len(),
        forall|k: int| 0 <= k < cs.len() ==> #[trigger] budget_order(cs).contains(k),
        forall|a: int, b: int| 0 <= a < max && max <= b < cs.len()
            ==> tier_rank(cs[budget_order(cs)[a]].confidence_tier) <= tier_rank(cs[budget_order(cs)[b]].confidence_tier),
{
    let keys = rank_keys(cs);
    let pos = budget_order(cs);
    crate::order::lemma_sorted_positions_sorted(keys, |i: int| true);
    crate::order::lemma_sorted_selection_len(keys, |i: int| true, pos);
    assert forall|k: int| 0 <= k < cs.len() implies #[trigger] pos.contains(k) by {
        assert((|i: int| true)(k));
    }
    // Every position occurs, so there are as many as there are comments.
    assert(pos.len() >= cs.len()) by {
        assert forall|a: int, b: int| 0 <= a < pos.len() && 0 <= b < pos.len() && a != b implies pos[a] != pos[b] by {
            if a < b {
                assert(crate::order::sorts_before(keys, pos[a], pos[b]));
                if pos[a] == pos[b] {
                    crate::order::lemma_key_lt_irrefl_pub(keys[pos[a]]);
                }
            } else {
                assert(crate::order::sorts_before(keys, pos[b], pos[a]));
                if pos[a] == pos[b] {
                    crate::order::lemma_key_lt_irrefl_pub(keys[pos[a]]);
                }
            }
        }
        let r = vstd::set_lib::set_int_range(0, cs.len() as int);
        vstd::set_lib::lemma_int_range(0, cs.len() as int);
        assert(pos.no_duplicates());
        pos.unique_seq_to_set();
        assert(r.subset_of(pos.to_set()));
        vstd::set_lib::lemma_len_subset(r, pos.to_set());
    }
    assert forall|a: int, b: int| 0 <= a < max && max <= b < cs.len()
        implies tier_rank(cs[pos[a]].confidence_tier) <= tier_rank(cs[pos[b]].confidence_tier) by {
        reveal_with_fuel(crate::order::key_lt, 2);
        assert(crate::order::sorts_before(keys, pos[a], pos[b]));
        assert(keys[pos[a]] == seq![PartV::Num(tier_rank(cs[pos[a]].confidence_tier) as int)]);
        assert(keys[pos[b]] == seq![PartV::Num(tier_rank(cs[pos[b]].confidence_tier) as int)]);
    }
}

proof fn lemma_file_symbols_path(t: IndexTables, path: Seq<char>)
    ensures
        forall|i: int| 0 <= i < file_symbols(t, path).len() ==> (#[trigger] file_symbols(t, path)[i]).path@ == path,
{
    let sel = |i: int| crate::query::in_file(t.files@, t.symbols@, path, i);
    let keys = crate::query::start_keys(t.symbols@);
    crate::order::lemma_sorted_positions_sorted(keys, sel);
    let pos = crate::order::sorted_positions(keys, sel);
    assert forall|i: int| 0 <= i < file_symbols(t, path).len() implies (#[trigger] file_symbols(t, path)[i]).path@ == path by {
        assert(sel(pos[i]));
    }
}

proof fn lemma_rule_comments_files(fs: Seq<FindingRecord>, hunks: Seq<DiffRange>, path: Seq<char>)
    ensures
        forall|j: int| 0 <= j < rule_comments(fs, hunks, path).len() ==> (#[trigger] rule_comments(fs, hunks, path)[j]).comment.file == path,
    decreases fs.len(),
{
    if fs.len() > 0 {
        lemma_rule_comments_files(fs.drop_last(), hunks, path);
    }
}

proof fn lemma_symbol_comments_files(base: IndexTables, head: IndexTables, base_syms: Seq<SymbolRecord>, head_syms: Seq<SymbolRecord>, hunks: Seq<DiffRange>, trivia: bool, path: Seq<char>)
    requires
        forall|i: int| 0 <= i < head_syms.len() ==> (#[trigger] head_syms[i]).path@ == path,
    ensures
        forall|j: int| 0 <= j < symbol_comments(base, head, base_syms, head_syms, hunks, trivia).len()
            ==> (#[trigger] symbol_comments(base, head, base_syms, head_syms, hunks, trivia)[j]).comment.file == path,
    decreases head_syms.len(),
{
    if head_syms.len() > 0 {
        lemma_symbol_comments_files(base, head, base_syms, head_syms.drop_last(), hunks, trivia, path);
        assert(head_syms.last().path@ == path);
    }
}

proof fn lemma_scan_files(base: IndexTables, head: IndexTables, files: Seq<String>, hunks: Option<DiffHunks>, trivia: bool, n: int)
    requires
        0 <= n <= files.len(),
    ensures
        forall|j: int| 0 <= j < review_scan(base, head, files, hunks, trivia, n).0.len()
            ==> exists|k: int| 0 <= k < n && (#[trigger] review_scan(base, head, files, hunks, trivia, n).0[j]).comment.file == files[k]@,
    decreases n,
{
    if n > 0 {
        lemma_scan_files(base, head, files, hunks, trivia, n - 1);
        let path = files[n - 1]@;
        let h = hunks_for(hunks, path);
        lemma_file_symbols_path(head, path);
        lemma_rule_comments_files(findings_under(head, path), h, path);
        lemma_symbol_comments_files(base, head, file_symbols(base, path), file_symbols(head, path), h, trivia, path);
        let prev = review_scan(base, head, files, hunks, trivia, n - 1).0;
        let f = file_review(base, head, path, h, trivia).0;
        let rc = rule_comments(findings_under(head, path), h, path);
        let sc = symbol_comments(base, head, file_symbols(base, path), file_symbols(head, path), h, trivia);
        assert(f == rc + sc);
        let cur = review_scan(base, head, files, hunks, trivia, n).0;
        assert(cur == prev + f);
        assert forall|j: int| 0 <= j < cur.len() implies exists|k: int| 0 <= k < n && (#[trigger] cur[j]).comment.file == files[k]@ by {
            if j < prev.len() {
                assert(cur[j] == prev[j]);
                let k = choose|k: int| 0 <= k < n - 1 && prev[j].comment.file == files[k]@;
            } else if j < prev.len() + rc.len() {
                assert(cur[j] == rc[j - prev.len()]);
                assert(cur[j].comment.file == files[n - 1]@);
            } else {
                assert(cur[j] == sc[j - prev.len() - rc.len()]);
                assert(cur[j].comment.file == files[n - 1]@);
            }
        }
    }
}

/// Every comment a review keeps is on one of the changed files: no file
/// outside the diff is the target of a comment.
pub proof fn law_comments_on_changed_files(base: IndexTables, head: IndexTables, files: Seq<String>, hunks: Option<DiffHunks>, trivia: bool)
    ensures
        forall|c: int| 0 <= c < surviving_comments(base, head, files, hunks, trivia).len()
            ==> exists|k: int| 0 <= k < files.len()
                && (#[trigger] surviving_comments(base, head, files, hunks, trivia)[c]).file == files[k]@,
{
    let all = review_scan(base, head, files, hunks, trivia, files.len() as int).0;
    lemma_scan_files(base, head, files, hunks, trivia, files.len() as int);
    let p1 = after_container_pass(all);
    lemma_kept_members(all, |i: int| container_restates(all, i), all.len() as int);
    let p2 = after_outer_fn_pass(p1);
    lemma_kept_members(p1, |i: int| outer_fn_restates(p1, i), p1.len() as int);
    let out = surviving_comments(base, head, files, hunks, trivia);
    assert forall|c: int| 0 <= c < out.len() implies exists|k: int| 0 <= k < files.len() && (#[trigger] out[c]).file == files[k]@ by {
        assert(out[c] == p2[c].comment);
        let i1 = choose|i: int| 0 <= i < p1.len() && !outer_fn_restates(p1, i) && p2[c] == p1[i];
        let i0 = choose|i: int| 0 <= i < all.len() && !container_restates(all, i) && p1[i1] == all[i];
        assert(all[i0].comment.file == out[c].file);
        let k = choose|k: int| 0 <= k < files.len() && all[i0].comment.file == files[k]@;
    }
}


/// Some symbol row of the table has the id, and (when given) the
/// qualified name.
pub open spec fn row_with(t: IndexTables, id: Seq<char>, qname: Option<Seq<char>>) -> bool {
    exists|p: int| 0 <= p < t.symbols@.len() && (#[trigger] t.symbols@[p]).id.0@ == id
        && match qname {
            Some(q) => t.symbols@[p].qualified_name@ == q,
            None => true,
        }
}

/// A comment that names a symbol names one of the head index, by id and
/// qualified name, whose id the base index has too.
pub open spec fn cites_indexed_symbol(base: IndexTables, head: IndexTables, c: CommentV) -> bool {
    match c.symbol_id {
        None => true,
        Some(id) => row_with(head, id, c.symbol_qualified_name) && c.symbol_qualified_name is Some && row_with(base, id, None),
    }
}

proof fn lemma_file_symbols_rows(t: IndexTables, path: Seq<char>)
    ensures
        forall|i: int| 0 <= i < file_symbols(t, path).len()
            ==> row_with(t, (#[trigger] file_symbols(t, path)[i]).id.0@, Some(file_symbols(t, path)[i].qualified_name@)),
{
    let sel = |i: int| crate::query::in_file(t.files@, t.symbols@, path, i);
    let keys = crate::query::start_keys(t.symbols@);
    crate::order::lemma_sorted_positions_sorted(keys, sel);
    let pos = crate::order::sorted_positions(keys, sel);
    let fs = file_symbols(t, path);
    assert forall|i: int| 0 <= i < fs.len() implies row_with(t, (#[trigger] fs[i]).id.0@, Some(fs[i].qualified_name@)) by {
        assert(sel(pos[i]));
        assert(fs[i] == crate::query::record_for(t.files@, t.symbols@[pos[i]]).unwrap());
        assert(t.symbols@[pos[i]].id.0@ == fs[i].id.0@);
    }
}

proof fn lemma_rule_comments_cite(base: IndexTables, head: IndexTables, fs: Seq<FindingRecord>, hunks: Seq<DiffRange>, path: Seq<char>)
    ensures
        forall|j: int| 0 <= j < rule_comments(fs, hunks, path).len() ==> (#[trigger] rule_comments(fs, hunks, path)[j]).comment.symbol_id is None,
    decreases fs.len(),
{
    if fs.len() > 0 {
        lemma_rule_comments_cite(base, head, fs.drop_last(), hunks, path);
    }
}

proof fn lemma_symbol_comments_cite(base: IndexTables, head: IndexTables, base_syms: Seq<SymbolRecord>, head_syms: Seq<SymbolRecord>, hunks: Seq<DiffRange>, trivia: bool)
    requires
        forall|i: int| 0 <= i < head_syms.len() ==> row_with(head, (#[trigger] head_syms[i]).id.0@, Some(head_syms[i].qualified_name@)),
        forall|i: int| 0 <= i < base_syms.len() ==> row_with(base, (#[trigger] base_syms[i]).id.0@, Some(base_syms[i].qualified_name@)),
    ensures
        forall|j: int| 0 <= j < symbol_comments(base, head, base_syms, head_syms, hunks, trivia).len()
            ==> cites_indexed_symbol(base, head, (#[trigger] symbol_comments(base, head, base_syms, head_syms, hunks, trivia)[j]).comment),
    decreases head_syms.len(),
{
    if head_syms.len() > 0 {
        let pre = head_syms.drop_last();
        assert forall|i: int| 0 <= i < pre.len() implies row_with(head, (#[trigger] pre[i]).id.0@, Some(pre[i].qualified_name@)) by {
            assert(pre[i] == head_syms[i]);
        }
        lemma_symbol_comments_cite(base, head, base_syms, pre, hunks, trivia);
        let s = head_syms.last();
        assert(row_with(head, head_syms[head_syms.len() - 1].id.0@, Some(head_syms[head_syms.len() - 1].qualified_name@)));
        if has_id(base_syms, s.id.0@) {
            let k = choose|k: int| 0 <= k < base_syms.len() && #[trigger] base_syms[k].id.0@ == s.id.0@;
            assert(row_with(base, base_syms[k].id.0@, Some(base_syms[k].qualified_name@)));
            let p = choose|p: int| 0 <= p < base.symbols@.len() && (#[trigger] base.symbols@[p]).id.0@ == base_syms[k].id.0@
                && base.symbols@[p].qualified_name@ == base_syms[k].qualified_name@;
            assert(row_with(base, s.id.0@, None));
        }
    }
}

proof fn lemma_scan_cites(base: IndexTables, head: IndexTables, files: Seq<String>, hunks: Option<DiffHunks>, trivia: bool, n: int)
    requires
        0 <= n <= files.len(),
    ensures
        forall|j: int| 0 <= j < review_scan(base, head, files, hunks, trivia, n).0.len()
            ==> cites_indexed_symbol(base, head, (#[trigger] review_scan(base, head, files, hunks, trivia, n).0[j]).comment),
    decreases n,
{
    if n > 0 {
        lemma_scan_cites(base, head, files, hunks, trivia, n - 1);
        let path = files[n - 1]@;
        let h = hunks_for(hunks, path);
        lemma_file_symbols_rows(head, path);
        lemma_file_symbols_rows(base, path);
        lemma_rule_comments_cite(base, head, findings_under(head, path), h, path);
        lemma_symbol_comments_cite(base, head, file_symbols(base, path), file_symbols(head, path), h, trivia);
        let prev = review_scan(base, head, files, hunks, trivia, n - 1).0;
        let rc = rule_comments(findings_under(head, path), h, path);
        let sc = symbol_comments(base, head, file_symbols(base, path), file_symbols(head, path), h, trivia);
        let cur = review_scan(base, head, files, hunks, trivia, n).0;
        assert(cur == prev + (rc + sc));
        assert forall|j: int| 0 <= j < cur.len() implies cites_indexed_symbol(base, head, (#[trigger] cur[j]).comment) by {
            if j < prev.len() {
                assert(cur[j] == prev[j]);
            } else if j < prev.len() + rc.len() {
                assert(cur[j] == rc[j - prev.len()]);
            } else {
                assert(cur[j] == sc[j - prev.len() - rc.len()]);
            }
        }
    }
}

/// A review invents no symbol: every comment it keeps that names a
/// symbol names, by id and qualified name, a symbol of the head index
/// whose id the base index has too.
pub proof fn law_comments_cite_indexed_symbols(base: IndexTables, head: IndexTables, files: Seq<String>, hunks: Option<DiffHunks>, trivia: bool)
    ensures
        forall|c: int| 0 <= c < surviving_comments(base, head, files, hunks, trivia).len()
            ==> cites_indexed_symbol(base, head, #[trigger] surviving_comments(base, head, files, hunks, trivia)[c]),
{
    let all = review_scan(base, head, files, hunks, trivia, files.len() as int).0;
    lemma_scan_cites(base, head, files, hunks, trivia, files.len() as int);
    let p1 = after_container_pass(all);
    lemma_kept_members(all, |i: int| container_restates(all, i), all.len() as int);
    let p2 = after_outer_fn_pass(p1);
    lemma_kept_members(p1, |i: int| outer_fn_restates(p1, i), p1.len() as int);
    let out = surviving_comments(base, head, files, hunks, trivia);
    assert forall|c: int| 0 <= c < out.len() implies cites_indexed_symbol(base, head, #[trigger] out[c]) by {
        assert(out[c] == p2[c].comment);
        let i1 = choose|i: int| 0 <= i < p1.len() && !outer_fn_restates(p1, i) && p2[c] == p1[i];
        let i0 = choose|i: int| 0 <= i < all.len() && !container_restates(all, i) && p1[i1] == all[i];
        assert(cites_indexed_symbol(base, head, all[i0].comment));
    }
}


/// A review is fixed by its inputs: two results that both meet the review's
/// contract for the same indexes, changed files, hunks, trivia setting and
/// budget hold the same comments and counts. So `from_paths` gives what
/// `run` gives for a request with those files, no hunks and test trivia
/// kept.
pub proof fn law_review_determined(base: IndexTables, head: IndexTables, files: Seq<String>, hunks: Option<DiffHunks>, trivia: bool, max: usize, r1: PrReviewResult, r2: PrReviewResult)
    requires
        review_result(base, head, files, hunks, trivia, max, r1),
        review_result(base, head, files, hunks, trivia, max, r2),
    ensures
        comment_views(r1.comments@) == comment_views(r2.comments@),
        r1.summary.files_in_scope == r2.summary.files_in_scope,
        r1.summary.symbols_added == r2.summary.symbols_added,
        r1.summary.symbols_removed == r2.summary.symbols_removed,
        r1.summary.symbols_modified_body == r2.summary.symbols_modified_body,
        r1.summary.comments_emitted == r2.summary.comments_emitted,
        r1.summary.comments_dropped_to_budget == r2.summary.comments_dropped_to_budget,
        tally_view(r1.summary.by_source_kind@) == tally_view(r2.summary.by_source_kind@),
{
    assert(r1.comments@.len() == comment_views(r1.comments@).len());
    assert(r2.comments@.len() == comment_views(r2.comments@).len());
}

} // verus!
