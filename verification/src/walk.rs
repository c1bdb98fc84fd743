//! Which files under a root get indexed: the caller walks the directory
//! tree and reads what the file system says of each path; this module
//! decides, for each path, whether it is indexed or why it is skipped, and
//! orders the result by relative path.
use vstd::prelude::*;
use crate::model::FileStatus;
use crate::order::{key_view, positions_view, sorted_positions, KeyPart, PartV};
use crate::rules::{ascii_fold, eq_ignore_ascii_case};
use crate::text::{chars_of, copy_string, rfind_index, rfind_pos, slice_vec, string_of};

verus! {

/// Bytes read from the start of a file to tell text from binary.
pub const BINARY_PROBE_BYTES: usize = 8192;

/// Limits of a walk.
#[derive(Debug, Clone)]
pub struct WalkOptions {
    pub max_file_bytes: u64,
    pub language_allow_list: Vec<String>,
}

/// One path under the root with its classification.
#[derive(Debug, Clone)]
pub struct WalkEntry {
    pub path: String,
    pub relative_path: String,
    pub size_bytes: u64,
    pub language: Option<String>,
    pub status: FileStatus,
}

/// What the directory walk read of one path.
#[derive(Debug, Clone)]
pub struct FoundEntry {
    /// The full path, as text.
    pub path: String,
    /// The path below the root, as text (lossily), when it is below it.
    pub relative_path: Option<String>,
    /// The last component of the path, when it is valid UTF-8.
    pub file_name: Option<String>,
    pub is_symlink: bool,
    /// For a symlink: whether it resolves to a path inside the root. The
    /// fields below then describe the link's target.
    pub link_inside_root: bool,
    pub is_file: bool,
    /// The file's size, when its metadata could be read.
    pub size_bytes: Option<u64>,
    /// What one read of up to `BINARY_PROBE_BYTES` from the file's start
    /// gave, when the file could be opened and read.
    pub head: Option<Vec<u8>>,
}

/// Directories never descended into.
pub open spec fn skipped_dir_name(name: Seq<char>) -> bool {
    name == ".git"@ || name == ".hg"@ || name == ".svn"@ || name == "target"@ || name == "node_modules"@
}

/// Whether the walk enters a path: the root and every non-directory always,
/// other directories unless their name is skipped or they are reached by a
/// symlink that leads outside the root.
pub open spec fn enters(depth: nat, is_dir: bool, name: Seq<char>, link_outside_root: bool) -> bool {
    depth == 0 || !is_dir || (!skipped_dir_name(name) && !link_outside_root)
}

/// The extension of a file name: what follows its last `.`, unless that
/// dot starts the name (std `Path::extension`).
pub open spec fn path_extension(name: Seq<char>) -> Option<Seq<char>> {
    match rfind_pos(name, "."@) {
        Some(i) => if i > 0 { Some(name.subrange(i + 1, name.len() as int)) } else { None },
        None => None,
    }
}

/// The language of a file extension, ignoring ASCII case.
pub open spec fn extension_language(ext: Seq<char>) -> Option<Seq<char>> {
    if eq_ignore_ascii_case(ext, "rs"@) {
        Some("rust"@)
    } else if eq_ignore_ascii_case(ext, "py"@) {
        Some("python"@)
    } else if eq_ignore_ascii_case(ext, "ts"@) {
        Some("typescript"@)
    } else if eq_ignore_ascii_case(ext, "tsx"@) {
        Some("tsx"@)
    } else {
        None
    }
}

/// The language of a file, when its extension names one and the allow
/// list is empty or holds it.
pub open spec fn detect_language(file_name: Option<Seq<char>>, allow: Seq<Seq<char>>) -> Option<Seq<char>> {
    match file_name {
        None => None,
        Some(n) => match path_extension(n) {
            None => None,
            Some(ext) => match extension_language(ext) {
                None => None,
                Some(l) => if allow.len() == 0 || allow.contains(l) { Some(l) } else { None },
            },
        },
    }
}

/// A probe that holds a zero byte marks a binary file.
pub open spec fn looks_binary(head: Option<Seq<u8>>) -> bool {
    match head {
        None => false,
        Some(h) => h.contains(0u8),
    }
}

/// Backslashes as forward slashes.
pub open spec fn forward_slashes(s: Seq<char>) -> Seq<char> {
    s.map_values(|c: char| if c == '\\' { '/' } else { c })
}

/// A walk entry, as text.
pub type EntryV = (Seq<char>, Seq<char>, u64, Option<Seq<char>>, FileStatus);

pub open spec fn opt_view(s: Option<String>) -> Option<Seq<char>> {
    match s {
        Some(x) => Some(x@),
        None => None,
    }
}

pub open spec fn entry_view(e: WalkEntry) -> EntryV {
    (e.path@, e.relative_path@, e.size_bytes, opt_view(e.language), e.status)
}

pub open spec fn allow_view(opts: WalkOptions) -> Seq<Seq<char>> {
    opts.language_allow_list@.map_values(|s: String| s@)
}

pub open spec fn head_view(h: Option<Vec<u8>>) -> Option<Seq<u8>> {
    match h {
        Some(v) => Some(v@),
        None => None,
    }
}

/// The entry a found path gives: a symlink that does not resolve inside
/// the root is skipped with size 0, one that does is classified as its
/// target is; paths that are not regular files, lie outside the root, or
/// whose size cannot be read give none; a file without a known (and allowed) language is
/// skipped by extension, one over the size limit by size, one whose probe
/// holds a zero byte as binary; every other file is indexed.
pub open spec fn classify(f: FoundEntry, allow: Seq<Seq<char>>, max: u64) -> Option<EntryV> {
    if f.is_symlink && !f.link_inside_root {
        match f.relative_path {
            Some(rel) => Some((f.path@, forward_slashes(rel@), 0u64, None, FileStatus::SkippedSymlink)),
            None => None,
        }
    } else if !f.is_file || f.relative_path.is_none() || f.size_bytes.is_none() {
        None
    } else {
        let rel = forward_slashes(f.relative_path.unwrap()@);
        let size = f.size_bytes.unwrap();
        let lang = detect_language(opt_view(f.file_name), allow);
        if lang.is_none() {
            Some((f.path@, rel, size, None, FileStatus::SkippedExtension))
        } else if size > max {
            Some((f.path@, rel, size, lang, FileStatus::SkippedSize))
        } else if looks_binary(head_view(f.head)) {
            Some((f.path@, rel, size, lang, FileStatus::SkippedBinary))
        } else {
            Some((f.path@, rel, size, lang, FileStatus::Indexed))
        }
    }
}

/// The entries of the found paths, in walk order.
pub open spec fn classified(found: Seq<FoundEntry>, allow: Seq<Seq<char>>, max: u64) -> Seq<EntryV>
    decreases found.len(),
{
    if found.len() == 0 {
        seq![]
    } else {
        let rest = classified(found.drop_last(), allow, max);
        match classify(found.last(), allow, max) {
            Some(e) => rest.push(e),
            None => rest,
        }
    }
}

pub open spec fn relative_keys(es: Seq<EntryV>) -> Seq<Seq<PartV>> {
    Seq::new(es.len(), |i: int| seq![PartV::Text(es[i].1)])
}

/// The entries of a walk, by relative path; ties keep walk order.
pub open spec fn walk_result(found: Seq<FoundEntry>, allow: Seq<Seq<char>>, max: u64) -> Seq<EntryV> {
    let es = classified(found, allow, max);
    sorted_positions(relative_keys(es), |i: int| true).map_values(|p: int| es[p])
}

/// Whether the walk enters a path at `depth` below the root.
pub fn descend_into(depth: usize, is_dir: bool, name: &str, link_outside_root: bool) -> (r: bool)
    ensures
        r == enters(depth as nat, is_dir, name@, link_outside_root),
{
    if depth == 0 || !is_dir {
        return true;
    }
    if link_outside_root {
        return false;
    }
    let n = name.to_string();
    proof {
        reveal_strlit(".git");
        reveal_strlit(".hg");
        reveal_strlit(".svn");
        reveal_strlit("target");
        reveal_strlit("node_modules");
    }
    !(crate::text::str_eq(n.as_str(), ".git") || crate::text::str_eq(n.as_str(), ".hg")
        || crate::text::str_eq(n.as_str(), ".svn") || crate::text::str_eq(n.as_str(), "target")
        || crate::text::str_eq(n.as_str(), "node_modules"))
}

fn ascii_fold_exec(c: char) -> (r: u32)
    ensures
        r == ascii_fold(c),
{
    if 'A' <= c && c <= 'Z' {
        (c as u32) + 32
    } else {
        c as u32
    }
}

fn eq_ignore_case_exec(a: &[char], b: &str) -> (r: bool)
    ensures
        r == eq_ignore_ascii_case(a@, b@),
{
    let bv = chars_of(b);
    if a.len() != bv.len() {
        return false;
    }
    let mut i: usize = 0;
    while i < a.len()
        invariant
            i <= a@.len() == bv@.len(),
            bv@ == b@,
            forall|j: int| 0 <= j < i ==> ascii_fold(#[trigger] a@[j]) == ascii_fold(bv@[j]),
        decreases a.len() - i,
    {
        if ascii_fold_exec(a[i]) != ascii_fold_exec(bv[i]) {
            return false;
        }
        i = i + 1;
    }
    true
}

fn extension_language_exec(ext: &[char]) -> (r: Option<&'static str>)
    ensures
        match r {
            Some(l) => extension_language(ext@) == Some(l@),
            None => extension_language(ext@).is_none(),
        },
{
    proof {
        reveal_strlit("rust");
        reveal_strlit("python");
        reveal_strlit("typescript");
        reveal_strlit("tsx");
    }
    if eq_ignore_case_exec(ext, "rs") {
        Some("rust")
    } else if eq_ignore_case_exec(ext, "py") {
        Some("python")
    } else if eq_ignore_case_exec(ext, "ts") {
        Some("typescript")
    } else if eq_ignore_case_exec(ext, "tsx") {
        Some("tsx")
    } else {
        None
    }
}

fn path_extension_exec(name: &str) -> (r: Option<Vec<char>>)
    ensures
        match r {
            Some(e) => path_extension(name@) == Some(e@),
            None => path_extension(name@).is_none(),
        },
{
    let n = chars_of(name);
    let dot: Vec<char> = vec!['.'];
    proof {
        reveal_strlit(".");
        assert(dot@ =~= "."@);
    }
    match rfind_index(n.as_slice(), dot.as_slice()) {
        Some(i) => {
            let len = n.len();
            if i > 0 {
                assert(i + 1 <= len) by {
                    assert(crate::text::occurs_at(n@, dot@, i as int));
                }
                Some(slice_vec(n.as_slice(), i + 1, len))
            } else {
                None
            }
        },
        None => None,
    }
}

/// The language of a file from its name and the allow list.
pub fn language_of(file_name: &Option<String>, allow: &Vec<String>) -> (r: Option<String>)
    ensures
        opt_view(r) == detect_language(opt_view(*file_name), allow@.map_values(|s: String| s@)),
{
    let ghost av = allow@.map_values(|s: String| s@);
    let name = match file_name {
        Some(n) => n,
        None => return None,
    };
    let ext = match path_extension_exec(name.as_str()) {
        Some(e) => e,
        None => return None,
    };
    let lang = match extension_language_exec(ext.as_slice()) {
        Some(l) => l,
        None => return None,
    };
    if allow.len() == 0 {
        assert(av.len() == 0);
        return Some(lang.to_string());
    }
    assert(detect_language(opt_view(*file_name), av) == (if av.contains(lang@) { Some(lang@) } else { None }));
    let mut i: usize = 0;
    while i < allow.len()
        invariant
            i <= allow@.len() == av.len(),
            av == allow@.map_values(|s: String| s@),
            detect_language(opt_view(*file_name), av) == (if av.contains(lang@) { Some(lang@) } else { None }),
            forall|j: int| 0 <= j < i ==> av[j] != lang@,
        decreases allow.len() - i,
    {
        if crate::text::str_eq(allow[i].as_str(), lang) {
            assert(av[i as int] == allow@[i as int]@);
            assert(av[i as int] == lang@);
            assert(av.contains(lang@));
            return Some(lang.to_string());
        }
        i = i + 1;
    }
    assert(!av.contains(lang@));
    None
}

fn has_zero(h: &Vec<u8>) -> (r: bool)
    ensures
        r == h@.contains(0u8),
{
    let mut i: usize = 0;
    while i < h.len()
        invariant
            i <= h@.len(),
            forall|j: int| 0 <= j < i ==> h@[j] != 0u8,
        decreases h.len() - i,
    {
        if h[i] == 0u8 {
            assert(h@[i as int] == 0u8);
            return true;
        }
        i = i + 1;
    }
    false
}

/// A relative path with forward slashes.
pub fn with_forward_slashes(s: &str) -> (r: String)
    ensures
        r@ == forward_slashes(s@),
{
    let cs = chars_of(s);
    let mut out: Vec<char> = Vec::new();
    let mut i: usize = 0;
    while i < cs.len()
        invariant
            i <= cs@.len(),
            cs@ == s@,
            out@ =~= forward_slashes(cs@.take(i as int)),
        decreases cs.len() - i,
    {
        let c = cs[i];
        out.push(if c == '\\' { '/' } else { c });
        i = i + 1;
        assert(forward_slashes(cs@.take(i as int)) =~= forward_slashes(cs@.take(i - 1)).push(if c == '\\' { '/' } else { c }));
    }
    assert(cs@.take(cs@.len() as int) =~= cs@);
    string_of(out.as_slice())
}

fn copy_opt(s: &Option<String>) -> (r: Option<String>)
    ensures
        opt_view(r) == opt_view(*s),
{
    match s {
        Some(x) => Some(copy_string(x)),
        None => None,
    }
}

/// The entry of one found path.
pub fn classify_entry(f: &FoundEntry, opts: &WalkOptions) -> (r: Option<WalkEntry>)
    ensures
        match r {
            Some(e) => classify(*f, allow_view(*opts), opts.max_file_bytes) == Some(entry_view(e)),
            None => classify(*f, allow_view(*opts), opts.max_file_bytes).is_none(),
        },
{
    if f.is_symlink && !f.link_inside_root {
        return match &f.relative_path {
            Some(rel) => Some(WalkEntry {
                path: copy_string(&f.path),
                relative_path: with_forward_slashes(rel.as_str()),
                size_bytes: 0,
                language: None,
                status: FileStatus::SkippedSymlink,
            }),
            None => None,
        };
    }
    if !f.is_file {
        return None;
    }
    let rel = match &f.relative_path {
        Some(r) => with_forward_slashes(r.as_str()),
        None => return None,
    };
    let size = match f.size_bytes {
        Some(s) => s,
        None => return None,
    };
    let language = language_of(&f.file_name, &opts.language_allow_list);
    let status = if language.is_none() {
        FileStatus::SkippedExtension
    } else if size > opts.max_file_bytes {
        FileStatus::SkippedSize
    } else if match &f.head { Some(h) => has_zero(h), None => false } {
        FileStatus::SkippedBinary
    } else {
        FileStatus::Indexed
    };
    Some(WalkEntry { path: copy_string(&f.path), relative_path: rel, size_bytes: size, language, status })
}

/// Classifies the found paths and orders the entries by relative path.
pub fn walk(found: &Vec<FoundEntry>, opts: &WalkOptions) -> (r: Vec<WalkEntry>)
    ensures
        r@.map_values(|e: WalkEntry| entry_view(e)) == walk_result(found@, allow_view(*opts), opts.max_file_bytes),
{
    let ghost allow = allow_view(*opts);
    let max = opts.max_file_bytes;
    let mut entries: Vec<WalkEntry> = Vec::new();
    let mut i: usize = 0;
    while i < found.len()
        invariant
            i <= found@.len(),
            allow == allow_view(*opts),
            max == opts.max_file_bytes,
            entries@.map_values(|e: WalkEntry| entry_view(e)) == classified(found@.take(i as int), allow, max),
        decreases found.len() - i,
    {
        assert(found@.take(i + 1).drop_last() =~= found@.take(i as int));
        assert(found@.take(i + 1).last() == found@[i as int]);
        match classify_entry(&found[i], opts) {
            Some(e) => {
                let ghost before = entries@;
                let ghost ev = entry_view(e);
                entries.push(e);
                assert(entries@.map_values(|e: WalkEntry| entry_view(e)) =~= before.map_values(|e: WalkEntry| entry_view(e)).push(ev));
            },
            None => {},
        }
        i = i + 1;
    }
    assert(found@.take(found@.len() as int) =~= found@);
    let ghost es = classified(found@, allow, max);
    let mut hits: Vec<bool> = Vec::new();
    let mut keys: Vec<Vec<KeyPart>> = Vec::new();
    let mut k: usize = 0;
    while k < entries.len()
        invariant
            k <= entries@.len() == es.len(),
            es == entries@.map_values(|e: WalkEntry| entry_view(e)),
            hits@.len() == k,
            keys@.len() == k,
            forall|j: int| 0 <= j < k ==> #[trigger] hits@[j] == (|x: int| true)(j),
            forall|j: int| 0 <= j < k ==> key_view(#[trigger] keys@[j]) == relative_keys(es)[j],
        decreases entries.len() - k,
    {
        let mut key: Vec<KeyPart> = Vec::new();
        key.push(KeyPart::Text(chars_of(entries[k].relative_path.as_str())));
        assert(es[k as int].1 == entries@[k as int].relative_path@);
        assert(key_view(key) =~= relative_keys(es)[k as int]);
        hits.push(true);
        keys.push(key);
        k = k + 1;
    }
    let order = crate::order::select_sorted(&hits, &keys, Ghost(relative_keys(es)), Ghost(|x: int| true));
    let ghost pv = positions_view(order@);
    let mut out: Vec<WalkEntry> = Vec::new();
    let mut a: usize = 0;
    while a < order.len()
        invariant
            a <= order@.len(),
            es == entries@.map_values(|e: WalkEntry| entry_view(e)),
            pv == positions_view(order@),
            crate::order::sorted_selection(relative_keys(es), |x: int| true, pv),
            pv == sorted_positions(relative_keys(es), |x: int| true),
            out@.map_values(|e: WalkEntry| entry_view(e)) == pv.take(a as int).map_values(|p: int| es[p]),
        decreases order.len() - a,
    {
        assert(pv[a as int] == order@[a as int] as int);
        assert(0 <= pv[a as int] < relative_keys(es).len());
        let src = &entries[order[a]];
        let e = WalkEntry {
            path: copy_string(&src.path),
            relative_path: copy_string(&src.relative_path),
            size_bytes: src.size_bytes,
            language: copy_opt(&src.language),
            status: src.status,
        };
        let ghost before = out@;
        out.push(e);
        assert(out@.map_values(|e: WalkEntry| entry_view(e)) =~= before.map_values(|e: WalkEntry| entry_view(e)).push(es[pv[a as int]]));
        assert(pv.take(a + 1) =~= pv.take(a as int).push(pv[a as int]));
        a = a + 1;
    }
    assert(pv.take(order@.len() as int) =~= pv);
    out
}

/// A walk lists each classified path once, ordered by relative path.
pub proof fn law_walk_sorted_by_path(found: Seq<FoundEntry>, allow: Seq<Seq<char>>, max: u64)
    ensures
        walk_result(found, allow, max).len() == classified(found, allow, max).len(),
        forall|a: int, b: int| 0 <= a < b < walk_result(found, allow, max).len()
            ==> !crate::order::text_lt(walk_result(found, allow, max)[b].1, walk_result(found, allow, max)[a].1),
{
    let es = classified(found, allow, max);
    let keys = relative_keys(es);
    crate::order::lemma_sorted_positions_sorted(keys, |i: int| true);
    let pos = sorted_positions(keys, |i: int| true);
    crate::order::lemma_permutation_len(keys, pos);
    let w = walk_result(found, allow, max);
    assert forall|a: int, b: int| 0 <= a < b < w.len() implies !crate::order::text_lt(w[b].1, w[a].1) by {
        assert(crate::order::sorts_before(keys, pos[a], pos[b]));
        assert(keys[pos[a]] == seq![PartV::Text(es[pos[a]].1)]);
        assert(keys[pos[b]] == seq![PartV::Text(es[pos[b]].1)]);
        reveal_with_fuel(crate::order::key_lt, 2);
        crate::order::lemma_text_lt_asym_pub(es[pos[a]].1, es[pos[b]].1);
    }
}

} // verus!
