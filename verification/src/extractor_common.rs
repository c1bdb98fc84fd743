//! Language-independent pieces of symbol extraction: qualified-name
//! splitting, parameter-list normalisation, and the intra-file rules that
//! decide whether a call can be bound to a same-file symbol.
use vstd::prelude::*;
use crate::model::{Symbol, SymbolKind};
use crate::extract::{symbol_views, SymbolV};
use crate::text::{
    chars_of, chars_eq, is_ws, is_ws_exec, last_occurrence, contains_seq, rfind_exec, string_of,
    substring, occurs_at,
};

verus! {

/// Qualified-name separator of a language (`::` for Rust, `.` otherwise).
#[derive(Copy, Clone)]
pub struct LangSyntax {
    pub qname_sep: &'static str,
}

pub fn rust_syntax() -> (r: LangSyntax)
    ensures
        r.qname_sep@ == "::"@,
{
    LangSyntax { qname_sep: "::" }
}

pub fn dot_syntax() -> (r: LangSyntax)
    ensures
        r.qname_sep@ == "."@,
{
    LangSyntax { qname_sep: "." }
}

/// The sole element of `items` when it has exactly one, else `None`.
pub fn unique<T: Copy>(items: &Vec<T>) -> (r: Option<T>)
    ensures
        r == (if items@.len() == 1 { Some(items@[0]) } else { None::<T> }),
{
    if items.len() == 1 {
        Some(items[0])
    } else {
        None
    }
}

// ---------------------------------------------------------------------
// Parameter-list normalisation.

/// `s` with leading whitespace removed.
pub open spec fn trim_start(s: Seq<char>) -> Seq<char>
    decreases s.len(),
{
    if s.len() > 0 && is_ws(s[0]) { trim_start(s.drop_first()) } else { s }
}

/// `s` with trailing whitespace removed.
pub open spec fn trim_end(s: Seq<char>) -> Seq<char>
    decreases s.len(),
{
    if s.len() > 0 && is_ws(s.last()) { trim_end(s.drop_last()) } else { s }
}

pub open spec fn trim(s: Seq<char>) -> Seq<char> {
    trim_end(trim_start(s))
}

/// `s` with trailing `c` characters removed.
pub open spec fn trim_end_char(s: Seq<char>, c: char) -> Seq<char>
    decreases s.len(),
{
    if s.len() > 0 && s.last() == c { trim_end_char(s.drop_last(), c) } else { s }
}

/// The whitespace-separated words of `s` joined by single spaces. `any`
/// records that a word was already emitted, `gap` that whitespace followed
/// it.
pub open spec fn collapse_from(s: Seq<char>, any: bool, gap: bool) -> Seq<char>
    decreases s.len(),
{
    if s.len() == 0 {
        seq![]
    } else if is_ws(s[0]) {
        collapse_from(s.drop_first(), any, true)
    } else if any && gap {
        seq![' ', s[0]] + collapse_from(s.drop_first(), true, false)
    } else {
        seq![s[0]] + collapse_from(s.drop_first(), true, false)
    }
}

/// `split_whitespace().join(" ")`.
pub open spec fn collapse_ws(s: Seq<char>) -> Seq<char> {
    collapse_from(s, false, false)
}

/// Outer parentheses removed when the text both starts with `(` and ends
/// with `)` after that.
pub open spec fn strip_parens(t: Seq<char>) -> Seq<char> {
    if t.len() >= 2 && t[0] == '(' && t.last() == ')' {
        t.subrange(1, t.len() - 1)
    } else {
        t
    }
}

/// Canonical form of a parameter list: outer parentheses dropped,
/// whitespace runs collapsed, trailing commas dropped, re-parenthesised.
pub open spec fn canonical_params_spec(text: Seq<char>) -> Seq<char> {
    let inner = strip_parens(trim(text));
    let normalized = trim(trim_end_char(collapse_ws(inner), ','));
    seq!['('] + normalized + seq![')']
}

fn trim_bounds(v: &Vec<char>) -> (r: (usize, usize))
    ensures
        r.0 <= r.1 <= v.len(),
        v@.subrange(r.0 as int, r.1 as int) == trim(v@),
{
    let mut a: usize = 0;
    assert(v@.skip(0) =~= v@);
    while a < v.len() && is_ws_exec(v[a])
        invariant
            a <= v.len(),
            trim_start(v@) == trim_start(v@.skip(a as int)),
        decreases v.len() - a,
    {
        assert(v@.skip(a as int).drop_first() =~= v@.skip(a + 1));
        a = a + 1;
    }
    let ghost ts = v@.skip(a as int);
    assert(trim_start(v@) == ts);
    let mut b: usize = v.len();
    assert(v@.subrange(a as int, b as int) =~= ts);
    while b > a && is_ws_exec(v[b - 1])
        invariant
            a <= b <= v.len(),
            trim_end(ts) == trim_end(v@.subrange(a as int, b as int)),
        decreases b,
    {
        assert(v@.subrange(a as int, b as int).drop_last() =~= v@.subrange(a as int, b - 1));
        b = b - 1;
    }
    (a, b)
}

/// std `str::trim`.
pub fn trim_exec(s: &Vec<char>) -> (r: Vec<char>)
    ensures
        r@ == trim(s@),
{
    let (a, b) = trim_bounds(s);
    let mut r: Vec<char> = Vec::new();
    let mut i = a;
    while i < b
        invariant
            a <= i <= b <= s.len(),
            r@ == s@.subrange(a as int, i as int),
        decreases b - i,
    {
        r.push(s[i]);
        i = i + 1;
        assert(r@ =~= s@.subrange(a as int, i as int));
    }
    r
}

/// `split_whitespace().join(" ")` (exec).
fn collapse_ws_exec(s: &Vec<char>) -> (r: Vec<char>)
    ensures
        r@ == collapse_ws(s@),
{
    let mut r: Vec<char> = Vec::new();
    let mut any = false;
    let mut gap = false;
    let mut i: usize = 0;
    assert(s@.skip(0) =~= s@);
    while i < s.len()
        invariant
            i <= s.len(),
            r@ + collapse_from(s@.skip(i as int), any, gap) == collapse_ws(s@),
        decreases s.len() - i,
    {
        let c = s[i];
        assert(s@.skip(i as int)[0] == c);
        assert(s@.skip(i as int).drop_first() =~= s@.skip(i + 1));
        if is_ws_exec(c) {
            gap = true;
        } else {
            if any && gap {
                r.push(' ');
            }
            r.push(c);
            any = true;
            gap = false;
        }
        i = i + 1;
        proof {
            assert(r@ + collapse_from(s@.skip(i as int), any, gap) =~= collapse_ws(s@));
        }
    }
    assert(r@ + seq![] =~= r@);
    r
}

fn trim_end_char_exec(s: &Vec<char>, c: char) -> (r: Vec<char>)
    ensures
        r@ == trim_end_char(s@, c),
{
    let mut b = s.len();
    assert(s@.subrange(0, b as int) =~= s@);
    while b > 0 && s[b - 1] == c
        invariant
            b <= s.len(),
            trim_end_char(s@, c) == trim_end_char(s@.subrange(0, b as int), c),
        decreases b,
    {
        assert(s@.subrange(0, b as int).drop_last() =~= s@.subrange(0, b - 1));
        b = b - 1;
    }
    let mut r: Vec<char> = Vec::new();
    let mut i: usize = 0;
    while i < b
        invariant
            i <= b <= s.len(),
            r@ == s@.subrange(0, i as int),
        decreases b - i,
    {
        r.push(s[i]);
        i = i + 1;
        assert(r@ =~= s@.subrange(0, i as int));
    }
    r
}

/// Normalise a parameter-list source slice: trim, strip outer parens,
/// collapse internal whitespace runs, drop trailing commas. Signatures stay
/// stable across formatting variants.
pub fn canonical_params(text: String) -> (r: String)
    ensures
        r@ == canonical_params_spec(text@),
{
    let chars = chars_of(text.as_str());
    let trimmed = trim_exec(&chars);
    let n = trimmed.len();
    let inner: Vec<char> = if n >= 2 && trimmed[0] == '(' && trimmed[n - 1] == ')' {
        let mut v: Vec<char> = Vec::new();
        let mut i: usize = 1;
        while i < n - 1
            invariant
                1 <= i <= n - 1,
                n == trimmed.len(),
                v@ == trimmed@.subrange(1, i as int),
            decreases n - 1 - i,
        {
            v.push(trimmed[i]);
            i = i + 1;
            assert(v@ =~= trimmed@.subrange(1, i as int));
        }
        v
    } else {
        trimmed
    };
    assert(inner@ == strip_parens(trim(text@)));
    let collapsed = collapse_ws_exec(&inner);
    let no_commas = trim_end_char_exec(&collapsed, ',');
    let normalized = trim_exec(&no_commas);
    let mut out: Vec<char> = Vec::new();
    out.push('(');
    let mut i: usize = 0;
    while i < normalized.len()
        invariant
            i <= normalized.len(),
            out@ == seq!['('] + normalized@.take(i as int),
        decreases normalized.len() - i,
    {
        out.push(normalized[i]);
        i = i + 1;
        assert(out@ =~= seq!['('] + normalized@.take(i as int));
    }
    out.push(')');
    assert(normalized@.take(normalized.len() as int) =~= normalized@);
    string_of(out.as_slice())
}

// ---------------------------------------------------------------------
// Qualified names.

/// The trailing segment after the last `sep`, if `sep` occurs.
pub open spec fn short_name_spec(q: Seq<char>, sep: Seq<char>) -> Option<Seq<char>> {
    if contains_seq(q, sep) {
        let i = choose|i: int| last_occurrence(q, sep, i);
        Some(q.skip(i + sep.len()))
    } else {
        None
    }
}

/// The leading segment before the last `sep`, if `sep` occurs.
pub open spec fn impl_type_prefix_spec(q: Seq<char>, sep: Seq<char>) -> Option<Seq<char>> {
    if contains_seq(q, sep) {
        let i = choose|i: int| last_occurrence(q, sep, i);
        Some(q.take(i))
    } else {
        None
    }
}

/// Key under which a symbol is filed by short name: its short name, or the
/// whole qualified name when it has no separator.
pub open spec fn short_key(q: Seq<char>, sep: Seq<char>) -> Seq<char> {
    match short_name_spec(q, sep) {
        Some(s) => s,
        None => q,
    }
}

proof fn lemma_last_occurrence_unique(q: Seq<char>, sep: Seq<char>, i: int, j: int)
    requires
        last_occurrence(q, sep, i),
        last_occurrence(q, sep, j),
    ensures
        i == j,
{
    if i < j {
        assert(!occurs_at(q, sep, j));
    } else if j < i {
        assert(!occurs_at(q, sep, i));
    }
}

/// The trailing segment of a qualified name (after the last separator), or
/// `None` for bare names.
pub fn short_name(qualified: &str, sep: &str) -> (r: Option<String>)
    ensures
        r.is_some() == short_name_spec(qualified@, sep@).is_some(),
        r.is_some() ==> r.unwrap()@ == short_name_spec(qualified@, sep@).unwrap(),
{
    let q = chars_of(qualified);
    let p = chars_of(sep);
    match rfind_exec(q.as_slice(), p.as_slice()) {
        Some(i) => {
            proof {
                let j = choose|j: int| last_occurrence(q@, p@, j);
                lemma_last_occurrence_unique(q@, p@, i as int, j);
            }
            assert(occurs_at(q@, p@, i as int));
            assert(q@.len() == q.len());
            assert(p@.len() == p.len());
            assert((i as int) + (p@.len() as int) <= q@.len());
            let start: usize = i + p.len();
            Some(substring(q.as_slice(), start, q.len()))
        },
        None => None,
    }
}

/// The leading segment of a qualified name (the `Type` in `Type::method`),
/// or `None` for bare names.
pub fn impl_type_prefix(qualified: &str, sep: &str) -> (r: Option<String>)
    ensures
        r.is_some() == impl_type_prefix_spec(qualified@, sep@).is_some(),
        r.is_some() ==> r.unwrap()@ == impl_type_prefix_spec(qualified@, sep@).unwrap(),
{
    let q = chars_of(qualified);
    let p = chars_of(sep);
    match rfind_exec(q.as_slice(), p.as_slice()) {
        Some(i) => {
            proof {
                let j = choose|j: int| last_occurrence(q@, p@, j);
                lemma_last_occurrence_unique(q@, p@, i as int, j);
            }
            Some(substring(q.as_slice(), 0, i))
        },
        None => None,
    }
}

/// Short-name key of a qualified name (exec).
pub fn short_key_exec(qualified: &str, sep: &str) -> (r: String)
    ensures
        r@ == short_key(qualified@, sep@),
{
    match short_name(qualified, sep) {
        Some(s) => s,
        None => String::from_str(qualified),
    }
}

// ---------------------------------------------------------------------
// Per-file symbol lookups.

/// Positions of the symbols filed under `name`, in table order.
pub open spec fn candidates_spec(symbols: Seq<SymbolV>, sep: Seq<char>, name: Seq<char>) -> Seq<usize>
    decreases symbols.len(),
{
    if symbols.len() == 0 {
        seq![]
    } else {
        let rest = candidates_spec(symbols.drop_last(), sep, name);
        if short_key(symbols.last().qualified_name, sep) == name {
            rest.push((symbols.len() - 1) as usize)
        } else {
            rest
        }
    }
}

/// Positions of the symbols whose short-name key is `name`, in order.
pub fn candidates_by_short(symbols: &Vec<Symbol>, sep: &str, name: &str) -> (r: Vec<usize>)
    ensures
        r@ == candidates_spec(symbol_views(symbols@), sep@, name@),
{
    let mut r: Vec<usize> = Vec::new();
    let mut i: usize = 0;
    let nm = chars_of(name);
    while i < symbols.len()
        invariant
            i <= symbols.len(),
            nm@ == name@,
            r@ == candidates_spec(symbol_views(symbols@).take(i as int), sep@, name@),
        decreases symbols.len() - i,
    {
        let k = short_key_exec(symbols[i].qualified_name.as_str(), sep);
        let kc = chars_of(k.as_str());
        assert(symbol_views(symbols@).take(i + 1).drop_last() =~= symbol_views(symbols@).take(i as int));
        if chars_eq(kc.as_slice(), nm.as_slice()) {
            r.push(i);
        }
        i = i + 1;
    }
    assert(symbol_views(symbols@).take(symbols.len() as int) =~= symbol_views(symbols@));
    r
}

/// Some bucket is keyed by `name`.
pub open spec fn has_bucket(r: Seq<ShortBucket>, name: Seq<char>) -> bool {
    exists|b: int| 0 <= b < r.len() && r[b].name@ == name
}

/// One short-name bucket: the key and the positions of its symbols.
pub struct ShortBucket {
    pub name: String,
    pub members: Vec<usize>,
}

/// Number of symbols whose short-name key is one of `names`.
pub open spec fn count_keyed(symbols: Seq<SymbolV>, sep: Seq<char>, names: Seq<Seq<char>>) -> nat
    decreases symbols.len(),
{
    if symbols.len() == 0 {
        0
    } else {
        count_keyed(symbols.drop_last(), sep, names)
            + if names.contains(short_key(symbols.last().qualified_name, sep)) { 1nat } else { 0nat }
    }
}

/// The keys of the buckets, in order.
pub open spec fn bucket_names(r: Seq<ShortBucket>) -> Seq<Seq<char>> {
    r.map_values(|b: ShortBucket| b.name@)
}

/// Members over all buckets.
pub open spec fn total_members(r: Seq<ShortBucket>) -> nat
    decreases r.len(),
{
    if r.len() == 0 { 0 } else { total_members(r.drop_last()) + r.last().members@.len() }
}

proof fn lemma_candidates_count(symbols: Seq<SymbolV>, sep: Seq<char>, name: Seq<char>)
    ensures
        candidates_spec(symbols, sep, name).len() == count_keyed(symbols, sep, seq![name]),
    decreases symbols.len(),
{
    if symbols.len() > 0 {
        lemma_candidates_count(symbols.drop_last(), sep, name);
        let k = short_key(symbols.last().qualified_name, sep);
        assert(seq![name].contains(k) <==> k == name) by {
            if seq![name].contains(k) {
                let j = choose|j: int| 0 <= j < 1 && seq![name][j] == k;
            }
            if k == name {
                assert(seq![name][0] == k);
            }
        }
    }
}

proof fn lemma_count_push(symbols: Seq<SymbolV>, sep: Seq<char>, names: Seq<Seq<char>>, name: Seq<char>)
    requires
        !names.contains(name),
    ensures
        count_keyed(symbols, sep, names.push(name)) == count_keyed(symbols, sep, names) + count_keyed(symbols, sep, seq![name]),
    decreases symbols.len(),
{
    if symbols.len() > 0 {
        lemma_count_push(symbols.drop_last(), sep, names, name);
        let k = short_key(symbols.last().qualified_name, sep);
        assert(names.push(name).contains(k) <==> (names.contains(k) || k == name)) by {
            if names.push(name).contains(k) {
                let j = choose|j: int| 0 <= j < names.len() + 1 && names.push(name)[j] == k;
                if j < names.len() {
                    assert(names[j] == k);
                }
            }
            if names.contains(k) {
                let j = choose|j: int| 0 <= j < names.len() && names[j] == k;
                assert(names.push(name)[j] == k);
            }
            if k == name {
                assert(names.push(name)[names.len() as int] == k);
            }
        }
        assert(seq![name].contains(k) <==> k == name) by {
            if seq![name].contains(k) {
                let j = choose|j: int| 0 <= j < 1 && seq![name][j] == k;
            }
            if k == name {
                assert(seq![name][0] == k);
            }
        }
    }
}

proof fn lemma_count_none(symbols: Seq<SymbolV>, sep: Seq<char>, names: Seq<Seq<char>>)
    requires
        names.len() == 0,
    ensures
        count_keyed(symbols, sep, names) == 0,
    decreases symbols.len(),
{
    if symbols.len() > 0 {
        lemma_count_none(symbols.drop_last(), sep, names);
    }
}

proof fn lemma_count_all(symbols: Seq<SymbolV>, sep: Seq<char>, names: Seq<Seq<char>>)
    requires
        forall|i: int| 0 <= i < symbols.len() ==> names.contains(short_key(#[trigger] symbols[i].qualified_name, sep)),
    ensures
        count_keyed(symbols, sep, names) == symbols.len(),
    decreases symbols.len(),
{
    if symbols.len() > 0 {
        assert forall|i: int| 0 <= i < symbols.drop_last().len() implies names.contains(short_key(#[trigger] symbols.drop_last()[i].qualified_name, sep)) by {
            assert(symbols.drop_last()[i] == symbols[i]);
        }
        lemma_count_all(symbols.drop_last(), sep, names);
        assert(names.contains(short_key(symbols[symbols.len() - 1].qualified_name, sep)));
    }
}

proof fn lemma_count_positive(symbols: Seq<SymbolV>, sep: Seq<char>, name: Seq<char>, k: int)
    requires
        0 <= k < symbols.len(),
        short_key(symbols[k].qualified_name, sep) == name,
    ensures
        count_keyed(symbols, sep, seq![name]) > 0,
    decreases symbols.len(),
{
    if k < symbols.len() - 1 {
        assert(symbols.drop_last()[k] == symbols[k]);
        lemma_count_positive(symbols.drop_last(), sep, name, k);
    } else {
        assert(seq![name][0] == name);
    }
}

/// Bucket symbols by their short (post-last-separator) name. Every symbol's
/// key has exactly one bucket, and a bucket lists all symbols filed under
/// its key, in table order. Every bucket is the key of some symbol, so
/// none is empty, and the buckets together hold each symbol once.
pub fn symbols_by_short(symbols: &Vec<Symbol>, sep: &str) -> (r: Vec<ShortBucket>)
    ensures
        forall|b: int| 0 <= b < r@.len() ==> r@[b].members@ == candidates_spec(symbol_views(symbols@), sep@, r@[b].name@),
        forall|b: int, c: int| 0 <= b < c < r@.len() ==> r@[b].name@ != r@[c].name@,
        forall|i: int| 0 <= i < symbols@.len() ==> has_bucket(r@, short_key(#[trigger] symbols@[i].qualified_name@, sep@)),
        forall|b: int| #![trigger r@[b]] 0 <= b < r@.len() ==> exists|k: int| 0 <= k < symbols@.len()
            && short_key(#[trigger] symbols@[k].qualified_name@, sep@) == r@[b].name@,
        forall|b: int| 0 <= b < r@.len() ==> (#[trigger] r@[b]).members@.len() > 0,
        total_members(r@) == symbols@.len(),
{
    let mut r: Vec<ShortBucket> = Vec::new();
    proof {
        lemma_count_none(symbol_views(symbols@), sep@, bucket_names(r@));
    }
    let mut i: usize = 0;
    while i < symbols.len()
        invariant
            i <= symbols.len(),
            forall|b: int| 0 <= b < r@.len() ==> r@[b].members@ == candidates_spec(symbol_views(symbols@), sep@, r@[b].name@),
            forall|b: int, c: int| 0 <= b < c < r@.len() ==> r@[b].name@ != r@[c].name@,
            forall|k: int| 0 <= k < i ==> has_bucket(r@, short_key(#[trigger] symbols@[k].qualified_name@, sep@)),
            forall|b: int| #![trigger r@[b]] 0 <= b < r@.len() ==> exists|k: int| 0 <= k < i
                && short_key(#[trigger] symbols@[k].qualified_name@, sep@) == r@[b].name@,
            total_members(r@) == count_keyed(symbol_views(symbols@), sep@, bucket_names(r@)),
        decreases symbols.len() - i,
    {
        let key = short_key_exec(symbols[i].qualified_name.as_str(), sep);
        let kc = chars_of(key.as_str());
        let mut found = false;
        let mut b: usize = 0;
        while b < r.len()
            invariant
                b <= r.len(),
                kc@ == key@,
                found ==> exists|x: int| 0 <= x < r@.len() && r@[x].name@ == key@,
                !found ==> forall|x: int| 0 <= x < b ==> r@[x].name@ != key@,
            decreases r.len() - b,
        {
            let bc = chars_of(r[b].name.as_str());
            if chars_eq(bc.as_slice(), kc.as_slice()) {
                found = true;
            }
            b = b + 1;
        }
        let ghost before = r@;
        if found {
            proof {
                let x = choose|x: int| 0 <= x < r@.len() && r@[x].name@ == key@;
                assert(r@[x].name@ == short_key(symbols@[i as int].qualified_name@, sep@));
            }
        }
        if !found {
            let members = candidates_by_short(symbols, sep, key.as_str());
            let ghost old_r = r@;
            r.push(ShortBucket { name: key, members });
            proof {
                let kv = short_key(symbols@[i as int].qualified_name@, sep@);
                assert(bucket_names(r@) =~= bucket_names(old_r).push(kv));
                assert(!bucket_names(old_r).contains(kv)) by {
                    if bucket_names(old_r).contains(kv) {
                        let x = choose|x: int| 0 <= x < bucket_names(old_r).len() && bucket_names(old_r)[x] == kv;
                        assert(old_r[x].name@ == kv);
                    }
                }
                lemma_count_push(symbol_views(symbols@), sep@, bucket_names(old_r), kv);
                lemma_candidates_count(symbol_views(symbols@), sep@, kv);
                assert(r@.drop_last() =~= old_r);
                assert forall|b: int| #![trigger r@[b]] 0 <= b < r@.len() implies exists|k: int| 0 <= k < i + 1
                    && short_key(#[trigger] symbols@[k].qualified_name@, sep@) == r@[b].name@ by {
                    if b < old_r.len() {
                        assert(r@[b] == old_r[b]);
                        let k = choose|k: int| 0 <= k < i && short_key(#[trigger] symbols@[k].qualified_name@, sep@) == old_r[b].name@;
                    } else {
                        assert(short_key(symbols@[i as int].qualified_name@, sep@) == r@[b].name@);
                    }
                }
                assert forall|k: int| 0 <= k < i implies has_bucket(r@, short_key(#[trigger] symbols@[k].qualified_name@, sep@)) by {
                    let b = choose|b: int| 0 <= b < old_r.len() && old_r[b].name@ == short_key(symbols@[k].qualified_name@, sep@);
                    assert(r@[b] == old_r[b]);
                }
                assert(r@[r@.len() - 1].name@ == short_key(symbols@[i as int].qualified_name@, sep@));
            }
        }
        i = i + 1;
    }
    proof {
        assert forall|k: int| 0 <= k < symbols@.len() implies bucket_names(r@).contains(short_key(#[trigger] symbols@[k].qualified_name@, sep@)) by {
            let b = choose|b: int| 0 <= b < r@.len() && r@[b].name@ == short_key(symbols@[k].qualified_name@, sep@);
            assert(bucket_names(r@)[b] == r@[b].name@);
        }
        lemma_count_all(symbol_views(symbols@), sep@, bucket_names(r@));
        assert forall|b: int| 0 <= b < r@.len() implies (#[trigger] r@[b]).members@.len() > 0 by {
            let k = choose|k: int| 0 <= k < symbols@.len() && short_key(#[trigger] symbols@[k].qualified_name@, sep@) == r@[b].name@;
            lemma_count_positive(symbol_views(symbols@), sep@, r@[b].name@, k);
            lemma_candidates_count(symbol_views(symbols@), sep@, r@[b].name@);
        }
    }
    r
}

/// Candidates (by position) whose impl-type prefix equals `prefix`.
pub open spec fn same_prefix_filter(symbols: Seq<SymbolV>, candidates: Seq<usize>, sep: Seq<char>, prefix: Seq<char>) -> Seq<usize>
    decreases candidates.len(),
{
    if candidates.len() == 0 {
        seq![]
    } else {
        let rest = same_prefix_filter(symbols, candidates.drop_last(), sep, prefix);
        if impl_type_prefix_spec(symbols[candidates.last() as int].qualified_name, sep) == Some(prefix) {
            rest.push(candidates.last())
        } else {
            rest
        }
    }
}

proof fn lemma_same_prefix_subset(symbols: Seq<SymbolV>, candidates: Seq<usize>, sep: Seq<char>, prefix: Seq<char>)
    requires
        forall|k: int| 0 <= k < candidates.len() ==> (candidates[k] as int) < symbols.len(),
    ensures
        forall|k: int| 0 <= k < same_prefix_filter(symbols, candidates, sep, prefix).len() ==> (#[trigger] same_prefix_filter(symbols, candidates, sep, prefix)[k] as int) < symbols.len(),
    decreases candidates.len(),
{
    if candidates.len() > 0 {
        lemma_same_prefix_subset(symbols, candidates.drop_last(), sep, prefix);
        let rest = same_prefix_filter(symbols, candidates.drop_last(), sep, prefix);
        assert forall|k: int| 0 <= k < rest.push(candidates.last()).len() implies (#[trigger] rest.push(candidates.last())[k] as int) < symbols.len() by {
            if k < rest.len() {
                assert(rest.push(candidates.last())[k] == rest[k]);
            }
        }
    }
}

/// Intra-file target of a method-position call: the candidates sharing
/// the caller's impl-type prefix, provided they all carry one qualified
/// name (inherent and trait impls of one method collapse to one target).
pub open spec fn pick_method_target_spec(symbols: Seq<SymbolV>, candidates: Seq<usize>, caller: Option<usize>, sep: Seq<char>) -> Option<usize> {
    match caller {
        None => None,
        Some(c) => match impl_type_prefix_spec(symbols[c as int].qualified_name, sep) {
            None => None,
            Some(prefix) => {
                let m = same_prefix_filter(symbols, candidates, sep, prefix);
                if m.len() > 0 && forall|k: int| 0 <= k < m.len() ==> symbols[#[trigger] m[k] as int].qualified_name == symbols[m[0] as int].qualified_name {
                    Some(m[0])
                } else {
                    None
                }
            },
        },
    }
}

/// Disambiguate intra-file short-name candidates for a method-position call:
/// require the candidate to share the caller's impl-type prefix, then dedupe
/// by qualified name.
pub fn pick_method_target(symbols: &Vec<Symbol>, candidates: &Vec<usize>, caller: Option<usize>, sep: &str) -> (r: Option<usize>)
    requires
        forall|k: int| 0 <= k < candidates@.len() ==> (candidates@[k] as int) < symbols@.len(),
        caller.is_some() ==> (caller.unwrap() as int) < symbols@.len(),
    ensures
        r == pick_method_target_spec(symbol_views(symbols@), candidates@, caller, sep@),
{
    let c = match caller {
        Some(c) => c,
        None => return None,
    };
    let prefix = match impl_type_prefix(symbols[c].qualified_name.as_str(), sep) {
        Some(p) => p,
        None => return None,
    };
    let pc = chars_of(prefix.as_str());
    let ghost m = same_prefix_filter(symbol_views(symbols@), candidates@, sep@, prefix@);
    let mut matching: Vec<usize> = Vec::new();
    let mut i: usize = 0;
    while i < candidates.len()
        invariant
            i <= candidates.len(),
            pc@ == prefix@,
            forall|k: int| 0 <= k < candidates@.len() ==> (candidates@[k] as int) < symbols@.len(),
            matching@ == same_prefix_filter(symbol_views(symbols@), candidates@.take(i as int), sep@, prefix@),
        decreases candidates.len() - i,
    {
        let cand = candidates[i];
        let p2 = impl_type_prefix(symbols[cand].qualified_name.as_str(), sep);
        let hit = match &p2 {
            Some(p) => {
                let p2c = chars_of(p.as_str());
                chars_eq(p2c.as_slice(), pc.as_slice())
            },
            None => false,
        };
        assert(candidates@.take(i + 1).drop_last() =~= candidates@.take(i as int));
        assert(candidates@.take(i + 1).last() == cand);
        if hit {
            matching.push(cand);
        }
        i = i + 1;
    }
    assert(candidates@.take(candidates.len() as int) =~= candidates@);
    assert(matching@ == m);
    proof {
        lemma_same_prefix_subset(symbol_views(symbols@), candidates@, sep@, prefix@);
    }
    if matching.len() == 0 {
        return None;
    }
    let first = chars_of(symbols[matching[0]].qualified_name.as_str());
    let mut k: usize = 1;
    assert(forall|j: int| 0 <= j < m.len() ==> m.contains(m[j]));
    while k < matching.len()
        invariant
            1 <= k <= matching.len(),
            matching@ == m,
            (c as int) < symbols@.len(),
            caller == Some(c),
            impl_type_prefix_spec(symbols@[c as int].qualified_name@, sep@) == Some(prefix@),
            m == same_prefix_filter(symbol_views(symbols@), candidates@, sep@, prefix@),
            first@ == symbols@[m[0] as int].qualified_name@,
            forall|j: int| 0 <= j < matching@.len() ==> (matching@[j] as int) < symbols@.len(),
            forall|j: int| 0 <= j < k ==> symbols@[m[j] as int].qualified_name@ == first@,
        decreases matching.len() - k,
    {
        let other = chars_of(symbols[matching[k]].qualified_name.as_str());
        if !chars_eq(other.as_slice(), first.as_slice()) {
            assert(symbols@[m[k as int] as int].qualified_name@ != symbols@[m[0] as int].qualified_name@);
            assert(!(forall|j: int| 0 <= j < m.len() ==> symbols@[#[trigger] m[j] as int].qualified_name@ == symbols@[m[0] as int].qualified_name@));
            assert(impl_type_prefix_spec(symbols@[c as int].qualified_name@, sep@) == Some(prefix@));
            return None;
        }
        k = k + 1;
    }
    Some(matching[0])
}

// ---------------------------------------------------------------------
// Constructor-call filter.

/// Which symbol kinds make a same-named call a type construction.
#[derive(Copy, Clone, PartialEq, Eq, Structural)]
pub enum TypeKinds {
    /// Rust: structs, enums, traits, type aliases.
    Rust,
    /// Python: classes.
    Python,
    /// TypeScript: classes, interfaces, type aliases.
    TypeScript,
}

pub open spec fn is_type_kind(set: TypeKinds, k: SymbolKind) -> bool {
    match set {
        TypeKinds::Rust => k == SymbolKind::Struct || k == SymbolKind::Enum || k == SymbolKind::Trait || k == SymbolKind::TypeAlias,
        TypeKinds::Python => k == SymbolKind::Struct,
        TypeKinds::TypeScript => k == SymbolKind::Struct || k == SymbolKind::Trait || k == SymbolKind::TypeAlias,
    }
}

fn is_type_kind_exec(set: TypeKinds, k: SymbolKind) -> (r: bool)
    ensures
        r == is_type_kind(set, k),
{
    match set {
        TypeKinds::Rust => matches!(k, SymbolKind::Struct | SymbolKind::Enum | SymbolKind::Trait | SymbolKind::TypeAlias),
        TypeKinds::Python => matches!(k, SymbolKind::Struct),
        TypeKinds::TypeScript => matches!(k, SymbolKind::Struct | SymbolKind::Trait | SymbolKind::TypeAlias),
    }
}

/// Kinds that can be called by name (functions, methods, macros, and
/// consts / statics holding function pointers).
pub open spec fn is_callable_like(k: SymbolKind) -> bool {
    k == SymbolKind::Function || k == SymbolKind::Method || k == SymbolKind::Macro || k == SymbolKind::Const || k == SymbolKind::Static
}

/// Text after the last `sep` (the whole text when `sep` is absent).
pub open spec fn last_segment(name: Seq<char>, sep: Seq<char>) -> Seq<char> {
    short_key(name, sep)
}

/// Starts with an ASCII uppercase letter and holds no `_`.
pub open spec fn pascal_like(s: Seq<char>) -> bool {
    s.len() > 0 && 'A' <= s[0] && s[0] <= 'Z' && !s.contains('_')
}

pub open spec fn is_constructor_call_spec(name: Seq<char>, symbols: Seq<SymbolV>, sep: Seq<char>, stdlib_variants: Seq<Seq<char>>, kinds: TypeKinds) -> bool {
    let cands = candidates_spec(symbols, sep, name);
    ||| stdlib_variants.contains(name)
    ||| exists|k: int| 0 <= k < cands.len() && is_type_kind(kinds, symbols[cands[k] as int].kind)
    ||| (pascal_like(last_segment(name, sep))
        && !exists|k: int| 0 <= k < cands.len() && is_callable_like(symbols[cands[k] as int].kind))
}

pub proof fn lemma_candidates_in_range(symbols: Seq<SymbolV>, sep: Seq<char>, name: Seq<char>)
    ensures
        forall|k: int| 0 <= k < candidates_spec(symbols, sep, name).len() ==> (#[trigger] candidates_spec(symbols, sep, name)[k] as int) < symbols.len(),
    decreases symbols.len(),
{
    if symbols.len() > 0 {
        lemma_candidates_in_range(symbols.drop_last(), sep, name);
        let rest = candidates_spec(symbols.drop_last(), sep, name);
        let x = (symbols.len() - 1) as usize;
        assert forall|k: int| 0 <= k < rest.push(x).len() implies (#[trigger] rest.push(x)[k] as int) < symbols.len() by {
            if k < rest.len() {
                assert(rest.push(x)[k] == rest[k]);
            }
        }
    }
}

/// Shared `Foo(x)` → constructor filter: the call names a standard variant
/// constructor, a same-file type, or is PascalCase with no same-file
/// callable of that name.
pub fn is_constructor_call(name: &str, symbols: &Vec<Symbol>, sep: &str, stdlib_variants: &Vec<&str>, kinds: TypeKinds) -> (r: bool)
    ensures
        r == is_constructor_call_spec(name@, symbol_views(symbols@), sep@, stdlib_variants@.map_values(|s: &str| s@), kinds),
{
    let ghost std_names = stdlib_variants@.map_values(|s: &str| s@);
    let mut i: usize = 0;
    while i < stdlib_variants.len()
        invariant
            i <= stdlib_variants.len(),
            std_names == stdlib_variants@.map_values(|s: &str| s@),
            forall|j: int| 0 <= j < i ==> std_names[j] != name@,
        decreases stdlib_variants.len() - i,
    {
        if crate::text::str_eq(stdlib_variants[i], name) {
            assert(std_names[i as int] == name@);
            return true;
        }
        i = i + 1;
    }
    assert(!std_names.contains(name@));
    let cands = candidates_by_short(symbols, sep, name);
    proof {
        lemma_candidates_in_range(symbol_views(symbols@), sep@, name@);
    }
    let mut k: usize = 0;
    let mut any_callable = false;
    while k < cands.len()
        invariant
            k <= cands.len(),
            cands@ == candidates_spec(symbol_views(symbols@), sep@, name@),
            forall|j: int| 0 <= j < cands@.len() ==> (cands@[j] as int) < symbols@.len(),
            forall|j: int| 0 <= j < k ==> !is_type_kind(kinds, symbols@[cands@[j] as int].kind),
            any_callable == exists|j: int| 0 <= j < k && is_callable_like(symbols@[cands@[j] as int].kind),
        decreases cands.len() - k,
    {
        let kind = symbols[cands[k]].kind;
        if is_type_kind_exec(kinds, kind) {
            return true;
        }
        if matches!(kind, SymbolKind::Function | SymbolKind::Method | SymbolKind::Macro | SymbolKind::Const | SymbolKind::Static) {
            any_callable = true;
        }
        k = k + 1;
    }
    let seg_s = short_key_exec(name, sep);
    let seg = chars_of(seg_s.as_str());
    let mut pascal = seg.len() > 0 && 'A' <= seg[0] && seg[0] <= 'Z';
    let mut j: usize = 0;
    while j < seg.len()
        invariant
            j <= seg.len(),
            seg@ == last_segment(name@, sep@),
            pascal ==> forall|x: int| 0 <= x < j ==> seg@[x] != '_',
            pascal ==> (seg@.len() > 0 && 'A' <= seg@[0] && seg@[0] <= 'Z'),
            !pascal ==> !pascal_like(seg@),
        decreases seg.len() - j,
    {
        if seg[j] == '_' {
            pascal = false;
        }
        j = j + 1;
    }
    pascal && !any_callable
}

/// Smallest symbol (by anchor width) whose anchor contains byte `start`;
/// the first such in table order on ties.
pub open spec fn encloses(s: SymbolV, start: u64) -> bool {
    s.anchor.start_byte <= start && start < s.anchor.end_byte
}

pub open spec fn width(s: SymbolV) -> int {
    s.anchor.end_byte - s.anchor.start_byte
}

pub open spec fn is_enclosing_definition(symbols: Seq<SymbolV>, start: u64, r: Option<usize>) -> bool {
    match r {
        None => forall|k: int| 0 <= k < symbols.len() ==> !encloses(#[trigger] symbols[k], start),
        Some(i) => {
            &&& (i as int) < symbols.len()
            &&& encloses(symbols[i as int], start)
            &&& forall|k: int| 0 <= k < symbols.len() && encloses(#[trigger] symbols[k], start) ==> width(symbols[i as int]) <= width(symbols[k])
            &&& forall|k: int| 0 <= k < i && encloses(#[trigger] symbols[k], start) ==> width(symbols[i as int]) < width(symbols[k])
        },
    }
}

/// Smallest symbol whose anchor contains the byte offset `start`.
pub fn find_enclosing_definition(start: u64, symbols: &Vec<Symbol>) -> (r: Option<usize>)
    ensures
        is_enclosing_definition(symbol_views(symbols@), start, r),
{
    let mut best: Option<usize> = None;
    let mut i: usize = 0;
    while i < symbols.len()
        invariant
            i <= symbols.len(),
            is_enclosing_definition(symbol_views(symbols@).take(i as int), start, best),
        decreases symbols.len() - i,
    {
        let s = &symbols[i];
        if s.anchor.start_byte <= start && start < s.anchor.end_byte {
            match best {
                None => {
                    best = Some(i);
                },
                Some(b) => {
                    if s.anchor.end_byte - s.anchor.start_byte < symbols[b].anchor.end_byte - symbols[b].anchor.start_byte {
                        best = Some(i);
                    }
                },
            }
        }
        i = i + 1;
        assert(symbol_views(symbols@).take(i as int).drop_last() =~= symbol_views(symbols@).take(i - 1));
    }
    assert(symbol_views(symbols@).take(symbols.len() as int) =~= symbol_views(symbols@));
    best
}


/// The method target, when there is one, is one of the symbols.
pub proof fn lemma_pick_in_range(symbols: Seq<SymbolV>, candidates: Seq<usize>, caller: Option<usize>, sep: Seq<char>)
    requires
        forall|k: int| 0 <= k < candidates.len() ==> (candidates[k] as int) < symbols.len(),
    ensures
        pick_method_target_spec(symbols, candidates, caller, sep).is_some() ==>
            (pick_method_target_spec(symbols, candidates, caller, sep).unwrap() as int) < symbols.len(),
{
    match caller {
        Some(c) => match impl_type_prefix_spec(symbols[c as int].qualified_name, sep) {
            Some(prefix) => {
                lemma_same_prefix_subset(symbols, candidates, sep, prefix);
            },
            None => {},
        },
        None => {},
    }
}


proof fn lemma_last_occurrence_exists(q: Seq<char>, sep: Seq<char>, k: int)
    requires
        occurs_at(q, sep, k),
    ensures
        exists|i: int| last_occurrence(q, sep, i),
    decreases q.len() - k,
{
    if forall|j: int| k < j ==> !occurs_at(q, sep, j) {
        assert(last_occurrence(q, sep, k));
    } else {
        let j = choose|j: int| k < j && occurs_at(q, sep, j);
        lemma_last_occurrence_exists(q, sep, j);
    }
}

/// A qualified name splits at its last separator: it has a short name
/// exactly when it has a type prefix, and prefix, separator and short name
/// put back together give the name.
pub proof fn law_prefix_and_short_name_rebuild(q: Seq<char>, sep: Seq<char>)
    ensures
        short_name_spec(q, sep).is_some() == impl_type_prefix_spec(q, sep).is_some(),
        short_name_spec(q, sep).is_some() ==>
            impl_type_prefix_spec(q, sep).unwrap() + sep + short_name_spec(q, sep).unwrap() == q,
{
    if contains_seq(q, sep) {
        let k = choose|k: int| occurs_at(q, sep, k);
        lemma_last_occurrence_exists(q, sep, k);
        let i = choose|i: int| last_occurrence(q, sep, i);
        assert(occurs_at(q, sep, i));
        assert(q.take(i) + sep + q.skip(i + sep.len()) =~= q);
    }
}

} // verus!
