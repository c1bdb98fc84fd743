//! Character-level string helpers shared by every module. Strings are
//! modelled by their `Seq<char>` view.
use vstd::prelude::*;

verus! {

/// Appends one character to a string (std `String::push`).
#[verifier::external_body]
pub(crate) fn push_char(s: &mut String, c: char)
    ensures
        final(s)@ == old(s)@.push(c),
{
    s.push(c);
}

/// Lower-cases a string the way std's `str::to_lowercase` does (full
/// Unicode case mapping).
pub uninterp spec fn unicode_lowercase(s: Seq<char>) -> Seq<char>;

/// std `str::to_lowercase`: the result is the Unicode lower-case mapping
/// of the input, a function of the input alone.
#[verifier::external_body]
pub(crate) fn to_lowercase(s: &str) -> (r: String)
    ensures
        r@ == unicode_lowercase(s@),
{
    s.to_lowercase()
}

/// The characters of a string slice, in order.
pub fn chars_of(s: &str) -> (v: Vec<char>)
    ensures
        v@ == s@,
{
    let mut v: Vec<char> = Vec::new();
    for c in it: s.chars()
        invariant
            v@ == it.seq().take(it.index() as int),
    {
        v.push(c);
    }
    v
}

/// A string holding exactly the given characters.
pub fn string_of(v: &[char]) -> (s: String)
    ensures
        s@ == v@,
{
    let mut s = String::new();
    let mut i: usize = 0;
    while i < v.len()
        invariant
            i <= v.len(),
            s@ == v@.take(i as int),
        decreases v.len() - i,
    {
        push_char(&mut s, v[i]);
        i = i + 1;
        assert(s@ =~= v@.take(i as int));
    }
    assert(v@.take(v.len() as int) =~= v@);
    s
}

/// Characters `from..to` of a slice as a new string.
pub fn substring(v: &[char], from: usize, to: usize) -> (s: String)
    requires
        from <= to <= v.len(),
    ensures
        s@ == v@.subrange(from as int, to as int),
{
    let mut s = String::new();
    let mut i: usize = from;
    while i < to
        invariant
            from <= i <= to <= v.len(),
            s@ == v@.subrange(from as int, i as int),
        decreases to - i,
    {
        push_char(&mut s, v[i]);
        i = i + 1;
        assert(s@ =~= v@.subrange(from as int, i as int));
    }
    s
}

/// Copy of a string with the same contents.
pub fn copy_string(s: &String) -> (r: String)
    ensures
        r == *s,
        r@ == s@,
{
    s.clone()
}

/// Copy of an optional string with the same contents.
pub fn copy_opt_string(s: &Option<String>) -> (r: Option<String>)
    ensures
        r == *s,
        r.is_some() == s.is_some(),
        r.is_some() ==> r.unwrap()@ == s.unwrap()@,
{
    match s {
        Some(x) => Some(x.clone()),
        None => None,
    }
}

/// Concatenation of two strings.
pub fn concat(a: &str, b: &str) -> (r: String)
    ensures
        r@ == a@ + b@,
{
    let mut r = String::from_str(a);
    r.append(b);
    r
}

pub open spec fn starts_with(s: Seq<char>, p: Seq<char>) -> bool {
    p.len() <= s.len() && s.subrange(0, p.len() as int) == p
}

pub open spec fn ends_with(s: Seq<char>, p: Seq<char>) -> bool {
    p.len() <= s.len() && s.subrange(s.len() - p.len(), s.len() as int) == p
}

/// `p` occurs in `s` starting at index `i`.
pub open spec fn occurs_at(s: Seq<char>, p: Seq<char>, i: int) -> bool {
    0 <= i && i + p.len() <= s.len() && s.subrange(i, i + p.len()) == p
}

pub open spec fn contains_seq(s: Seq<char>, p: Seq<char>) -> bool {
    exists|i: int| occurs_at(s, p, i)
}

/// Whether `p` occurs in `s` at index `i` (exec).
pub fn occurs_at_exec(s: &[char], p: &[char], i: usize) -> (r: bool)
    ensures
        r == occurs_at(s@, p@, i as int),
{
    if i > s.len() || p.len() > s.len() - i {
        return false;
    }
    let mut k: usize = 0;
    while k < p.len()
        invariant
            i + p.len() <= s.len(),
            k <= p.len(),
            forall|j: int| 0 <= j < k ==> s@[i + j] == p@[j],
        decreases p.len() - k,
    {
        if s[i + k] != p[k] {
            assert(s@.subrange(i as int, i + p.len())[k as int] != p@[k as int]);
            return false;
        }
        k = k + 1;
    }
    assert(s@.subrange(i as int, i + p.len()) =~= p@);
    true
}

pub fn starts_with_exec(s: &[char], p: &[char]) -> (r: bool)
    ensures
        r == starts_with(s@, p@),
{
    occurs_at_exec(s, p, 0)
}

pub fn ends_with_exec(s: &[char], p: &[char]) -> (r: bool)
    ensures
        r == ends_with(s@, p@),
{
    if p.len() > s.len() {
        return false;
    }
    occurs_at_exec(s, p, s.len() - p.len())
}

/// First index at which `p` occurs in `s`, if any.
pub open spec fn first_occurrence(s: Seq<char>, p: Seq<char>, i: int) -> bool {
    occurs_at(s, p, i) && forall|j: int| 0 <= j < i ==> !occurs_at(s, p, j)
}

/// First occurrence of `p` in `s` (std `str::find`).
pub fn find_exec(s: &[char], p: &[char]) -> (r: Option<usize>)
    ensures
        r.is_some() ==> first_occurrence(s@, p@, r.unwrap() as int),
        r.is_none() ==> !contains_seq(s@, p@),
{
    let mut i: usize = 0;
    while i < s.len()
        invariant
            i <= s.len(),
            forall|j: int| 0 <= j < i ==> !occurs_at(s@, p@, j),
        decreases s.len() - i,
    {
        if occurs_at_exec(s, p, i) {
            return Some(i);
        }
        i = i + 1;
    }
    if occurs_at_exec(s, p, i) {
        return Some(i);
    }
    assert forall|j: int| !occurs_at(s@, p@, j) by {
        if 0 <= j && j < i {
        }
    }
    None
}

pub fn contains_exec(s: &[char], p: &[char]) -> (r: bool)
    ensures
        r == contains_seq(s@, p@),
{
    find_exec(s, p).is_some()
}

/// Last index at which `p` occurs in `s`.
pub open spec fn last_occurrence(s: Seq<char>, p: Seq<char>, i: int) -> bool {
    occurs_at(s, p, i) && forall|j: int| i < j ==> !occurs_at(s, p, j)
}

/// Last occurrence of `p` in `s`, if any (std `str::rfind`).
pub fn rfind_exec(s: &[char], p: &[char]) -> (r: Option<usize>)
    ensures
        r.is_some() ==> last_occurrence(s@, p@, r.unwrap() as int),
        r.is_none() ==> !contains_seq(s@, p@),
{
    if p.len() > s.len() {
        return None;
    }
    let mut i: usize = s.len() - p.len();
    loop
        invariant
            i <= s.len() - p.len(),
            p.len() <= s.len(),
            forall|j: int| i < j ==> !occurs_at(s@, p@, j),
        decreases i,
    {
        if occurs_at_exec(s, p, i) {
            return Some(i);
        }
        if i == 0 {
            return None;
        }
        i = i - 1;
    }
}

/// Whether a character is Unicode `White_Space` (std `char::is_whitespace`).
pub open spec fn is_ws(c: char) -> bool {
    ||| ('\t' <= c && c <= '\r')
    ||| c == ' '
    ||| c == '\u{85}'
    ||| c == '\u{a0}'
    ||| c == '\u{1680}'
    ||| ('\u{2000}' <= c && c <= '\u{200a}')
    ||| c == '\u{2028}'
    ||| c == '\u{2029}'
    ||| c == '\u{202f}'
    ||| c == '\u{205f}'
    ||| c == '\u{3000}'
}

pub fn is_ws_exec(c: char) -> (r: bool)
    ensures
        r == is_ws(c),
{
    ('\t' <= c && c <= '\r') || c == ' ' || c == '\u{85}' || c == '\u{a0}' || c == '\u{1680}'
        || ('\u{2000}' <= c && c <= '\u{200a}') || c == '\u{2028}' || c == '\u{2029}' || c
        == '\u{202f}' || c == '\u{205f}' || c == '\u{3000}'
}

/// Decimal digits of a natural number, most significant first.
pub open spec fn decimal(n: nat) -> Seq<char>
    decreases n,
{
    if n < 10 {
        seq![digit_char(n)]
    } else {
        decimal(n / 10).push(digit_char(n % 10))
    }
}

pub open spec fn digit_char(d: nat) -> char {
    if d == 0 { '0' }
    else if d == 1 { '1' }
    else if d == 2 { '2' }
    else if d == 3 { '3' }
    else if d == 4 { '4' }
    else if d == 5 { '5' }
    else if d == 6 { '6' }
    else if d == 7 { '7' }
    else if d == 8 { '8' }
    else { '9' }
}

fn digit_char_exec(d: u64) -> (c: char)
    requires
        d < 10,
    ensures
        c == digit_char(d as nat),
{
    if d == 0 { '0' }
    else if d == 1 { '1' }
    else if d == 2 { '2' }
    else if d == 3 { '3' }
    else if d == 4 { '4' }
    else if d == 5 { '5' }
    else if d == 6 { '6' }
    else if d == 7 { '7' }
    else if d == 8 { '8' }
    else { '9' }
}

/// Appends the decimal rendering of `n` (as `format!("{n}")` would).
pub fn push_decimal(s: &mut String, n: u64)
    ensures
        final(s)@ == old(s)@ + decimal(n as nat),
    decreases n,
{
    if n < 10 {
        push_char(s, digit_char_exec(n));
        assert(decimal(n as nat) =~= seq![digit_char(n as nat)]);
    } else {
        push_decimal(s, n / 10);
        push_char(s, digit_char_exec(n % 10));
    }
}

/// Decimal rendering of `n`.
pub fn fmt_decimal(n: u64) -> (s: String)
    ensures
        s@ == decimal(n as nat),
{
    let mut s = String::new();
    push_decimal(&mut s, n);
    assert(s@ =~= decimal(n as nat));
    s
}

pub open spec fn is_digit(c: char) -> bool {
    '0' <= c && c <= '9'
}

pub open spec fn digit_value(c: char) -> nat {
    (c as int - '0' as int) as nat
}

/// Value of a non-empty run of decimal digits.
pub open spec fn digits_value(s: Seq<char>) -> nat
    decreases s.len(),
{
    if s.len() == 0 {
        0
    } else {
        digits_value(s.drop_last()) * 10 + digit_value(s.last())
    }
}

pub open spec fn all_digits(s: Seq<char>) -> bool {
    forall|i: int| 0 <= i < s.len() ==> is_digit(#[trigger] s[i])
}

/// What std's `str::parse::<u32>()` accepts: an optional `+`, then one or
/// more ASCII digits, with a value that fits in `u32`.
pub open spec fn parse_u32(s: Seq<char>) -> Option<u32> {
    let body = if s.len() > 0 && s[0] == '+' { s.drop_first() } else { s };
    if body.len() > 0 && all_digits(body) && digits_value(body) <= u32::MAX {
        Some(digits_value(body) as u32)
    } else {
        None
    }
}

proof fn lemma_digits_value_monotone(s: Seq<char>, k: int)
    requires
        0 <= k <= s.len(),
        all_digits(s),
    ensures
        digits_value(s.take(k)) <= digits_value(s),
    decreases s.len() - k,
{
    if k < s.len() {
        lemma_digits_value_monotone(s, k + 1);
        assert(s.take(k + 1).drop_last() =~= s.take(k));
    } else {
        assert(s.take(k) =~= s);
    }
}

/// std `str::parse::<u32>()`.
pub fn parse_u32_exec(s: &[char]) -> (r: Option<u32>)
    ensures
        r == parse_u32(s@),
{
    let start: usize = if s.len() > 0 && s[0] == '+' { 1 } else { 0 };
    let ghost body = if s@.len() > 0 && s@[0] == '+' { s@.drop_first() } else { s@ };
    assert(body =~= s@.subrange(start as int, s@.len() as int));
    if start >= s.len() {
        return None;
    }
    let mut v: u64 = 0;
    let mut i: usize = start;
    while i < s.len()
        invariant
            start <= i <= s.len(),
            body == s@.subrange(start as int, s@.len() as int),
            body == (if s@.len() > 0 && s@[0] == '+' { s@.drop_first() } else { s@ }),
            body.len() > 0,
            all_digits(body.take(i - start)),
            v == digits_value(body.take(i - start)),
            v <= u32::MAX,
        decreases s.len() - i,
    {
        let c = s[i];
        if !('0' <= c && c <= '9') {
            assert(body[i - start] == c);
            assert(!is_digit(body[i - start]));
            assert(!all_digits(body));
            return None;
        }
        let d = (c as u64) - ('0' as u64);
        assert(body.take(i + 1 - start).drop_last() =~= body.take(i - start));
        assert(all_digits(body.take(i + 1 - start)));
        let nv = v * 10 + d;
        if nv > 4294967295 {
            proof {
                if all_digits(body) {
                    lemma_digits_value_monotone(body, i + 1 - start);
                }
            }
            return None;
        }
        v = nv;
        i = i + 1;
    }
    assert(body.take(i - start) =~= body);
    Some(v as u32)
}

} // verus!

verus! {

/// Character-wise equality of two slices.
pub fn chars_eq(x: &[char], y: &[char]) -> (r: bool)
    ensures
        r == (x@ == y@),
{
    if x.len() != y.len() {
        assert(x@.len() != y@.len());
        return false;
    }
    let mut i: usize = 0;
    while i < x.len()
        invariant
            i <= x.len() == y.len(),
            forall|k: int| 0 <= k < i ==> x@[k] == y@[k],
        decreases x.len() - i,
    {
        if x[i] != y[i] {
            assert(x@[i as int] != y@[i as int]);
            return false;
        }
        i = i + 1;
    }
    assert(x@ =~= y@);
    true
}

/// Equality of two string slices by content.
pub fn str_eq(a: &str, b: &str) -> (r: bool)
    ensures
        r == (a@ == b@),
{
    let x = chars_of(a);
    let y = chars_of(b);
    chars_eq(x.as_slice(), y.as_slice())
}


/// First index at or after `i` holding one of `stops`; `s.len()` when
/// there is none.
pub open spec fn scan_to(s: Seq<char>, stops: Seq<char>, i: nat) -> nat
    decreases s.len() - i,
{
    if i >= s.len() {
        s.len()
    } else if stops.contains(s[i as int]) {
        i
    } else {
        scan_to(s, stops, i + 1)
    }
}

pub proof fn lemma_scan_to(s: Seq<char>, stops: Seq<char>, i: nat)
    requires
        i <= s.len(),
    ensures
        i <= scan_to(s, stops, i) <= s.len(),
        scan_to(s, stops, i) < s.len() ==> stops.contains(s[scan_to(s, stops, i) as int]),
        forall|k: int| i <= k < scan_to(s, stops, i) ==> !stops.contains(#[trigger] s[k]),
    decreases s.len() - i,
{
    if i < s.len() && !stops.contains(s[i as int]) {
        lemma_scan_to(s, stops, i + 1);
    }
}

/// First index at or after `i` holding one of `stops` (exec).
pub fn scan_to_exec(s: &[char], stops: &[char], i: usize) -> (r: usize)
    requires
        i <= s@.len(),
    ensures
        r as nat == scan_to(s@, stops@, i as nat),
        i <= r <= s@.len(),
{
    proof {
        lemma_scan_to(s@, stops@, i as nat);
    }
    let mut k: usize = i;
    while k < s.len()
        invariant
            i <= k <= s@.len(),
            scan_to(s@, stops@, k as nat) == scan_to(s@, stops@, i as nat),
        decreases s.len() - k,
    {
        let mut hit = false;
        let mut j: usize = 0;
        while j < stops.len()
            invariant
                j <= stops@.len(),
                k < s@.len(),
                hit == (exists|m: int| 0 <= m < j && stops@[m] == s@[k as int]),
            decreases stops.len() - j,
        {
            if stops[j] == s[k] {
                hit = true;
            }
            j = j + 1;
        }
        if hit {
            assert(stops@.contains(s@[k as int]));
            return k;
        }
        assert(!stops@.contains(s@[k as int]));
        k = k + 1;
    }
    k
}

/// Characters `from..to` of a slice, as a vector.
pub fn slice_vec(s: &[char], from: usize, to: usize) -> (r: Vec<char>)
    requires
        from <= to <= s@.len(),
    ensures
        r@ == s@.subrange(from as int, to as int),
{
    let mut out: Vec<char> = Vec::new();
    let mut i: usize = from;
    while i < to
        invariant
            from <= i <= to <= s@.len(),
            out@ == s@.subrange(from as int, i as int),
        decreases to - i,
    {
        out.push(s[i]);
        i = i + 1;
        assert(out@ =~= s@.subrange(from as int, i as int));
    }
    out
}

/// Position of the first occurrence of `p` in `s`, if any (std `str::find`).
pub open spec fn find_pos(s: Seq<char>, p: Seq<char>) -> Option<int> {
    if exists|i: int| first_occurrence(s, p, i) {
        Some(choose|i: int| first_occurrence(s, p, i))
    } else {
        None
    }
}

proof fn lemma_find_pos(s: Seq<char>, p: Seq<char>, i: int)
    requires
        first_occurrence(s, p, i),
    ensures
        find_pos(s, p) == Some(i),
{
    let c = choose|c: int| first_occurrence(s, p, c);
    assert(first_occurrence(s, p, c));
    if c < i {
        assert(!occurs_at(s, p, c));
    } else if c > i {
        assert(!occurs_at(s, p, i));
    }
}

/// Position of the first occurrence of `p` in `s` (exec).
pub fn find_index(s: &[char], p: &[char]) -> (r: Option<usize>)
    ensures
        r.is_some() ==> find_pos(s@, p@) == Some(r.unwrap() as int) && occurs_at(s@, p@, r.unwrap() as int),
        r.is_none() ==> find_pos(s@, p@).is_none(),
{
    match find_exec(s, p) {
        Some(i) => {
            proof {
                lemma_find_pos(s@, p@, i as int);
            }
            Some(i)
        },
        None => {
            assert forall|i: int| !first_occurrence(s@, p@, i) by {
                if first_occurrence(s@, p@, i) {
                    assert(contains_seq(s@, p@));
                }
            }
            None
        },
    }
}

/// Position just past the last occurrence of `p` in `s`, if any
/// (what `rsplit_once` splits at).
pub open spec fn rfind_pos(s: Seq<char>, p: Seq<char>) -> Option<int> {
    if exists|i: int| last_occurrence(s, p, i) {
        Some(choose|i: int| last_occurrence(s, p, i))
    } else {
        None
    }
}

proof fn lemma_rfind_pos(s: Seq<char>, p: Seq<char>, i: int)
    requires
        last_occurrence(s, p, i),
    ensures
        rfind_pos(s, p) == Some(i),
{
    let c = choose|c: int| last_occurrence(s, p, c);
    assert(last_occurrence(s, p, c));
    if c < i {
        assert(!occurs_at(s, p, i));
    } else if c > i {
        assert(!occurs_at(s, p, c));
    }
}

/// Position of the last occurrence of `p` in `s` (exec).
pub fn rfind_index(s: &[char], p: &[char]) -> (r: Option<usize>)
    ensures
        r.is_some() ==> rfind_pos(s@, p@) == Some(r.unwrap() as int) && occurs_at(s@, p@, r.unwrap() as int),
        r.is_none() ==> rfind_pos(s@, p@).is_none(),
{
    match rfind_exec(s, p) {
        Some(i) => {
            proof {
                lemma_rfind_pos(s@, p@, i as int);
            }
            Some(i)
        },
        None => {
            assert forall|i: int| !last_occurrence(s@, p@, i) by {
                if last_occurrence(s@, p@, i) {
                    assert(contains_seq(s@, p@));
                }
            }
            None
        },
    }
}


/// Appends a string slice.
pub fn push_str(s: &mut String, t: &str)
    ensures
        final(s)@ == old(s)@ + t@,
{
    s.append(t);
}


/// How `{:?}` renders a string: quoted, with escapes.
pub uninterp spec fn debug_quoted(s: Seq<char>) -> Seq<char>;

/// `format!("{:?}", s)` of a string slice; a function of the text alone.
#[verifier::external_body]
pub(crate) fn debug_str(s: &str) -> (r: String)
    ensures
        r@ == debug_quoted(s@),
{
    format!("{:?}", s)
}

/// std `str::from_utf8`: the text when the bytes are valid UTF-8.
#[verifier::external_body]
pub(crate) fn utf8_str(bytes: &[u8]) -> (r: Option<String>)
    ensures
        r.is_some() == vstd::utf8::valid_utf8(bytes@),
        r.is_some() ==> r.unwrap()@ == vstd::utf8::decode_utf8(bytes@),
{
    match std::str::from_utf8(bytes) {
        Ok(s) => Some(s.to_string()),
        Err(_) => None,
    }
}

} // verus!
