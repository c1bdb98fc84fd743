//! Deterministic ordering: lexicographic sort keys and a verified stable
//! sort of row positions by key. Every `ORDER BY` of the index reads
//! through here.
use vstd::prelude::*;

verus! {

/// One component of a sort key: a number or a text compared by code point.
pub enum KeyPart {
    Num(u128),
    Text(Vec<char>),
}

/// Mathematical value of a key component.
pub enum PartV {
    Num(int),
    Text(Seq<char>),
}

impl View for KeyPart {
    type V = PartV;

    open spec fn view(&self) -> PartV {
        match self {
            KeyPart::Num(n) => PartV::Num(*n as int),
            KeyPart::Text(t) => PartV::Text(t@),
        }
    }
}

/// Lexicographic order on texts by code point (what byte order on UTF-8
/// gives).
pub open spec fn text_lt(a: Seq<char>, b: Seq<char>) -> bool
    decreases a.len(),
{
    if a.len() == 0 {
        b.len() > 0
    } else if b.len() == 0 {
        false
    } else if (a[0] as int) < (b[0] as int) {
        true
    } else if a[0] == b[0] {
        text_lt(a.drop_first(), b.drop_first())
    } else {
        false
    }
}

pub open spec fn part_lt(a: PartV, b: PartV) -> bool {
    match (a, b) {
        (PartV::Num(x), PartV::Num(y)) => x < y,
        (PartV::Text(x), PartV::Text(y)) => text_lt(x, y),
        (PartV::Num(_), PartV::Text(_)) => true,
        (PartV::Text(_), PartV::Num(_)) => false,
    }
}

/// Lexicographic order on keys, component by component.
pub open spec fn key_lt(a: Seq<PartV>, b: Seq<PartV>) -> bool
    decreases a.len(),
{
    if a.len() == 0 {
        b.len() > 0
    } else if b.len() == 0 {
        false
    } else if part_lt(a[0], b[0]) {
        true
    } else if a[0] == b[0] {
        key_lt(a.drop_first(), b.drop_first())
    } else {
        false
    }
}

pub open spec fn key_view(k: Vec<KeyPart>) -> Seq<PartV> {
    k@.map_values(|p: KeyPart| p@)
}

/// Position `i` sorts before position `j`: smaller key, or equal key and
/// earlier position (stability).
pub open spec fn sorts_before(keys: Seq<Seq<PartV>>, i: int, j: int) -> bool {
    key_lt(keys[i], keys[j]) || (keys[i] == keys[j] && i < j)
}

/// `order` lists every position `0..n` exactly once, in key order.
pub open spec fn is_sorted_permutation(keys: Seq<Seq<PartV>>, order: Seq<usize>) -> bool {
    &&& order.len() == keys.len()
    &&& forall|a: int| 0 <= a < order.len() ==> (#[trigger] order[a] as int) < keys.len()
    &&& forall|a: int, b: int|
        0 <= a < b < order.len() ==> #[trigger] order[a] != #[trigger] order[b]
    &&& forall|a: int, b: int|
        0 <= a < b < order.len() ==> sorts_before(keys, #[trigger] order[a] as int, #[trigger] order[b] as int)
}

proof fn lemma_text_lt_trans(a: Seq<char>, b: Seq<char>, c: Seq<char>)
    requires
        text_lt(a, b),
        text_lt(b, c),
    ensures
        text_lt(a, c),
    decreases a.len(),
{
    if a.len() > 0 && b.len() > 0 && c.len() > 0 && a[0] == b[0] && b[0] == c[0] {
        lemma_text_lt_trans(a.drop_first(), b.drop_first(), c.drop_first());
    }
}

proof fn lemma_text_lt_irrefl(a: Seq<char>)
    ensures
        !text_lt(a, a),
    decreases a.len(),
{
    if a.len() > 0 {
        lemma_text_lt_irrefl(a.drop_first());
    }
}

proof fn lemma_text_trichotomy(a: Seq<char>, b: Seq<char>)
    ensures
        text_lt(a, b) || text_lt(b, a) || a == b,
    decreases a.len(),
{
    if a.len() > 0 && b.len() > 0 && a[0] == b[0] {
        lemma_text_trichotomy(a.drop_first(), b.drop_first());
        if a.drop_first() == b.drop_first() {
            assert(a =~= seq![a[0]] + a.drop_first());
            assert(b =~= seq![b[0]] + b.drop_first());
        }
    } else if a.len() == 0 && b.len() == 0 {
        assert(a =~= b);
    } else if a.len() > 0 && b.len() > 0 {
        assert(a[0] != b[0]);
        assert((a[0] as int) != (b[0] as int));
    }
}

proof fn lemma_part_lt_trans(a: PartV, b: PartV, c: PartV)
    requires
        part_lt(a, b),
        part_lt(b, c),
    ensures
        part_lt(a, c),
{
    match (a, b, c) {
        (PartV::Text(x), PartV::Text(y), PartV::Text(z)) => {
            lemma_text_lt_trans(x, y, z);
        },
        _ => {},
    }
}

proof fn lemma_part_lt_irrefl(a: PartV)
    ensures
        !part_lt(a, a),
{
    match a {
        PartV::Text(x) => lemma_text_lt_irrefl(x),
        _ => {},
    }
}

proof fn lemma_part_trichotomy(a: PartV, b: PartV)
    ensures
        part_lt(a, b) || part_lt(b, a) || a == b,
{
    match (a, b) {
        (PartV::Text(x), PartV::Text(y)) => lemma_text_trichotomy(x, y),
        _ => {},
    }
}

proof fn lemma_key_lt_trans(a: Seq<PartV>, b: Seq<PartV>, c: Seq<PartV>)
    requires
        key_lt(a, b),
        key_lt(b, c),
    ensures
        key_lt(a, c),
    decreases a.len(),
{
    if a.len() > 0 && b.len() > 0 && c.len() > 0 {
        if part_lt(a[0], b[0]) && part_lt(b[0], c[0]) {
            lemma_part_lt_trans(a[0], b[0], c[0]);
        } else if a[0] == b[0] && b[0] == c[0] {
            lemma_key_lt_trans(a.drop_first(), b.drop_first(), c.drop_first());
        }
    }
}

proof fn lemma_key_lt_irrefl(a: Seq<PartV>)
    ensures
        !key_lt(a, a),
    decreases a.len(),
{
    if a.len() > 0 {
        lemma_part_lt_irrefl(a[0]);
        lemma_key_lt_irrefl(a.drop_first());
    }
}

proof fn lemma_key_trichotomy(a: Seq<PartV>, b: Seq<PartV>)
    ensures
        key_lt(a, b) || key_lt(b, a) || a == b,
    decreases a.len(),
{
    if a.len() > 0 && b.len() > 0 {
        lemma_part_trichotomy(a[0], b[0]);
        if a[0] == b[0] {
            lemma_key_trichotomy(a.drop_first(), b.drop_first());
            if a.drop_first() == b.drop_first() {
                assert(a =~= seq![a[0]] + a.drop_first());
                assert(b =~= seq![b[0]] + b.drop_first());
            }
        }
    } else if a.len() == 0 && b.len() == 0 {
        assert(a =~= b);
    }
}

/// Less-than on texts is asymmetric.
pub proof fn lemma_text_lt_asym_pub(a: Seq<char>, b: Seq<char>)
    ensures
        text_lt(a, b) ==> !text_lt(b, a),
{
    if text_lt(a, b) && text_lt(b, a) {
        lemma_text_lt_trans(a, b, a);
        lemma_text_lt_irrefl(a);
    }
}

/// A sorted order of every position has one entry per position.
pub proof fn lemma_permutation_len(keys: Seq<Seq<PartV>>, pos: Seq<int>)
    requires
        sorted_selection(keys, |i: int| true, pos),
    ensures
        pos.len() == keys.len(),
{
    lemma_sorted_selection_len(keys, |i: int| true, pos);
    assert forall|a: int, b: int| 0 <= a < pos.len() && 0 <= b < pos.len() && a != b implies pos[a] != pos[b] by {
        if a < b {
            lemma_selection_distinct(keys, |i: int| true, pos, a, b);
        } else {
            lemma_selection_distinct(keys, |i: int| true, pos, b, a);
        }
    }
    assert forall|k: int| 0 <= k < keys.len() implies #[trigger] pos.contains(k) by {
        assert((|i: int| true)(k));
    }
    let r = vstd::set_lib::set_int_range(0, keys.len() as int);
    vstd::set_lib::lemma_int_range(0, keys.len() as int);
    assert(pos.no_duplicates());
    pos.unique_seq_to_set();
    assert(r.subset_of(pos.to_set()));
    vstd::set_lib::lemma_len_subset(r, pos.to_set());
}

/// Less-than on keys is asymmetric, and equal keys are not less.
pub proof fn lemma_key_lt_asym_pub(a: Seq<PartV>, b: Seq<PartV>)
    ensures
        key_lt(a, b) ==> !key_lt(b, a),
        a == b ==> !key_lt(b, a),
{
    lemma_key_lt_irrefl(a);
    if key_lt(a, b) && key_lt(b, a) {
        lemma_key_lt_trans(a, b, a);
    }
}

/// No key is less than itself.
pub proof fn lemma_key_lt_irrefl_pub(a: Seq<PartV>)
    ensures
        !key_lt(a, a),
{
    lemma_key_lt_irrefl(a);
}

/// `sorts_before` is a strict total order on positions.
proof fn lemma_before_trans(keys: Seq<Seq<PartV>>, i: int, j: int, k: int)
    requires
        sorts_before(keys, i, j),
        sorts_before(keys, j, k),
    ensures
        sorts_before(keys, i, k),
{
    if key_lt(keys[i], keys[j]) && key_lt(keys[j], keys[k]) {
        lemma_key_lt_trans(keys[i], keys[j], keys[k]);
    }
}

proof fn lemma_before_asym(keys: Seq<Seq<PartV>>, i: int, j: int)
    requires
        sorts_before(keys, i, j),
    ensures
        !sorts_before(keys, j, i),
{
    if key_lt(keys[i], keys[j]) && key_lt(keys[j], keys[i]) {
        lemma_key_lt_trans(keys[i], keys[j], keys[i]);
        lemma_key_lt_irrefl(keys[i]);
    }
    if key_lt(keys[i], keys[j]) && keys[j] == keys[i] {
        lemma_key_lt_irrefl(keys[i]);
    }
    if key_lt(keys[j], keys[i]) && keys[i] == keys[j] {
        lemma_key_lt_irrefl(keys[i]);
    }
}

/// Code-point comparison of two texts (exec).
pub fn text_lt_exec(a: &[char], b: &[char]) -> (r: bool)
    ensures
        r == text_lt(a@, b@),
{
    let mut i: usize = 0;
    assert(a@.skip(0) =~= a@);
    assert(b@.skip(0) =~= b@);
    while i < a.len() && i < b.len()
        invariant
            i <= a.len(),
            i <= b.len(),
            text_lt(a@, b@) == text_lt(a@.skip(i as int), b@.skip(i as int)),
        decreases a.len() - i,
    {
        assert(a@.skip(i as int)[0] == a@[i as int]);
        assert(b@.skip(i as int)[0] == b@[i as int]);
        assert(a@.skip(i as int).len() > 0);
        assert(b@.skip(i as int).len() > 0);
        if a[i] < b[i] {
            return true;
        }
        if a[i] != b[i] {
            return false;
        }
        assert(a@.skip(i as int).drop_first() =~= a@.skip(i + 1));
        assert(b@.skip(i as int).drop_first() =~= b@.skip(i + 1));
        i = i + 1;
    }
    assert(a@.skip(i as int).len() == a.len() - i);
    assert(b@.skip(i as int).len() == b.len() - i);
    i == a.len() && i < b.len()
}

fn text_eq_exec(x: &Vec<char>, y: &Vec<char>) -> (r: bool)
    ensures
        r == (x@ == y@),
{
    if x.len() != y.len() {
        assert(x@.len() != y@.len());
        return false;
    }
    let mut i: usize = 0;
    while i < x.len()
        invariant
            i <= x.len() == y.len(),
            forall|k: int| 0 <= k < i ==> x@[k] == y@[k],
        decreases x.len() - i,
    {
        if x[i] != y[i] {
            assert(x@[i as int] != y@[i as int]);
            return false;
        }
        i = i + 1;
    }
    assert(x@ =~= y@);
    true
}

fn part_eq_exec(a: &KeyPart, b: &KeyPart) -> (r: bool)
    ensures
        r == (a@ == b@),
{
    match (a, b) {
        (KeyPart::Num(x), KeyPart::Num(y)) => *x == *y,
        (KeyPart::Text(x), KeyPart::Text(y)) => text_eq_exec(x, y),
        _ => false,
    }
}

fn part_lt_exec(a: &KeyPart, b: &KeyPart) -> (r: bool)
    ensures
        r == part_lt(a@, b@),
{
    match (a, b) {
        (KeyPart::Num(x), KeyPart::Num(y)) => *x < *y,
        (KeyPart::Text(x), KeyPart::Text(y)) => text_lt_exec(x.as_slice(), y.as_slice()),
        (KeyPart::Num(_), KeyPart::Text(_)) => true,
        (KeyPart::Text(_), KeyPart::Num(_)) => false,
    }
}

/// Lexicographic comparison of two keys (exec).
pub fn key_lt_exec(a: &Vec<KeyPart>, b: &Vec<KeyPart>) -> (r: bool)
    ensures
        r == key_lt(key_view(*a), key_view(*b)),
{
    let ghost av = key_view(*a);
    let ghost bv = key_view(*b);
    let mut i: usize = 0;
    assert(av.skip(0) =~= av);
    assert(bv.skip(0) =~= bv);
    while i < a.len() && i < b.len()
        invariant
            i <= a.len(),
            i <= b.len(),
            av == key_view(*a),
            bv == key_view(*b),
            key_lt(av, bv) == key_lt(av.skip(i as int), bv.skip(i as int)),
        decreases a.len() - i,
    {
        assert(av.skip(i as int)[0] == a@[i as int]@);
        assert(bv.skip(i as int)[0] == b@[i as int]@);
        if part_lt_exec(&a[i], &b[i]) {
            return true;
        }
        if !part_eq_exec(&a[i], &b[i]) {
            return false;
        }
        assert(av.skip(i as int).drop_first() =~= av.skip(i + 1));
        assert(bv.skip(i as int).drop_first() =~= bv.skip(i + 1));
        i = i + 1;
    }
    assert(av.skip(i as int).len() == a.len() - i);
    assert(bv.skip(i as int).len() == b.len() - i);
    i == a.len() && i < b.len()
}

pub open spec fn keys_view(keys: Seq<Vec<KeyPart>>) -> Seq<Seq<PartV>> {
    keys.map_values(|k: Vec<KeyPart>| key_view(k))
}

/// Stable sort of positions `0..keys.len()` by key: ties keep their
/// original relative order.
pub fn sort_positions(keys: &Vec<Vec<KeyPart>>) -> (order: Vec<usize>)
    ensures
        is_sorted_permutation(keys_view(keys@), order@),
        forall|k: int| 0 <= k < keys@.len() ==> #[trigger] lists_position(order@, k),
{
    let n = keys.len();
    let ghost kv = keys_view(keys@);
    let mut used: Vec<bool> = Vec::new();
    let mut i: usize = 0;
    while i < n
        invariant
            i <= n == keys.len(),
            used.len() == i,
            forall|k: int| 0 <= k < i ==> !used[k],
        decreases n - i,
    {
        used.push(false);
        i = i + 1;
    }
    let mut order: Vec<usize> = Vec::new();
    let mut t: usize = 0;
    while t < n
        invariant
            n == keys.len(),
            kv == keys_view(keys@),
            kv.len() == n,
            t <= n,
            used.len() == n,
            order.len() == t,
            forall|a: int| 0 <= a < t ==> (#[trigger] order@[a] as int) < n,
            forall|a: int| 0 <= a < t ==> used[#[trigger] order@[a] as int],
            forall|a: int, b: int| 0 <= a < b < t ==> #[trigger] order@[a] != #[trigger] order@[b],
            forall|a: int, b: int| 0 <= a < b < t ==> sorts_before(kv, #[trigger] order@[a] as int, #[trigger] order@[b] as int),
            forall|a: int, k: int| 0 <= a < t && 0 <= k < n && !used[k] ==> sorts_before(kv, #[trigger] order@[a] as int, k) && #[trigger] used[k] == used[k],
            forall|k: int| 0 <= k < n && used[k] ==> exists|a: int| 0 <= a < t && order@[a] == k,
        decreases n - t,
    {
        // Count of used slots equals t, so an unused one exists.
        let mut best: usize = n;
        let mut j: usize = 0;
        while j < n
            invariant
                n == keys.len(),
                kv == keys_view(keys@),
                kv.len() == n,
                used.len() == n,
                j <= n,
                best == n || (best < j && !used[best as int]),
                forall|k: int| 0 <= k < j && !used[k] ==> (best < n && (k == best || sorts_before(kv, best as int, k))),
            decreases n - j,
        {
            if !used[j] {
                if best == n {
                    best = j;
                } else {
                    assert(kv[j as int] == key_view(keys@[j as int]));
                    assert(kv[best as int] == key_view(keys@[best as int]));
                    if key_lt_exec(&keys[j], &keys[best]) {
                        proof {
                            assert(sorts_before(kv, j as int, best as int));
                            assert forall|k: int| 0 <= k < j && !used[k] implies (k == j || sorts_before(kv, j as int, k)) by {
                                if k != best {
                                    lemma_before_trans(kv, j as int, best as int, k);
                                }
                            }
                        }
                        best = j;
                    }
                    else {
                        proof {
                            lemma_key_trichotomy(kv[j as int], kv[best as int]);
                            assert(sorts_before(kv, best as int, j as int));
                        }
                    }
                }
            }
            j = j + 1;
        }
        if best == n {
            proof {
                // Every slot is used, yet only t < n positions were emitted.
                lemma_pigeon(order@, used@, t as int, n as int);
            }
            assert(false);
        }
        proof {
            assert forall|a: int| 0 <= a < t implies order@[a] != best by {
                assert(used[order@[a] as int]);
            }
        }
        let ghost old_used = used@;
        let ghost old_order = order@;
        used.set(best, true);
        order.push(best);
        proof {
            assert forall|k: int| 0 <= k < n && k != best implies used@[k] == old_used[k] by {}
            assert forall|a: int| 0 <= a < t implies order@[a] == old_order[a] by {}
            assert forall|k: int| 0 <= k < n && used[k] implies exists|a: int| 0 <= a < t + 1 && order@[a] == k by {
                if k == best {
                    assert(order@[t as int] == k);
                } else {
                    assert(old_used[k]);
                    assert(exists|a: int| 0 <= a < t && old_order[a] == k);
                    let a = choose|a: int| 0 <= a < t && old_order[a] == k;
                    assert(order@[a] == k);
                }
            }
            assert forall|a: int, k: int| 0 <= a < t + 1 && 0 <= k < n && !used[k] implies sorts_before(kv, order@[a] as int, k) by {
                if a < t {
                } else {
                    assert(k != best);
                }
            }
            assert forall|a: int, b: int| 0 <= a < b < t + 1 implies sorts_before(kv, order@[a] as int, order@[b] as int) by {
                if b == t {
                }
            }
        }
        t = t + 1;
    }
    proof {
        lemma_distinct_covers(order@, n as int);
    }
    order
}

/// When every slot in `used` is set and each set slot is listed in
/// `order[0..t]`, then `t` is at least the number of slots.
proof fn lemma_pigeon(order: Seq<usize>, used: Seq<bool>, t: int, n: int)
    requires
        0 <= t <= order.len(),
        used.len() == n,
        forall|k: int| 0 <= k < n ==> used[k],
        forall|k: int| 0 <= k < n && used[k] ==> exists|a: int| 0 <= a < t && order[a] == k,
        forall|a: int, b: int| 0 <= a < b < t ==> #[trigger] order[a] != #[trigger] order[b],
    ensures
        t >= n,
{
    let f = |k: int| choose|a: int| 0 <= a < t && order[a] == k;
    let s = Set::new(|k: int| 0 <= k < n);
    let img = s.map(f);
    assert forall|k1: int, k2: int| s.contains(k1) && s.contains(k2) && f(k1) == f(k2) implies k1 == k2 by {
        assert(used[k1]);
        assert(used[k2]);
        assert(exists|a: int| 0 <= a < t && order[a] == k1);
        assert(exists|a: int| 0 <= a < t && order[a] == k2);
        assert(order[f(k1)] == k1);
        assert(order[f(k2)] == k2);
    }
    vstd::set_lib::lemma_int_range(0, n);
    assert(s =~= vstd::set_lib::set_int_range(0, n));
    vstd::set_lib::lemma_map_size(s, img, f);
    assert forall|x: int| img.contains(x) implies vstd::set_lib::set_int_range(0, t).contains(x) by {
        let k = choose|k: int| s.contains(k) && f(k) == x;
        assert(used[k]);
        assert(exists|a: int| 0 <= a < t && order[a] == k);
    }
    assert(img.subset_of(vstd::set_lib::set_int_range(0, t)));
    vstd::set_lib::lemma_int_range(0, t);
    vstd::set_lib::lemma_len_subset(img, vstd::set_lib::set_int_range(0, t));
}

} // verus!

verus! {

/// Position `k` occurs in `order`.
pub open spec fn lists_position(order: Seq<usize>, k: int) -> bool {
    exists|a: int| 0 <= a < order.len() && order[a] == k
}

/// A duplicate-free list of `n` positions below `n` names every position.
pub proof fn lemma_distinct_covers(order: Seq<usize>, n: int)
    requires
        order.len() == n,
        forall|a: int| 0 <= a < n ==> (order[a] as int) < n,
        forall|a: int, b: int| 0 <= a < b < n ==> order[a] != order[b],
    ensures
        forall|k: int| 0 <= k < n ==> #[trigger] lists_position(order, k),
{
    let f = |a: int| order[a] as int;
    let dom = vstd::set_lib::set_int_range(0, n);
    let img = dom.map(f);
    vstd::set_lib::lemma_int_range(0, n);
    assert forall|a1: int, a2: int| dom.contains(a1) && dom.contains(a2) && f(a1) == f(a2) implies a1 == a2 by {
        if a1 < a2 {
            assert(order[a1] != order[a2]);
        } else if a2 < a1 {
            assert(order[a2] != order[a1]);
        }
    }
    vstd::set_lib::lemma_map_size(dom, img, f);
    assert forall|x: int| img.contains(x) implies dom.contains(x) by {
        let a = choose|a: int| dom.contains(a) && f(a) == x;
        assert((order[a] as int) < n);
    }
    assert(img.subset_of(dom));
    vstd::set_lib::lemma_subset_equality(img, dom);
    assert forall|k: int| 0 <= k < n implies #[trigger] lists_position(order, k) by {
        assert(dom.contains(k));
        assert(img.contains(k));
        let a = choose|a: int| dom.contains(a) && f(a) == k;
        assert(order[a] == k);
    }
}


/// `pos` lists exactly the positions below `keys.len()` that satisfy
/// `sel`, in key order, ties in position order.
pub open spec fn sorted_selection(keys: Seq<Seq<PartV>>, sel: spec_fn(int) -> bool, pos: Seq<int>) -> bool {
    &&& forall|a: int| 0 <= a < pos.len() ==> 0 <= #[trigger] pos[a] < keys.len() && sel(pos[a])
    &&& forall|k: int| 0 <= k < keys.len() && sel(k) ==> #[trigger] pos.contains(k)
    &&& forall|a: int, b: int| 0 <= a < b < pos.len() ==> sorts_before(keys, #[trigger] pos[a], #[trigger] pos[b])
}

pub open spec fn positions_view(v: Seq<usize>) -> Seq<int> {
    v.map_values(|p: usize| p as int)
}

/// Orders the selected positions `cand` (ascending, with their keys in
/// `ckeys`) by key, ties by position.
pub fn order_selected(ckeys: &Vec<Vec<KeyPart>>, cand: &Vec<usize>, Ghost(keys): Ghost<Seq<Seq<PartV>>>, Ghost(sel): Ghost<spec_fn(int) -> bool>) -> (r: Vec<usize>)
    requires
        ckeys@.len() == cand@.len(),
        forall|x: int| 0 <= x < cand@.len() ==> (#[trigger] cand@[x] as int) < keys.len() && sel(cand@[x] as int),
        forall|x: int| 0 <= x < cand@.len() ==> key_view(#[trigger] ckeys@[x]) == keys[cand@[x] as int],
        forall|x: int, y: int| 0 <= x < y < cand@.len() ==> cand@[x] < cand@[y],
        forall|k: int| 0 <= k < keys.len() && sel(k) ==> #[trigger] positions_view(cand@).contains(k),
    ensures
        sorted_selection(keys, sel, positions_view(r@)),
        positions_view(r@) == sorted_positions(keys, sel),
{
    let order = sort_positions(ckeys);
    let ghost ck = keys_view(ckeys@);
    let mut out: Vec<usize> = Vec::new();
    let mut a: usize = 0;
    while a < order.len()
        invariant
            a <= order@.len() == cand@.len(),
            out@.len() == a,
            forall|b: int| 0 <= b < a ==> out@[b] == cand@[order@[b] as int],
            forall|b: int| 0 <= b < order@.len() ==> (order@[b] as int) < cand@.len(),
        decreases order.len() - a,
    {
        assert((order@[a as int] as int) < cand@.len());
        out.push(cand[order[a]]);
        a = a + 1;
    }
    let ghost pv = positions_view(out@);
    proof {
        assert forall|k: int| 0 <= k < keys.len() && sel(k) implies #[trigger] pv.contains(k) by {
            assert(positions_view(cand@).contains(k));
            let x = choose|x: int| 0 <= x < positions_view(cand@).len() && positions_view(cand@)[x] == k;
            assert(lists_position(order@, x));
            let b = choose|b: int| 0 <= b < order@.len() && order@[b] == x;
            assert(pv[b] == k);
        }
        assert forall|a1: int, b1: int| 0 <= a1 < b1 < pv.len() implies sorts_before(keys, #[trigger] pv[a1], #[trigger] pv[b1]) by {
            let oa = order@[a1] as int;
            let ob = order@[b1] as int;
            assert(sorts_before(ck, oa, ob));
            assert(ck[oa] == key_view(ckeys@[oa]));
            assert(ck[ob] == key_view(ckeys@[ob]));
            if !key_lt(ck[oa], ck[ob]) {
                assert(oa < ob);
            }
        }
        lemma_is_sorted_positions(keys, sel, pv);
    }
    out
}


/// Orders the positions whose `hits` flag is set by their key in `keys`,
/// ties by position.
pub fn select_sorted(hits: &Vec<bool>, keys: &Vec<Vec<KeyPart>>, Ghost(all_keys): Ghost<Seq<Seq<PartV>>>, Ghost(sel): Ghost<spec_fn(int) -> bool>) -> (r: Vec<usize>)
    requires
        hits@.len() == keys@.len() == all_keys.len(),
        forall|i: int| 0 <= i < hits@.len() ==> #[trigger] hits@[i] == sel(i),
        forall|i: int| 0 <= i < keys@.len() ==> key_view(#[trigger] keys@[i]) == all_keys[i],
    ensures
        sorted_selection(all_keys, sel, positions_view(r@)),
        positions_view(r@) == sorted_positions(all_keys, sel),
{
    let mut cand: Vec<usize> = Vec::new();
    let mut ckeys: Vec<Vec<KeyPart>> = Vec::new();
    let mut i: usize = 0;
    while i < hits.len()
        invariant
            i <= hits@.len() == keys@.len() == all_keys.len(),
            forall|j: int| 0 <= j < hits@.len() ==> #[trigger] hits@[j] == sel(j),
            forall|j: int| 0 <= j < keys@.len() ==> key_view(#[trigger] keys@[j]) == all_keys[j],
            ckeys@.len() == cand@.len(),
            forall|x: int| 0 <= x < cand@.len() ==> (#[trigger] cand@[x] as int) < i && sel(cand@[x] as int),
            forall|x: int| 0 <= x < cand@.len() ==> key_view(#[trigger] ckeys@[x]) == all_keys[cand@[x] as int],
            forall|x: int, y: int| 0 <= x < y < cand@.len() ==> cand@[x] < cand@[y],
            forall|k: int| 0 <= k < i && sel(k) ==> #[trigger] positions_view(cand@).contains(k),
        decreases hits.len() - i,
    {
        assert(hits@[i as int] == sel(i as int));
        if hits[i] {
            let ghost before = cand@;
            let k = copy_key(&keys[i]);
            cand.push(i);
            ckeys.push(k);
            proof {
                assert forall|k: int| 0 <= k < i + 1 && sel(k) implies #[trigger] positions_view(cand@).contains(k) by {
                    if k < i {
                        assert(positions_view(before).contains(k));
                        let x = choose|x: int| 0 <= x < positions_view(before).len() && positions_view(before)[x] == k;
                        assert(positions_view(cand@)[x] == k);
                    } else {
                        assert(positions_view(cand@)[cand@.len() - 1] == k);
                    }
                }
            }
        }
        i = i + 1;
    }
    order_selected(&ckeys, &cand, Ghost(all_keys), Ghost(sel))
}

/// A key with the same components.
pub fn copy_key(k: &Vec<KeyPart>) -> (r: Vec<KeyPart>)
    ensures
        key_view(r) == key_view(*k),
{
    let mut out: Vec<KeyPart> = Vec::new();
    let mut i: usize = 0;
    while i < k.len()
        invariant
            i <= k@.len(),
            out@.len() == i,
            forall|j: int| 0 <= j < i ==> out@[j]@ == k@[j]@,
        decreases k.len() - i,
    {
        let part = match &k[i] {
            KeyPart::Num(n) => KeyPart::Num(*n),
            KeyPart::Text(t) => KeyPart::Text(t.clone()),
        };
        proof {
            match &k@[i as int] {
                KeyPart::Text(t) => { assert(t@ == t@); },
                _ => {},
            }
        }
        out.push(part);
        i = i + 1;
    }
    assert(key_view(out) =~= key_view(*k));
    out
}


proof fn lemma_selection_distinct(keys: Seq<Seq<PartV>>, sel: spec_fn(int) -> bool, p: Seq<int>, a: int, b: int)
    requires
        sorted_selection(keys, sel, p),
        0 <= a < b < p.len(),
    ensures
        p[a] != p[b],
{
    assert(sorts_before(keys, p[a], p[b]));
    if p[a] == p[b] {
        lemma_before_asym(keys, p[a], p[b]);
    }
}

/// An element of a sorted selection sits at or after index `a` when the
/// two selections agree before `a`.
proof fn lemma_found_at_or_after(keys: Seq<Seq<PartV>>, sel: spec_fn(int) -> bool, p1: Seq<int>, p2: Seq<int>, a: int, x: int) -> (b: int)
    requires
        sorted_selection(keys, sel, p1),
        sorted_selection(keys, sel, p2),
        0 <= a < p1.len(),
        x == p1[a],
        forall|c: int| 0 <= c < a ==> p1[c] == p2[c],
        a <= p2.len(),
    ensures
        a <= b < p2.len(),
        p2[b] == x,
{
    assert(0 <= p1[a] < keys.len() && sel(p1[a]));
    assert(p2.contains(x));
    let b = choose|b: int| 0 <= b < p2.len() && p2[b] == x;
    if b < a {
        assert(p1[b] == x);
        lemma_selection_distinct(keys, sel, p1, b, a);
    }
    b
}

proof fn lemma_prefix_step(keys: Seq<Seq<PartV>>, sel: spec_fn(int) -> bool, p1: Seq<int>, p2: Seq<int>, a: int)
    requires
        sorted_selection(keys, sel, p1),
        sorted_selection(keys, sel, p2),
        0 <= a < p1.len(),
        a < p2.len(),
        forall|c: int| 0 <= c < a ==> p1[c] == p2[c],
    ensures
        p1[a] == p2[a],
{
    let x = p1[a];
    let y = p2[a];
    let b2 = lemma_found_at_or_after(keys, sel, p1, p2, a, x);
    let b1 = lemma_found_at_or_after(keys, sel, p2, p1, a, y);
    if x != y {
        assert(b2 > a);
        assert(b1 > a);
        assert(sorts_before(keys, p2[a], p2[b2]));
        assert(sorts_before(keys, p1[a], p1[b1]));
        lemma_before_asym(keys, x, y);
    }
}

proof fn lemma_prefix_equal(keys: Seq<Seq<PartV>>, sel: spec_fn(int) -> bool, p1: Seq<int>, p2: Seq<int>, n: int)
    requires
        sorted_selection(keys, sel, p1),
        sorted_selection(keys, sel, p2),
        0 <= n <= p1.len(),
        n <= p2.len(),
    ensures
        forall|c: int| 0 <= c < n ==> p1[c] == p2[c],
    decreases n,
{
    if n > 0 {
        lemma_prefix_equal(keys, sel, p1, p2, n - 1);
        lemma_prefix_step(keys, sel, p1, p2, n - 1);
    }
}

/// A sorted selection is unique: the keys and the selection fix the
/// positions and their order.
pub proof fn lemma_sorted_selection_unique(keys: Seq<Seq<PartV>>, sel: spec_fn(int) -> bool, p1: Seq<int>, p2: Seq<int>)
    requires
        sorted_selection(keys, sel, p1),
        sorted_selection(keys, sel, p2),
    ensures
        p1 == p2,
{
    let n = if p1.len() < p2.len() { p1.len() as int } else { p2.len() as int };
    lemma_prefix_equal(keys, sel, p1, p2, n);
    if p1.len() > p2.len() {
        let b = lemma_found_at_or_after(keys, sel, p1, p2, n, p1[n]);
    } else if p2.len() > p1.len() {
        lemma_prefix_equal(keys, sel, p2, p1, n);
        let b = lemma_found_at_or_after(keys, sel, p2, p1, n, p2[n]);
    }
    assert(p1 =~= p2);
}

/// The sorted selection of the positions satisfying `sel`.
pub open spec fn sorted_positions(keys: Seq<Seq<PartV>>, sel: spec_fn(int) -> bool) -> Seq<int> {
    choose|pos: Seq<int>| sorted_selection(keys, sel, pos)
}

/// A sorted selection is the sorted selection.
pub proof fn lemma_is_sorted_positions(keys: Seq<Seq<PartV>>, sel: spec_fn(int) -> bool, pos: Seq<int>)
    requires
        sorted_selection(keys, sel, pos),
    ensures
        sorted_positions(keys, sel) == pos,
{
    let c = choose|c: Seq<int>| sorted_selection(keys, sel, c);
    assert(sorted_selection(keys, sel, c));
    lemma_sorted_selection_unique(keys, sel, c, pos);
}


/// A sorted selection lists each position at most once, so it is no
/// longer than the table.
pub proof fn lemma_sorted_selection_len(keys: Seq<Seq<PartV>>, sel: spec_fn(int) -> bool, pos: Seq<int>)
    requires
        sorted_selection(keys, sel, pos),
    ensures
        pos.len() <= keys.len(),
{
    assert forall|a: int, b: int| 0 <= a < pos.len() && 0 <= b < pos.len() && a != b implies pos[a] != pos[b] by {
        if a < b {
            lemma_selection_distinct(keys, sel, pos, a, b);
        } else {
            lemma_selection_distinct(keys, sel, pos, b, a);
        }
    }
    assert(pos.no_duplicates());
    pos.unique_seq_to_set();
    let r = vstd::set_lib::set_int_range(0, keys.len() as int);
    vstd::set_lib::lemma_int_range(0, keys.len() as int);
    assert(pos.to_set().subset_of(r));
    vstd::set_lib::lemma_len_subset(pos.to_set(), r);
}

/// The sorted selection of the positions below `n`.
pub open spec fn sorted_below(keys: Seq<Seq<PartV>>, sel: spec_fn(int) -> bool, n: int, pos: Seq<int>) -> bool {
    &&& forall|a: int| 0 <= a < pos.len() ==> 0 <= #[trigger] pos[a] < n && sel(pos[a])
    &&& forall|k: int| 0 <= k < n && sel(k) ==> #[trigger] pos.contains(k)
    &&& forall|a: int, b: int| 0 <= a < b < pos.len() ==> sorts_before(keys, #[trigger] pos[a], #[trigger] pos[b])
}

/// Where a position with key `keys[x]` goes in a sorted list: after every
/// position whose key is not greater.
proof fn lemma_insert_point(keys: Seq<Seq<PartV>>, pos: Seq<int>, x: int, j: int) -> (r: int)
    requires
        0 <= j <= pos.len(),
        forall|a: int| 0 <= a < j ==> !key_lt(keys[x], #[trigger] keys[pos[a]]),
    ensures
        j <= r <= pos.len(),
        forall|a: int| 0 <= a < r ==> !key_lt(keys[x], #[trigger] keys[pos[a]]),
        r < pos.len() ==> key_lt(keys[x], keys[pos[r]]),
    decreases pos.len() - j,
{
    if j == pos.len() || key_lt(keys[x], keys[pos[j]]) {
        j
    } else {
        lemma_insert_point(keys, pos, x, j + 1)
    }
}

proof fn lemma_sorted_below(keys: Seq<Seq<PartV>>, sel: spec_fn(int) -> bool, n: int) -> (pos: Seq<int>)
    requires
        0 <= n <= keys.len(),
    ensures
        sorted_below(keys, sel, n, pos),
    decreases n,
{
    if n == 0 {
        seq![]
    } else {
        let prev = lemma_sorted_below(keys, sel, n - 1);
        let x = n - 1;
        if !sel(x) {
            assert forall|k: int| 0 <= k < n && sel(k) implies #[trigger] prev.contains(k) by {
                assert(k < n - 1);
            }
            prev
        } else {
            let j = lemma_insert_point(keys, prev, x, 0);
            let next = prev.take(j) + seq![x] + prev.skip(j);
            assert(next.len() == prev.len() + 1);
            assert forall|a: int| 0 <= a < next.len() implies 0 <= #[trigger] next[a] < n && sel(next[a]) by {
                if a < j {
                    assert(next[a] == prev[a]);
                } else if a > j {
                    assert(next[a] == prev[a - 1]);
                }
            }
            assert forall|k: int| 0 <= k < n && sel(k) implies #[trigger] next.contains(k) by {
                if k == x {
                    assert(next[j] == x);
                } else {
                    assert(prev.contains(k));
                    let a = choose|a: int| 0 <= a < prev.len() && prev[a] == k;
                    if a < j {
                        assert(next[a] == k);
                    } else {
                        assert(next[a + 1] == k);
                    }
                }
            }
            assert forall|a: int, b: int| 0 <= a < b < next.len() implies sorts_before(keys, #[trigger] next[a], #[trigger] next[b]) by {
                if b < j {
                    assert(next[a] == prev[a] && next[b] == prev[b]);
                } else if a > j {
                    assert(next[a] == prev[a - 1] && next[b] == prev[b - 1]);
                } else if a < j && b > j {
                    assert(next[a] == prev[a] && next[b] == prev[b - 1]);
                } else if a == j {
                    // The new position before a later old one.
                    assert(next[b] == prev[b - 1]);
                    let q = prev[b - 1];
                    assert(key_lt(keys[x], keys[prev[j]]));
                    if b - 1 > j {
                        assert(sorts_before(keys, prev[j], q));
                        if key_lt(keys[prev[j]], keys[q]) {
                            lemma_key_lt_trans(keys[x], keys[prev[j]], keys[q]);
                        }
                    }
                } else {
                    // An old position before the new one.
                    assert(b == j && a < j);
                    assert(next[a] == prev[a]);
                    let q = prev[a];
                    assert(!key_lt(keys[x], keys[q]));
                    lemma_key_trichotomy(keys[q], keys[x]);
                    assert(q < x);
                }
            }
            next
        }
    }
}

/// The positions of a selection have a sorted order, and
/// `sorted_positions` is it.
pub proof fn lemma_sorted_positions_sorted(keys: Seq<Seq<PartV>>, sel: spec_fn(int) -> bool)
    ensures
        sorted_selection(keys, sel, sorted_positions(keys, sel)),
{
    let pos = lemma_sorted_below(keys, sel, keys.len() as int);
    assert(sorted_selection(keys, sel, pos));
    lemma_is_sorted_positions(keys, sel, pos);
}

} // verus!
