//! Stable ordering of records by a pair of text keys.
//!
//! The scanner sorts lockfile packages, artifacts, findings and errors; each
//! sort is by one or two text fields compared lexicographically, and ties keep
//! their input order, as a stable sort leaves them.

use vstd::prelude::*;
use crate::text::{eq_chars, lemma_text_lt_asymmetric, lemma_text_lt_irreflexive, lemma_text_lt_total, lemma_text_lt_transitive, text_lt, text_lt_exec};

verus! {

/// Lexicographic order on pairs of texts, as tuples of `String` compare.
pub open spec fn key_lt(a: (Seq<char>, Seq<char>), b: (Seq<char>, Seq<char>)) -> bool {
    text_lt(a.0, b.0) || (a.0 == b.0 && text_lt(a.1, b.1))
}

/// Position `i` goes before position `j` in a stable sort of `keys`.
pub open spec fn precedes(keys: Seq<(Seq<char>, Seq<char>)>, i: int, j: int) -> bool {
    key_lt(keys[i], keys[j]) || (keys[i] == keys[j] && i < j)
}

/// `o` lists the positions `0..n` of `keys`, each once, in stable sorted order.
pub open spec fn is_order_of_prefix(keys: Seq<(Seq<char>, Seq<char>)>, o: Seq<int>, n: int) -> bool {
    &&& o.len() == n
    &&& forall|t: int| 0 <= t < o.len() ==> 0 <= #[trigger] o[t] < n
    &&& forall|k: int| 0 <= k < n ==> #[trigger] o.contains(k)
    &&& forall|s: int, t: int|
        #![trigger o[s], o[t]]
        0 <= s < t < o.len() ==> precedes(keys, o[s], o[t])
}

/// `o` is the order in which a stable sort by key leaves the positions of `keys`.
pub open spec fn is_stable_order(keys: Seq<(Seq<char>, Seq<char>)>, o: Seq<int>) -> bool {
    is_order_of_prefix(keys, o, keys.len() as int)
}

/// The stable sorted order of the positions of `keys` (unique: see
/// `lemma_stable_order_unique`).
pub open spec fn stable_order(keys: Seq<(Seq<char>, Seq<char>)>) -> Seq<int> {
    choose|o: Seq<int>| is_stable_order(keys, o)
}

/// The text views of a vector of key pairs.
pub open spec fn key_view(keys: Seq<(Vec<char>, Vec<char>)>) -> Seq<(Seq<char>, Seq<char>)> {
    keys.map_values(|k: (Vec<char>, Vec<char>)| (k.0@, k.1@))
}

/// Positions as integers.
pub open spec fn positions(o: Seq<usize>) -> Seq<int> {
    o.map_values(|i: usize| i as int)
}

/// `key_lt` is a strict total order.
pub proof fn lemma_key_lt_order(a: (Seq<char>, Seq<char>), b: (Seq<char>, Seq<char>), c: (Seq<char>, Seq<char>))
    ensures
        !key_lt(a, a),
        key_lt(a, b) ==> !key_lt(b, a),
        key_lt(a, b) && key_lt(b, c) ==> key_lt(a, c),
        a != b ==> key_lt(a, b) || key_lt(b, a),
{
    lemma_text_lt_irreflexive(a.0);
    lemma_text_lt_irreflexive(a.1);
    lemma_text_lt_asymmetric(a.0, b.0);
    lemma_text_lt_asymmetric(a.1, b.1);
    lemma_text_lt_transitive(a.0, b.0, c.0);
    lemma_text_lt_transitive(a.1, b.1, c.1);
    lemma_text_lt_total(a.0, b.0);
    lemma_text_lt_total(a.1, b.1);
    lemma_text_lt_irreflexive(b.0);
    if a.0 == b.0 && a.1 == b.1 {
        assert(a == b);
    }
}

proof fn lemma_precedes_strict(keys: Seq<(Seq<char>, Seq<char>)>, a: int, b: int)
    ensures
        !(precedes(keys, a, b) && precedes(keys, b, a)),
        !precedes(keys, a, a),
{
    lemma_key_lt_order(keys[a], keys[b], keys[a]);
}

proof fn lemma_stable_orders_agree_below(
    keys: Seq<(Seq<char>, Seq<char>)>,
    o1: Seq<int>,
    o2: Seq<int>,
    i: int,
)
    requires
        is_stable_order(keys, o1),
        is_stable_order(keys, o2),
        0 <= i <= o1.len(),
    ensures
        forall|j: int| 0 <= j < i ==> o1[j] == o2[j],
    decreases i,
{
    if i > 0 {
        let m = i - 1;
        lemma_stable_orders_agree_below(keys, o1, o2, m);
        let a = o1[m];
        let b = o2[m];
        if a != b {
            assert(o2.contains(a));
            assert(o1.contains(b));
            let t = choose|t: int| 0 <= t < o2.len() && #[trigger] o2[t] == a;
            let u = choose|u: int| 0 <= u < o1.len() && #[trigger] o1[u] == b;
            lemma_precedes_strict(keys, a, b);
            lemma_precedes_strict(keys, a, a);
            lemma_precedes_strict(keys, b, b);
            if t < m {
                assert(o1[t] == a);
                assert(precedes(keys, o1[t], o1[m]));
            }
            if u < m {
                assert(o2[u] == b);
                assert(precedes(keys, o2[u], o2[m]));
            }
            assert(t != m);
            assert(u != m);
            assert(precedes(keys, o2[m], o2[t]));
            assert(precedes(keys, o1[m], o1[u]));
        }
    }
}

/// A stable sort has exactly one outcome: two stable orders of the same keys
/// are equal.
pub proof fn lemma_stable_order_unique(keys: Seq<(Seq<char>, Seq<char>)>, o1: Seq<int>, o2: Seq<int>)
    requires
        is_stable_order(keys, o1),
        is_stable_order(keys, o2),
    ensures
        o1 == o2,
{
    lemma_stable_orders_agree_below(keys, o1, o2, o1.len() as int);
    assert(o1 =~= o2);
}

/// The stable order is the one any stable sort produces.
pub proof fn lemma_stable_order_is(keys: Seq<(Seq<char>, Seq<char>)>, o: Seq<int>)
    requires
        is_stable_order(keys, o),
    ensures
        stable_order(keys) == o,
{
    lemma_stable_order_unique(keys, stable_order(keys), o);
}

/// Inserting position `k` where the keys before it are not larger and the
/// keys after it are larger keeps a stable order of the first `k + 1`
/// positions.
proof fn lemma_insert_position(keys: Seq<(Seq<char>, Seq<char>)>, o: Seq<int>, k: int, p: int)
    requires
        is_order_of_prefix(keys, o, k),
        0 <= k < keys.len(),
        0 <= p <= o.len(),
        forall|t: int| 0 <= t < p ==> !key_lt(keys[k], #[trigger] keys[o[t]]),
        forall|t: int| p <= t < o.len() ==> key_lt(keys[k], #[trigger] keys[o[t]]),
    ensures
        is_order_of_prefix(keys, o.insert(p, k), k + 1),
{
    let no = o.insert(p, k);
    assert forall|t: int| 0 <= t < no.len() implies 0 <= #[trigger] no[t] < k + 1 by {
        if t < p {
            assert(no[t] == o[t]);
        } else if t > p {
            assert(no[t] == o[t - 1]);
        }
    }
    assert forall|j: int| 0 <= j < k + 1 implies #[trigger] no.contains(j) by {
        if j == k {
            assert(no[p] == j);
        } else {
            assert(o.contains(j));
            let t = choose|t: int| 0 <= t < o.len() && #[trigger] o[t] == j;
            if t < p {
                assert(no[t] == j);
            } else {
                assert(no[t + 1] == j);
            }
        }
    }
    assert forall|s: int, t: int| 0 <= s < t < no.len() implies #[trigger] precedes(keys, no[s], no[t]) by {
        let ks = keys[k];
        if s == p {
            assert(no[t] == o[t - 1]);
            assert(key_lt(ks, keys[no[t]]));
        } else if t == p {
            assert(no[s] == o[s]);
            assert(!key_lt(ks, keys[no[s]]));
            lemma_key_lt_order(ks, keys[no[s]], ks);
            assert(no[s] < k);
        } else {
            let s0 = if s < p { s } else { s - 1 };
            let t0 = if t < p { t } else { t - 1 };
            assert(no[s] == o[s0]);
            assert(no[t] == o[t0]);
            assert(precedes(keys, o[s0], o[t0]));
        }
    }
}

/// The first position from `t` on whose key is larger than `keys[k]`, or
/// the end.
spec fn first_larger(keys: Seq<(Seq<char>, Seq<char>)>, o: Seq<int>, k: int, t: int) -> int
    decreases o.len() - t,
{
    if t >= o.len() {
        o.len() as int
    } else if key_lt(keys[k], keys[o[t]]) {
        t
    } else {
        first_larger(keys, o, k, t + 1)
    }
}

proof fn lemma_first_larger(keys: Seq<(Seq<char>, Seq<char>)>, o: Seq<int>, k: int, t: int)
    requires
        0 <= t <= o.len(),
        forall|u: int| 0 <= u < t ==> !key_lt(keys[k], #[trigger] keys[o[u]]),
    ensures
        t <= first_larger(keys, o, k, t) <= o.len(),
        forall|u: int| 0 <= u < first_larger(keys, o, k, t) ==> !key_lt(keys[k], #[trigger] keys[o[u]]),
        first_larger(keys, o, k, t) < o.len() ==> key_lt(keys[k], keys[o[first_larger(keys, o, k, t)]]),
    decreases o.len() - t,
{
    if t < o.len() && !key_lt(keys[k], keys[o[t]]) {
        lemma_first_larger(keys, o, k, t + 1);
    }
}

proof fn lemma_order_of_prefix_exists(keys: Seq<(Seq<char>, Seq<char>)>, n: int)
    requires
        0 <= n <= keys.len(),
    ensures
        exists|o: Seq<int>| #[trigger] is_order_of_prefix(keys, o, n),
    decreases n,
{
    if n == 0 {
        assert(is_order_of_prefix(keys, Seq::<int>::empty(), 0));
    } else {
        lemma_order_of_prefix_exists(keys, n - 1);
        let o = choose|o: Seq<int>| #[trigger] is_order_of_prefix(keys, o, n - 1);
        let k = n - 1;
        lemma_first_larger(keys, o, k, 0);
        let p = first_larger(keys, o, k, 0);
        assert forall|t: int| p <= t < o.len() implies key_lt(keys[k], #[trigger] keys[o[t]]) by {
            if t > p {
                assert(precedes(keys, o[p], o[t]));
                lemma_key_lt_order(keys[k], keys[o[p]], keys[o[t]]);
            }
        }
        lemma_insert_position(keys, o, k, p);
        assert(is_order_of_prefix(keys, o.insert(p, k), n));
    }
}

/// Every sequence of keys has a stable order.
pub proof fn lemma_stable_order_exists(keys: Seq<(Seq<char>, Seq<char>)>)
    ensures
        is_stable_order(keys, stable_order(keys)),
{
    lemma_order_of_prefix_exists(keys, keys.len() as int);
    let w = choose|o: Seq<int>| #[trigger] is_order_of_prefix(keys, o, keys.len() as int);
    assert(is_stable_order(keys, w));
}

/// Keys in non-decreasing order.
pub open spec fn keys_sorted(v: Seq<(Seq<char>, Seq<char>)>) -> bool {
    forall|i: int, j: int| 0 <= i < j < v.len() ==> !key_lt(#[trigger] v[j], #[trigger] v[i])
}

/// Stably sorted keys are the keys, rearranged, in non-decreasing order.
pub proof fn lemma_sorted_keys(keys: Seq<(Seq<char>, Seq<char>)>)
    ensures
        sorted_keys(keys).len() == keys.len(),
        keys_sorted(sorted_keys(keys)),
        forall|t: int|
            0 <= t < keys.len() ==> 0 <= #[trigger] stable_order(keys)[t] < keys.len()
                && sorted_keys(keys)[t] == keys[stable_order(keys)[t]],
{
    lemma_stable_order_exists(keys);
    let o = stable_order(keys);
    let r = sorted_keys(keys);
    assert forall|i: int, j: int| 0 <= i < j < r.len() implies !key_lt(#[trigger] r[j], #[trigger] r[i]) by {
        assert(precedes(keys, o[i], o[j]));
        lemma_key_lt_order(keys[o[i]], keys[o[j]], keys[o[i]]);
    }
}

/// Sorting keeps the keys: the sorted keys hold exactly the keys given.
pub proof fn lemma_sorted_keys_same_elements(keys: Seq<(Seq<char>, Seq<char>)>)
    ensures
        forall|x: (Seq<char>, Seq<char>)| #[trigger] sorted_keys(keys).contains(x) <==> keys.contains(x),
{
    lemma_sorted_keys(keys);
    lemma_stable_order_exists(keys);
    let o = stable_order(keys);
    let r = sorted_keys(keys);
    assert forall|x: (Seq<char>, Seq<char>)| #[trigger] r.contains(x) <==> keys.contains(x) by {
        if r.contains(x) {
            let t = choose|t: int| 0 <= t < r.len() && r[t] == x;
            assert(keys[o[t]] == x);
        }
        if keys.contains(x) {
            let i = choose|i: int| 0 <= i < keys.len() && keys[i] == x;
            assert(o.contains(i));
            let t = choose|t: int| 0 <= t < o.len() && #[trigger] o[t] == i;
            assert(r[t] == x);
        }
    }
}

/// Keys in strictly increasing order.
pub open spec fn keys_increasing(v: Seq<(Seq<char>, Seq<char>)>) -> bool {
    forall|i: int, j: int| 0 <= i < j < v.len() ==> key_lt(#[trigger] v[i], #[trigger] v[j])
}

/// Sorting distinct keys gives them in strictly increasing order, and holds
/// exactly the keys it was given.
proof fn lemma_sorted_distinct_keys(keys: Seq<(Seq<char>, Seq<char>)>)
    requires
        keys.no_duplicates(),
    ensures
        sorted_keys(keys).len() == keys.len(),
        keys_increasing(sorted_keys(keys)),
        forall|x: (Seq<char>, Seq<char>)| #[trigger] sorted_keys(keys).contains(x) <==> keys.contains(x),
{
    lemma_sorted_keys(keys);
    lemma_stable_order_exists(keys);
    let o = stable_order(keys);
    let r = sorted_keys(keys);
    assert forall|i: int, j: int| 0 <= i < j < r.len() implies key_lt(#[trigger] r[i], #[trigger] r[j]) by {
        assert(precedes(keys, o[i], o[j]));
        lemma_precedes_strict(keys, o[i], o[i]);
        assert(o[i] != o[j]);
        lemma_key_lt_order(r[i], r[j], r[i]);
        assert(!key_lt(r[j], r[i]));
        assert(r[i] == keys[o[i]] && r[j] == keys[o[j]]);
    }
    assert forall|x: (Seq<char>, Seq<char>)| #[trigger] r.contains(x) <==> keys.contains(x) by {
        if r.contains(x) {
            let t = choose|t: int| 0 <= t < r.len() && r[t] == x;
            assert(keys[o[t]] == x);
        }
        if keys.contains(x) {
            let i = choose|i: int| 0 <= i < keys.len() && keys[i] == x;
            assert(o.contains(i));
            let t = choose|t: int| 0 <= t < o.len() && #[trigger] o[t] == i;
            assert(r[t] == x);
        }
    }
}

proof fn lemma_increasing_agree_below(
    a: Seq<(Seq<char>, Seq<char>)>,
    b: Seq<(Seq<char>, Seq<char>)>,
    i: int,
)
    requires
        a.len() == b.len(),
        keys_increasing(a),
        keys_increasing(b),
        forall|x: (Seq<char>, Seq<char>)| #[trigger] a.contains(x) <==> b.contains(x),
        0 <= i <= a.len(),
    ensures
        forall|j: int| 0 <= j < i ==> a[j] == b[j],
    decreases i,
{
    if i > 0 {
        let m = i - 1;
        lemma_increasing_agree_below(a, b, m);
        if a[m] != b[m] {
            lemma_key_lt_order(a[m], b[m], a[m]);
            if key_lt(a[m], b[m]) {
                assert(a.contains(a[m]));
                let t = choose|t: int| 0 <= t < b.len() && b[t] == a[m];
                if t < m {
                    assert(a[t] == b[t]);
                    lemma_key_lt_order(a[t], a[m], a[t]);
                } else if t > m {
                    lemma_key_lt_order(a[m], b[m], b[t]);
                    lemma_key_lt_order(b[t], b[t], b[t]);
                }
            } else {
                assert(b.contains(b[m]));
                assert(a.contains(b[m]));
                let t = choose|t: int| 0 <= t < a.len() && a[t] == b[m];
                if t < m {
                    assert(a[t] == b[t]);
                    lemma_key_lt_order(b[t], b[m], b[t]);
                } else if t > m {
                    lemma_key_lt_order(b[m], a[m], a[t]);
                    lemma_key_lt_order(a[t], a[t], a[t]);
                }
            }
        }
    }
}

/// Distinct keys sort the same whatever order they are given in: two lists
/// of the same distinct keys have the same sorted form.
pub proof fn lemma_sorted_keys_ignore_input_order(
    k1: Seq<(Seq<char>, Seq<char>)>,
    k2: Seq<(Seq<char>, Seq<char>)>,
)
    requires
        k1.no_duplicates(),
        k2.no_duplicates(),
        k1.len() == k2.len(),
        forall|x: (Seq<char>, Seq<char>)| #[trigger] k1.contains(x) <==> k2.contains(x),
    ensures
        sorted_keys(k1) == sorted_keys(k2),
{
    lemma_sorted_distinct_keys(k1);
    lemma_sorted_distinct_keys(k2);
    let a = sorted_keys(k1);
    let b = sorted_keys(k2);
    assert forall|x: (Seq<char>, Seq<char>)| #[trigger] a.contains(x) <==> b.contains(x) by {
        assert(a.contains(x) <==> k1.contains(x));
        assert(b.contains(x) <==> k2.contains(x));
    }
    lemma_increasing_agree_below(a, b, a.len() as int);
    assert(a =~= b);
}

/// Whether key `a` comes before key `b`.
pub fn key_lt_exec(a: &(Vec<char>, Vec<char>), b: &(Vec<char>, Vec<char>)) -> (r: bool)
    ensures
        r == key_lt((a.0@, a.1@), (b.0@, b.1@)),
{
    if text_lt_exec(&a.0, &b.0) {
        true
    } else if eq_chars(&a.0, &b.0) {
        text_lt_exec(&a.1, &b.1)
    } else {
        false
    }
}

/// The positions of `keys` in stable sorted order (binary insertion sort).
pub fn stable_order_exec(keys: &Vec<(Vec<char>, Vec<char>)>) -> (o: Vec<usize>)
    ensures
        positions(o@) == stable_order(key_view(keys@)),
        is_stable_order(key_view(keys@), positions(o@)),
{
    let ghost kv = key_view(keys@);
    let mut o: Vec<usize> = Vec::new();
    let mut k: usize = 0;
    while k < keys.len()
        invariant
            k <= keys.len(),
            kv == key_view(keys@),
            is_order_of_prefix(kv, positions(o@), k as int),
        decreases keys.len() - k,
    {
        let key = &keys[k];
        let mut lo: usize = 0;
        let mut hi: usize = o.len();
        while lo < hi
            invariant
                kv == key_view(keys@),
                k < keys.len(),
                *key == keys@[k as int],
                is_order_of_prefix(kv, positions(o@), k as int),
                lo <= hi <= o.len(),
                forall|t: int| 0 <= t < lo ==> !key_lt(kv[k as int], #[trigger] kv[o@[t] as int]),
                forall|t: int| hi <= t < o.len() ==> key_lt(kv[k as int], #[trigger] kv[o@[t] as int]),
            decreases hi - lo,
        {
            let mid = lo + (hi - lo) / 2;
            let ghost om = o@[mid as int] as int;
            assert(positions(o@)[mid as int] == om);
            assert(kv[k as int] == (keys@[k as int].0@, keys@[k as int].1@));
            assert(kv[om] == (keys@[om].0@, keys@[om].1@));
            let other = &keys[o[mid]];
            let less = key_lt_exec(key, other);
            assert(*other == keys@[om]);
            assert(*key == keys@[k as int]);
            assert(less == key_lt(kv[k as int], kv[om]));
            if less {
                assert forall|t: int| mid <= t < o.len() implies key_lt(
                    kv[k as int],
                    #[trigger] kv[o@[t] as int],
                ) by {
                    if t > mid {
                        let ot = o@[t] as int;
                        assert(positions(o@)[t] == ot);
                        assert(precedes(kv, positions(o@)[mid as int], positions(o@)[t]));
                        assert(key_lt(kv[om], kv[ot]) || kv[om] == kv[ot]);
                        lemma_key_lt_order(kv[k as int], kv[om], kv[ot]);
                    } else {
                        assert(t == mid);
                        assert(key_lt(kv[k as int], kv[om]));
                    }
                }
                hi = mid;
            } else {
                assert forall|t: int| 0 <= t <= mid implies !key_lt(
                    kv[k as int],
                    #[trigger] kv[o@[t] as int],
                ) by {
                    if t < mid {
                        let ot = o@[t] as int;
                        assert(positions(o@)[t] == ot);
                        assert(precedes(kv, positions(o@)[t], positions(o@)[mid as int]));
                        assert(key_lt(kv[ot], kv[om]) || kv[om] == kv[ot]);
                        lemma_key_lt_order(kv[k as int], kv[ot], kv[om]);
                    } else {
                        assert(t == mid);
                        assert(!key_lt(kv[k as int], kv[om]));
                    }
                }
                lo = mid + 1;
            }
        }
        let ghost old_o = positions(o@);
        o.insert(lo, k);
        proof {
            assert(positions(o@) =~= old_o.insert(lo as int, k as int));
            assert forall|t: int| 0 <= t < lo implies !key_lt(kv[k as int], #[trigger] kv[old_o[t]]) by {
                assert(old_o[t] == o@[t] as int);
            }
            assert forall|t: int| lo <= t < old_o.len() implies key_lt(kv[k as int], #[trigger] kv[old_o[t]]) by {
            }
            lemma_insert_position(kv, old_o, k as int, lo as int);
        }
        k = k + 1;
    }
    proof {
        lemma_stable_order_is(kv, positions(o@));
    }
    o
}

/// `items` rearranged so that position `t` holds `items[o[t]]`.
pub open spec fn permute<A>(items: Seq<A>, o: Seq<int>) -> Seq<A> {
    o.map_values(|i: int| items[i])
}

/// `keys` sorted stably.
pub open spec fn sorted_keys(keys: Seq<(Seq<char>, Seq<char>)>) -> Seq<(Seq<char>, Seq<char>)> {
    permute(keys, stable_order(keys))
}

/// `items` sorted stably by their pair of texts.
pub fn sorted_pairs(items: &Vec<(Vec<char>, Vec<char>)>) -> (r: Vec<(Vec<char>, Vec<char>)>)
    ensures
        key_view(r@) == sorted_keys(key_view(items@)),
{
    let o = stable_order_exec(items);
    let ghost kv = key_view(items@);
    let ghost po = positions(o@);
    let mut r: Vec<(Vec<char>, Vec<char>)> = Vec::new();
    let mut t: usize = 0;
    while t < o.len()
        invariant
            kv == key_view(items@),
            po == positions(o@),
            po == stable_order(kv),
            is_stable_order(kv, po),
            t <= o.len(),
            key_view(r@) == permute(kv, po).take(t as int),
        decreases o.len() - t,
    {
        let i = o[t];
        assert(po[t as int] == i as int);
        let item = (crate::text::copy_chars(&items[i].0), crate::text::copy_chars(&items[i].1));
        let ghost before = r@;
        r.push(item);
        assert(kv[i as int] == (items@[i as int].0@, items@[i as int].1@));
        assert(r@ == before.push(item));
        assert(key_view(r@) =~= key_view(before).push(kv[i as int]));
        assert(permute(kv, po).take(t + 1) =~= permute(kv, po).take(t as int).push(kv[po[t as int]]));
        assert(key_view(r@) =~= permute(kv, po).take(t + 1));
        t = t + 1;
    }
    assert(permute(kv, po).take(o.len() as int) =~= permute(kv, po));
    r
}

} // verus!
