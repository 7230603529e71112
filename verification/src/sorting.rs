//! A stable ordering of items by a (rank, text) key: lower rank first, then
//! text in code point order, items with equal keys kept in their given order.
//! This is the order `sort_by` gives with such a comparison.
use vstd::prelude::*;

use crate::text::{chars_less, chars_lt};

verus! {

/// The key an item is ordered by.
pub struct SortKey {
    pub rank: i64,
    pub text: Vec<char>,
}

impl View for SortKey {
    type V = (int, Seq<char>);

    open spec fn view(&self) -> (int, Seq<char>) {
        (self.rank as int, self.text@)
    }
}

/// `a` strictly precedes `b`.
pub open spec fn key_before(a: (int, Seq<char>), b: (int, Seq<char>)) -> bool {
    a.0 < b.0 || (a.0 == b.0 && chars_lt(a.1, b.1))
}

/// The keys, by view.
pub open spec fn keys_view(keys: Seq<SortKey>) -> Seq<(int, Seq<char>)> {
    keys.map_values(|k: SortKey| k@)
}

/// The first position at or after `j` in `order` whose key `x` strictly
/// precedes, or `order.len()` if there is none.
pub open spec fn first_after(order: Seq<int>, keys: Seq<(int, Seq<char>)>, x: (int, Seq<char>), j: int) -> int
    decreases order.len() - j,
{
    if j >= order.len() {
        order.len() as int
    } else if key_before(x, keys[order[j]]) {
        j
    } else {
        first_after(order, keys, x, j + 1)
    }
}

/// The order of the first `n` items: each item in turn goes right after the
/// items already placed that it does not strictly precede.
pub open spec fn order_prefix(keys: Seq<(int, Seq<char>)>, n: nat) -> Seq<int>
    decreases n,
{
    if n == 0 {
        Seq::empty()
    } else {
        let o = order_prefix(keys, (n - 1) as nat);
        o.insert(first_after(o, keys, keys[n - 1], 0), n - 1)
    }
}

/// The positions of all items, in stable sorted order.
pub open spec fn stable_order(keys: Seq<(int, Seq<char>)>) -> Seq<int> {
    order_prefix(keys, keys.len())
}

/// Whether `a` strictly precedes `b`.
pub fn key_less(a: &SortKey, b: &SortKey) -> (res: bool)
    ensures
        res == key_before(a@, b@),
{
    a.rank < b.rank || (a.rank == b.rank && chars_less(a.text.as_slice(), b.text.as_slice()))
}

/// The positions of `keys` in stable sorted order.
pub fn stable_sorted_positions(keys: &Vec<SortKey>) -> (res: Vec<usize>)
    ensures
        res@.len() == stable_order(keys_view(keys@)).len(),
        forall|i: int| 0 <= i < res@.len() ==> res@[i] as int == stable_order(keys_view(keys@))[i],
{
    let ghost kv = keys_view(keys@);
    let mut order: Vec<usize> = Vec::new();
    let mut n: usize = 0;
    proof {
        lemma_order_prefix_permutation(kv, 0);
    }
    while n < keys.len()
        invariant
            n <= keys.len(),
            kv == keys_view(keys@),
            order@.len() == order_prefix(kv, n as nat).len(),
            order@.len() == n,
            forall|i: int| 0 <= i < order@.len() ==> order@[i] as int == order_prefix(kv, n as nat)[i],
        decreases keys.len() - n,
    {
        let ghost o = order_prefix(kv, n as nat);
        proof {
            lemma_order_prefix_permutation(kv, n as nat);
        }
        let mut j: usize = 0;
        while j < order.len() && !key_less(&keys[n], &keys[order[j]])
            invariant
                j <= order@.len(),
                n < keys.len(),
                order@.len() == o.len(),
                kv == keys_view(keys@),
                o == order_prefix(kv, n as nat),
                forall|i: int| 0 <= i < order@.len() ==> order@[i] as int == o[i],
                forall|i: int| 0 <= i < order@.len() ==> 0 <= #[trigger] order@[i] < n,
                first_after(o, kv, kv[n as int], 0) == first_after(o, kv, kv[n as int], j as int),
            decreases order@.len() - j,
        {
            j = j + 1;
        }
        proof {
            lemma_order_prefix_permutation(kv, n as nat);
        }
        order.insert(j, n);
        n = n + 1;
        proof {
            let o2 = order_prefix(kv, n as nat);
            assert(o2 == o.insert(j as int, (n - 1) as int));
            assert forall|i: int| 0 <= i < order@.len() implies order@[i] as int == o2[i] by {
                if i < j {
                } else if i == j {
                } else {
                    assert(o2[i] == o[i - 1]);
                }
            }
            lemma_order_prefix_permutation(kv, n as nat);
        }
    }
    order
}

// ---------------------------------------------------------------------------
// Properties of the code point order
// ---------------------------------------------------------------------------
/// No sequence precedes itself.
pub proof fn lemma_chars_lt_irreflexive(a: Seq<char>)
    ensures
        !chars_lt(a, a),
    decreases a.len(),
{
    if a.len() > 0 {
        lemma_chars_lt_irreflexive(a.drop_first());
    }
}

/// The code point order is transitive.
pub proof fn lemma_chars_lt_transitive(a: Seq<char>, b: Seq<char>, c: Seq<char>)
    requires
        chars_lt(a, b),
        chars_lt(b, c),
    ensures
        chars_lt(a, c),
    decreases a.len(),
{
    if a.len() > 0 && b.len() > 0 && c.len() > 0 {
        if a[0] == b[0] && b[0] == c[0] {
            lemma_chars_lt_transitive(a.drop_first(), b.drop_first(), c.drop_first());
        }
    }
}

/// Two different sequences are ordered one way or the other.
pub proof fn lemma_chars_lt_total(a: Seq<char>, b: Seq<char>)
    requires
        a != b,
    ensures
        chars_lt(a, b) || chars_lt(b, a),
    decreases a.len(),
{
    if a.len() > 0 && b.len() > 0 && a[0] == b[0] {
        if a.drop_first() == b.drop_first() {
            assert(a == seq![a[0]] + a.drop_first());
            assert(b == seq![b[0]] + b.drop_first());
        }
        lemma_chars_lt_total(a.drop_first(), b.drop_first());
    } else if a.len() > 0 && b.len() > 0 {
        let ua = a[0] as u32;
        let ub = b[0] as u32;
        vstd::utf8::char_u32_cast(a[0], ua);
        vstd::utf8::char_u32_cast(b[0], ub);
    } else if a.len() == 0 && b.len() == 0 {
        assert(a == b);
    }
}

/// `key_before` is a strict total order on keys.
pub proof fn lemma_key_before_order(a: (int, Seq<char>), b: (int, Seq<char>), c: (int, Seq<char>))
    ensures
        !key_before(a, a),
        key_before(a, b) && key_before(b, c) ==> key_before(a, c),
        a != b ==> key_before(a, b) || key_before(b, a),
        key_before(a, b) ==> !key_before(b, a),
{
    lemma_chars_lt_irreflexive(a.1);
    if key_before(a, b) && key_before(b, c) && a.0 == b.0 && b.0 == c.0 {
        lemma_chars_lt_transitive(a.1, b.1, c.1);
    }
    if a != b && a.0 == b.0 {
        lemma_chars_lt_total(a.1, b.1);
    }
    if key_before(a, b) && key_before(b, a) && a.0 == b.0 {
        lemma_chars_lt_transitive(a.1, b.1, a.1);
    }
}

// ---------------------------------------------------------------------------
// Properties of the stable order
// ---------------------------------------------------------------------------
/// The sorted-and-stable arrangement property of an order over `keys`.
pub open spec fn is_stable_sorted(order: Seq<int>, keys: Seq<(int, Seq<char>)>) -> bool {
    &&& forall|a: int, b: int|
        0 <= a < b < order.len() ==> !key_before(keys[#[trigger] order[b]], keys[#[trigger] order[a]])
    &&& forall|a: int, b: int|
        0 <= a < b < order.len() && keys[#[trigger] order[a]] == keys[#[trigger] order[b]] ==> order[a]
            < order[b]
}

/// `order` lists each of `0..n` exactly once.
pub open spec fn is_permutation_of_range(order: Seq<int>, n: nat) -> bool {
    &&& order.len() == n
    &&& forall|i: int| 0 <= i < order.len() ==> 0 <= #[trigger] order[i] < n
    &&& forall|a: int, b: int| 0 <= a < b < order.len() ==> #[trigger] order[a] != #[trigger] order[b]
}

proof fn lemma_first_after(order: Seq<int>, keys: Seq<(int, Seq<char>)>, x: (int, Seq<char>), j: int)
    requires
        0 <= j <= order.len(),
    ensures
        j <= first_after(order, keys, x, j) <= order.len(),
        forall|i: int| j <= i < first_after(order, keys, x, j) ==> !key_before(x, keys[order[i]]),
        first_after(order, keys, x, j) < order.len() ==> key_before(
            x,
            keys[order[first_after(order, keys, x, j)]],
        ),
    decreases order.len() - j,
{
    if j < order.len() && !key_before(x, keys[order[j]]) {
        lemma_first_after(order, keys, x, j + 1);
    }
}

/// The first `n` positions form a permutation of `0..n` in stable sorted order.
pub proof fn lemma_order_prefix_permutation(keys: Seq<(int, Seq<char>)>, n: nat)
    requires
        n <= keys.len(),
    ensures
        is_permutation_of_range(order_prefix(keys, n), n),
        is_stable_sorted(order_prefix(keys, n), keys),
    decreases n,
{
    if n > 0 {
        let m = (n - 1) as nat;
        lemma_order_prefix_permutation(keys, m);
        let o = order_prefix(keys, m);
        let x = keys[m as int];
        let p = first_after(o, keys, x, 0);
        lemma_first_after(o, keys, x, 0);
        let o2 = o.insert(p, m as int);
        assert(o2 == order_prefix(keys, n));
        o.insert_ensures(p, m as int);
        // Every item placed after `p` is strictly preceded by the new one.
        assert forall|i: int| p <= i < o.len() implies key_before(x, keys[o[i]]) by {
            if i > p {
                lemma_key_before_order(keys[o[p]], keys[o[i]], x);
                lemma_key_before_order(x, keys[o[p]], keys[o[i]]);
            }
        }
        assert forall|i: int| 0 <= i < o2.len() implies 0 <= #[trigger] o2[i] < n by {
            if i < p {
            } else if i > p {
                assert(o2[i] == o[i - 1]);
            }
        }
        assert forall|a: int, b: int| 0 <= a < b < o2.len() implies #[trigger] o2[a]
            != #[trigger] o2[b] by {
            if b < p {
            } else if a > p {
                assert(o2[a] == o[a - 1]);
                assert(o2[b] == o[b - 1]);
            } else if a < p && b > p {
                assert(o2[b] == o[b - 1]);
            } else if a == p {
                assert(o2[b] == o[b - 1]);
            }
        }
        assert forall|a: int, b: int| 0 <= a < b < o2.len() implies !key_before(
            keys[#[trigger] o2[b]],
            keys[#[trigger] o2[a]],
        ) by {
            if b < p {
            } else if a > p {
                assert(o2[a] == o[a - 1]);
                assert(o2[b] == o[b - 1]);
            } else if a < p && b > p {
                assert(o2[b] == o[b - 1]);
            } else if a == p {
                assert(o2[b] == o[b - 1]);
                lemma_key_before_order(x, keys[o[b - 1]], x);
            } else {
                assert(b == p);
            }
        }
        assert forall|a: int, b: int|
            0 <= a < b < o2.len() && keys[#[trigger] o2[a]] == keys[#[trigger] o2[b]] implies o2[a]
            < o2[b] by {
            if b < p {
            } else if a > p {
                assert(o2[a] == o[a - 1]);
                assert(o2[b] == o[b - 1]);
            } else if a < p && b > p {
                assert(o2[b] == o[b - 1]);
            } else if a == p {
                assert(o2[b] == o[b - 1]);
                lemma_key_before_order(x, x, x);
            } else {
                assert(b == p);
            }
        }
    }
}

/// A permutation of `0..n` lists each of `0..n`.
pub proof fn lemma_permutation_covers(order: Seq<int>, n: nat, k: int)
    requires
        is_permutation_of_range(order, n),
        0 <= k < n,
    ensures
        exists|x: int| 0 <= x < order.len() && order[x] == k,
{
    broadcast use vstd::set::group_set_axioms, vstd::seq_lib::group_seq_properties;

    assert(order.no_duplicates()) by {
        assert forall|i: int, j: int|
            0 <= i < order.len() && 0 <= j < order.len() && i != j implies order[i] != order[j] by {
            if i < j {
                assert(order[i] != order[j]);
            } else {
                assert(order[j] != order[i]);
            }
        }
    }
    order.unique_seq_to_set();
    let range = vstd::set_lib::set_int_range(0, n as int);
    vstd::set_lib::lemma_int_range(0, n as int);
    assert(order.to_set().subset_of(range)) by {
        assert forall|v: int| order.to_set().contains(v) implies range.contains(v) by {
            assert(order.contains(v));
            let x = choose|x: int| 0 <= x < order.len() && order[x] == v;
        }
    }
    vstd::set_lib::lemma_subset_equality(order.to_set(), range);
    assert(range.contains(k));
    assert(order.to_set().contains(k));
    assert(order.contains(k));
}

/// The stable order lists every position once, in sorted order, with items of
/// equal keys in their given order.
pub proof fn lemma_stable_order(keys: Seq<(int, Seq<char>)>)
    ensures
        is_permutation_of_range(stable_order(keys), keys.len()),
        is_stable_sorted(stable_order(keys), keys),
{
    lemma_order_prefix_permutation(keys, keys.len());
}

} // verus!
