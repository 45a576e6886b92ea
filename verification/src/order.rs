//! Lexicographic keys and a verified stable ordering of records by key.
use vstd::prelude::*;

verus! {

/// Strict lexicographic order on integer sequences; a proper prefix comes first.
pub open spec fn key_lt(a: Seq<int>, b: Seq<int>) -> bool
    decreases a.len(),
{
    if a.len() == 0 {
        b.len() > 0
    } else if b.len() == 0 {
        false
    } else if a[0] != b[0] {
        a[0] < b[0]
    } else {
        key_lt(a.drop_first(), b.drop_first())
    }
}

pub proof fn lemma_key_lt_irreflexive(a: Seq<int>)
    ensures
        !key_lt(a, a),
    decreases a.len(),
{
    if a.len() > 0 {
        lemma_key_lt_irreflexive(a.drop_first());
    }
}

pub proof fn lemma_key_lt_transitive(a: Seq<int>, b: Seq<int>, c: Seq<int>)
    requires
        key_lt(a, b),
        key_lt(b, c),
    ensures
        key_lt(a, c),
    decreases a.len(),
{
    if a.len() > 0 && b.len() > 0 && c.len() > 0 && a[0] == b[0] && b[0] == c[0] {
        lemma_key_lt_transitive(a.drop_first(), b.drop_first(), c.drop_first());
    }
}

pub proof fn lemma_key_lt_total(a: Seq<int>, b: Seq<int>)
    ensures
        a =~= b || key_lt(a, b) || key_lt(b, a),
    decreases a.len(),
{
    if a.len() > 0 && b.len() > 0 && a[0] == b[0] {
        lemma_key_lt_total(a.drop_first(), b.drop_first());
        if a.drop_first() =~= b.drop_first() {
            assert(a =~= seq![a[0]] + a.drop_first());
            assert(b =~= seq![b[0]] + b.drop_first());
        }
    }
}

pub proof fn lemma_key_lt_asymmetric(a: Seq<int>, b: Seq<int>)
    requires
        key_lt(a, b),
    ensures
        !key_lt(b, a),
{
    if key_lt(b, a) {
        lemma_key_lt_transitive(a, b, a);
        lemma_key_lt_irreflexive(a);
    }
}

/// The integer view of a key.
pub open spec fn key_view(k: Seq<i128>) -> Seq<int> {
    k.map_values(|x: i128| x as int)
}

/// `key_lt` on the keys of the records `a` and `b`.
pub fn key_less(a: &[i128], b: &[i128]) -> (r: bool)
    ensures
        r == key_lt(key_view(a@), key_view(b@)),
{
    let mut i: usize = 0;
    assert(key_view(a@).skip(0) =~= key_view(a@));
    assert(key_view(b@).skip(0) =~= key_view(b@));
    loop
        invariant
            i <= a@.len(),
            i <= b@.len(),
            forall|k: int| 0 <= k < i ==> a@[k] == b@[k],
            key_lt(key_view(a@), key_view(b@)) == key_lt(
                key_view(a@).skip(i as int),
                key_view(b@).skip(i as int),
            ),
        decreases a@.len() - i,
    {
        let ghost ka = key_view(a@).skip(i as int);
        let ghost kb = key_view(b@).skip(i as int);
        if i == a.len() {
            return i < b.len();
        }
        if i == b.len() {
            return false;
        }
        if a[i] != b[i] {
            return a[i] < b[i];
        }
        assert(ka.drop_first() =~= key_view(a@).skip(i + 1));
        assert(kb.drop_first() =~= key_view(b@).skip(i + 1));
        i = i + 1;
    }
}

/// `j` occurs in `order`.
pub open spec fn lists(order: Seq<usize>, j: int) -> bool {
    exists|k: int| 0 <= k < order.len() && order[k] == j
}

/// `order` lists every index of `keys` once, by increasing key.
pub open spec fn is_sorted_order(keys: Seq<Seq<int>>, order: Seq<usize>) -> bool {
    &&& order.len() == keys.len()
    &&& forall|k: int| 0 <= k < order.len() ==> #[trigger] order[k] < keys.len()
    &&& forall|j: int| 0 <= j < keys.len() ==> #[trigger] lists(order, j)
    &&& forall|k1: int, k2: int|
        0 <= k1 < k2 < order.len() ==> key_lt(keys[order[k1] as int], keys[order[k2] as int])
}

/// No two keys are equal.
pub open spec fn keys_distinct(keys: Seq<Seq<int>>) -> bool {
    forall|i: int, j: int| 0 <= i < j < keys.len() ==> keys[i] != keys[j]
}

/// The integer views of a list of keys.
pub open spec fn keys_view(keys: Seq<Vec<i128>>) -> Seq<Seq<int>> {
    keys.map_values(|k: Vec<i128>| key_view(k@))
}

/// The indices of `keys` by increasing key (an insertion sort).
pub fn sorted_order(keys: &Vec<Vec<i128>>) -> (order: Vec<usize>)
    requires
        keys_distinct(keys_view(keys@)),
    ensures
        is_sorted_order(keys_view(keys@), order@),
{
    let ghost kv = keys_view(keys@);
    let n = keys.len();
    let mut order: Vec<usize> = Vec::new();
    let mut i: usize = 0;
    while i < n
        invariant
            n == keys@.len(),
            kv == keys_view(keys@),
            keys_distinct(kv),
            i <= n,
            order@.len() == i,
            forall|k: int| 0 <= k < order@.len() ==> #[trigger] order@[k] < i,
            forall|j: int| 0 <= j < i ==> #[trigger] lists(order@, j),
            forall|k1: int, k2: int|
                0 <= k1 < k2 < order@.len() ==> key_lt(kv[order@[k1] as int], kv[order@[k2] as int]),
        decreases n - i,
    {
        // position of the first key greater than keys[i]
        let mut p: usize = 0;
        while p < order.len() && !key_less(keys[i].as_slice(), keys[order[p]].as_slice())
            invariant
                n == keys@.len(),
                kv == keys_view(keys@),
                i < n,
                order@.len() == i,
                forall|k: int| 0 <= k < order@.len() ==> #[trigger] order@[k] < i,
                p <= order@.len(),
                forall|k: int| 0 <= k < p ==> !key_lt(kv[i as int], kv[#[trigger] order@[k] as int]),
            decreases order@.len() - p,
        {
            p = p + 1;
        }
        let ghost old_order = order@;
        proof {
            assert forall|k: int| 0 <= k < p implies key_lt(kv[#[trigger] old_order[k] as int], kv[i as int]) by {
                lemma_key_lt_total(kv[i as int], kv[old_order[k] as int]);
                assert(kv[old_order[k] as int] != kv[i as int]);
            }
            assert forall|k: int| p <= k < old_order.len() implies key_lt(kv[i as int], kv[#[trigger] old_order[k] as int]) by {
                if k > p {
                    assert(key_lt(kv[old_order[p as int] as int], kv[old_order[k] as int]));
                    lemma_key_lt_transitive(kv[i as int], kv[old_order[p as int] as int], kv[old_order[k] as int]);
                }
            }
        }
        order.insert(p, i);
        proof {
            let new_order = order@;
            assert(new_order == old_order.insert(p as int, i));
            assert forall|k1: int, k2: int| 0 <= k1 < k2 < new_order.len() implies key_lt(
                kv[new_order[k1] as int],
                kv[new_order[k2] as int],
            ) by {
                if k1 < p && k2 == p {
                } else if k1 < p && k2 > p {
                    assert(new_order[k2] == old_order[k2 - 1]);
                    assert(key_lt(kv[old_order[k1] as int], kv[i as int]));
                    lemma_key_lt_transitive(kv[old_order[k1] as int], kv[i as int], kv[old_order[k2 - 1] as int]);
                } else if k1 == p {
                    assert(new_order[k2] == old_order[k2 - 1]);
                } else if k1 > p {
                    assert(new_order[k1] == old_order[k1 - 1]);
                    assert(new_order[k2] == old_order[k2 - 1]);
                } else {
                    assert(new_order[k1] == old_order[k1]);
                    assert(new_order[k2] == old_order[k2]);
                }
            }
            assert forall|j: int| 0 <= j < i + 1 implies #[trigger] lists(new_order, j) by {
                if j == i {
                    assert(new_order[p as int] == j);
                } else {
                    assert(lists(old_order, j));
                    let k = choose|k: int| 0 <= k < old_order.len() && old_order[k] == j;
                    if k < p {
                        assert(new_order[k] == j);
                    } else {
                        assert(new_order[k + 1] == j);
                    }
                }
            }
            assert forall|k: int| 0 <= k < new_order.len() implies #[trigger] new_order[k] < i + 1 by {
                if k < p {
                    assert(new_order[k] == old_order[k]);
                } else if k > p {
                    assert(new_order[k] == old_order[k - 1]);
                }
            }
        }
        i = i + 1;
    }
    order
}


proof fn lemma_sorted_distinct(keys: Seq<Seq<int>>, o: Seq<usize>)
    requires
        is_sorted_order(keys, o),
    ensures
        forall|a: int, b: int| 0 <= a < b < o.len() ==> o[a] != o[b],
{
    assert forall|a: int, b: int| 0 <= a < b < o.len() implies o[a] != o[b] by {
        if o[a] == o[b] {
            lemma_key_lt_irreflexive(keys[o[a] as int]);
        }
    }
}

/// The order by key is unique: two orders that both list every index once by increasing key
/// are the same.
pub proof fn law_sorted_order_unique(keys: Seq<Seq<int>>, o1: Seq<usize>, o2: Seq<usize>)
    requires
        is_sorted_order(keys, o1),
        is_sorted_order(keys, o2),
    ensures
        o1 == o2,
{
    lemma_sorted_distinct(keys, o1);
    lemma_sorted_distinct(keys, o2);
    assert forall|k: int| 0 <= k < o1.len() implies o1[k] == o2[k] by {
        lemma_same_at(keys, o1, o2, k);
    }
    assert(o1 =~= o2);
}

proof fn lemma_same_at(keys: Seq<Seq<int>>, o1: Seq<usize>, o2: Seq<usize>, k: int)
    requires
        is_sorted_order(keys, o1),
        is_sorted_order(keys, o2),
        forall|a: int, b: int| 0 <= a < b < o1.len() ==> o1[a] != o1[b],
        forall|a: int, b: int| 0 <= a < b < o2.len() ==> o2[a] != o2[b],
        0 <= k < o1.len(),
    ensures
        o1[k] == o2[k],
    decreases k,
{
    if k > 0 {
        assert forall|q: int| 0 <= q < k implies o1[q] == o2[q] by {
            lemma_same_at(keys, o1, o2, q);
        }
    }
    let a = o1[k];
    let b = o2[k];
    if a != b {
        assert(lists(o1, b as int));
        let m = choose|m: int| 0 <= m < o1.len() && o1[m] == b;
        assert(lists(o2, a as int));
        let n = choose|n: int| 0 <= n < o2.len() && o2[n] == a;
        if m < k {
            assert(o2[m] == b);
        }
        if n < k {
            assert(o1[n] == a);
        }
        assert(m > k);
        assert(n > k);
        assert(key_lt(keys[a as int], keys[b as int]));
        assert(key_lt(keys[b as int], keys[a as int]));
        lemma_key_lt_asymmetric(keys[a as int], keys[b as int]);
    }
}

} // verus!
