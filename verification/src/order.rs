//! The stable order of a sequence by an integer key: positions sorted by
//! key, positions with equal keys kept in the order they came in.

use vstd::prelude::*;

verus! {

/// Position `a` comes before position `b`: a smaller key, or an equal key
/// and an earlier position.
pub open spec fn key_index_less(keys: Seq<i128>, a: int, b: int) -> bool {
    keys[a] < keys[b] || (keys[a] == keys[b] && a < b)
}

/// `ord` lists every position of `keys` once, in increasing order of key,
/// positions with equal keys in increasing order: the order a stable sort
/// by key leaves the items in.
pub open spec fn is_stable_order(keys: Seq<i128>, ord: Seq<usize>) -> bool {
    &&& ord.len() == keys.len()
    &&& forall|i: int| 0 <= i < ord.len() ==> #[trigger] ord[i] < keys.len()
    &&& forall|k: usize| k < keys.len() ==> #[trigger] ord.contains(k)
    &&& forall|i: int, j: int|
        0 <= i < j < ord.len() ==> key_index_less(keys, #[trigger] ord[i] as int, #[trigger] ord[j] as int)
}

/// Computes the stable order of `keys` (an insertion sort of the positions).
pub fn stable_order(keys: &Vec<i128>) -> (ord: Vec<usize>)
    ensures
        is_stable_order(keys@, ord@),
{
    let n = keys.len();
    let mut ord: Vec<usize> = Vec::new();
    let mut i: usize = 0;
    while i < n
        invariant
            n == keys@.len(),
            i <= n,
            ord@.len() == i,
            forall|p: int| 0 <= p < ord@.len() ==> #[trigger] ord@[p] < i,
            forall|k: usize| k < i ==> #[trigger] ord@.contains(k),
            forall|p: int, q: int|
                0 <= p < q < ord@.len() ==> key_index_less(keys@, #[trigger] ord@[p] as int, #[trigger] ord@[q] as int),
        decreases n - i,
    {
        let key = keys[i];
        let mut pos: usize = i;
        while pos > 0 && keys[ord[pos - 1]] > key
            invariant
                n == keys@.len(),
                i < n,
                ord@.len() == i,
                pos <= i,
                key == keys@[i as int],
                forall|p: int| 0 <= p < ord@.len() ==> #[trigger] ord@[p] < i,
                forall|p: int| pos <= p < i ==> keys@[#[trigger] ord@[p] as int] > key,
            decreases pos,
        {
            pos = pos - 1;
        }
        let ghost old_ord = ord@;
        ord.insert(pos, i);
        proof {
            assert(ord@ == old_ord.insert(pos as int, i));
            assert forall|p: int| 0 <= p < ord@.len() implies #[trigger] ord@[p] < i + 1 by {
                if p < pos {
                    assert(ord@[p] == old_ord[p]);
                } else if p > pos {
                    assert(ord@[p] == old_ord[p - 1]);
                }
            }
            assert forall|k: usize| k < i + 1 implies #[trigger] ord@.contains(k) by {
                if k == i {
                    assert(ord@[pos as int] == i);
                } else {
                    assert(old_ord.contains(k));
                    let p = choose|p: int| 0 <= p < old_ord.len() && old_ord[p] == k;
                    if p < pos {
                        assert(ord@[p] == k);
                    } else {
                        assert(ord@[p + 1] == k);
                    }
                }
            }
            assert forall|p: int, q: int|
                0 <= p < q < ord@.len() implies key_index_less(keys@, #[trigger] ord@[p] as int, #[trigger] ord@[q] as int) by {
                if q < pos {
                    assert(ord@[p] == old_ord[p] && ord@[q] == old_ord[q]);
                } else if q == pos {
                    assert(ord@[p] == old_ord[p]);
                    if pos > 0 && p < pos - 1 {
                        assert(key_index_less(keys@, old_ord[p] as int, old_ord[pos - 1] as int));
                    }
                } else if p < pos {
                    assert(ord@[p] == old_ord[p] && ord@[q] == old_ord[q - 1]);
                } else if p == pos {
                    assert(ord@[q] == old_ord[q - 1]);
                    assert(keys@[old_ord[q - 1] as int] > key);
                } else {
                    assert(ord@[p] == old_ord[p - 1] && ord@[q] == old_ord[q - 1]);
                }
            }
        }
        i = i + 1;
    }
    ord
}

/// A sequence has exactly one stable order: two orders that both list every
/// position once, sorted by key and then by position, are equal.
pub proof fn lemma_stable_order_unique(keys: Seq<i128>, o1: Seq<usize>, o2: Seq<usize>)
    requires
        is_stable_order(keys, o1),
        is_stable_order(keys, o2),
    ensures
        o1 == o2,
{
    assert forall|i: int| 0 <= i < o1.len() implies o1[i] == o2[i] by {
        lemma_stable_order_agree_at(keys, o1, o2, i);
    }
    assert(o1 =~= o2);
}

proof fn lemma_stable_order_agree_at(keys: Seq<i128>, o1: Seq<usize>, o2: Seq<usize>, i: int)
    requires
        is_stable_order(keys, o1),
        is_stable_order(keys, o2),
        0 <= i < o1.len(),
    ensures
        o1[i] == o2[i],
    decreases i,
{
    assert forall|k: int| 0 <= k < i implies o1[k] == o2[k] by {
        lemma_stable_order_agree_at(keys, o1, o2, k);
    }
    let a = o1[i];
    let b = o2[i];
    if a != b {
        assert(o2.contains(a));
        let j = choose|j: int| 0 <= j < o2.len() && o2[j] == a;
        assert(o1.contains(b));
        let k = choose|k: int| 0 <= k < o1.len() && o1[k] == b;
        if j < i {
            assert(o1[j] == o2[j]);
            assert(key_index_less(keys, o1[j] as int, o1[i] as int));
        } else if k < i {
            assert(o1[k] == o2[k]);
            assert(key_index_less(keys, o2[k] as int, o2[i] as int));
        } else {
            assert(key_index_less(keys, o2[i] as int, o2[j] as int));
            assert(key_index_less(keys, o1[i] as int, o1[k] as int));
        }
    }
}

/// The first position at or after `i` in `ord` whose key exceeds `k`, or
/// the length.
pub open spec fn first_key_above(keys: Seq<i128>, ord: Seq<usize>, k: i128, i: int) -> int
    decreases ord.len() - i,
{
    if i >= ord.len() {
        ord.len() as int
    } else if keys[ord[i] as int] > k {
        i
    } else {
        first_key_above(keys, ord, k, i + 1)
    }
}

proof fn lemma_first_key_above(keys: Seq<i128>, ord: Seq<usize>, k: i128, i: int)
    requires
        0 <= i <= ord.len(),
    ensures
        i <= first_key_above(keys, ord, k, i) <= ord.len(),
        forall|p: int| i <= p < first_key_above(keys, ord, k, i) ==> keys[#[trigger] ord[p] as int] <= k,
        first_key_above(keys, ord, k, i) < ord.len() ==> keys[ord[first_key_above(keys, ord, k, i)] as int] > k,
    decreases ord.len() - i,
{
    if i < ord.len() && keys[ord[i] as int] <= k {
        lemma_first_key_above(keys, ord, k, i + 1);
    }
}

/// Every sequence of keys that a `Vec` can hold has a stable order.
pub proof fn lemma_stable_order_exists(keys: Seq<i128>)
    requires
        keys.len() <= usize::MAX,
    ensures
        exists|ord: Seq<usize>| is_stable_order(keys, ord),
    decreases keys.len(),
{
    if keys.len() == 0 {
        let ord = Seq::<usize>::empty();
        assert(is_stable_order(keys, ord));
    } else {
        let n = keys.len() - 1;
        let front = keys.drop_last();
        lemma_stable_order_exists(front);
        let old_ord = choose|o: Seq<usize>| is_stable_order(front, o);
        assert(forall|e: int| 0 <= e < front.len() ==> front[e] == keys[e]);
        let key = keys[n];
        lemma_first_key_above(keys, old_ord, key, 0);
        let pos = first_key_above(keys, old_ord, key, 0);
        assert forall|p: int| pos <= p < old_ord.len() implies keys[#[trigger] old_ord[p] as int] > key by {
            if p > pos {
                assert(key_index_less(front, old_ord[pos] as int, old_ord[p] as int));
            }
        }
        let ord = old_ord.insert(pos, n as usize);
        assert forall|p: int| 0 <= p < ord.len() implies #[trigger] ord[p] < keys.len() by {
            if p < pos {
                assert(ord[p] == old_ord[p]);
            } else if p > pos {
                assert(ord[p] == old_ord[p - 1]);
            }
        }
        assert forall|k: usize| k < keys.len() implies #[trigger] ord.contains(k) by {
            if k == n {
                assert(ord[pos] == k);
            } else {
                assert(old_ord.contains(k));
                let p = choose|p: int| 0 <= p < old_ord.len() && old_ord[p] == k;
                if p < pos {
                    assert(ord[p] == k);
                } else {
                    assert(ord[p + 1] == k);
                }
            }
        }
        assert forall|p: int, q: int| 0 <= p < q < ord.len() implies key_index_less(keys, #[trigger] ord[p] as int, #[trigger] ord[q] as int) by {
            if q < pos {
                assert(ord[p] == old_ord[p] && ord[q] == old_ord[q]);
                assert(key_index_less(front, old_ord[p] as int, old_ord[q] as int));
            } else if q == pos {
                assert(ord[p] == old_ord[p]);
            } else if p < pos {
                assert(ord[p] == old_ord[p] && ord[q] == old_ord[q - 1]);
                assert(key_index_less(front, old_ord[p] as int, old_ord[q - 1] as int));
            } else if p == pos {
                assert(ord[q] == old_ord[q - 1]);
            } else {
                assert(ord[p] == old_ord[p - 1] && ord[q] == old_ord[q - 1]);
                assert(key_index_less(front, old_ord[p - 1] as int, old_ord[q - 1] as int));
            }
        }
        assert(is_stable_order(keys, ord));
    }
}

} // verus!
