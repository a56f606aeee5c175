use vstd::prelude::*;
use crate::permutation::is_perm;

verus! {

/// A sort key: two integer keys and the position the entry holds before sorting, compared in
/// that order.
pub type Key = (usize, usize, usize);

/// `a` comes no later than `b` in the lexicographic order of tuples.
pub open spec fn key_le(a: Key, b: Key) -> bool {
    a.0 < b.0 || (a.0 == b.0 && (a.1 < b.1 || (a.1 == b.1 && a.2 <= b.2)))
}

/// `a` comes strictly before `b`.
pub open spec fn key_lt(a: Key, b: Key) -> bool {
    key_le(a, b) && a != b
}

/// The keys are in ascending order.
pub open spec fn sorted_keys(s: Seq<Key>) -> bool {
    forall|i: int, j: int| 0 <= i < j < s.len() ==> key_le(#[trigger] s[i], #[trigger] s[j])
}

/// The key of position `i` when ordering by `k1`, then by `k2`, then by position.
pub open spec fn key_at(k1: Seq<usize>, k2: Seq<usize>, i: int) -> Key {
    (k1[i], k2[i], i as usize)
}

/// The keys of all positions, in position order.
pub open spec fn keys_of(k1: Seq<usize>, k2: Seq<usize>) -> Seq<Key> {
    Seq::new(k1.len(), |i: int| key_at(k1, k2, i))
}

/// `p` lists the positions `0..k1.len()` in strictly ascending order of their keys.
pub open spec fn orders(k1: Seq<usize>, k2: Seq<usize>, p: Seq<usize>) -> bool {
    &&& is_perm(p)
    &&& p.len() == k1.len()
    &&& forall|a: int, b: int| 0 <= a < b < p.len() ==> key_lt(key_at(k1, k2, #[trigger] p[a] as int), key_at(k1, k2, #[trigger] p[b] as int))
}

/// The order in which the positions are listed by ascending (`k1`, `k2`), ties going to the
/// earlier position.
pub open spec fn sorting_order(k1: Seq<usize>, k2: Seq<usize>) -> Seq<usize> {
    choose|p: Seq<usize>| orders(k1, k2, p)
}

/// Two orders of the same keys agree on every position below `a`.
proof fn lemma_orders_prefix(k1: Seq<usize>, k2: Seq<usize>, p: Seq<usize>, q: Seq<usize>, a: int)
    requires
        orders(k1, k2, p),
        orders(k1, k2, q),
        0 <= a <= p.len(),
    ensures
        forall|b: int| 0 <= b < a ==> p[b] == q[b],
    decreases a,
{
    if a > 0 {
        lemma_orders_prefix(k1, k2, p, q, a - 1);
        let c = a - 1;
        if p[c] != q[c] {
            let kp = key_at(k1, k2, p[c] as int);
            let kq = key_at(k1, k2, q[c] as int);
            if key_le(kp, kq) {
                crate::permutation::lemma_perm_onto(q, p[c] as int);
                let m = choose|m: int| 0 <= m < q.len() && q[m] == p[c];
                if m < c {
                    assert(p[m] == q[m]);
                }
                assert(m > c);
                assert(key_lt(kq, key_at(k1, k2, q[m] as int)));
            } else {
                crate::permutation::lemma_perm_onto(p, q[c] as int);
                let m = choose|m: int| 0 <= m < p.len() && p[m] == q[c];
                if m < c {
                    assert(p[m] == q[m]);
                }
                assert(m > c);
                assert(key_lt(kp, key_at(k1, k2, p[m] as int)));
            }
        }
    }
}

/// There is one order of the positions by ascending key.
pub proof fn lemma_orders_unique(k1: Seq<usize>, k2: Seq<usize>, p: Seq<usize>, q: Seq<usize>)
    requires
        orders(k1, k2, p),
        orders(k1, k2, q),
    ensures
        p == q,
{
    lemma_orders_prefix(k1, k2, p, q, p.len() as int);
    assert(p =~= q);
}

/// An order of the positions by ascending key is the sorting order.
pub proof fn lemma_sorting_order(k1: Seq<usize>, k2: Seq<usize>, p: Seq<usize>)
    requires
        orders(k1, k2, p),
    ensures
        sorting_order(k1, k2) == p,
{
    lemma_orders_unique(k1, k2, sorting_order(k1, k2), p);
}

/// Relies on `<[T]>::sort_unstable`: the same keys come back in ascending order (tuples compare
/// lexicographically).
#[verifier::external_body]
fn sort_keys(v: &mut Vec<Key>)
    ensures
        final(v)@.to_multiset() == old(v)@.to_multiset(),
        sorted_keys(final(v)@),
{
    v.sort_unstable()
}

/// Relies on rayon's `ParallelSliceMut::par_sort_unstable`: the same keys come back in
/// ascending order (tuples compare lexicographically).
#[verifier::external_body]
fn par_sort_keys(v: &mut Vec<Key>)
    ensures
        final(v)@.to_multiset() == old(v)@.to_multiset(),
        sorted_keys(final(v)@),
{
    rayon::slice::ParallelSliceMut::par_sort_unstable(v.as_mut_slice())
}

/// The keys of all positions, in position order.
fn build_keys(k1: &Vec<usize>, k2: &Vec<usize>) -> (r: Vec<Key>)
    requires
        k1@.len() == k2@.len(),
    ensures
        r@ == keys_of(k1@, k2@),
{
    let n = k1.len();
    let mut r: Vec<Key> = Vec::with_capacity(n);
    let mut i: usize = 0;
    while i < n
        invariant
            i <= n,
            n == k1@.len() == k2@.len(),
            r@ == keys_of(k1@, k2@).subrange(0, i as int),
        decreases n - i,
    {
        r.push((k1[i], k2[i], i));
        i += 1;
        proof {
            assert(r@ =~= keys_of(k1@, k2@).subrange(0, i as int));
        }
    }
    proof {
        assert(r@ =~= keys_of(k1@, k2@));
    }
    r
}

/// Reads the order of the positions off the sorted keys.
fn order_of_sorted(Ghost(k1): Ghost<Seq<usize>>, Ghost(k2): Ghost<Seq<usize>>, sorted: &Vec<Key>) -> (p: Vec<usize>)
    requires
        k1.len() == k2.len(),
        k1.len() <= usize::MAX,
        sorted@.to_multiset() == keys_of(k1, k2).to_multiset(),
        sorted_keys(sorted@),
    ensures
        orders(k1, k2, p@),
        p@ == sorting_order(k1, k2),
{
    broadcast use vstd::seq_lib::group_to_multiset_ensures;

    let ghost input = keys_of(k1, k2);
    let ghost s = sorted@;
    proof {
        assert(input.no_duplicates()) by {
            assert forall|i: int, j: int| 0 <= i < input.len() && 0 <= j < input.len() && i != j implies input[i] != input[j] by {
                assert(input[i].2 == i as usize);
                assert(input[j].2 == j as usize);
            }
        }
        input.lemma_multiset_has_no_duplicates();
        s.lemma_multiset_has_no_duplicates_conv();
        assert(s.len() == input.len()) by {
            assert(s.len() == s.to_multiset().len());
            assert(input.len() == input.to_multiset().len());
        }
        assert forall|a: int| 0 <= a < s.len() implies #[trigger] s[a] == key_at(k1, k2, s[a].2 as int) && s[a].2 < s.len() by {
            assert(s.contains(s[a]));
            assert(s.to_multiset().count(s[a]) > 0);
            assert(input.contains(s[a]));
            let i = choose|i: int| 0 <= i < input.len() && input[i] == s[a];
            assert(input[i] == key_at(k1, k2, i));
        }
    }
    let n = sorted.len();
    let mut p: Vec<usize> = Vec::with_capacity(n);
    let mut k: usize = 0;
    while k < n
        invariant
            k <= n,
            n == s.len(),
            s == sorted@,
            p@.len() == k,
            forall|m: int| 0 <= m < k ==> #[trigger] p@[m] == s[m].2,
        decreases n - k,
    {
        p.push(sorted[k].2);
        k += 1;
    }
    proof {
        let pv = p@;
        assert forall|a: int| 0 <= a < pv.len() implies #[trigger] s[a] == key_at(k1, k2, pv[a] as int) by {
            assert(s[a] == key_at(k1, k2, s[a].2 as int));
        }
        assert forall|a: int, b: int| 0 <= a < pv.len() && 0 <= b < pv.len() && a != b implies pv[a] != pv[b] by {
            assert(s[a] == key_at(k1, k2, pv[a] as int));
            assert(s[b] == key_at(k1, k2, pv[b] as int));
        }
        assert forall|a: int| 0 <= a < pv.len() implies #[trigger] pv[a] < pv.len() by {
            assert(s[a].2 < s.len());
        }
        assert forall|a: int, b: int| 0 <= a < b < pv.len() implies key_lt(key_at(k1, k2, #[trigger] pv[a] as int), key_at(k1, k2, #[trigger] pv[b] as int)) by {
            assert(s[a] == key_at(k1, k2, pv[a] as int));
            assert(s[b] == key_at(k1, k2, pv[b] as int));
            assert(key_le(s[a], s[b]));
        }
        lemma_sorting_order(k1, k2, pv);
    }
    p
}

/// The positions listed by ascending (`k1`, `k2`), sorted on one thread.
pub fn order_by(k1: &Vec<usize>, k2: &Vec<usize>) -> (p: Vec<usize>)
    requires
        k1@.len() == k2@.len(),
    ensures
        orders(k1@, k2@, p@),
        p@ == sorting_order(k1@, k2@),
{
    let n = k1.len();
    let mut keys = build_keys(k1, k2);
    sort_keys(&mut keys);
    order_of_sorted(Ghost(k1@), Ghost(k2@), &keys)
}

/// The positions listed by ascending (`k1`, `k2`), sorted by a pool of threads.
pub fn par_order_by(k1: &Vec<usize>, k2: &Vec<usize>) -> (p: Vec<usize>)
    requires
        k1@.len() == k2@.len(),
    ensures
        orders(k1@, k2@, p@),
        p@ == sorting_order(k1@, k2@),
{
    let n = k1.len();
    let mut keys = build_keys(k1, k2);
    par_sort_keys(&mut keys);
    order_of_sorted(Ghost(k1@), Ghost(k2@), &keys)
}

} // verus!
