use vstd::prelude::*;
use crate::cycle::{apply_cycles, apply_cycles_fwd, reset_marks};
use vstd::std_specs::cmp::OrdSpec;

verus! {

/// `s` lists each of `0..s.len()` exactly once.
pub open spec fn is_perm(s: Seq<usize>) -> bool {
    &&& s.len() <= usize::MAX
    &&& forall|i: int| 0 <= i < s.len() ==> #[trigger] s[i] < s.len()
    &&& forall|i: int, j: int| 0 <= i < s.len() && 0 <= j < s.len() && i != j ==> s[i] != s[j]
}

/// The position at which `s` holds `j`.
pub open spec fn position_of(s: Seq<usize>, j: int) -> int {
    choose|i: int| 0 <= i < s.len() && s[i] == j
}

/// The inverse of the permutation `s`: it maps `s[i]` back to `i`.
pub open spec fn inverse_of(s: Seq<usize>) -> Seq<usize> {
    Seq::new(s.len(), |j: int| position_of(s, j) as usize)
}

/// The identity permutation of `n` elements.
pub open spec fn identity(n: nat) -> Seq<usize> {
    Seq::new(n, |i: int| i as usize)
}

/// A permutation of `0..n` takes every value of `0..n` somewhere.
pub proof fn lemma_perm_onto(s: Seq<usize>, j: int)
    requires
        is_perm(s),
        0 <= j < s.len(),
    ensures
        exists|i: int| 0 <= i < s.len() && s[i] == j,
{
    let n = s.len() as int;
    let image = Set::new(|x: int| exists|i: int| 0 <= i < n && s[i] == x);
    let dom = vstd::set_lib::set_int_range(0, n);
    let f = |i: int| s[i] as int;
    assert(dom.map(f) =~= image) by {
        assert forall|x: int| image.contains(x) implies dom.map(f).contains(x) by {
            let i = choose|i: int| 0 <= i < n && s[i] == x;
            assert(dom.contains(i) && f(i) == x);
        }
    }
    vstd::set_lib::lemma_int_range(0, n);
    assert(vstd::relations::injective_on(f, dom));
    vstd::set_lib::lemma_map_size(dom, image, f);
    assert(image.subset_of(dom));
    vstd::set_lib::lemma_subset_equality(image, dom);
    assert(dom.contains(j));
}

/// Facts on the inverse of a permutation.
pub proof fn lemma_inverse(s: Seq<usize>)
    requires
        is_perm(s),
    ensures
        inverse_of(s).len() == s.len(),
        is_perm(inverse_of(s)),
        forall|i: int| 0 <= i < s.len() ==> #[trigger] inverse_of(s)[s[i] as int] == i,
        forall|j: int| 0 <= j < s.len() ==> #[trigger] s[inverse_of(s)[j] as int] == j,
{
    let inv = inverse_of(s);
    assert forall|j: int| 0 <= j < s.len() implies 0 <= position_of(s, j) < s.len() && s[position_of(s, j)] == j by {
        lemma_perm_onto(s, j);
    }
    assert forall|i: int| 0 <= i < s.len() implies #[trigger] inv[s[i] as int] == i by {
        let k = position_of(s, s[i] as int);
        assert(0 <= k < s.len() && s[k] == s[i]);
        assert(k == i);
    }
    assert forall|i: int| 0 <= i < s.len() implies #[trigger] inv[i] < s.len() by {
        assert(0 <= position_of(s, i) < s.len());
    }
    assert forall|a: int, b: int| 0 <= a < s.len() && 0 <= b < s.len() && a != b implies inv[a] != inv[b] by {
        assert(s[inv[a] as int] == a);
        assert(s[inv[b] as int] == b);
    }
}

/// Inverting a permutation twice gives it back.
pub proof fn lemma_inverse_inverse(s: Seq<usize>)
    requires
        is_perm(s),
    ensures
        inverse_of(inverse_of(s)) == s,
{
    lemma_inverse(s);
    let inv = inverse_of(s);
    lemma_inverse(inv);
    assert forall|i: int| 0 <= i < s.len() implies #[trigger] inverse_of(inv)[i] == s[i] by {
        assert(inv[s[i] as int] == i);
        assert(inverse_of(inv)[inv[s[i] as int] as int] == s[i]);
    }
    assert(inverse_of(inv) =~= s);
}

/// A left inverse of a permutation is its inverse.
pub proof fn lemma_left_inverse(s: Seq<usize>, t: Seq<usize>)
    requires
        is_perm(s),
        t.len() == s.len(),
        forall|i: int| 0 <= i < s.len() ==> #[trigger] t[s[i] as int] == i,
    ensures
        inverse_of(s) == t,
{
    lemma_inverse(s);
    assert forall|x: int| 0 <= x < s.len() implies #[trigger] inverse_of(s)[x] == t[x] by {
        let i = inverse_of(s)[x] as int;
        assert(s[i] == x);
        assert(t[s[i] as int] == i);
    }
    assert(inverse_of(s) =~= t);
}

/// `a` after `b`: position `i` goes to `a[b[i]]`.
pub open spec fn compose(a: Seq<usize>, b: Seq<usize>) -> Seq<usize> {
    Seq::new(b.len(), |i: int| a[b[i] as int])
}

/// The composition of two permutations of the same size is a permutation.
pub proof fn lemma_compose(a: Seq<usize>, b: Seq<usize>)
    requires
        is_perm(a),
        is_perm(b),
        a.len() == b.len(),
    ensures
        is_perm(compose(a, b)),
{
    let c = compose(a, b);
    assert forall|i: int, j: int| 0 <= i < c.len() && 0 <= j < c.len() && i != j implies c[i] != c[j] by {
        assert(b[i] != b[j]);
    }
}

/// A rearrangement of a permutation is a permutation.
pub proof fn lemma_rearranged_perm(a: Seq<usize>, b: Seq<usize>)
    requires
        is_perm(a),
        b.to_multiset() == a.to_multiset(),
    ensures
        is_perm(b),
        b.len() == a.len(),
{
    broadcast use vstd::seq_lib::group_to_multiset_ensures;

    assert(b.len() == a.len()) by {
        assert(b.len() == b.to_multiset().len());
        assert(a.len() == a.to_multiset().len());
    }
    assert(a.no_duplicates());
    a.lemma_multiset_has_no_duplicates();
    b.lemma_multiset_has_no_duplicates_conv();
    assert forall|k: int| 0 <= k < b.len() implies #[trigger] b[k] < b.len() by {
        assert(b.contains(b[k]));
        assert(b.to_multiset().count(b[k]) > 0);
        assert(a.contains(b[k]));
    }
}

/// The identity is its own inverse.
pub proof fn lemma_inverse_identity(n: nat)
    requires
        n <= usize::MAX,
    ensures
        is_perm(identity(n)),
        inverse_of(identity(n)) == identity(n),
{
    let id = identity(n);
    assert(is_perm(id));
    lemma_inverse(id);
    assert forall|j: int| 0 <= j < n implies #[trigger] inverse_of(id)[j] == id[j] by {
        assert(id[inverse_of(id)[j] as int] == j);
    }
    assert(inverse_of(id) =~= id);
}

/// A permutation of `0..len`.
#[derive(Clone, Debug)]
pub struct Permutation {
    forward: bool,
    pub indices: Vec<usize>,
}

/// The indices name elements of `s` in ascending order of `T`'s `cmp`.
pub open spec fn sorted_by_elements<T: Ord>(idx: Seq<usize>, s: Seq<T>) -> bool {
    forall|a: int, b: int|
        #![trigger idx[a], idx[b]]
        0 <= a < b < idx.len() ==> s[idx[a] as int].cmp_spec(&s[idx[b] as int]) != core::cmp::Ordering::Greater
}

/// Indices whose elements compare equal come in the order they had in `before`.
pub open spec fn stable_by_elements<T: Ord>(idx: Seq<usize>, s: Seq<T>, before: Seq<usize>) -> bool {
    forall|a: int, b: int|
        #![trigger idx[a], idx[b]]
        0 <= a < b < idx.len() && s[idx[a] as int].cmp_spec(&s[idx[b] as int]) == core::cmp::Ordering::Equal ==> comes_before(
            before,
            idx[a],
            idx[b],
        )
}

/// Indices whose elements compare equal come in ascending order.
pub open spec fn equal_in_index_order<T: Ord>(idx: Seq<usize>, s: Seq<T>) -> bool {
    forall|a: int, b: int|
        #![trigger idx[a], idx[b]]
        0 <= a < b < idx.len() && s[idx[a] as int].cmp_spec(&s[idx[b] as int]) == core::cmp::Ordering::Equal ==> idx[a] < idx[b]
}

/// In the identity, `x` comes before `y` only when `x < y`.
proof fn lemma_comes_before_identity(n: nat, x: usize, y: usize)
    requires
        comes_before(identity(n), x, y),
        n <= usize::MAX,
    ensures
        x < y,
{
    let (p, q) = choose|p: int, q: int| 0 <= p < q < identity(n).len() && identity(n)[p] == x && identity(n)[q] == y;
    assert(identity(n)[p] == p as usize);
    assert(identity(n)[q] == q as usize);
}

/// Relies on `<[T]>::sort_by_key`: the same indices come back, ordered by the elements of `s`
/// that they name; the sort is stable, so indices of equal elements keep their order. It may
/// panic unless `T`'s order is a lawful total order.
#[verifier::external_body]
fn sort_indices<T: Ord>(indices: &mut Vec<usize>, s: &[T])
    requires
        vstd::laws_cmp::obeys_cmp::<T>(),
        forall|i: int| 0 <= i < old(indices)@.len() ==> #[trigger] old(indices)@[i] < s@.len(),
    ensures
        final(indices)@.to_multiset() == old(indices)@.to_multiset(),
        sorted_by_elements(final(indices)@, s@),
        stable_by_elements(final(indices)@, s@, old(indices)@),
{
    indices.sort_by_key(|&i| &s[i])
}

/// Relies on `<[T]>::sort_unstable_by_key`: the same indices come back, ordered by the elements
/// of `s` that they name. It may panic unless `T`'s order is a lawful total order.
#[verifier::external_body]
fn sort_indices_unstable<T: Ord>(indices: &mut Vec<usize>, s: &[T])
    requires
        vstd::laws_cmp::obeys_cmp::<T>(),
        forall|i: int| 0 <= i < old(indices)@.len() ==> #[trigger] old(indices)@[i] < s@.len(),
    ensures
        final(indices)@.to_multiset() == old(indices)@.to_multiset(),
        sorted_by_elements(final(indices)@, s@),
{
    indices.sort_unstable_by_key(|&i| &s[i])
}

/// Return the permutation that would sort a given slice: applied to `slice` (see
/// `apply_slice`), it lists the elements `slice[r.stored()[0]], slice[r.stored()[1]], ...`,
/// which ascend by `T`'s order. Equal elements keep their order.
pub fn sort<T: Ord>(slice: &[T]) -> (r: Permutation)
    requires
        vstd::laws_cmp::obeys_cmp::<T>(),
    ensures
        r.wf(),
        r.size() == slice@.len(),
        !r.is_forward(),
        r@ == inverse_of(r.stored()),
        sorted_by_elements(r.stored(), slice@),
    equal_in_index_order(r.stored(), slice@),
{
    let mut permutation = Permutation::one(slice.len());
    let ghost before = permutation.indices@;
    sort_indices(&mut permutation.indices, slice);
    proof {
        lemma_rearranged_perm(before, permutation.indices@);
        let f = permutation.indices@;
        assert forall|a: int, b: int|
            #![trigger f[a], f[b]]
            0 <= a < b < f.len() && slice@[f[a] as int].cmp_spec(&slice@[f[b] as int]) == core::cmp::Ordering::Equal implies f[a] < f[b] by {
            lemma_comes_before_identity(slice@.len(), f[a], f[b]);
        }
    }
    permutation
}

/// Return the permutation that would sort a given slice, but might not preserve the order of
/// equal elements. Applied to `slice`, it lists the elements `slice[r.stored()[0]], ...`, which
/// ascend by `T`'s order.
pub fn sort_unstable<T: Ord>(slice: &[T]) -> (r: Permutation)
    requires
        vstd::laws_cmp::obeys_cmp::<T>(),
    ensures
        r.wf(),
        r.size() == slice@.len(),
        !r.is_forward(),
        r@ == inverse_of(r.stored()),
        sorted_by_elements(r.stored(), slice@),
{
    let mut permutation = Permutation::one(slice.len());
    let ghost before = permutation.indices@;
    sort_indices_unstable(&mut permutation.indices, slice);
    proof {
        lemma_rearranged_perm(before, permutation.indices@);
    }
    permutation
}

/// `compare` answers each question one way, and never calls both `a` and `b` greater than the
/// other.
pub open spec fn consistent<T, F: Fn(&T, &T) -> core::cmp::Ordering>(compare: F) -> bool {
    &&& forall|a: &T, b: &T, o1: core::cmp::Ordering, o2: core::cmp::Ordering|
        #[trigger] compare.ensures((a, b), o1) && #[trigger] compare.ensures((a, b), o2) ==> o1 == o2
    &&& forall|a: &T, b: &T|
        #[trigger] compare.ensures((a, b), core::cmp::Ordering::Greater) ==> !compare.ensures((b, a), core::cmp::Ordering::Greater)
}

/// `compare` does not call the element named by `i` greater than the one named by `j`.
pub open spec fn not_after<T, F: Fn(&T, &T) -> core::cmp::Ordering>(compare: F, s: Seq<T>, i: usize, j: usize) -> bool {
    !compare.ensures((&s[i as int], &s[j as int]), core::cmp::Ordering::Greater)
}

/// The indices name elements of `s` that `compare` keeps in order, pair by adjacent pair.
pub open spec fn sorted_by_compare<T, F: Fn(&T, &T) -> core::cmp::Ordering>(compare: F, idx: Seq<usize>, s: Seq<T>) -> bool {
    forall|k: int| 0 <= k < idx.len() - 1 ==> not_after(compare, s, #[trigger] idx[k], idx[k + 1])
}

/// `compare` calls neither of the elements named by `i` and `j` greater than the other.
pub open spec fn equivalent<T, F: Fn(&T, &T) -> core::cmp::Ordering>(compare: F, s: Seq<T>, i: usize, j: usize) -> bool {
    not_after(compare, s, i, j) && not_after(compare, s, j, i)
}

/// `x` comes before `y` in `idx`.
pub open spec fn comes_before(idx: Seq<usize>, x: usize, y: usize) -> bool {
    exists|p: int, q: int| 0 <= p < q < idx.len() && idx[p] == x && idx[q] == y
}

/// Indices whose elements `compare` calls equivalent come in the order they had in `before`.
pub open spec fn stable_by_compare<T, F: Fn(&T, &T) -> core::cmp::Ordering>(compare: F, idx: Seq<usize>, s: Seq<T>, before: Seq<usize>) -> bool {
    forall|a: int, b: int|
        #![trigger idx[a], idx[b]]
        0 <= a < b < idx.len() && equivalent(compare, s, idx[a], idx[b]) ==> comes_before(before, idx[a], idx[b])
}

/// Swapping two entries of a permutation keeps it a permutation.
proof fn lemma_swap_perm(p: Seq<usize>, a: int, b: int)
    requires
        is_perm(p),
        0 <= a < p.len(),
        0 <= b < p.len(),
    ensures
        is_perm(p.update(a, p[b]).update(b, p[a])),
{
    let q = p.update(a, p[b]).update(b, p[a]);
    assert forall|i: int, j: int| 0 <= i < q.len() && 0 <= j < q.len() && i != j implies q[i] != q[j] by {
        let pi = if i == b { a } else if i == a { b } else { i };
        let pj = if j == b { a } else if j == a { b } else { j };
        assert(q[i] == p[pi]);
        assert(q[j] == p[pj]);
    }
}

/// Whether `compare` calls `a` greater than `b`.
fn greater<T, F: Fn(&T, &T) -> core::cmp::Ordering>(compare: &F, a: &T, b: &T) -> (r: bool)
    requires
        compare.requires((a, b)),
    ensures
        consistent(*compare) ==> (r <==> compare.ensures((a, b), core::cmp::Ordering::Greater)),
        r ==> compare.ensures((a, b), core::cmp::Ordering::Greater),
{
    let o = compare(a, b);
    match o {
        core::cmp::Ordering::Greater => true,
        _ => false,
    }
}

/// Sorts the indices by the elements of `s` that they name, with the comparator `compare`: each
/// index in turn moves left past the indices whose elements `compare` calls greater. Equal
/// elements keep their order.
fn insertion_sort_by<T, F: Fn(&T, &T) -> core::cmp::Ordering>(idx: &mut Vec<usize>, s: &[T], compare: &F)
    requires
        is_perm(old(idx)@),
        old(idx)@.len() == s@.len(),
        forall|a: &T, b: &T| #[trigger] compare.requires((a, b)),
    ensures
        is_perm(final(idx)@),
        final(idx)@.len() == old(idx)@.len(),
        consistent(*compare) ==> sorted_by_compare(*compare, final(idx)@, s@),
        stable_by_compare(*compare, final(idx)@, s@, old(idx)@),
{
    let ghost o = idx@;
    proof {
        lemma_inverse(o);
    }
    let n = idx.len();
    let mut i: usize = 0;
    while i < n
        invariant
            is_perm(idx@),
            is_perm(o),
            o.len() == n,
            n == idx@.len() == s@.len(),
            i <= n,
            forall|a: &T, b: &T| #[trigger] compare.requires((a, b)),
            forall|v: int| 0 <= v < n ==> #[trigger] o[inverse_of(o)[v] as int] == v && inverse_of(o)[v] < n,
            forall|k: int| 0 <= k < n ==> #[trigger] inverse_of(o)[o[k] as int] == k,
            consistent(*compare) ==> forall|k: int| 0 <= k < i - 1 ==> not_after(*compare, s@, #[trigger] idx@[k], idx@[k + 1]),
            forall|k: int| i <= k < n ==> #[trigger] idx@[k] == o[k],
            forall|a: int| 0 <= a < i ==> inverse_of(o)[#[trigger] idx@[a] as int] < i,
            forall|a: int, b: int|
                #![trigger idx@[a], idx@[b]]
                0 <= a < b < i && equivalent(*compare, s@, idx@[a], idx@[b]) ==> inverse_of(o)[idx@[a] as int] < inverse_of(o)[idx@[b] as int],
        decreases n - i,
    {
        let mut j = i;
        let ghost x = idx@[i as int];
        while j > 0 && greater(compare, &s[idx[j - 1]], &s[idx[j]])
            invariant
                is_perm(idx@),
                is_perm(o),
                o.len() == n,
                n == idx@.len() == s@.len(),
                i < n,
                j <= i,
                x == o[i as int],
                idx@[j as int] == x,
                forall|a: &T, b: &T| #[trigger] compare.requires((a, b)),
                forall|v: int| 0 <= v < n ==> #[trigger] o[inverse_of(o)[v] as int] == v && inverse_of(o)[v] < n,
                forall|k: int| 0 <= k < n ==> #[trigger] inverse_of(o)[o[k] as int] == k,
                consistent(*compare) ==> forall|k: int| 0 <= k < j - 1 ==> not_after(*compare, s@, #[trigger] idx@[k], idx@[k + 1]),
                consistent(*compare) ==> forall|k: int| j < k < i ==> not_after(*compare, s@, #[trigger] idx@[k], idx@[k + 1]),
                consistent(*compare) && 0 < j < i ==> not_after(*compare, s@, idx@[j - 1], idx@[j + 1]),
                consistent(*compare) && j < i ==> not_after(*compare, s@, idx@[j as int], idx@[j + 1]),
                forall|k: int| i < k < n ==> #[trigger] idx@[k] == o[k],
                forall|a: int| 0 <= a <= i && a != j ==> inverse_of(o)[#[trigger] idx@[a] as int] < i,
                forall|k: int| j < k <= i ==> compare.ensures((&s@[#[trigger] idx@[k] as int], &s@[x as int]), core::cmp::Ordering::Greater),
                forall|a: int, b: int|
                    #![trigger idx@[a], idx@[b]]
                    0 <= a < b <= i && a != j && b != j && equivalent(*compare, s@, idx@[a], idx@[b]) ==> inverse_of(o)[idx@[a] as int]
                        < inverse_of(o)[idx@[b] as int],
            decreases j,
        {
            let ghost before = idx@;
            proof {
                lemma_swap_perm(idx@, j - 1, j as int);
            }
            let a = idx[j - 1];
            let b = idx[j];
            idx.set(j - 1, b);
            idx.set(j, a);
            proof {
                let jj = j as int;
                assert(idx@ == before.update(jj - 1, before[jj]).update(jj, before[jj - 1]));
                if consistent(*compare) {
                    assert(compare.ensures((&s@[a as int], &s@[b as int]), core::cmp::Ordering::Greater));
                    assert(not_after(*compare, s@, b, a));
                }
                let cur = idx@;
                assert forall|p: int, q: int|
                    #![trigger cur[p], cur[q]]
                    0 <= p < q <= i && p != jj - 1 && q != jj - 1 && equivalent(*compare, s@, cur[p], cur[q]) implies inverse_of(o)[cur[p] as int]
                        < inverse_of(o)[cur[q] as int] by {
                    let op = if p == jj { jj - 1 } else { p };
                    let oq = if q == jj { jj - 1 } else { q };
                    assert(cur[p] == before[op]);
                    assert(cur[q] == before[oq]);
                    assert(before[op] == before[op] && before[oq] == before[oq]);
                }
                assert forall|k: int| jj - 1 < k <= i implies compare.ensures((&s@[#[trigger] cur[k] as int], &s@[x as int]), core::cmp::Ordering::Greater) by {
                    if k > jj {
                        assert(cur[k] == before[k]);
                    }
                }
                assert forall|p: int| 0 <= p <= i && p != jj - 1 implies inverse_of(o)[#[trigger] cur[p] as int] < i by {
                    if p == jj {
                        assert(cur[p] == before[jj - 1]);
                    } else {
                        assert(cur[p] == before[p]);
                    }
                }
            }
            j -= 1;
        }
        proof {
            if consistent(*compare) && j > 0 {
                assert(not_after(*compare, s@, idx@[j - 1], idx@[j as int]));
            }
            let cur = idx@;
            let jj = j as int;
            assert(inverse_of(o)[x as int] == i);
            assert forall|p: int, q: int|
                #![trigger cur[p], cur[q]]
                0 <= p < q < i + 1 && equivalent(*compare, s@, cur[p], cur[q]) implies inverse_of(o)[cur[p] as int] < inverse_of(o)[cur[q] as int] by {
                if q == jj {
                    assert(inverse_of(o)[cur[p] as int] < i);
                } else if p == jj {
                    assert(compare.ensures((&s@[cur[q] as int], &s@[x as int]), core::cmp::Ordering::Greater));
                }
            }
            assert forall|p: int| 0 <= p < i + 1 implies inverse_of(o)[#[trigger] cur[p] as int] < i + 1 by {
                if p != jj {
                    assert(inverse_of(o)[cur[p] as int] < i);
                }
            }
        }
        i += 1;
    }
    proof {
        let f = idx@;
        assert forall|p: int, q: int|
            #![trigger f[p], f[q]]
            0 <= p < q < f.len() && equivalent(*compare, s@, f[p], f[q]) implies comes_before(o, f[p], f[q]) by {
            let rp = inverse_of(o)[f[p] as int] as int;
            let rq = inverse_of(o)[f[q] as int] as int;
            assert(o[rp] == f[p]);
            assert(o[rq] == f[q]);
        }
    }
}

/// Return the permutation that would sort a given slice by a comparator: applied to `slice`,
/// it lists the elements `slice[r.stored()[0]], ...`, and when `compare` is consistent no
/// element is called greater than the next. Elements that compare equal keep their order.
pub fn sort_by<T, F: Fn(&T, &T) -> core::cmp::Ordering>(slice: &[T], compare: F) -> (r: Permutation)
    requires
        forall|a: &T, b: &T| #[trigger] compare.requires((a, b)),
    ensures
        r.wf(),
        r.size() == slice@.len(),
        !r.is_forward(),
        r@ == inverse_of(r.stored()),
        consistent(compare) ==> sorted_by_compare(compare, r.stored(), slice@),
        forall|a: int, b: int|
            #![trigger r.stored()[a], r.stored()[b]]
            0 <= a < b < slice@.len() && equivalent(compare, slice@, r.stored()[a], r.stored()[b]) ==> r.stored()[a] < r.stored()[b],
{
    let mut permutation = Permutation::one(slice.len());
    insertion_sort_by(&mut permutation.indices, slice, &compare);
    proof {
        let f = permutation.indices@;
        assert forall|a: int, b: int|
            #![trigger f[a], f[b]]
            0 <= a < b < slice@.len() && equivalent(compare, slice@, f[a], f[b]) implies f[a] < f[b] by {
            lemma_comes_before_identity(slice@.len(), f[a], f[b]);
        }
    }
    permutation
}

/// Return the permutation that would sort a given slice by a comparator, with no promise on
/// the order of elements that compare equal. As `sort_by` otherwise.
pub fn sort_unstable_by<T, F: Fn(&T, &T) -> core::cmp::Ordering>(slice: &[T], compare: F) -> (r: Permutation)
    requires
        forall|a: &T, b: &T| #[trigger] compare.requires((a, b)),
    ensures
        r.wf(),
        r.size() == slice@.len(),
        !r.is_forward(),
        r@ == inverse_of(r.stored()),
        consistent(compare) ==> sorted_by_compare(compare, r.stored(), slice@),
{
    sort_by(slice, compare)
}

/// The key that `f` gives each element of `slice`, in order.
fn keys_of<T, B, F: Fn(&T) -> B>(slice: &[T], f: &F) -> (r: Vec<B>)
    requires
        forall|x: &T| #[trigger] f.requires((x,)),
    ensures
        r@.len() == slice@.len(),
        forall|i: int| 0 <= i < slice@.len() ==> #[trigger] f.ensures((&slice@[i],), r@[i]),
{
    let n = slice.len();
    let mut r: Vec<B> = Vec::with_capacity(n);
    let mut i: usize = 0;
    while i < n
        invariant
            i <= n,
            n == slice@.len(),
            r@.len() == i,
            forall|x: &T| #[trigger] f.requires((x,)),
            forall|k: int| 0 <= k < i ==> #[trigger] f.ensures((&slice@[k],), r@[k]),
        decreases n - i,
    {
        r.push(f(&slice[i]));
        i += 1;
    }
    r
}

/// Return the permutation that would sort a given slice by a key function: applied to `slice`,
/// it lists the elements `slice[r.stored()[0]], ...`, whose keys ascend. Elements with equal
/// keys keep their order. Each key is computed once.
pub fn sort_by_key<T, B: Ord, F: Fn(&T) -> B>(slice: &[T], f: F) -> (r: Permutation)
    requires
        forall|x: &T| #[trigger] f.requires((x,)),
        vstd::laws_cmp::obeys_cmp::<B>(),
    ensures
        r.wf(),
        r.size() == slice@.len(),
        !r.is_forward(),
        r@ == inverse_of(r.stored()),
        exists|keys: Seq<B>|
            {
                &&& keys.len() == slice@.len()
                &&& forall|i: int| 0 <= i < slice@.len() ==> #[trigger] f.ensures((&slice@[i],), keys[i])
                &&& sorted_by_elements(r.stored(), keys)
                &&& equal_in_index_order(r.stored(), keys)
            },
{
    let keys = keys_of(slice, &f);
    let r = sort(keys.as_slice());
    proof {
        assert(keys@.len() == slice@.len());
    }
    r
}

/// Return the permutation that would sort a given slice by a key function, but might not
/// preserve the order of elements with equal keys. Each key is computed once.
pub fn sort_unstable_by_key<T, B: Ord, F: Fn(&T) -> B>(slice: &[T], f: F) -> (r: Permutation)
    requires
        forall|x: &T| #[trigger] f.requires((x,)),
        vstd::laws_cmp::obeys_cmp::<B>(),
    ensures
        r.wf(),
        r.size() == slice@.len(),
        !r.is_forward(),
        r@ == inverse_of(r.stored()),
        exists|keys: Seq<B>|
            {
                &&& keys.len() == slice@.len()
                &&& forall|i: int| 0 <= i < slice@.len() ==> #[trigger] f.ensures((&slice@[i],), keys[i])
                &&& sorted_by_elements(r.stored(), keys)
            },
{
    let keys = keys_of(slice, &f);
    sort_unstable(keys.as_slice())
}

impl View for Permutation {
    type V = Seq<usize>;

    /// The permutation in one-line form: element `i` is moved to position `self@[i]`.
    closed spec fn view(&self) -> Seq<usize> {
        if self.forward {
            self.indices@
        } else {
            inverse_of(self.indices@)
        }
    }
}

impl Permutation {
    /// The stored indices form a permutation.
    pub closed spec fn wf(&self) -> bool {
        is_perm(self.indices@)
    }

    /// Whether the stored indices are the one-line form itself (rather than its inverse).
    pub closed spec fn is_forward(&self) -> bool {
        self.forward
    }

    /// The stored indices.
    pub closed spec fn stored(&self) -> Seq<usize> {
        self.indices@
    }

    /// The number of stored indices.
    pub closed spec fn size(&self) -> nat {
        self.indices@.len()
    }

    /// A well-formed permutation is a permutation in one-line form of its own size, and so are its
/// stored indices: the one-line form itself when it is forward, its inverse otherwise.
    pub proof fn lemma_wf(&self)
        requires
            self.wf(),
        ensures
            is_perm(self@),
            self@.len() == self.size(),
            is_perm(self.stored()),
            self.stored().len() == self.size(),
            self.is_forward() ==> self@ == self.stored(),
            !self.is_forward() ==> self@ == inverse_of(self.stored()),
    {
        if !self.forward {
            lemma_inverse(self.indices@);
        }
    }

    /// Return the size of a permutation.
    pub fn len(&self) -> (r: usize)
        ensures
            r == self.size(),
    {
        self.indices.len()
    }

    /// Moves `s[indices[j]]` to position `j`, for every `j`, following each cycle of the
    /// permutation in turn, then clears the marks that the walk left on `indices`.
    fn apply_slice_bkwd_in_place<T>(&mut self, s: &mut Vec<T>)
        requires
            is_perm(old(self).indices@),
            old(s)@.len() == old(self).indices@.len(),
            old(s)@.len() <= isize::MAX,
        ensures
            final(self).indices@ == old(self).indices@,
            final(self).forward == old(self).forward,
            final(s)@.len() == old(s)@.len(),
            forall|j: int| 0 <= j < old(s)@.len() ==> #[trigger] final(s)@[j] == old(s)@[old(self).indices@[j] as int],
    {
        let ghost p = self.indices@;
        apply_cycles(&mut self.indices, s);
        reset_marks(&mut self.indices, Ghost(p));
    }

    /// Moves `s[k]` to position `indices[k]`, for every `k`, following each cycle of the
    /// permutation in turn, then clears the marks that the walk left on `indices`.
    fn apply_slice_fwd_in_place<T>(&mut self, s: &mut Vec<T>)
        requires
            is_perm(old(self).indices@),
            old(s)@.len() == old(self).indices@.len(),
            old(s)@.len() <= isize::MAX,
        ensures
            final(self).indices@ == old(self).indices@,
            final(self).forward == old(self).forward,
            final(s)@.len() == old(s)@.len(),
            forall|k: int| 0 <= k < old(s)@.len() ==> #[trigger] final(s)@[old(self).indices@[k] as int] == old(s)@[k],
    {
        let ghost p = self.indices@;
        apply_cycles_fwd(&mut self.indices, s);
        reset_marks(&mut self.indices, Ghost(p));
    }

    /// Apply a permutation to a vector of elements in place: the element at `i` moves to
    /// `self@[i]`. The permutation is unchanged when this returns.
    pub fn apply_slice_in_place<T>(&mut self, slice: &mut Vec<T>)
        requires
            old(self).wf(),
            old(slice)@.len() == old(self).size(),
            old(slice)@.len() <= isize::MAX,
        ensures
            final(self).wf(),
            final(self)@ == old(self)@,
            final(self).stored() == old(self).stored(),
            final(self).is_forward() == old(self).is_forward(),
            final(slice)@.len() == old(slice)@.len(),
            forall|i: int| 0 <= i < old(slice)@.len() ==> #[trigger] final(slice)@[old(self)@[i] as int] == old(slice)@[i],
    {
        let ghost p = self.indices@;
        let ghost orig = slice@;
        if self.forward {
            self.apply_slice_fwd_in_place(slice);
        } else {
            self.apply_slice_bkwd_in_place(slice);
            proof {
                lemma_inverse(p);
                assert forall|i: int| 0 <= i < p.len() implies #[trigger] slice@[inverse_of(p)[i] as int] == orig[i] by {
                    assert(p[inverse_of(p)[i] as int] == i);
                }
            }
        }
    }

    /// Apply the inverse of a permutation to a vector of elements in place: the element at
    /// `self@[i]` moves to `i`. The permutation is unchanged when this returns.
    pub fn apply_inv_slice_in_place<T>(&mut self, slice: &mut Vec<T>)
        requires
            old(self).wf(),
            old(slice)@.len() == old(self).size(),
            old(slice)@.len() <= isize::MAX,
        ensures
            final(self).wf(),
            final(self)@ == old(self)@,
            final(self).stored() == old(self).stored(),
            final(self).is_forward() == old(self).is_forward(),
            final(slice)@.len() == old(slice)@.len(),
            forall|i: int| 0 <= i < old(slice)@.len() ==> #[trigger] final(slice)@[i] == old(slice)@[old(self)@[i] as int],
    {
        let ghost p = self.indices@;
        let ghost orig = slice@;
        if self.forward {
            self.apply_slice_bkwd_in_place(slice);
        } else {
            self.apply_slice_fwd_in_place(slice);
            proof {
                lemma_inverse(p);
                assert forall|i: int| 0 <= i < p.len() implies #[trigger] slice@[i] == orig[inverse_of(p)[i] as int] by {
                    let k = inverse_of(p)[i] as int;
                    assert(p[k] == i);
                }
            }
        }
    }

    /// Create a permutation from zero-based one-line notation: the element at `i` is moved to
    /// `vec[i]`. The result is well formed exactly when `vec` is a permutation (see `valid`).
    pub fn oneline(vec: Vec<usize>) -> (r: Permutation)
        ensures
            r.stored() == vec@,
            r.is_forward(),
            r.wf() == is_perm(vec@),
            is_perm(vec@) ==> r@ == vec@,
    {
        Permutation { forward: true, indices: vec }
    }

    /// Create a permutation from a vector of indices: applied to a sequence, it yields the
    /// elements at `vec[0], vec[1], ...` in turn. This is the inverse of `oneline(vec)`.
    pub fn from_vec(vec: Vec<usize>) -> (r: Permutation)
        ensures
            r.stored() == vec@,
            !r.is_forward(),
            r.wf() == is_perm(vec@),
            is_perm(vec@) ==> r@ == inverse_of(vec@),
    {
        Permutation { forward: false, indices: vec }
    }

    /// Return the identity permutation of size `len`.
    pub fn one(len: usize) -> (r: Permutation)
        ensures
            r.wf(),
            r@ == identity(len as nat),
            r.stored() == identity(len as nat),
            !r.is_forward(),
    {
        let mut indices: Vec<usize> = Vec::with_capacity(len);
        let mut i: usize = 0;
        while i < len
            invariant
                i <= len,
                indices@ == identity(i as nat),
            decreases len - i,
        {
            indices.push(i);
            i += 1;
            proof {
                assert(indices@ =~= identity(i as nat));
            }
        }
        proof {
            lemma_inverse_identity(len as nat);
        }
        Permutation { forward: false, indices }
    }

    /// Check whether the stored indices list each of `0..len` exactly once.
    pub fn valid(&self) -> (r: bool)
        ensures
            r == self.wf(),
    {
        let n = self.indices.len();
        let mut seen: Vec<bool> = Vec::with_capacity(n);
        let mut k: usize = 0;
        while k < n
            invariant
                k <= n,
                n == self.indices@.len(),
                seen@.len() == k,
                forall|m: int| 0 <= m < k ==> !(#[trigger] seen@[m]),
            decreases n - k,
        {
            seen.push(false);
            k += 1;
        }
        let mut i: usize = 0;
        while i < n
            invariant
                i <= n,
                n == self.indices@.len(),
                seen@.len() == n,
                forall|a: int| 0 <= a < i ==> #[trigger] self.indices@[a] < n,
                forall|a: int, b: int| 0 <= a < i && 0 <= b < i && a != b ==> self.indices@[a] != self.indices@[b],
                forall|x: int| 0 <= x < n ==> (#[trigger] seen@[x] <==> exists|a: int| 0 <= a < i && self.indices@[a] == x),
            decreases n - i,
        {
            let v = self.indices[i];
            if v >= n || seen[v] {
                return false;
            }
            seen.set(v, true);
            i += 1;
        }
        true
    }

    /// Return the inverse of a permutation. Only the direction flag changes.
    pub fn inverse(self) -> (r: Permutation)
        requires
            self.wf(),
        ensures
            r.wf(),
            r@ == inverse_of(self@),
            r.stored() == self.stored(),
            r.is_forward() == !self.is_forward(),
    {
        proof {
            if !self.forward {
                lemma_inverse_inverse(self.indices@);
            }
        }
        Permutation { forward: !self.forward, indices: self.indices }
    }

    /// Multiply permutations: `self.mul(rhs)` applies `rhs` first, then `self`.
    pub fn mul(&self, rhs: &Permutation) -> (r: Permutation)
        requires
            self.wf(),
            rhs.wf(),
            self.size() == rhs.size(),
        ensures
            r.wf(),
            r.size() == self.size(),
            r@ == compose(self@, rhs@),
            r.is_forward() == (self.is_forward() && rhs.is_forward()),
        decreases (if rhs.is_forward() { 1int } else { 0int }),
    {
        proof {
            self.lemma_wf();
            rhs.lemma_wf();
        }
        if !rhs.forward {
            let r1 = self.apply_slice(rhs.indices.as_slice());
            let ghost sa = self@;
            let ghost sb = rhs@;
            let ghost ib = rhs.indices@;
            proof {
                lemma_inverse(sa);
                lemma_inverse(ib);
                assert(r1@ =~= compose(ib, inverse_of(sa))) by {
                    assert forall|x: int| 0 <= x < r1@.len() implies #[trigger] r1@[x] == ib[inverse_of(sa)[x] as int] by {
                        let i = inverse_of(sa)[x] as int;
                        assert(sa[i] == x);
                    }
                }
                lemma_compose(ib, inverse_of(sa));
                let c = compose(sa, sb);
                assert forall|x: int| 0 <= x < r1@.len() implies #[trigger] c[r1@[x] as int] == x by {
                    let i = inverse_of(sa)[x] as int;
                    assert(sb[ib[i] as int] == i);
                }
                lemma_left_inverse(r1@, c);
            }
            Permutation::oneline(r1).inverse()
        } else if !self.forward {
            let t = rhs.mul(&Permutation::one(self.len()));
            proof {
                assert(compose(rhs@, identity(self.size())) =~= rhs@);
            }
            self.mul(&t)
        } else {
            let ind = rhs.apply_inv_slice(self.indices.as_slice());
            proof {
                lemma_compose(self@, rhs@);
                assert(ind@ =~= compose(self@, rhs@));
            }
            Permutation { forward: true, indices: ind }
        }
    }

    /// Normalize the internal storage of the permutation, keeping its value: with `backward`
    /// false the stored indices become the one-line form itself (fast `apply_idx`), with
    /// `backward` true its inverse (fast `apply_inv_idx`).
    pub fn normalize(self, backward: bool) -> (r: Permutation)
        requires
            self.wf(),
        ensures
            r.wf(),
            r@ == self@,
            r.size() == self.size(),
            r.is_forward() == !backward,
    {
        if self.forward ^ backward {
            self
        } else {
            let len = self.len();
            proof {
                self.lemma_wf();
            }
            if backward {
                let r = self.mul(&Permutation::one(len));
                proof {
                    assert(compose(self@, identity(len as nat)) =~= self@);
                }
                r
            } else {
                let ghost v = self@;
                let inv = self.inverse();
                let m = inv.mul(&Permutation::one(len));
                proof {
                    assert(compose(inv@, identity(len as nat)) =~= inv@);
                    lemma_inverse_inverse(v);
                }
                m.inverse()
            }
        }
    }

    /// Whether two permutations are the same permutation, whichever way each is stored.
    pub fn eq(&self, other: &Permutation) -> (r: bool)
        requires
            self.wf(),
            other.wf(),
        ensures
            r == (self@ == other@),
    {
        proof {
            self.lemma_wf();
            other.lemma_wf();
        }
        let n = self.indices.len();
        if n != other.indices.len() {
            return false;
        }
        let mut i: usize = 0;
        if self.forward == other.forward {
            while i < n
                invariant
                    i <= n,
                    n == self.indices@.len() == other.indices@.len(),
                    is_perm(self.indices@),
                    is_perm(other.indices@),
                    self.forward == other.forward,
                    forall|m: int| 0 <= m < i ==> #[trigger] self.indices@[m] == other.indices@[m],
                decreases n - i,
            {
                if self.indices[i] != other.indices[i] {
                    proof {
                        if !self.forward {
                            lemma_inverse_inverse(self.indices@);
                            lemma_inverse_inverse(other.indices@);
                        }
                    }
                    return false;
                }
                i += 1;
            }
            proof {
                assert(self.indices@ =~= other.indices@);
            }
            true
        } else {
            let ghost s = self.indices@;
            let ghost o = other.indices@;
            proof {
                lemma_inverse(s);
                lemma_inverse(o);
                lemma_inverse_inverse(s);
                lemma_inverse_inverse(o);
            }
            while i < n
                invariant
                    i <= n,
                    n == s.len() == o.len(),
                    s == self.indices@,
                    o == other.indices@,
                    is_perm(s),
                    is_perm(o),
                    self.forward != other.forward,
                    inverse_of(inverse_of(s)) == s,
                    inverse_of(inverse_of(o)) == o,
                    forall|m: int| 0 <= m < i ==> #[trigger] o[s[m] as int] == m,
                decreases n - i,
            {
                if other.indices[self.indices[i]] != i {
                    proof {
                        if self@ == other@ {
                            lemma_inverse(s);
                            lemma_inverse(o);
                            if self.forward {
                                assert(s == inverse_of(o));
                                assert(o[inverse_of(o)[i as int] as int] == i);
                            } else {
                                assert(inverse_of(s) == o);
                                assert(inverse_of(s)[s[i as int] as int] == i);
                            }
                        }
                    }
                    return false;
                }
                i += 1;
            }
            proof {
                lemma_left_inverse(s, o);
            }
            true
        }
    }

    /// Computes the permutation that would sort a given slice, reusing the storage of `self`:
    /// the stored indices are rearranged in ascending order of the elements they name.
    pub fn assign_from_sort<T: Ord>(&mut self, slice: &[T])
        requires
            old(self).wf(),
            old(self).size() == slice@.len(),
            vstd::laws_cmp::obeys_cmp::<T>(),
        ensures
            final(self).wf(),
            final(self).size() == old(self).size(),
            final(self).is_forward() == old(self).is_forward(),
            final(self).stored().to_multiset() == old(self).stored().to_multiset(),
            sorted_by_elements(final(self).stored(), slice@),
            stable_by_elements(final(self).stored(), slice@, old(self).stored()),
    {
        let ghost before = self.indices@;
        sort_indices(&mut self.indices, slice);
        proof {
            lemma_rearranged_perm(before, self.indices@);
        }
    }

    /// Computes the permutation that would sort a given slice by a comparator, reusing the
    /// storage of `self`: the stored indices are rearranged so that, when `compare` is
    /// consistent, no element they name is called greater than the next.
    pub fn assign_from_sort_by<T, F: Fn(&T, &T) -> core::cmp::Ordering>(&mut self, slice: &[T], compare: F)
        requires
            old(self).wf(),
            old(self).size() == slice@.len(),
            forall|a: &T, b: &T| #[trigger] compare.requires((a, b)),
        ensures
            final(self).wf(),
            final(self).size() == old(self).size(),
            final(self).is_forward() == old(self).is_forward(),
            consistent(compare) ==> sorted_by_compare(compare, final(self).stored(), slice@),
            stable_by_compare(compare, final(self).stored(), slice@, old(self).stored()),
    {
        insertion_sort_by(&mut self.indices, slice, &compare);
    }

    /// Computes the permutation that would sort a given slice by a key function, reusing the
    /// storage of `self`: the stored indices are rearranged in ascending order of the keys of the
    /// elements they name. Each key is computed once.
    pub fn assign_from_sort_by_key<T, B: Ord, F: Fn(&T) -> B>(&mut self, slice: &[T], f: F)
        requires
            old(self).wf(),
            old(self).size() == slice@.len(),
            forall|x: &T| #[trigger] f.requires((x,)),
            vstd::laws_cmp::obeys_cmp::<B>(),
        ensures
            final(self).wf(),
            final(self).size() == old(self).size(),
            final(self).is_forward() == old(self).is_forward(),
            final(self).stored().to_multiset() == old(self).stored().to_multiset(),
            exists|keys: Seq<B>|
                {
                    &&& keys.len() == slice@.len()
                    &&& forall|i: int| 0 <= i < slice@.len() ==> #[trigger] f.ensures((&slice@[i],), keys[i])
                    &&& sorted_by_elements(final(self).stored(), keys)
                    &&& stable_by_elements(final(self).stored(), keys, old(self).stored())
                },
    {
        let keys = keys_of(slice, &f);
        self.assign_from_sort(keys.as_slice());
    }

    /// The position at which the stored indices hold `idx`.
    fn apply_idx_fwd(&self, idx: usize) -> (r: usize)
        requires
            is_perm(self.indices@),
            idx < self.indices@.len(),
        ensures
            r < self.indices@.len(),
            self.indices@[r as int] == idx,
    {
        proof {
            lemma_perm_onto(self.indices@, idx as int);
        }
        let n = self.indices.len();
        let mut k: usize = 0;
        while k < n
            invariant
                k <= n,
                n == self.indices@.len(),
                forall|m: int| 0 <= m < k ==> #[trigger] self.indices@[m] != idx,
            decreases n - k,
        {
            if self.indices[k] == idx {
                return k;
            }
            k += 1;
        }
        proof {
            let m = choose|m: int| 0 <= m < n && self.indices@[m] == idx;
            assert(self.indices@[m] != idx);
        }
        0
    }

    /// The stored index at `idx`.
    fn apply_idx_bkwd(&self, idx: usize) -> (r: usize)
        requires
            idx < self.indices@.len(),
        ensures
            r == self.indices@[idx as int],
    {
        self.indices[idx]
    }

    /// Apply the permutation to an index: the new position of the element at `idx`.
    pub fn apply_idx(&self, idx: usize) -> (r: usize)
        requires
            self.wf(),
            idx < self.size(),
        ensures
            r == self@[idx as int],
    {
        if self.forward {
            self.apply_idx_bkwd(idx)
        } else {
            let r = self.apply_idx_fwd(idx);
            proof {
                lemma_inverse(self.indices@);
                assert(inverse_of(self.indices@)[self.indices@[r as int] as int] == r);
            }
            r
        }
    }

    /// Apply the inverse of the permutation to an index: the position whose element moves to
    /// `idx`.
    pub fn apply_inv_idx(&self, idx: usize) -> (r: usize)
        requires
            self.wf(),
            idx < self.size(),
        ensures
            r < self.size(),
            self@[r as int] == idx,
    {
        proof {
            lemma_inverse(self.indices@);
        }
        if self.forward {
            self.apply_idx_fwd(idx)
        } else {
            self.apply_idx_bkwd(idx)
        }
    }

    /// The elements of `s` taken at the stored indices in turn.
    fn apply_slice_fwd<T: Copy>(&self, s: &[T]) -> (r: Vec<T>)
        requires
            is_perm(self.indices@),
            s@.len() == self.indices@.len(),
        ensures
            r@.len() == s@.len(),
            forall|j: int| 0 <= j < s@.len() ==> #[trigger] r@[j] == s@[self.indices@[j] as int],
    {
        let n = self.indices.len();
        let mut r: Vec<T> = Vec::with_capacity(n);
        let mut j: usize = 0;
        while j < n
            invariant
                j <= n,
                n == self.indices@.len() == s@.len(),
                is_perm(self.indices@),
                r@.len() == j,
                forall|m: int| 0 <= m < j ==> #[trigger] r@[m] == s@[self.indices@[m] as int],
            decreases n - j,
        {
            r.push(s[self.indices[j]]);
            j += 1;
        }
        r
    }

    /// The elements of `s` with the element at `k` sent to the stored index at `k`.
    fn apply_slice_bkwd<T: Copy>(&self, s: &[T]) -> (r: Vec<T>)
        requires
            is_perm(self.indices@),
            s@.len() == self.indices@.len(),
        ensures
            r@.len() == s@.len(),
            forall|k: int| 0 <= k < s@.len() ==> #[trigger] r@[self.indices@[k] as int] == s@[k],
    {
        let n = self.indices.len();
        let mut other: Vec<T> = Vec::with_capacity(n);
        let mut k: usize = 0;
        while k < n
            invariant
                k <= n,
                n == s@.len(),
                other@ == s@.subrange(0, k as int),
            decreases n - k,
        {
            other.push(s[k]);
            k += 1;
            proof {
                assert(other@ =~= s@.subrange(0, k as int));
            }
        }
        let mut i: usize = 0;
        while i < n
            invariant
                i <= n,
                n == self.indices@.len() == s@.len() == other@.len(),
                is_perm(self.indices@),
                forall|m: int| 0 <= m < i ==> #[trigger] other@[self.indices@[m] as int] == s@[m],
            decreases n - i,
        {
            other.set(self.indices[i], s[i]);
            i += 1;
        }
        other
    }

    /// Apply a permutation to a slice of elements, into a new vector: the element at `i` goes
    /// to `self@[i]`.
    pub fn apply_slice<T: Copy>(&self, slice: &[T]) -> (r: Vec<T>)
        requires
            self.wf(),
            slice@.len() == self.size(),
        ensures
            r@.len() == slice@.len(),
            forall|i: int| 0 <= i < slice@.len() ==> #[trigger] r@[self@[i] as int] == slice@[i],
    {
        if self.forward {
            self.apply_slice_bkwd(slice)
        } else {
            let r = self.apply_slice_fwd(slice);
            proof {
                let p = self.indices@;
                lemma_inverse(p);
                assert forall|i: int| 0 <= i < slice@.len() implies #[trigger] r@[self@[i] as int] == slice@[i] by {
                    assert(p[inverse_of(p)[i] as int] == i);
                }
            }
            r
        }
    }

    /// Apply the inverse of a permutation to a slice of elements, into a new vector: the element
    /// at `self@[i]` goes to `i`.
    pub fn apply_inv_slice<T: Copy>(&self, slice: &[T]) -> (r: Vec<T>)
        requires
            self.wf(),
            slice@.len() == self.size(),
        ensures
            r@.len() == slice@.len(),
            forall|i: int| 0 <= i < slice@.len() ==> #[trigger] r@[i] == slice@[self@[i] as int],
    {
        if self.forward {
            self.apply_slice_fwd(slice)
        } else {
            let r = self.apply_slice_bkwd(slice);
            proof {
                let p = self.indices@;
                lemma_inverse(p);
                assert forall|i: int| 0 <= i < slice@.len() implies #[trigger] r@[i] == slice@[self@[i] as int] by {
                    let k = inverse_of(p)[i] as int;
                    assert(p[k] == i);
                }
            }
            r
        }
    }
}

} // verus!
