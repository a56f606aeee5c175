use vstd::prelude::*;
use crate::permutation::{is_perm, lemma_inverse, inverse_of};

verus! {

/// The bit that marks an index as resolved during in-place application.
pub open spec fn mark_bit() -> int {
    isize::MAX as int + 1
}

/// Whether `idx` carries the mark bit.
pub open spec fn is_marked(idx: usize) -> bool {
    idx as int >= mark_bit()
}

/// `idx` with its mark bit flipped.
pub open spec fn toggled(idx: usize) -> usize {
    if is_marked(idx) {
        (idx as int - mark_bit()) as usize
    } else {
        (idx as int + mark_bit()) as usize
    }
}

/// The positions of `idx` whose entry carries the mark bit.
pub open spec fn marked_positions(idx: Seq<usize>) -> Set<int> {
    Set::new(|k: int| 0 <= k < idx.len() && is_marked(idx[k]))
}

/// The marked positions are a finite set of at most `idx.len()` positions.
pub proof fn lemma_marked_positions(idx: Seq<usize>)
    ensures
        marked_positions(idx).finite(),
        marked_positions(idx).len() <= idx.len(),
{
    vstd::set_lib::lemma_int_range(0, idx.len() as int);
    vstd::set_lib::lemma_len_subset(marked_positions(idx), vstd::set_lib::set_int_range(0, idx.len() as int));
}

/// Marking one more position adds it to the marked positions.
pub proof fn lemma_mark_one(idx: Seq<usize>, j: int, v: usize)
    requires
        0 <= j < idx.len(),
        !is_marked(idx[j]),
        is_marked(v),
    ensures
        marked_positions(idx.update(j, v)) == marked_positions(idx).insert(j),
        marked_positions(idx.update(j, v)).len() == marked_positions(idx).len() + 1,
{
    assert(marked_positions(idx.update(j, v)) =~= marked_positions(idx).insert(j));
    lemma_marked_positions(idx);
}

/// The state of an in-place application that has resolved every cycle through a position
/// below `i` and is walking the cycle of `i`, whose start value `orig[i]` now sits at `j`
/// (`j == i` when no walk is under way). A marked slot holds its resolved value, an unmarked one
/// its value from before the walk (`orig`).
pub open spec fn cycle_state<E>(idx: Seq<usize>, s: Seq<E>, p: Seq<usize>, orig: Seq<E>, i: int, j: int) -> bool {
    &&& idx.len() == s.len() == p.len() == orig.len()
    &&& p.len() <= isize::MAX
    &&& is_perm(p)
    &&& 0 <= i <= p.len()
    &&& (j != i ==> 0 <= j < p.len() && s[j] == orig[i] && idx[j] == p[j] && !is_marked(idx[j]))
    &&& forall|k: int| 0 <= k < p.len() && (k != j || j == i) ==> if is_marked(#[trigger] idx[k]) {
        toggled(idx[k]) == p[k] && s[k] == orig[p[k] as int]
    } else {
        idx[k] == p[k] && s[k] == orig[k]
    }
    &&& forall|k: int| 0 <= k < p.len() && #[trigger] is_marked(idx[k]) ==> is_marked(idx[p[k] as int]) || (j != i && p[k] == j)
    &&& forall|k: int| 0 <= k < p.len() && is_marked(idx[p[k] as int]) ==> #[trigger] is_marked(idx[k]) || (j != i && p[k] == i)
    &&& forall|k: int| 0 <= k < p.len() && p[k] == j && j != i ==> #[trigger] is_marked(idx[k])
    &&& forall|k: int| 0 <= k < i ==> is_marked(#[trigger] idx[k])
}

/// Whether the top bit of `idx`, the mark bit, is set.
pub fn is_visited(idx: usize) -> (r: bool)
    ensures
        r == is_marked(idx),
{
    idx > isize::MAX as usize
}

/// Flips the top bit of `idx`, the mark bit.
pub fn mark_visited(idx: usize) -> (r: usize)
    ensures
        r == toggled(idx),
{
    let m: usize = isize::MAX as usize + 1;
    if idx >= m {
        idx - m
    } else {
        idx + m
    }
}

/// A sequence of entries whose positions can be exchanged two at a time.
pub trait SwapStore {
    type Entry;

    /// What a swap leaves as it is, besides the entries.
    type Meta;

    /// The entries, in order.
    spec fn entries(&self) -> Seq<Self::Entry>;

    /// The store's own invariant, which swaps preserve.
    spec fn store_wf(&self) -> bool;

    /// What a swap leaves as it is, besides the entries.
    spec fn meta(&self) -> Self::Meta;

    /// Exchanges the entries at `a` and `b`.
    fn swap_entries(&mut self, a: usize, b: usize)
        requires
            old(self).store_wf(),
            a < old(self).entries().len(),
            b < old(self).entries().len(),
        ensures
            final(self).store_wf(),
            final(self).meta() == old(self).meta(),
            final(self).entries() == old(self).entries().update(a as int, old(self).entries()[b as int]).update(
                b as int,
                old(self).entries()[a as int],
            );
}

/// Relies on `<[T]>::swap`: exchanges the elements at `a` and `b` (panics out of bounds).
#[verifier::external_body]
pub(crate) fn swap_at<T>(v: &mut Vec<T>, a: usize, b: usize)
    requires
        a < old(v)@.len(),
        b < old(v)@.len(),
    ensures
        final(v)@ == old(v)@.update(a as int, old(v)@[b as int]).update(b as int, old(v)@[a as int]),
{
    v.swap(a, b)
}


impl<T> SwapStore for Vec<T> {
    type Entry = T;

    type Meta = ();

    open spec fn entries(&self) -> Seq<T> {
        self@
    }

    open spec fn store_wf(&self) -> bool {
        true
    }

    open spec fn meta(&self) -> () {
        ()
    }

    fn swap_entries(&mut self, a: usize, b: usize) {
        swap_at(self, a, b)
    }
}

/// Resolves the cycle through the unmarked position `i`: every position `j` of the cycle
/// receives `orig[p[j]]` and is marked.
fn resolve_cycle<S: SwapStore>(perm: &mut Vec<usize>, s: &mut S, i: usize, Ghost(p): Ghost<Seq<usize>>, Ghost(orig): Ghost<Seq<S::Entry>>)
    requires
        cycle_state(old(perm)@, old(s).entries(), p, orig, i as int, i as int),
        old(s).store_wf(),
        (i as int) < p.len(),
        !is_marked(old(perm)@[i as int]),
    ensures
        cycle_state(final(perm)@, final(s).entries(), p, orig, i as int + 1, i as int + 1),
        final(s).store_wf(),
        final(s).meta() == old(s).meta(),
{
    let n = perm.len();
    let mut j = i;
    let mut j_idx = perm[i];
    // When we loop back to the first index, we stop
    while j_idx != i
        invariant
            cycle_state(perm@, s.entries(), p, orig, i as int, j as int),
            s.store_wf(),
            s.meta() == old(s).meta(),
            n == p.len(),
            j < n,
            j_idx == p[j as int],
            !is_marked(perm@[j as int]),
            (j == i) == !is_marked(perm@[i as int]),
        decreases n - marked_positions(perm@).len(),
    {
        proof {
            lemma_marked_positions(perm@);
            if is_marked(perm@[j_idx as int]) {
                assert(is_marked(perm@[p[j as int] as int]));
                assert(false);
            }
            if j_idx == j {
                lemma_inverse(p);
                let pre = inverse_of(p)[j as int] as int;
                assert(p[pre] == j);
                assert(false);
            }
            lemma_mark_one(perm@, j as int, toggled(j_idx));
        }
        perm.set(j, mark_visited(j_idx));
        s.swap_entries(j, j_idx);
        proof {
            lemma_marked_positions(perm@);
            let idx = perm@;
            let jj = j_idx as int;
            assert forall|k: int| 0 <= k < n && p[k] == jj implies #[trigger] is_marked(idx[k]) by {
                assert(p[k] == p[j as int]);
            }
        }
        j = j_idx;
        j_idx = perm[j];
    }
    proof {
        lemma_mark_one(perm@, j as int, toggled(j_idx));
    }
    let ghost before = perm@;
    perm.set(j, mark_visited(j_idx));
    proof {
        let idx = perm@;
        assert forall|k: int| 0 <= k < n && is_marked(idx[p[k] as int]) implies #[trigger] is_marked(idx[k]) by {
            if p[k] == i {
                assert(p[k] == p[j as int]);
            }
        }
    }
}

/// Moves `s[perm[j]]` to position `j`, for every `j`, following each cycle of the permutation
/// in turn. No second copy of the entries is made: a slot of `perm` is marked with its top bit
/// once its position is resolved, and on return every slot is marked (see `reset_marks`).
pub fn apply_cycles<S: SwapStore>(perm: &mut Vec<usize>, s: &mut S)
    requires
        old(s).store_wf(),
        is_perm(old(perm)@),
        old(s).entries().len() == old(perm)@.len(),
        old(s).entries().len() <= isize::MAX,
    ensures
        final(s).store_wf(),
        final(s).meta() == old(s).meta(),
        final(s).entries().len() == old(s).entries().len(),
        forall|j: int| 0 <= j < old(s).entries().len() ==> #[trigger] final(s).entries()[j] == old(s).entries()[old(perm)@[j] as int],
        final(perm)@.len() == old(perm)@.len(),
        forall|m: int| 0 <= m < old(perm)@.len() ==> toggled(#[trigger] final(perm)@[m]) == old(perm)@[m] && is_marked(final(perm)@[m]),
{
    let n = perm.len();
    let ghost p = perm@;
    let ghost orig = s.entries();
    let mut i: usize = 0;
    while i < n
        invariant
            cycle_state(perm@, s.entries(), p, orig, i as int, i as int),
            s.store_wf(),
            s.meta() == old(s).meta(),
            n == p.len(),
            i <= n,
        decreases n - i,
    {
        if is_visited(perm[i]) {
            i += 1;
        } else {
            resolve_cycle(perm, s, i, Ghost(p), Ghost(orig));
            i += 1;
        }
    }
    proof {
        assert forall|j: int| 0 <= j < n implies #[trigger] s.entries()[j] == orig[p[j] as int] by {
            assert(is_marked(perm@[j]));
        }
    }
}

/// The state of an in-place forward application that has resolved every cycle through a
/// position below `i`. A marked slot `k` has had `orig[k]` placed at `p[k]`. While the cycle of
/// `i` is walked (`walking`), position `i` holds `orig[j]`, the entry of the current slot `j`.
pub open spec fn fwd_state<E>(idx: Seq<usize>, s: Seq<E>, p: Seq<usize>, orig: Seq<E>, i: int, j: int, walking: bool) -> bool {
    &&& idx.len() == s.len() == p.len() == orig.len()
    &&& p.len() <= isize::MAX
    &&& is_perm(p)
    &&& 0 <= i <= p.len()
    &&& forall|k: int| 0 <= k < p.len() ==> if is_marked(#[trigger] idx[k]) {
        toggled(idx[k]) == p[k] && s[p[k] as int] == orig[k]
    } else {
        idx[k] == p[k] && (p[k] != i || !walking ==> s[p[k] as int] == orig[p[k] as int])
    }
    &&& (walking ==> 0 <= i < p.len() && 0 <= j < p.len() && s[i] == orig[j] && !is_marked(idx[j]))
    &&& (walking ==> forall|k: int| 0 <= k < p.len() && p[k] == i ==> !is_marked(#[trigger] idx[k]))
    &&& (walking ==> ((j == i) == !is_marked(idx[i])))
    &&& forall|k: int| 0 <= k < p.len() && #[trigger] is_marked(idx[k]) ==> is_marked(idx[p[k] as int]) || (walking && p[k] == j)
    &&& forall|k: int| 0 <= k < p.len() && is_marked(idx[p[k] as int]) ==> #[trigger] is_marked(idx[k]) || (walking && p[k] == i)
    &&& forall|k: int| 0 <= k < p.len() && p[k] == j && j != i && walking ==> #[trigger] is_marked(idx[k])
    &&& forall|k: int| 0 <= k < i ==> is_marked(#[trigger] idx[k])
}

/// Resolves the cycle through the unmarked position `i` in the forward direction: for every
/// slot `k` of the cycle, `orig[k]` is placed at `p[k]` and `k` is marked.
fn resolve_cycle_fwd<S: SwapStore>(perm: &mut Vec<usize>, s: &mut S, i: usize, Ghost(p): Ghost<Seq<usize>>, Ghost(orig): Ghost<Seq<S::Entry>>)
    requires
        fwd_state(old(perm)@, old(s).entries(), p, orig, i as int, i as int, false),
        old(s).store_wf(),
        (i as int) < p.len(),
        !is_marked(old(perm)@[i as int]),
    ensures
        fwd_state(final(perm)@, final(s).entries(), p, orig, i as int + 1, i as int + 1, false),
        final(s).store_wf(),
        final(s).meta() == old(s).meta(),
{
    let n = perm.len();
    proof {
        lemma_inverse(p);
        let q = inverse_of(p)[i as int] as int;
        assert(p[q] == i);
        if is_marked(perm@[q]) {
            assert(is_marked(perm@[p[q] as int]));
        }
        assert forall|k: int| 0 <= k < n && p[k] == i implies !is_marked(#[trigger] perm@[k]) by {
            if is_marked(perm@[k]) {
                assert(is_marked(perm@[p[k] as int]));
            }
        }
    }
    let mut j = i;
    let mut j_idx = perm[i];
    // When we loop back to the first index, we stop
    while j_idx != i
        invariant
            fwd_state(perm@, s.entries(), p, orig, i as int, j as int, true),
            s.store_wf(),
            s.meta() == old(s).meta(),
            n == p.len(),
            j < n,
            j_idx == p[j as int],
        decreases n - marked_positions(perm@).len(),
    {
        proof {
            lemma_marked_positions(perm@);
            if is_marked(perm@[j_idx as int]) {
                assert(is_marked(perm@[p[j as int] as int]));
                assert(false);
            }
            if j_idx == j {
                lemma_inverse(p);
                let pre = inverse_of(p)[j as int] as int;
                assert(p[pre] == j);
                assert(false);
            }
            lemma_mark_one(perm@, j as int, toggled(j_idx));
        }
        perm.set(j, mark_visited(j_idx));
        s.swap_entries(i, j_idx);
        proof {
            lemma_marked_positions(perm@);
            let idx = perm@;
            let jj = j_idx as int;
            assert forall|k: int| 0 <= k < n && p[k] == jj implies #[trigger] is_marked(idx[k]) by {
                assert(p[k] == p[j as int]);
            }
            assert forall|k: int| 0 <= k < n && p[k] == i implies !is_marked(#[trigger] idx[k]) by {
                if k == j {
                    assert(false);
                }
            }
        }
        j = j_idx;
        j_idx = perm[j];
    }
    proof {
        lemma_mark_one(perm@, j as int, toggled(j_idx));
    }
    perm.set(j, mark_visited(j_idx));
    proof {
        let idx = perm@;
        assert forall|k: int| 0 <= k < n && is_marked(idx[p[k] as int]) implies #[trigger] is_marked(idx[k]) by {
            if p[k] == i {
                assert(p[k] == p[j as int]);
            }
        }
    }
}

/// Moves `s[k]` to position `perm[k]`, for every `k`, following each cycle of the permutation
/// in turn and rotating the entries of each cycle through its first position. As in
/// `apply_cycles`, every slot of `perm` is marked on return.
pub fn apply_cycles_fwd<S: SwapStore>(perm: &mut Vec<usize>, s: &mut S)
    requires
        old(s).store_wf(),
        is_perm(old(perm)@),
        old(s).entries().len() == old(perm)@.len(),
        old(s).entries().len() <= isize::MAX,
    ensures
        final(s).store_wf(),
        final(s).meta() == old(s).meta(),
        final(s).entries().len() == old(s).entries().len(),
        forall|k: int| 0 <= k < old(s).entries().len() ==> #[trigger] final(s).entries()[old(perm)@[k] as int] == old(s).entries()[k],
        final(perm)@.len() == old(perm)@.len(),
        forall|m: int| 0 <= m < old(perm)@.len() ==> toggled(#[trigger] final(perm)@[m]) == old(perm)@[m] && is_marked(final(perm)@[m]),
{
    let n = perm.len();
    let ghost p = perm@;
    let ghost orig = s.entries();
    let mut i: usize = 0;
    while i < n
        invariant
            fwd_state(perm@, s.entries(), p, orig, i as int, i as int, false),
            s.store_wf(),
            s.meta() == old(s).meta(),
            n == p.len(),
            i <= n,
        decreases n - i,
    {
        if is_visited(perm[i]) {
            i += 1;
        } else {
            resolve_cycle_fwd(perm, s, i, Ghost(p), Ghost(orig));
            i += 1;
        }
    }
    proof {
        assert forall|k: int| 0 <= k < n implies #[trigger] s.entries()[p[k] as int] == orig[k] by {
            assert(is_marked(perm@[k]));
        }
    }
}

/// Clears the mark bit of every slot, restoring the permutation `p` that the marks were set on.
pub fn reset_marks(perm: &mut Vec<usize>, Ghost(p): Ghost<Seq<usize>>)
    requires
        is_perm(p),
        p.len() <= isize::MAX,
        old(perm)@.len() == p.len(),
        forall|m: int| 0 <= m < p.len() ==> toggled(#[trigger] old(perm)@[m]) == p[m] && is_marked(old(perm)@[m]),
    ensures
        final(perm)@ == p,
{
    let n = perm.len();
    let mut k: usize = 0;
    while k < n
        invariant
            n == perm@.len() == p.len(),
            n <= isize::MAX,
            is_perm(p),
            0 <= k <= n,
            forall|m: int| 0 <= m < k ==> #[trigger] perm@[m] == p[m],
            forall|m: int| k <= m < n ==> toggled(#[trigger] perm@[m]) == p[m] && is_marked(perm@[m]),
        decreases n - k,
    {
        let v = perm[k];
        perm.set(k, mark_visited(v));
        k += 1;
    }
    proof {
        assert(perm@ =~= p);
    }
}


} // verus!
