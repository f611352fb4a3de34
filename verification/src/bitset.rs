//! The step-index sets of the engine are `bit_set::BitSet` values. Verus sees
//! a set only through `bit_members`, and each method that the engine calls
//! through the wrappers below.

use vstd::prelude::*;

verus! {

#[verifier::external_type_specification]
#[verifier::external_body]
#[verifier::reject_recursive_types(B)]
pub struct ExBitSet<B>(bit_set::BitSet<B>);

/// The indices held by a bit set.
pub uninterp spec fn bit_members(s: bit_set::BitSet) -> Set<usize>;

/// `BitSet::new`: an empty set.
#[verifier::external_body]
pub(crate) fn bitset_new() -> (r: bit_set::BitSet)
    ensures
        bit_members(r) == Set::<usize>::empty(),
{
    bit_set::BitSet::new()
}

/// `BitSet::with_capacity`: an empty set with room for `nbits` indices.
#[verifier::external_body]
pub(crate) fn bitset_with_capacity(nbits: usize) -> (r: bit_set::BitSet)
    ensures
        bit_members(r) == Set::<usize>::empty(),
{
    bit_set::BitSet::with_capacity(nbits)
}

/// `BitSet::insert`: adds `value`; returns whether it was absent. The set grows
/// its storage to `value + 1` bits, so `value` must be below `usize::MAX`.
#[verifier::external_body]
pub(crate) fn bitset_insert(s: &mut bit_set::BitSet, value: usize) -> (r: bool)
    requires
        value < usize::MAX,
    ensures
        bit_members(*final(s)) == bit_members(*old(s)).insert(value),
        r == !bit_members(*old(s)).contains(value),
{
    s.insert(value)
}

/// The set of the indices listed in `indices`.
pub fn bitset_from_indices(indices: &Vec<usize>) -> (r: bit_set::BitSet)
    requires
        forall|k: int| 0 <= k < indices@.len() ==> #[trigger] indices@[k] < usize::MAX,
    ensures
        bit_members(r) == indices@.to_set(),
{
    let mut out = bitset_new();
    let mut i: usize = 0;
    proof {
        assert(indices@.take(0).to_set() =~= Set::<usize>::empty());
    }
    while i < indices.len()
        invariant
            i <= indices@.len(),
            forall|k: int| 0 <= k < indices@.len() ==> #[trigger] indices@[k] < usize::MAX,
            bit_members(out) == indices@.take(i as int).to_set(),
        decreases indices@.len() - i,
    {
        let x = indices[i];
        bitset_insert(&mut out, x);
        proof {
            let before = indices@.take(i as int);
            assert(indices@.take(i + 1) =~= before.push(x));
            assert forall|y: usize| before.push(x).to_set().contains(y) <==> before.to_set().insert(x).contains(y) by {
                if before.push(x).contains(y) && y != x {
                    let j = choose|j: int| 0 <= j < before.len() + 1 && before.push(x)[j] == y;
                    assert(before[j] == y);
                }
                if before.contains(y) {
                    let j = choose|j: int| 0 <= j < before.len() && before[j] == y;
                    assert(before.push(x)[j] == y);
                }
                if y == x {
                    assert(before.push(x)[before.len() as int] == x);
                }
            }
            assert(before.push(x).to_set() =~= before.to_set().insert(x));
        }
        i = i + 1;
    }
    proof {
        assert(indices@.take(indices@.len() as int) =~= indices@);
    }
    out
}

/// `BitSet::remove`: removes `value`; returns whether it was present.
#[verifier::external_body]
pub(crate) fn bitset_remove(s: &mut bit_set::BitSet, value: usize) -> (r: bool)
    ensures
        bit_members(*final(s)) == bit_members(*old(s)).remove(value),
        r == bit_members(*old(s)).contains(value),
{
    s.remove(value)
}

/// `BitSet::contains`.
#[verifier::external_body]
pub(crate) fn bitset_contains(s: &bit_set::BitSet, value: usize) -> (r: bool)
    ensures
        r == bit_members(*s).contains(value),
{
    s.contains(value)
}

/// `BitSet::is_empty`: whether no index is set.
#[verifier::external_body]
pub(crate) fn bitset_is_empty(s: &bit_set::BitSet) -> (r: bool)
    ensures
        r == (bit_members(*s) == Set::<usize>::empty()),
{
    s.is_empty()
}

/// `BitSet::clear`: removes every index.
#[verifier::external_body]
pub(crate) fn bitset_clear(s: &mut bit_set::BitSet)
    ensures
        bit_members(*final(s)) == Set::<usize>::empty(),
{
    s.clear()
}

/// `BitSet::clone`: a set with the same indices.
#[verifier::external_body]
pub(crate) fn bitset_clone(s: &bit_set::BitSet) -> (r: bit_set::BitSet)
    ensures
        bit_members(r) == bit_members(*s),
{
    s.clone()
}

/// `BitSet::difference_with`: removes every index of `other`.
#[verifier::external_body]
pub(crate) fn bitset_difference_with(s: &mut bit_set::BitSet, other: &bit_set::BitSet)
    ensures
        bit_members(*final(s)) == bit_members(*old(s)).difference(bit_members(*other)),
{
    s.difference_with(other)
}

/// `BitSet::is_subset`.
#[verifier::external_body]
pub(crate) fn bitset_is_subset(s: &bit_set::BitSet, other: &bit_set::BitSet) -> (r: bool)
    ensures
        r == bit_members(*s).subset_of(bit_members(*other)),
{
    s.is_subset(other)
}

/// `BitSet::iter`, collected: the indices of the set in strictly increasing
/// order (the iterator walks the blocks from the lowest bit up).
#[verifier::external_body]
pub(crate) fn bitset_to_vec(s: &bit_set::BitSet) -> (r: Vec<usize>)
    ensures
        r@.to_set() == bit_members(*s),
        forall|i: int, j: int| 0 <= i < j < r@.len() ==> r@[i] < r@[j],
{
    s.iter().collect()
}

} // verus!

verus! {

/// The elements of a sequence belong to its set, and each member of the set
/// occurs in it.
pub proof fn lemma_seq_to_set<A>(s: Seq<A>)
    ensures
        forall|j: int| 0 <= j < s.len() ==> #[trigger] s.to_set().contains(s[j]),
        forall|x: A| #[trigger] s.to_set().contains(x) ==> exists|j: int| 0 <= j < s.len() && s[j] == x,
{
    assert forall|j: int| 0 <= j < s.len() implies #[trigger] s.to_set().contains(s[j]) by {
        assert(s.contains(s[j]));
    }
}

} // verus!

verus! {

/// Growing a prefix by one element adds exactly that element.
pub proof fn lemma_take_contains<A>(s: Seq<A>, k: int, x: A)
    requires
        0 <= k < s.len(),
    ensures
        s.take(k + 1).contains(x) <==> (s.take(k).contains(x) || s[k] == x),
{
    if s.take(k + 1).contains(x) {
        let j = choose|j: int| 0 <= j < k + 1 && #[trigger] s.take(k + 1)[j] == x;
        if j < k {
            assert(s.take(k)[j] == x);
        }
    }
    if s.take(k).contains(x) {
        let j = choose|j: int| 0 <= j < k && #[trigger] s.take(k)[j] == x;
        assert(s.take(k + 1)[j] == x);
    }
    if s[k] == x {
        assert(s.take(k + 1)[k] == x);
    }
}

} // verus!

verus! {

/// A set of indices below `n` is finite and has at most `n` members; a
/// strictly larger such set has more members.
pub proof fn lemma_bounded_set_len(a: Set<usize>, b: Set<usize>, n: usize)
    requires
        a.subset_of(b),
        forall|x: usize| #[trigger] b.contains(x) ==> x < n,
    ensures
        a.finite(),
        b.finite(),
        a.len() <= b.len(),
        b.len() <= n,
        (exists|x: usize| b.contains(x) && !a.contains(x)) ==> a.len() < b.len(),
{
    let r = Set::<usize>::new(|i: usize| 0 <= i < n);
    <usize as vstd::set_lib::FiniteRange>::range_properties(0, n);
    assert(r == <usize as vstd::set_lib::FiniteRange>::range_set(0, n));
    vstd::set_lib::lemma_len_subset(b, r);
    vstd::set_lib::lemma_len_subset(a, b);
    if exists|x: usize| b.contains(x) && !a.contains(x) {
        let x = choose|x: usize| b.contains(x) && !a.contains(x);
        vstd::set_lib::lemma_len_subset(a, b.remove(x));
    }
}

} // verus!

verus! {

/// The members of `s` below `k`, in increasing order.
pub open spec fn sorted_below(s: Set<usize>, k: nat) -> Seq<usize>
    decreases k,
{
    if k == 0 {
        Seq::empty()
    } else {
        let rest = sorted_below(s, (k - 1) as nat);
        if s.contains((k - 1) as usize) {
            rest.push((k - 1) as usize)
        } else {
            rest
        }
    }
}

/// `sorted_below` holds exactly the members below `k`, in strictly increasing
/// order.
pub proof fn lemma_sorted_below(s: Set<usize>, k: nat)
    requires
        k <= usize::MAX,
    ensures
        forall|i: int, j: int|
            0 <= i < j < sorted_below(s, k).len() ==> sorted_below(s, k)[i] < sorted_below(s, k)[j],
        forall|i: int| 0 <= i < sorted_below(s, k).len() ==> #[trigger] sorted_below(s, k)[i] < k,
        forall|x: usize|
            #[trigger] sorted_below(s, k).contains(x) <==> (x < k && s.contains(x)),
    decreases k,
{
    if k > 0 {
        let k1 = (k - 1) as nat;
        lemma_sorted_below(s, k1);
        let rest = sorted_below(s, k1);
        if s.contains(k1 as usize) {
            let r = rest.push(k1 as usize);
            assert forall|x: usize| #[trigger] r.contains(x) <==> (x < k && s.contains(x)) by {
                if r.contains(x) {
                    let j = choose|j: int| 0 <= j < r.len() && r[j] == x;
                    if j < rest.len() {
                        assert(rest[j] == x);
                        assert(rest.contains(x));
                    }
                }
                if x < k && s.contains(x) {
                    if x == k1 {
                        assert(r[r.len() - 1] == x);
                    } else {
                        assert(rest.contains(x));
                        let j = choose|j: int| 0 <= j < rest.len() && rest[j] == x;
                        assert(r[j] == x);
                    }
                }
            }
        }
    }
}

/// A strictly increasing sequence is the increasing listing of its members.
pub proof fn lemma_sorted_unique(l: Seq<usize>, s: Set<usize>, k: nat)
    requires
        k <= usize::MAX,
        forall|i: int, j: int| 0 <= i < j < l.len() ==> l[i] < l[j],
        l.to_set() == s,
        forall|x: usize| #[trigger] s.contains(x) ==> x < k,
    ensures
        l == sorted_below(s, k),
    decreases k,
{
    lemma_seq_to_set(l);
    lemma_sorted_below(s, k);
    if k == 0 {
        if l.len() > 0 {
            assert(s.contains(l[0]));
        }
        assert(l =~= Seq::<usize>::empty());
    } else {
        let k1 = (k - 1) as nat;
        if s.contains(k1 as usize) {
            // the last element is the largest member, k - 1
            assert(l.len() > 0) by {
                assert(exists|j: int| 0 <= j < l.len() && l[j] == k1 as usize);
            }
            let m = l[l.len() - 1];
            assert(m == k1 as usize) by {
                let j = choose|j: int| 0 <= j < l.len() && l[j] == k1 as usize;
                if j < l.len() - 1 {
                    assert(l[j] < l[l.len() - 1]);
                }
                assert(s.contains(m));
            }
            let l1 = l.drop_last();
            let s1 = s.remove(k1 as usize);
            assert(l1.to_set() =~= s1) by {
                lemma_seq_to_set(l1);
                assert forall|x: usize| l1.to_set().contains(x) <==> s1.contains(x) by {
                    if l1.to_set().contains(x) {
                        let j = choose|j: int| 0 <= j < l1.len() && l1[j] == x;
                        assert(l[j] == x);
                        assert(l[j] < l[l.len() - 1]);
                    }
                    if s1.contains(x) {
                        let j = choose|j: int| 0 <= j < l.len() && l[j] == x;
                        assert(j != l.len() - 1);
                        assert(l1[j] == x);
                    }
                }
            }
            lemma_sorted_unique(l1, s1, k1);
            lemma_sorted_below_agree(s, s1, k1);
            assert(l =~= l1.push(m));
        } else {
            lemma_sorted_unique(l, s, k1);
        }
    }
}

/// `sorted_below` only looks at members below `k`.
pub proof fn lemma_sorted_below_agree(s: Set<usize>, t: Set<usize>, k: nat)
    requires
        forall|x: usize| x < k ==> (s.contains(x) <==> t.contains(x)),
    ensures
        sorted_below(s, k) == sorted_below(t, k),
    decreases k,
{
    if k > 0 {
        lemma_sorted_below_agree(s, t, (k - 1) as nat);
    }
}

} // verus!
