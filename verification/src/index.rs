use vstd::prelude::*;
use std::marker::PhantomData;
use bit_set::BitSet;

verus! {

/// A type-safe node index.
#[derive(Debug, Copy, Clone, PartialEq, Eq, Hash, Structural)]
pub struct NodeIndex(pub usize);

/// A type-safe edge index.
#[derive(Debug, Copy, Clone, PartialEq, Eq, Hash, Structural)]
pub struct EdgeIndex(pub usize);

impl From<usize> for NodeIndex {
    fn from(index: usize) -> (r: NodeIndex)
        ensures
            r.0 == index,
    {
        NodeIndex(index)
    }
}

impl vstd::std_specs::convert::FromSpecImpl<usize> for NodeIndex {
    open spec fn obeys_from_spec() -> bool {
        true
    }

    open spec fn from_spec(v: usize) -> NodeIndex {
        NodeIndex(v)
    }
}

impl From<usize> for EdgeIndex {
    fn from(index: usize) -> (r: EdgeIndex)
        ensures
            r.0 == index,
    {
        EdgeIndex(index)
    }
}

impl vstd::std_specs::convert::FromSpecImpl<usize> for EdgeIndex {
    open spec fn obeys_from_spec() -> bool {
        true
    }

    open spec fn from_spec(v: usize) -> EdgeIndex {
        EdgeIndex(v)
    }
}

/// Conversion between a type-safe index and its raw position.
pub trait Index: Sized + Copy {
    spec fn spec_to_usize(self) -> usize;

    spec fn spec_from_usize(i: usize) -> Self;

    fn to_usize(self) -> (r: usize)
        ensures
            r == self.spec_to_usize(),
    ;

    fn from_usize(i: usize) -> (r: Self)
        ensures
            r == Self::spec_from_usize(i),
    ;

    proof fn lemma_round_trip(i: usize)
        ensures
            Self::spec_from_usize(i).spec_to_usize() == i,
    ;

    proof fn lemma_injective(a: Self, b: Self)
        ensures
            a.spec_to_usize() == b.spec_to_usize() ==> a == b,
    ;
}

impl Index for usize {
    open spec fn spec_to_usize(self) -> usize {
        self
    }

    open spec fn spec_from_usize(i: usize) -> usize {
        i
    }

    fn to_usize(self) -> (r: usize) {
        self
    }

    fn from_usize(i: usize) -> (r: usize) {
        i
    }

    proof fn lemma_round_trip(i: usize) {
    }

    proof fn lemma_injective(a: usize, b: usize) {
    }
}

impl Index for NodeIndex {
    open spec fn spec_to_usize(self) -> usize {
        self.0
    }

    open spec fn spec_from_usize(i: usize) -> NodeIndex {
        NodeIndex(i)
    }

    fn to_usize(self) -> (r: usize) {
        self.0
    }

    fn from_usize(i: usize) -> (r: NodeIndex) {
        NodeIndex(i)
    }

    proof fn lemma_round_trip(i: usize) {
    }

    proof fn lemma_injective(a: NodeIndex, b: NodeIndex) {
    }
}

impl Index for EdgeIndex {
    open spec fn spec_to_usize(self) -> usize {
        self.0
    }

    open spec fn spec_from_usize(i: usize) -> EdgeIndex {
        EdgeIndex(i)
    }

    fn to_usize(self) -> (r: usize) {
        self.0
    }

    fn from_usize(i: usize) -> (r: EdgeIndex) {
        EdgeIndex(i)
    }

    proof fn lemma_round_trip(i: usize) {
    }

    proof fn lemma_injective(a: EdgeIndex, b: EdgeIndex) {
    }
}

/// The bit set of the `bit-set` crate, used to store sets of indices.
#[verifier::external_type_specification]
#[verifier::external_body]
#[verifier::reject_recursive_types(B)]
pub struct ExBitSet<B>(bit_set::BitSet<B>);

/// The set of positions whose bits are set in a `bit_set::BitSet`.
pub uninterp spec fn bit_set_contents(s: BitSet) -> Set<usize>;

/// Calls `bit_set::BitSet::new`: the new set holds no position.
#[verifier::external_body]
fn bit_set_new() -> (r: BitSet)
    ensures
        bit_set_contents(r) == Set::<usize>::empty(),
{
    BitSet::new()
}

/// Calls `bit_set::BitSet::contains`: whether the position is in the set.
#[verifier::external_body]
fn bit_set_contains(s: &BitSet, value: usize) -> (r: bool)
    ensures
        r == bit_set_contents(*s).contains(value),
{
    s.contains(value)
}

/// Calls `bit_set::BitSet::insert`: adds the position and returns whether it
/// was absent before. The set grows to `value + 1` bits, so `value` must be
/// below `usize::MAX`.
#[verifier::external_body]
fn bit_set_insert(s: &mut BitSet, value: usize) -> (r: bool)
    requires
        value < usize::MAX,
    ensures
        bit_set_contents(*final(s)) == bit_set_contents(*old(s)).insert(value),
        r == !bit_set_contents(*old(s)).contains(value),
{
    s.insert(value)
}

/// Calls `bit_set::BitSet::remove`: removes the position and returns whether
/// it was present before.
#[verifier::external_body]
fn bit_set_remove(s: &mut BitSet, value: usize) -> (r: bool)
    ensures
        bit_set_contents(*final(s)) == bit_set_contents(*old(s)).remove(value),
        r == bit_set_contents(*old(s)).contains(value),
{
    s.remove(value)
}

/// Calls `bit_set::BitSet::clear`: the set holds no position afterwards.
#[verifier::external_body]
fn bit_set_clear(s: &mut BitSet)
    ensures
        bit_set_contents(*final(s)) == Set::<usize>::empty(),
{
    s.clear()
}

/// Calls `bit_set::BitSet::iter` and collects the positions. The iterator
/// walks the blocks in order and each block from its lowest bit, so the
/// positions come out strictly increasing, each one of the set exactly once.
#[verifier::external_body]
fn bit_set_positions(s: &BitSet) -> (r: Vec<usize>)
    ensures
        forall|i: int, j: int| 0 <= i < j < r@.len() ==> r@[i] < r@[j],
        forall|x: usize| r@.contains(x) <==> bit_set_contents(*s).contains(x),
{
    s.iter().collect()
}

/// Calls `bit_set::BitSet::with_capacity`: an empty set with room for
/// `nbits` positions.
#[verifier::external_body]
fn bit_set_with_capacity(nbits: usize) -> (r: BitSet)
    ensures
        bit_set_contents(r) == Set::<usize>::empty(),
{
    BitSet::with_capacity(nbits)
}

/// Calls `bit_set::BitSet::capacity`: the number of bits the storage holds,
/// which depends on what the allocator gave; it is always above every
/// position in the set.
#[verifier::external_body]
fn bit_set_capacity(s: &BitSet) -> (r: usize)
    ensures
        forall|x: usize| bit_set_contents(*s).contains(x) ==> x < r,
{
    s.capacity()
}

/// Calls `bit_set::BitSet::reserve_len`: only the allocation changes, the
/// positions in the set stay the same.
#[verifier::external_body]
fn bit_set_reserve_len(s: &mut BitSet, len: usize)
    ensures
        bit_set_contents(*final(s)) == bit_set_contents(*old(s)),
{
    s.reserve_len(len)
}

/// Calls `bit_set::BitSet::reserve_len_exact`: only the allocation changes,
/// the positions in the set stay the same.
#[verifier::external_body]
fn bit_set_reserve_len_exact(s: &mut BitSet, len: usize)
    ensures
        bit_set_contents(*final(s)) == bit_set_contents(*old(s)),
{
    s.reserve_len_exact(len)
}

/// Calls `bit_set::BitSet::shrink_to_fit`: it drops trailing blocks that
/// hold no position, so the positions in the set stay the same.
#[verifier::external_body]
fn bit_set_shrink_to_fit(s: &mut BitSet)
    ensures
        bit_set_contents(*final(s)) == bit_set_contents(*old(s)),
{
    s.shrink_to_fit()
}

/// Calls `bit_set::BitSet::len`: the number of positions in the set.
#[verifier::external_body]
fn bit_set_len(s: &BitSet) -> (r: usize)
    ensures
        r == bit_set_contents(*s).len(),
{
    s.len()
}

/// Calls `bit_set::BitSet::is_empty`: whether no position is in the set.
#[verifier::external_body]
fn bit_set_is_empty(s: &BitSet) -> (r: bool)
    ensures
        r == (bit_set_contents(*s) == Set::<usize>::empty()),
{
    s.is_empty()
}

/// Calls `bit_set::BitSet::is_disjoint`: whether the two sets share no
/// position.
#[verifier::external_body]
fn bit_set_is_disjoint(a: &BitSet, b: &BitSet) -> (r: bool)
    ensures
        r == bit_set_contents(*a).disjoint(bit_set_contents(*b)),
{
    a.is_disjoint(b)
}

/// Calls `bit_set::BitSet::is_subset`: whether every position of `a` is in
/// `b`.
#[verifier::external_body]
fn bit_set_is_subset(a: &BitSet, b: &BitSet) -> (r: bool)
    ensures
        r == bit_set_contents(*a).subset_of(bit_set_contents(*b)),
{
    a.is_subset(b)
}

/// Calls `bit_set::BitSet::is_superset`: whether every position of `b` is
/// in `a`.
#[verifier::external_body]
fn bit_set_is_superset(a: &BitSet, b: &BitSet) -> (r: bool)
    ensures
        r == bit_set_contents(*b).subset_of(bit_set_contents(*a)),
{
    a.is_superset(b)
}

/// A set of indices stored as a bitset.
pub struct IndexSet<T> {
    set: BitSet,
    phantom: PhantomData<T>,
}

impl<T: Index> IndexSet<T> {
    /// The raw positions of the indices in the set.
    pub closed spec fn positions(&self) -> Set<usize> {
        bit_set_contents(self.set)
    }
}

impl<T: Index> View for IndexSet<T> {
    type V = Set<usize>;

    /// The set of raw index positions.
    open spec fn view(&self) -> Set<usize> {
        self.positions()
    }
}

impl<T: Index> IndexSet<T> {

    /// Whether the set holds the given index.
    pub open spec fn has(&self, value: T) -> bool {
        self.view().contains(value.spec_to_usize())
    }

    /// Creates an empty set.
    pub fn new() -> (r: Self)
        ensures
            r.view() == Set::<usize>::empty(),
    {
        IndexSet { set: bit_set_new(), phantom: PhantomData }
    }

    /// Returns `true` if the set holds `value`.
    pub fn contains(&self, value: &T) -> (r: bool)
        ensures
            r == self.has(*value),
    {
        bit_set_contains(&self.set, value.to_usize())
    }

    /// Adds `value`. Returns `true` if it was not in the set before.
    pub fn insert(&mut self, value: T) -> (r: bool)
        requires
            value.spec_to_usize() < usize::MAX,
        ensures
            final(self).view() == old(self).view().insert(value.spec_to_usize()),
            r == !old(self).has(value),
    {
        bit_set_insert(&mut self.set, value.to_usize())
    }

    /// Removes `value`. Returns `true` if it was in the set before.
    pub fn remove(&mut self, value: &T) -> (r: bool)
        ensures
            final(self).view() == old(self).view().remove(value.spec_to_usize()),
            r == old(self).has(*value),
    {
        bit_set_remove(&mut self.set, value.to_usize())
    }

    /// Removes every index.
    pub fn clear(&mut self)
        ensures
            final(self).view() == Set::<usize>::empty(),
    {
        bit_set_clear(&mut self.set)
    }

    /// The indices of the set, in increasing order.
    pub fn iter(&self) -> (r: Vec<T>)
        ensures
            self.view().finite(),
            r@.len() == self.view().len(),
            forall|i: int, j: int|
                0 <= i < j < r@.len() ==> r@[i].spec_to_usize() < r@[j].spec_to_usize(),
            forall|i: int| 0 <= i < r@.len() ==> self.has(#[trigger] r@[i]),
            forall|x: usize| self.view().contains(x) ==> r@.contains(T::spec_from_usize(x)),
    {
        let positions = bit_set_positions(&self.set);
        let mut out: Vec<T> = Vec::new();
        let mut k: usize = 0;
        while k < positions.len()
            invariant
                0 <= k <= positions@.len(),
                out@.len() == k,
                forall|i: int| 0 <= i < k ==> #[trigger] out@[i] == T::spec_from_usize(positions@[i]),
                forall|i: int| 0 <= i < k ==> out@[i].spec_to_usize() == positions@[i],
            decreases positions@.len() - k,
        {
            let t = T::from_usize(positions[k]);
            proof {
                T::lemma_round_trip(positions@[k as int]);
            }
            out.push(t);
            k = k + 1;
        }
        proof {
            assert forall|x: usize| self.view().contains(x) implies out@.contains(T::spec_from_usize(x)) by {
                assert(positions@.contains(x));
                let i = choose|i: int| 0 <= i < positions@.len() && positions@[i] == x;
                assert(out@[i] == T::spec_from_usize(x));
            }
            assert forall|i: int| 0 <= i < out@.len() implies self.has(#[trigger] out@[i]) by {
                assert(positions@.contains(positions@[i]));
            }
            lemma_sorted_len(positions@, self.view());
        }
        out
    }

    /// The number of indices in the set.
    pub fn len(&self) -> (r: usize)
        ensures
            r == self.view().len(),
    {
        bit_set_len(&self.set)
    }

    /// Returns `true` if the set holds no index.
    pub fn is_empty(&self) -> (r: bool)
        ensures
            r == (self.view() == Set::<usize>::empty()),
    {
        bit_set_is_empty(&self.set)
    }

    /// Creates an empty set with room for indices below `nbits`.
    pub fn with_capacity(nbits: usize) -> (r: Self)
        ensures
            r.view() == Set::<usize>::empty(),
    {
        IndexSet { set: bit_set_with_capacity(nbits), phantom: PhantomData }
    }

    /// The number of indices the set can hold without growing.
    pub fn capacity(&self) -> (r: usize)
        ensures
            forall|x: usize| self.view().contains(x) ==> x < r,
    {
        bit_set_capacity(&self.set)
    }

    /// Makes room for indices below `len`; the contents stay the same.
    pub fn reserve_len(&mut self, len: usize)
        ensures
            final(self).view() == old(self).view(),
    {
        bit_set_reserve_len(&mut self.set, len)
    }

    /// Makes room for exactly the indices below `len`; the contents stay the
    /// same.
    pub fn reserve_len_exact(&mut self, len: usize)
        ensures
            final(self).view() == old(self).view(),
    {
        bit_set_reserve_len_exact(&mut self.set, len)
    }

    /// Frees unused room; the contents stay the same.
    pub fn shrink_to_fit(&mut self)
        ensures
            final(self).view() == old(self).view(),
    {
        bit_set_shrink_to_fit(&mut self.set)
    }

    /// Returns `true` if the two sets have no index in common.
    pub fn is_disjoint(&self, other: &Self) -> (r: bool)
        ensures
            r == self.view().disjoint(other.view()),
    {
        bit_set_is_disjoint(&self.set, &other.set)
    }

    /// Returns `true` if every index of this set is in `other`.
    pub fn is_subset(&self, other: &Self) -> (r: bool)
        ensures
            r == self.view().subset_of(other.view()),
    {
        bit_set_is_subset(&self.set, &other.set)
    }

    /// Returns `true` if every index of `other` is in this set.
    pub fn is_superset(&self, other: &Self) -> (r: bool)
        ensures
            r == other.view().subset_of(self.view()),
    {
        bit_set_is_superset(&self.set, &other.set)
    }
}

impl<T: Index> Default for IndexSet<T> {
    /// Creates an empty set.
    fn default() -> (r: Self)
        ensures
            r.view() == Set::<usize>::empty(),
    {
        IndexSet::new()
    }
}

/// A strictly increasing sequence that holds exactly the elements of a set
/// has the set's size, and the set is finite.
proof fn lemma_sorted_len(s: Seq<usize>, set: Set<usize>)
    requires
        forall|i: int, j: int| 0 <= i < j < s.len() ==> s[i] < s[j],
        forall|x: usize| s.contains(x) <==> set.contains(x),
    ensures
        set.finite(),
        set.len() == s.len(),
{
    assert(s.no_duplicates()) by {
        assert forall|i: int, j: int| 0 <= i < s.len() && 0 <= j < s.len() && i != j implies s[i] != s[j] by {
            if i < j {
            } else {
            }
        }
    }
    assert(s.to_set() =~= set);
    s.unique_seq_to_set();
}

} // verus!
