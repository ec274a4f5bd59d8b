//! Order-insensitive vectors: equal as multisets of their elements, with
//! an order-independent cached hash so they can key hash tables.

use vstd::prelude::*;

use vstd::seq_lib::group_to_multiset_ensures;
use vstd::multiset::group_multiset_axioms;
use core::hash::Hasher;
use vstd::std_specs::cmp::PartialEqSpec;
use vstd::std_specs::cmp::PartialEqSpecImpl;

verus! {

/// A hash function from values to one 64-bit word, supplied by the user.
pub trait HasherU64<T> {
    fn hash(&self, value: &T) -> u64;
}

#[derive(Clone, Eq, Debug)]
pub struct DefaultHasherU64;

impl PartialEq for DefaultHasherU64 {
    fn eq(&self, other: &Self) -> (r: bool) {
        true
    }
}

impl PartialEqSpecImpl for DefaultHasherU64 {
    open spec fn obeys_eq_spec() -> bool {
        true
    }

    open spec fn eq_spec(&self, other: &Self) -> bool {
        true
    }
}

impl DefaultHasherU64 {
    pub fn new() -> (r: Self) {
        DefaultHasherU64
    }
}

/// Relies on std's `Hash::hash`: it feeds value-derived bytes to the
/// hasher; nothing further is promised for an arbitrary type.
#[verifier::external_body]
fn hash_into<T: core::hash::Hash>(
    value: &T,
    state: &mut std::collections::hash_map::DefaultHasher,
)
    ensures
        exists|bs: Seq<Seq<u8>>| final(state)@ == old(state)@ + bs,
{
    value.hash(state)
}

impl<T: core::hash::Hash> HasherU64<T> for DefaultHasherU64 {
    fn hash(&self, value: &T) -> u64 {
        let mut hasher = std::collections::hash_map::DefaultHasher::new();
        hash_into(value, &mut hasher);
        hasher.finish()
    }
}

/// Whether `T`'s executable equality is known to mean value equality.
pub open spec fn eq_reflects<T: PartialEq>() -> bool {
    &&& T::obeys_eq_spec()
    &&& forall|x: T, y: T| #[trigger] x.eq_spec(&y) <==> x == y
}

/// The elements of `b` at the given indices.
pub open spec fn values_at<T>(b: Seq<T>, idxs: Seq<usize>) -> Seq<T> {
    Seq::new(idxs.len(), |i: int| b[idxs[i] as int])
}

/// Whether two slices hold the same elements with the same
/// multiplicities, in any order. Each element of `a` greedily claims one
/// still-unclaimed matching element of `b`.
pub fn unordered_eq<T: PartialEq>(unordered_a: &[T], unordered_b: &[T]) -> (r: bool)
    ensures
        eq_reflects::<T>() ==> r == (unordered_a@.to_multiset() == unordered_b@.to_multiset()),
{
    broadcast use group_to_multiset_ensures;
    broadcast use group_multiset_axioms;

    let len_a = unordered_a.len();
    if len_a != unordered_b.len() {
        proof {
            if eq_reflects::<T>() {
                assert(unordered_a@.to_multiset().len() == unordered_a@.len());
                assert(unordered_b@.to_multiset().len() == unordered_b@.len());
            }
        }
        return false;
    }

    let mut unmatched_indices_b: Vec<usize> = Vec::new();
    let mut f: usize = 0;
    while f < len_a
        invariant
            f <= len_a,
            unmatched_indices_b@.len() == f,
            forall|j: int| 0 <= j < f ==> #[trigger] unmatched_indices_b@[j] == j,
        decreases len_a - f,
    {
        unmatched_indices_b.push(f);
        f = f + 1;
    }
    proof {
        assert(values_at(unordered_b@, unmatched_indices_b@) =~= unordered_b@);
        if eq_reflects::<T>() {
            assert(unordered_a@.subrange(0, 0) =~= Seq::<T>::empty());
            assert(Seq::<T>::empty().to_multiset().add(unordered_b@.to_multiset())
                =~= unordered_b@.to_multiset());
        }
    }

    let mut i: usize = 0;
    while i < len_a
        invariant
            i <= len_a,
            len_a == unordered_a@.len(),
            len_a == unordered_b@.len(),
            unmatched_indices_b@.len() == len_a - i,
            forall|j: int|
                0 <= j < unmatched_indices_b@.len() ==> (#[trigger] unmatched_indices_b@[j])
                    < unordered_b@.len(),
            eq_reflects::<T>() ==> unordered_a@.subrange(0, i as int).to_multiset().add(
                values_at(unordered_b@, unmatched_indices_b@).to_multiset(),
            ) == unordered_b@.to_multiset(),
        decreases len_a - i,
    {
        broadcast use group_to_multiset_ensures;
        broadcast use group_multiset_axioms;

        let ghost iv = values_at(unordered_b@, unmatched_indices_b@);
        let mut matched = false;
        let mut k: usize = 0;
        while k < unmatched_indices_b.len()
            invariant_except_break
                !matched,
                iv == values_at(unordered_b@, unmatched_indices_b@),
                eq_reflects::<T>() ==> forall|j: int|
                    0 <= j < k ==> unordered_b@[(#[trigger] unmatched_indices_b@[j]) as int]
                        != unordered_a@[i as int],
            invariant
                i < len_a,
                len_a == unordered_a@.len(),
                len_a == unordered_b@.len(),
                k <= unmatched_indices_b@.len(),
                forall|j: int|
                    0 <= j < unmatched_indices_b@.len() ==> (#[trigger] unmatched_indices_b@[j])
                        < unordered_b@.len(),
            ensures
                len_a == unordered_a@.len(),
                len_a == unordered_b@.len(),
                forall|j: int|
                    0 <= j < unmatched_indices_b@.len() ==> (#[trigger] unmatched_indices_b@[j])
                        < unordered_b@.len(),
                matched ==> unmatched_indices_b@.len() == iv.len() - 1,
                matched ==> eq_reflects::<T>() ==> exists|k2: int|
                    0 <= k2 < iv.len() && values_at(unordered_b@, unmatched_indices_b@)
                        =~= iv.update(k2, iv.last()).drop_last() && iv[k2]
                        == unordered_a@[i as int],
                !matched ==> unmatched_indices_b@.len() == iv.len() && values_at(
                    unordered_b@,
                    unmatched_indices_b@,
                ) == iv && (eq_reflects::<T>() ==> forall|j: int|
                    0 <= j < iv.len() ==> unordered_b@[(#[trigger] unmatched_indices_b@[j]) as int]
                        != unordered_a@[i as int]),
            decreases unmatched_indices_b@.len() - k,
        {
            let bi = unmatched_indices_b[k];
            let same = PartialEq::eq(&unordered_a[i], &unordered_b[bi]);
            if same {
                proof {
                    if eq_reflects::<T>() {
                        assert(unordered_a@[i as int].eq_spec(&unordered_b@[bi as int]));
                    }
                }
                let ghost pre = unmatched_indices_b@;
                unmatched_indices_b.swap_remove(k);
                matched = true;
                proof {
                    if eq_reflects::<T>() {
                        assert(iv[k as int] == unordered_b@[pre[k as int] as int]);
                        assert(values_at(unordered_b@, unmatched_indices_b@) =~= iv.update(
                            k as int,
                            iv.last(),
                        ).drop_last());
                        assert(exists|k2: int|
                            0 <= k2 < iv.len() && values_at(unordered_b@, unmatched_indices_b@)
                                =~= iv.update(k2, iv.last()).drop_last() && iv[k2]
                                == unordered_a@[i as int]);
                    }
                }
                break;
            }
            proof {
                if eq_reflects::<T>() {
                    assert(!(unordered_a@[i as int].eq_spec(&unordered_b@[bi as int])));
                }
            }
            k = k + 1;
        }
        proof {
            if !matched && eq_reflects::<T>() {
                assert forall|j: int| 0 <= j < iv.len() implies #[trigger] iv[j]
                    != unordered_a@[i as int] by {
                    assert(iv[j] == unordered_b@[unmatched_indices_b@[j] as int]);
                    assert(unordered_b@[unmatched_indices_b@[j] as int]
                        != unordered_a@[i as int]);
                }
            }
        }
        if !matched {
            proof {
                if eq_reflects::<T>() {
                    let item = unordered_a@[i as int];
                    let prefix = unordered_a@.subrange(0, i as int);
                    let prefix1 = unordered_a@.subrange(0, i + 1);
                    // The item is absent from the unmatched remainder, so
                    // its count in `b` is already exhausted by the prefix,
                    // while `a` still holds one more.
                    assert(iv.to_multiset().count(item) == 0) by {
                        if iv.to_multiset().count(item) > 0 {
                            assert(iv.contains(item));
                        }
                    }
                    assert(unordered_b@.to_multiset().count(item) == prefix.to_multiset().count(
                        item,
                    ));
                    assert(prefix1 =~= prefix.push(item));
                    assert(prefix1.to_multiset() =~= prefix.to_multiset().insert(item));
                    assert(prefix1.to_multiset().count(item) == prefix.to_multiset().count(item)
                        + 1);
                    assert(unordered_a@ =~= prefix1 + unordered_a@.subrange(
                        i + 1,
                        len_a as int,
                    ));
                    vstd::seq_lib::lemma_multiset_commutative(
                        prefix1,
                        unordered_a@.subrange(i + 1, len_a as int),
                    );
                    assert(unordered_a@.to_multiset().count(item) >= prefix1.to_multiset().count(
                        item,
                    ));
                    assert(unordered_a@.to_multiset().count(item)
                        > unordered_b@.to_multiset().count(item));
                }
            }
            return false;
        }
        proof {
            if eq_reflects::<T>() {
                let item = unordered_a@[i as int];
                let k2 = choose|k2: int|
                    0 <= k2 < iv.len() && values_at(unordered_b@, unmatched_indices_b@)
                        =~= iv.update(k2, iv.last()).drop_last() && iv[k2] == item;
                let iv2 = values_at(unordered_b@, unmatched_indices_b@);
                let upd = iv.update(k2, iv.last());
                assert(upd.to_multiset() =~= iv.to_multiset().remove(iv[k2]).insert(iv.last()));
                assert(upd.drop_last() =~= upd.remove(upd.len() - 1));
                assert(upd[upd.len() - 1] == iv.last());
                assert(upd.remove(upd.len() - 1).to_multiset() =~= upd.to_multiset().remove(
                    iv.last(),
                ));
                assert(iv2.to_multiset() =~= iv.to_multiset().remove(item)) by {
                    assert(iv2.to_multiset() =~= iv.to_multiset().remove(iv[k2]).insert(
                        iv.last(),
                    ).remove(iv.last()));
                    assert(iv.to_multiset().remove(iv[k2]).insert(iv.last()).remove(iv.last())
                        =~= iv.to_multiset().remove(iv[k2]));
                }
                let prefix = unordered_a@.subrange(0, i as int);
                let prefix1 = unordered_a@.subrange(0, i + 1);
                assert(prefix1 =~= prefix.push(item));
                assert(prefix1.to_multiset() =~= prefix.to_multiset().insert(item));
                assert(iv.contains(item)) by {
                    assert(iv[k2] == item);
                }
                assert(iv.to_multiset().count(item) > 0);
                assert(prefix1.to_multiset().add(iv2.to_multiset())
                    =~= unordered_b@.to_multiset());
            }
        }
        i = i + 1;
    }
    proof {
        if eq_reflects::<T>() {
            assert(unordered_a@.subrange(0, len_a as int) =~= unordered_a@);
            let iv = values_at(unordered_b@, unmatched_indices_b@);
            assert(iv.len() == 0);
            assert(iv =~= Seq::<T>::empty());
            assert(unordered_a@.to_multiset().add(Seq::<T>::empty().to_multiset())
                =~= unordered_a@.to_multiset());
        }
    }
    true
}

/// A vector compared without regard to element order, caching an
/// order-independent hash of its elements.
///
/// The cached word is an XOR-combine over the elements' hashes, so by
/// construction it cannot depend on element order. The contracts do not
/// state this: the default element hasher goes through std's `Hash`,
/// which promises nothing for an arbitrary type and gets no name here, so
/// two hashing runs are not provably related; that two permutations of
/// the same elements carry equal cached hashes is checked by test, not
/// by proof.
#[derive(Clone, Eq, Debug)]
pub struct UnorderedVec<T, S = DefaultHasherU64> {
    components: Vec<T>,
    hash: u64,
    hasher_u64: S,
}

impl<T, S> View for UnorderedVec<T, S> {
    type V = Seq<T>;

    closed spec fn view(&self) -> Seq<T> {
        self.components@
    }
}

impl<T, S> UnorderedVec<T, S> {
    /// The cached order-independent hash value.
    pub closed spec fn spec_hash(&self) -> u64 {
        self.hash
    }

    /// The hasher the elements were hashed with.
    pub closed spec fn spec_hasher(&self) -> &S {
        &self.hasher_u64
    }

    /// The cached order-independent hash.
    pub fn cached_hash(&self) -> (r: u64)
        ensures
            r == self.spec_hash(),
    {
        self.hash
    }

    /// The elements, in their stored order.
    pub fn components(&self) -> (r: &Vec<T>)
        ensures
            r@ == self@,
    {
        &self.components
    }
}

/// Folds one element hash into an order-independent accumulator: XOR of
/// a mixed form of each element's hash, so element order cannot matter.
fn mix_hash(acc: u64, component_hash: u64) -> u64 {
    acc ^ (component_hash ^ (component_hash << 16u64) ^ 89869747u64).wrapping_mul(3644798167u64)
}

impl<T: core::hash::Hash> UnorderedVec<T, DefaultHasherU64> {
    pub fn new(components: Vec<T>) -> (r: Self)
        ensures
            r@ == components@,
    {
        let mut hash: u64 = 0;
        let hasher_u64 = DefaultHasherU64::new();
        let mut k: usize = 0;
        while k < components.len()
            decreases components@.len() - k,
        {
            let component_hash = HasherU64::hash(&hasher_u64, &components[k]);
            hash = mix_hash(hash, component_hash);
            k = k + 1;
        }
        UnorderedVec { components, hash, hasher_u64 }
    }
}

impl<T, S: HasherU64<T>> UnorderedVec<T, S> {
    pub fn with_hasher(components: Vec<T>, hasher_u64: S) -> (r: Self)
        ensures
            r@ == components@,
    {
        let mut hash: u64 = 0;
        let mut k: usize = 0;
        while k < components.len()
            decreases components@.len() - k,
        {
            let component_hash = HasherU64::hash(&hasher_u64, &components[k]);
            hash = mix_hash(hash, component_hash);
            k = k + 1;
        }
        UnorderedVec { components, hash, hasher_u64 }
    }
}

impl<T: PartialEq, S: PartialEq> PartialEq for UnorderedVec<T, S> {
    /// Equal exactly when the cached hashes, the hashers and the element
    /// multisets agree; the hash check makes the common unequal case
    /// cheap.
    fn eq(&self, other: &Self) -> (r: bool) {
        if self.hash == other.hash && PartialEq::eq(&self.hasher_u64, &other.hasher_u64) {
            unordered_eq(self.components.as_slice(), other.components.as_slice())
        } else {
            false
        }
    }
}

impl<T: PartialEq, S: PartialEq> PartialEqSpecImpl for UnorderedVec<T, S> {
    open spec fn obeys_eq_spec() -> bool {
        eq_reflects::<T>() && S::obeys_eq_spec()
    }

    open spec fn eq_spec(&self, other: &Self) -> bool {
        &&& self.spec_hash() == other.spec_hash()
        &&& self.spec_hasher().eq_spec(other.spec_hasher())
        &&& self@.to_multiset() == other@.to_multiset()
    }
}

impl<T, S> core::hash::Hash for UnorderedVec<T, S> {
    /// Relies on std's `Hasher::write_u64`: the cached hash is fed to
    /// the hasher, so hashing never revisits the elements.
    #[verifier::external_body]
    fn hash<H: core::hash::Hasher>(&self, state: &mut H) {
        state.write_u64(self.hash)
    }
}

impl<T: core::hash::Hash> From<Vec<T>> for UnorderedVec<T> {
    fn from(value: Vec<T>) -> (r: Self) {
        Self::new(value)
    }
}

impl<T: core::hash::Hash> vstd::std_specs::convert::FromSpecImpl<Vec<T>> for UnorderedVec<T> {
    open spec fn obeys_from_spec() -> bool {
        false
    }

    open spec fn from_spec(v: Vec<T>) -> Self {
        arbitrary()
    }
}

} // verus!
