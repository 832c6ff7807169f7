//! Sparse bitsets made of 128-bit chunks, and matrices whose rows are such
//! bitsets.

use crate::bits::{
    bit_is_set, group_bit_lemmas, lemma_added_bits, lemma_bit_of_zero, lemma_bits_extensional,
    lemma_nonzero_has_bit, lemma_removed_bits, lemma_shift_none, lemma_shift_step,
    lemma_shifted_zero, lemma_zero_word,
};
use crate::idx::Idx;
use crate::keys::lemma_increasing_keys;
use std::collections::BTreeMap;
use std::marker::PhantomData;
use vstd::prelude::*;
use vstd::std_specs::btree::{increasing_seq, spec_btree_map_iter};
use vstd::std_specs::iter::IteratorSpec;

verus! {

/// The integers that a chunk with the given key and bits holds: the chunk
/// with key `k` covers the integers from `128 * k` to `128 * k + 127`.
pub open spec fn chunk_members(key: u32, bits: u128) -> Set<nat> {
    Set::new(|m: nat| m / 128 == key && bit_is_set(bits, m % 128))
}

/// A set of at most 128 integers that share one key.
pub struct SparseChunk<I> {
    key: u32,
    bits: u128,
    _marker: PhantomData<I>,
}

impl<I> Clone for SparseChunk<I> {
    fn clone(&self) -> (r: Self)
        ensures
            r == *self,
    {
        SparseChunk { key: self.key, bits: self.bits, _marker: PhantomData }
    }
}

impl<I> Copy for SparseChunk<I> {

}

impl<I: Idx> SparseChunk<I> {
    /// The key of the chunk.
    pub closed spec fn key(self) -> u32 {
        self.key
    }

    /// The bits of the chunk.
    pub closed spec fn bits(self) -> u128 {
        self.bits
    }

    /// The integers in the chunk.
    pub open spec fn members(self) -> Set<nat> {
        chunk_members(self.key(), self.bits())
    }

    /// Every member of the chunk fits an identifier of type `I`.
    pub open spec fn wf(self) -> bool {
        forall|m: nat| #[trigger] self.members().contains(m) ==> m <= usize::MAX && I::valid(m as usize)
    }

    /// The chunk that holds `index` and nothing else.
    #[inline]
    pub fn one(index: I) -> (r: Self)
        requires
            index.index_spec() / 128 <= u32::MAX,
        ensures
            r.key() == index.index_spec() / 128,
            r.bits() == 1u128 << ((index.index_spec() % 128) as u128),
            r.members() == set![index.index_spec() as nat],
            r.wf(),
    {
        let index = index.index();
        let key_usize = index / 128;
        let key = key_usize as u32;
        let shift = (index % 128) as u32;
        let r = SparseChunk { key, bits: 1u128 << shift, _marker: PhantomData };
        proof {
            broadcast use group_bit_lemmas;

            assert(1u128 << shift == 1u128 << ((index % 128) as u128)) by (bit_vector)
                requires
                    shift == index % 128,
            ;
            assert(r.members() =~= set![index as nat]);
        }
        r
    }

    /// Whether any bit of the chunk is set.
    #[inline]
    pub fn any(&self) -> (b: bool)
        ensures
            b == (self.bits() != 0),
            b == !self.members().is_empty(),
    {
        proof {
            self.lemma_empty_chunk();
        }
        self.bits != 0
    }

    /// Whether the two chunks have the same bits set. On chunks with one key
    /// this says that they hold the same integers.
    #[inline]
    pub fn bits_eq(&self, other: SparseChunk<I>) -> (b: bool)
        ensures
            b == (self.bits() == other.bits()),
            self.key() == other.key() ==> b == (self.members() == other.members()),
    {
        proof {
            if self.key == other.key && self.members() == other.members() {
                self.bits_eq_of_members(other);
            }
        }
        self.bits == other.bits
    }

    /// A chunk without members has no bit set.
    pub proof fn lemma_empty_chunk(self)
        ensures
            self.members().is_empty() == (self.bits() == 0),
    {
        broadcast use group_bit_lemmas;

        if self.bits != 0 {
            let i = lemma_nonzero_has_bit(self.bits);
            assert(self.members().contains((self.key * 128 + i) as nat));
        } else {
            assert(self.members() =~= Set::empty());
        }
    }

    /// Two chunks with one key and the same members have the same bits.
    pub proof fn bits_eq_of_members(self, other: SparseChunk<I>)
        requires
            self.key() == other.key(),
            self.members() == other.members(),
        ensures
            self.bits() == other.bits(),
    {
        assert forall|i: nat| i < 128 implies bit_is_set(self.bits, i) == bit_is_set(
            other.bits,
            i,
        ) by {
            let m = (self.key * 128 + i) as nat;
            assert(m / 128 == self.key && m % 128 == i);
            assert(self.members().contains(m) == bit_is_set(self.bits, i));
            assert(other.members().contains(m) == bit_is_set(other.bits, i));
        }
        lemma_bits_extensional(self.bits, other.bits);
    }

    /// The members of the chunk, in increasing order.
    pub fn iter(&self) -> (r: Vec<I>)
        requires
            self.wf(),
        ensures
            lists_in_order(r@, self.members()),
    {
        let mut out: Vec<I> = Vec::new();
        let mut i: usize = 0;
        let mut rest: u128 = self.bits;
        proof {
            lemma_shift_none(self.bits);
        }
        while rest != 0
            invariant
                self.wf(),
                i <= 128,
                i < 128 ==> rest == self.bits >> (i as u128),
                i == 128 ==> rest == 0,
                forall|a: int, b: int|
                    0 <= a < b < out.len() ==> (#[trigger] out[a]).index_spec() < (
                    #[trigger] out[b]).index_spec(),
                forall|a: int|
                    0 <= a < out.len() ==> self.members().contains(
                        (#[trigger] out[a]).index_spec() as nat,
                    ) && out[a].index_spec() < self.key * 128 + i,
                forall|m: nat| #[trigger]
                    self.members().contains(m) && m < self.key * 128 + i ==> exists|a: int|
                        0 <= a < out.len() && (#[trigger] out[a]).index_spec() == m,
            decreases 128 - i,
        {
            proof {
                lemma_shift_step(self.bits, i as nat);
            }
            let ghost before = out@;
            if rest & 1 != 0 {
                assert(self.members().contains((self.key * 128 + i) as nat));
                let m = self.key as usize * 128 + i;
                out.push(I::new(m));
            }
            rest = rest >> 1;
            i += 1;
            proof {
                assert forall|m: nat| #[trigger]
                    self.members().contains(m) && m < self.key * 128 + i implies exists|a: int|
                    0 <= a < out.len() && (#[trigger] out[a]).index_spec() == m by {
                    if m < self.key * 128 + i - 1 {
                        let a = choose|a: int|
                            0 <= a < before.len() && (#[trigger] before[a]).index_spec() == m;
                        assert(out[a].index_spec() == m);
                    } else {
                        assert(out[out.len() - 1].index_spec() == m);
                    }
                }
            }
        }
        proof {
            assert forall|m: nat| #[trigger] self.members().contains(m) implies exists|a: int|
                0 <= a < out.len() && (#[trigger] out[a]).index_spec() == m by {
                if i < 128 && m >= self.key * 128 + i {
                    lemma_shifted_zero(self.bits, i as nat, m % 128);
                }
            }
        }
        out
    }
}

/// Whether `v` lists the integers of `s`, each once, in increasing order.
pub open spec fn lists_in_order<I: Idx>(v: Seq<I>, s: Set<nat>) -> bool {
    &&& forall|a: int, b: int|
        0 <= a < b < v.len() ==> (#[trigger] v[a]).index_spec() < (#[trigger] v[b]).index_spec()
    &&& forall|a: int| 0 <= a < v.len() ==> s.contains((#[trigger] v[a]).index_spec() as nat)
    &&& forall|m: nat| #[trigger]
        s.contains(m) ==> exists|a: int| 0 <= a < v.len() && (#[trigger] v[a]).index_spec() == m
}

/// Whether `v` lists the entries of `m` as chunks, each once, by increasing
/// key.
pub open spec fn lists_chunks<I: Idx>(v: Seq<SparseChunk<I>>, m: Map<u32, u128>) -> bool {
    &&& forall|a: int, b: int|
        0 <= a < b < v.len() ==> (#[trigger] v[a]).key() < (#[trigger] v[b]).key()
    &&& forall|a: int|
        0 <= a < v.len() ==> m.contains_key((#[trigger] v[a]).key()) && m[v[a].key()]
            == v[a].bits()
    &&& forall|k: u32| #[trigger]
        m.contains_key(k) ==> exists|a: int| 0 <= a < v.len() && (#[trigger] v[a]).key() == k
}

/// A set of non-negative integers, stored as the chunks that are not empty.
pub struct SparseBitSet<I> {
    chunk_bits: BTreeMap<u32, u128>,
    _marker: PhantomData<I>,
}

impl<I> View for SparseBitSet<I> {
    type V = Set<nat>;

    /// The integers in the set.
    open spec fn view(&self) -> Set<nat> {
        Set::new(
            |m: nat| m / 128 <= u32::MAX && bit_is_set(self.bits_at((m / 128) as u32), m % 128),
        )
    }
}

impl<I> Clone for SparseBitSet<I> {
    fn clone(&self) -> (r: Self)
        ensures
            r.chunk_map() == self.chunk_map(),
    {
        SparseBitSet { chunk_bits: self.chunk_bits.clone(), _marker: PhantomData }
    }
}

impl<I> SparseBitSet<I> {
    /// The chunks that are stored, by key.
    pub closed spec fn chunk_map(self) -> Map<u32, u128> {
        self.chunk_bits@
    }

    /// The bits of the chunk with the given key; zero where none is stored.
    pub open spec fn bits_at(self, key: u32) -> u128 {
        if self.chunk_map().contains_key(key) {
            self.chunk_map()[key]
        } else {
            0
        }
    }
}

impl<I: Idx> SparseBitSet<I> {
    /// No stored chunk is empty, and every member fits an identifier of
    /// type `I`.
    pub open spec fn wf(self) -> bool {
        &&& forall|k: u32| #[trigger]
            self.chunk_map().contains_key(k) ==> self.chunk_map()[k] != 0
        &&& forall|m: nat| #[trigger] self@.contains(m) ==> m <= usize::MAX && I::valid(m as usize)
    }

    /// Two sets with the same chunks have the same members.
    pub proof fn lemma_same_chunks(self, other: Self)
        requires
            self.chunk_map() == other.chunk_map(),
        ensures
            self@ == other@,
            self.wf() == other.wf(),
    {
        assert(self@ =~= other@);
    }

    /// The members of a stored chunk are members of the set.
    pub proof fn lemma_chunk_within(self, key: u32)
        requires
            self.chunk_map().contains_key(key),
        ensures
            chunk_members(key, self.chunk_map()[key]).subset_of(self@),
    {
    }

    /// The chunks of a listing of the set hold the members of the set.
    pub proof fn lemma_chunks_cover(self, v: Seq<SparseChunk<I>>)
        requires
            lists_chunks(v, self.chunk_map()),
        ensures
            forall|m: nat|
                self@.contains(m) <==> exists|a: int|
                    0 <= a < v.len() && (#[trigger] v[a]).members().contains(m),
            forall|a: int, b: int, m: nat|
                0 <= a < v.len() && 0 <= b < v.len() && #[trigger] v[a].members().contains(m)
                    && #[trigger] v[b].members().contains(m) ==> a == b,
    {
        assert forall|m: nat| self@.contains(m) implies exists|a: int|
            0 <= a < v.len() && (#[trigger] v[a]).members().contains(m) by {
            let k = (m / 128) as u32;
            lemma_bit_of_zero(m % 128);
            assert(self.chunk_map().contains_key(k));
            let pos = choose|pos: int| 0 <= pos < v.len() && (#[trigger] v[pos]).key() == k;
            assert(v[pos].members().contains(m));
        }
        assert forall|a: int, b: int, m: nat|
            0 <= a < v.len() && 0 <= b < v.len() && #[trigger] v[a].members().contains(m)
                && #[trigger] v[b].members().contains(m) implies a == b by {
            if a < b {
                assert(v[a].key() < v[b].key());
            }
            if b < a {
                assert(v[b].key() < v[a].key());
            }
        }
    }

    /// No stored chunk is empty: each holds a member of the set.
    pub proof fn lemma_no_empty_chunk(self, key: u32) -> (m: nat)
        requires
            self.wf(),
            self.chunk_map().contains_key(key),
        ensures
            self.chunk_map()[key] != 0,
            self@.contains(m),
            m / 128 == key,
    {
        let i = lemma_nonzero_has_bit(self.chunk_map()[key]);
        (key * 128 + i) as nat
    }

    /// A set without members stores no chunk, and a set that stores no
    /// chunk has no members.
    pub proof fn lemma_empty(self)
        requires
            self.wf(),
        ensures
            self@.is_empty() == (self.chunk_map().len() == 0),
    {
        broadcast use group_bit_lemmas;

        assert(self.chunk_map().dom().finite());
        if self.chunk_map().len() != 0 {
            let k = self.chunk_map().dom().choose();
            self.lemma_no_empty_chunk(k);
        } else {
            assert(self.chunk_map().dom() =~= Set::empty());
            assert(self@ =~= Set::empty());
        }
    }

    /// The empty set.
    pub fn new() -> (r: Self)
        ensures
            r.wf(),
            r@ == Set::<nat>::empty(),
            r.chunk_map() == Map::<u32, u128>::empty(),
    {
        let r = SparseBitSet { chunk_bits: BTreeMap::new(), _marker: PhantomData };
        proof {
            broadcast use group_bit_lemmas;

            assert(r@ =~= Set::<nat>::empty());
        }
        r
    }

    /// The number of integers that the stored chunks cover.
    pub fn capacity(&self) -> (c: usize)
        requires
            self.chunk_map().len() * 128 <= usize::MAX,
        ensures
            c == self.chunk_map().len() * 128,
    {
        self.chunk_bits.len() * 128
    }

    /// The part of `chunk` that the set holds. The result has the bits of
    /// `chunk` exactly when the set holds all of `chunk`.
    pub fn contains_chunk(&self, chunk: SparseChunk<I>) -> (r: SparseChunk<I>)
        ensures
            r.key() == chunk.key(),
            r.bits() == self.bits_at(chunk.key()) & chunk.bits(),
            r.members() == self@.intersect(chunk.members()),
            chunk.wf() ==> r.wf(),
            (r.bits() == chunk.bits()) == chunk.members().subset_of(self@),
    {
        let stored: u128 = match self.chunk_bits.get(&chunk.key) {
            Some(bits) => *bits,
            None => 0,
        };
        let r = SparseChunk { key: chunk.key, bits: stored & chunk.bits, _marker: PhantomData };
        proof {
            broadcast use group_bit_lemmas;

            assert(r.members() =~= self@.intersect(chunk.members()));
            if chunk.members().subset_of(self@) {
                assert(r.members() =~= chunk.members());
                chunk.bits_eq_of_members(r);
            }
        }
        r
    }

    /// Adds the members of `chunk` to the set, and returns those that the
    /// set did not hold before.
    pub fn insert_chunk(&mut self, chunk: SparseChunk<I>) -> (added: SparseChunk<I>)
        requires
            old(self).wf(),
            chunk.wf(),
        ensures
            final(self).wf(),
            final(self).bits_at(chunk.key()) == old(self).bits_at(chunk.key()) | chunk.bits(),
            forall|k: u32| k != chunk.key() ==> final(self).bits_at(k) == old(self).bits_at(k),
            final(self)@ == old(self)@.union(chunk.members()),
            added.key() == chunk.key(),
            added.bits() == chunk.bits() & !old(self).bits_at(chunk.key()),
            added.members() == chunk.members().difference(old(self)@),
            added.wf(),
    {
        broadcast use group_bit_lemmas;

        let ghost before = *self;
        proof {
            lemma_zero_word(chunk.bits);
            lemma_zero_word(self.bits_at(chunk.key));
        }
        if chunk.bits == 0 {
            proof {
                assert(self@ =~= before@.union(chunk.members()));
                assert(chunk.members() =~= chunk.members().difference(before@));
            }
            return chunk;
        }
        let old_bits: u128 = match self.chunk_bits.get(&chunk.key) {
            Some(bits) => *bits,
            None => 0,
        };
        let new_bits = old_bits | chunk.bits;
        self.chunk_bits.insert(chunk.key, new_bits);
        let changed = new_bits ^ old_bits;
        let added = SparseChunk { key: chunk.key, bits: changed, _marker: PhantomData };
        proof {
            lemma_added_bits(old_bits, chunk.bits);
            if new_bits == 0 {
                let i = lemma_nonzero_has_bit(chunk.bits);
                assert(bit_is_set(new_bits, i));
            }
            assert(self@ =~= before@.union(chunk.members()));
            assert(added.members() =~= chunk.members().difference(before@));
        }
        added
    }

    /// Adds the members of `other` to the set, and says whether the set
    /// has grown.
    pub fn insert_chunks(&mut self, other: &SparseBitSet<I>) -> (changed: bool)
        requires
            old(self).wf(),
            other.wf(),
        ensures
            final(self).wf(),
            final(self)@ == old(self)@.union(other@),
            changed == !other@.subset_of(old(self)@),
    {
        let mut changed = false;
        let ghost before = *self;
        let ghost done: Set<nat> = Set::empty();
        proof {
            assert(self@ =~= before@.union(done));
        }
        for kv in it: other.chunk_bits.iter()
            invariant
                self.wf(),
                other.wf(),
                it.seq() == spec_btree_map_iter(&other.chunk_bits).remaining(),
                self@ == before@.union(done),
                done.subset_of(other@),
                forall|a: int|
                    0 <= a < it.index() ==> chunk_members(
                        *(#[trigger] it.seq()[a]).0,
                        *it.seq()[a].1,
                    ).subset_of(done),
                changed == !done.subset_of(before@),
        {
            let (key, bits) = kv;
            let chunk = SparseChunk { key: *key, bits: *bits, _marker: PhantomData };
            proof {
                other.lemma_chunk_within(*key);
            }
            let added = self.insert_chunk(chunk);
            let grew = added.any();
            changed = changed || grew;
            proof {
                let ghost new_done = done.union(chunk.members());
                assert(self@ =~= before@.union(new_done));
                if grew {
                    let m = added.members().choose();
                    assert(added.members().contains(m));
                    assert(new_done.contains(m) && !before@.contains(m));
                } else {
                    assert(added.members() =~= Set::empty());
                    if !changed {
                        assert forall|m: nat| new_done.contains(m) implies before@.contains(m) by {
                            if !done.contains(m) {
                                assert(!added.members().contains(m));
                            }
                        }
                    }
                }
                if changed && !grew {
                    assert(!done.subset_of(before@));
                    let m = choose|m: nat| done.contains(m) && !before@.contains(m);
                    assert(new_done.contains(m));
                }
                done = new_done;
            }
        }
        proof {
            let all = spec_btree_map_iter(&other.chunk_bits).remaining();
            assert forall|m: nat| other@.contains(m) implies done.contains(m) by {
                let k = (m / 128) as u32;
                lemma_bit_of_zero(m % 128);
                assert(other.chunk_map().contains_key(k));
                assert(all.contains((&k, &other.chunk_map()[k])));
                let a = choose|a: int| 0 <= a < all.len() && all[a] == (&k, &other.chunk_map()[k]);
                assert(chunk_members(*all[a].0, *all[a].1).contains(m));
            }
            assert(done =~= other@);
        }
        changed
    }

    /// Takes the members of `chunk` out of the set, and returns those that
    /// the set held before.
    pub fn remove_chunk(&mut self, chunk: SparseChunk<I>) -> (removed: SparseChunk<I>)
        requires
            old(self).wf(),
        ensures
            final(self).wf(),
            final(self).bits_at(chunk.key()) == old(self).bits_at(chunk.key()) & !chunk.bits(),
            forall|k: u32| k != chunk.key() ==> final(self).bits_at(k) == old(self).bits_at(k),
            final(self)@ == old(self)@.difference(chunk.members()),
            removed.key() == chunk.key(),
            removed.bits() == old(self).bits_at(chunk.key()) & chunk.bits(),
            removed.members() == old(self)@.intersect(chunk.members()),
            removed.wf(),
    {
        broadcast use group_bit_lemmas;

        let ghost before = *self;
        proof {
            lemma_zero_word(chunk.bits);
            lemma_zero_word(self.bits_at(chunk.key));
        }
        if chunk.bits == 0 {
            proof {
                assert(self@ =~= before@.difference(chunk.members()));
                assert(chunk.members() =~= before@.intersect(chunk.members()));
            }
            return chunk;
        }
        let found: Option<u128> = match self.chunk_bits.get(&chunk.key) {
            Some(bits) => Some(*bits),
            None => None,
        };
        let changed: u128 = match found {
            Some(old_bits) => {
                let new_bits = old_bits & !chunk.bits;
                if new_bits == 0 {
                    self.chunk_bits.remove(&chunk.key);
                } else {
                    self.chunk_bits.insert(chunk.key, new_bits);
                }
                proof {
                    lemma_removed_bits(old_bits, chunk.bits);
                }
                new_bits ^ old_bits
            },
            None => 0,
        };
        let removed = SparseChunk { key: chunk.key, bits: changed, _marker: PhantomData };
        proof {
            assert(self@ =~= before@.difference(chunk.members()));
            assert(removed.members() =~= before@.intersect(chunk.members()));
        }
        removed
    }

    /// Takes every member out of the set.
    pub fn clear(&mut self)
        ensures
            final(self).wf(),
            final(self)@ == Set::<nat>::empty(),
            final(self).chunk_map() == Map::<u32, u128>::empty(),
    {
        self.chunk_bits.clear();
        proof {
            broadcast use group_bit_lemmas;

            assert(self@ =~= Set::<nat>::empty());
        }
    }

    /// The stored chunks, by increasing key. None of them is empty.
    pub fn chunks(&self) -> (r: Vec<SparseChunk<I>>)
        requires
            self.wf(),
        ensures
            lists_chunks(r@, self.chunk_map()),
            forall|a: int| 0 <= a < r.len() ==> (#[trigger] r[a]).bits() != 0 && r[a].wf(),
    {
        let mut out: Vec<SparseChunk<I>> = Vec::new();
        let it0 = self.chunk_bits.iter();
        let ghost all = it0.remaining();
        let ghost keys = all.map_values(|kv: (&u32, &u128)| *kv.0);
        proof {
            assert(increasing_seq(keys));
            lemma_increasing_keys(keys);
        }
        for kv in it: it0
            invariant
                it.seq() == all,
                all == spec_btree_map_iter(&self.chunk_bits).remaining(),
                out.len() == it.index(),
                forall|a: int|
                    0 <= a < out.len() ==> (#[trigger] out[a]).key() == *all[a].0 && out[a].bits()
                        == *all[a].1,
        {
            let (key, bits) = kv;
            out.push(SparseChunk { key: *key, bits: *bits, _marker: PhantomData });
        }
        proof {
            assert forall|a: int, b: int| 0 <= a < b < out.len() implies (#[trigger] out[a]).key()
                < (#[trigger] out[b]).key() by {
                assert(keys[a] < keys[b]);
            }
            assert forall|k: u32| #[trigger] self.chunk_map().contains_key(k) implies exists|
                a: int,
            |
                0 <= a < out.len() && (#[trigger] out[a]).key() == k by {
                assert(all.contains((&k, &self.chunk_map()[k])));
                let a = choose|a: int| 0 <= a < all.len() && all[a] == (&k, &self.chunk_map()[k]);
                assert(out[a].key() == k);
            }
            assert forall|a: int| 0 <= a < out.len() implies (#[trigger] out[a]).bits() != 0
                && out[a].wf() by {
                self.lemma_chunk_within(out[a].key());
            }
        }
        out
    }

    /// Whether `index` is in the set.
    pub fn contains(&self, index: I) -> (b: bool)
        requires
            index.index_spec() / 128 <= u32::MAX,
        ensures
            b == self@.contains(index.index_spec() as nat),
    {
        let part = self.contains_chunk(SparseChunk::one(index));
        proof {
            assert(set![index.index_spec() as nat].contains(index.index_spec() as nat));
        }
        part.any()
    }

    /// Puts `index` into the set, and says whether it was absent.
    pub fn insert(&mut self, index: I) -> (changed: bool)
        requires
            old(self).wf(),
            index.index_spec() / 128 <= u32::MAX,
        ensures
            final(self).wf(),
            final(self)@ == old(self)@.insert(index.index_spec() as nat),
            changed == !old(self)@.contains(index.index_spec() as nat),
    {
        let ghost before = self@;
        let added = self.insert_chunk(SparseChunk::one(index));
        proof {
            let m = index.index_spec() as nat;
            assert(set![m].contains(m));
            assert(self@ =~= before.insert(m));
            if before.contains(m) {
                assert(added.members() =~= Set::empty());
            } else {
                assert(added.members().contains(m));
            }
        }
        added.any()
    }

    /// Takes `index` out of the set, and says whether it was present.
    pub fn remove(&mut self, index: I) -> (changed: bool)
        requires
            old(self).wf(),
            index.index_spec() / 128 <= u32::MAX,
        ensures
            final(self).wf(),
            final(self)@ == old(self)@.remove(index.index_spec() as nat),
            changed == old(self)@.contains(index.index_spec() as nat),
    {
        let ghost before = self@;
        let removed = self.remove_chunk(SparseChunk::one(index));
        proof {
            let m = index.index_spec() as nat;
            assert(set![m].contains(m));
            assert(self@ =~= before.remove(m));
            if before.contains(m) {
                assert(removed.members().contains(m));
            } else {
                assert(removed.members() =~= Set::empty());
            }
        }
        removed.any()
    }

    /// The members of the set, in increasing order.
    pub fn iter(&self) -> (r: Vec<I>)
        requires
            self.wf(),
        ensures
            lists_in_order(r@, self@),
    {
        let chunks = self.chunks();
        let mut out: Vec<I> = Vec::new();
        let mut c: usize = 0;
        while c < chunks.len()
            invariant
                self.wf(),
                c <= chunks.len(),
                lists_chunks(chunks@, self.chunk_map()),
                forall|a: int| 0 <= a < chunks.len() ==> (#[trigger] chunks[a]).wf(),
                forall|a: int, b: int|
                    0 <= a < b < out.len() ==> (#[trigger] out[a]).index_spec() < (
                    #[trigger] out[b]).index_spec(),
                forall|a: int|
                    0 <= a < out.len() ==> self@.contains((#[trigger] out[a]).index_spec() as nat)
                        && (c > 0 ==> out[a].index_spec() / 128 <= chunks[c - 1].key()),
                c == 0 ==> out.len() == 0,
                forall|pos: int, m: nat|
                    0 <= pos < c && #[trigger] chunks[pos].members().contains(m) ==> exists|a: int|
                        0 <= a < out.len() && (#[trigger] out[a]).index_spec() == m,
            decreases chunks.len() - c,
        {
            let part = chunks[c].iter();
            let ghost before = out@;
            let ghost chunk = chunks[c as int];
            proof {
                self.lemma_chunk_within(chunk.key());
            }
            let mut p: usize = 0;
            while p < part.len()
                invariant
                    p <= part.len(),
                    c < chunks.len(),
                    chunk == chunks[c as int],
                    lists_in_order(part@, chunk.members()),
                    chunk.members().subset_of(self@),
                    out@ == before + part@.subrange(0, p as int),
                decreases part.len() - p,
            {
                out.push(part[p]);
                p += 1;
                proof {
                    assert(part@.subrange(0, p as int) =~= part@.subrange(0, p - 1).push(
                        part[p - 1],
                    ));
                }
            }
            proof {
                assert(part@.subrange(0, part.len() as int) =~= part@);
                assert forall|a: int, b: int| 0 <= a < b < out.len() implies (#[trigger] out[a]).index_spec()
                    < (#[trigger] out[b]).index_spec() by {
                    if a < before.len() && b >= before.len() {
                        assert(chunk.members().contains(part[b - before.len()].index_spec() as nat));
                        assert(before[a] == out[a]);
                        if c > 0 {
                            assert(chunks[c - 1].key() < chunks[c as int].key());
                        }
                    } else if a >= before.len() {
                        assert(out[a] == part[a - before.len()]);
                        assert(out[b] == part[b - before.len()]);
                    } else {
                        assert(before[a] == out[a]);
                        assert(before[b] == out[b]);
                    }
                }
                assert forall|a: int| 0 <= a < out.len() implies self@.contains(
                    (#[trigger] out[a]).index_spec() as nat,
                ) && out[a].index_spec() / 128 <= chunks[c as int].key() by {
                    if a < before.len() {
                        assert(before[a] == out[a]);
                        if c > 0 {
                            assert(chunks[c - 1].key() < chunks[c as int].key());
                        }
                    } else {
                        assert(out[a] == part[a - before.len()]);
                        assert(chunk.members().contains(out[a].index_spec() as nat));
                    }
                }
                assert forall|pos: int, m: nat|
                    0 <= pos < c + 1 && #[trigger] chunks[pos].members().contains(m) implies exists|
                    a: int,
                |
                    0 <= a < out.len() && (#[trigger] out[a]).index_spec() == m by {
                    if pos < c {
                        let a = choose|a: int|
                            0 <= a < before.len() && (#[trigger] before[a]).index_spec() == m;
                        assert(out[a] == before[a]);
                    } else {
                        let a = choose|a: int|
                            0 <= a < part.len() && (#[trigger] part[a]).index_spec() == m;
                        assert(out[before.len() + a] == part[a]);
                    }
                }
            }
            c += 1;
        }
        proof {
            assert forall|m: nat| #[trigger] self@.contains(m) implies exists|a: int|
                0 <= a < out.len() && (#[trigger] out[a]).index_spec() == m by {
                let k = (m / 128) as u32;
                lemma_bit_of_zero(m % 128);
                assert(self.chunk_map().contains_key(k));
                let pos = choose|pos: int|
                    0 <= pos < chunks.len() && (#[trigger] chunks[pos]).key() == k;
                assert(chunks[pos].members().contains(m));
            }
        }
        out
    }
}

/// A matrix of bits with a fixed number of rows, each row a sparse bitset.
pub struct SparseBitMatrix<R, C> {
    vector: Vec<SparseBitSet<C>>,
    _marker: PhantomData<R>,
}

impl<R, C> View for SparseBitMatrix<R, C> {
    type V = Seq<Set<nat>>;

    /// The sets of columns that are set, row by row.
    open spec fn view(&self) -> Seq<Set<nat>> {
        Seq::new(self.row_sets().len(), |r: int| self.row_sets()[r]@)
    }
}

impl<R, C> Clone for SparseBitMatrix<R, C> {
    fn clone(&self) -> (r: Self)
        ensures
            r.row_sets().len() == self.row_sets().len(),
            forall|i: int|
                0 <= i < self.row_sets().len() ==> (#[trigger] r.row_sets()[i]).chunk_map()
                    == self.row_sets()[i].chunk_map(),
    {
        let mut vector: Vec<SparseBitSet<C>> = Vec::new();
        let mut i: usize = 0;
        while i < self.vector.len()
            invariant
                i <= self.vector.len(),
                vector.len() == i,
                forall|k: int|
                    0 <= k < i ==> (#[trigger] vector[k]).chunk_map() == self.vector[k].chunk_map(),
            decreases self.vector.len() - i,
        {
            vector.push(self.vector[i].clone());
            i += 1;
        }
        SparseBitMatrix { vector, _marker: PhantomData }
    }
}

impl<R, C> SparseBitMatrix<R, C> {
    /// The rows of the matrix.
    pub closed spec fn row_sets(self) -> Seq<SparseBitSet<C>> {
        self.vector@
    }
}

impl<R: Idx, C: Idx> SparseBitMatrix<R, C> {
    /// Every row is well formed.
    pub open spec fn wf(self) -> bool {
        forall|r: int| 0 <= r < self.row_sets().len() ==> (#[trigger] self.row_sets()[r]).wf()
    }

    /// Two matrices whose rows have the same chunks have the same bits set.
    pub proof fn lemma_same_rows(self, other: Self)
        requires
            self.row_sets().len() == other.row_sets().len(),
            forall|i: int|
                0 <= i < self.row_sets().len() ==> (#[trigger] other.row_sets()[i]).chunk_map()
                    == self.row_sets()[i].chunk_map(),
        ensures
            self@ == other@,
            self.wf() == other.wf(),
    {
        assert forall|i: int| 0 <= i < self.row_sets().len() implies self@[i] == other@[i] && (
        #[trigger] self.row_sets()[i]).wf() == other.row_sets()[i].wf() by {
            self.row_sets()[i].lemma_same_chunks(other.row_sets()[i]);
        }
        assert(self@ =~= other@);
        if self.wf() {
            assert forall|i: int| 0 <= i < other.row_sets().len() implies (
            #[trigger] other.row_sets()[i]).wf() by {
                assert(self.row_sets()[i].wf());
            }
        }
        if other.wf() {
            assert forall|i: int| 0 <= i < self.row_sets().len() implies (
            #[trigger] self.row_sets()[i]).wf() by {
                assert(other.row_sets()[i].wf());
            }
        }
    }

    /// A matrix with `rows` rows and no bit set.
    pub fn new(rows: R, _columns: C) -> (m: SparseBitMatrix<R, C>)
        ensures
            m.wf(),
            m@.len() == rows.index_spec(),
            forall|r: int| 0 <= r < m@.len() ==> #[trigger] m@[r] == Set::<nat>::empty(),
    {
        let count = rows.index();
        let mut vector: Vec<SparseBitSet<C>> = Vec::new();
        let mut made: usize = 0;
        while made < count
            invariant
                made <= count,
                vector.len() == made,
                forall|r: int|
                    0 <= r < made ==> (#[trigger] vector[r]).wf() && vector[r]@ == Set::<
                        nat,
                    >::empty(),
            decreases count - made,
        {
            vector.push(SparseBitSet::new());
            made += 1;
        }
        SparseBitMatrix { vector, _marker: PhantomData }
    }

    /// Sets the bit at `(row, column)`, and says whether it was clear.
    pub fn add(&mut self, row: R, column: C) -> (changed: bool)
        requires
            old(self).wf(),
            row.index_spec() < old(self)@.len(),
            column.index_spec() / 128 <= u32::MAX,
        ensures
            final(self).wf(),
            final(self)@ == old(self)@.update(
                row.index_spec() as int,
                old(self)@[row.index_spec() as int].insert(column.index_spec() as nat),
            ),
            changed == !old(self)@[row.index_spec() as int].contains(column.index_spec() as nat),
    {
        let ghost before = *self;
        let changed = self.vector[row.index()].insert(column);
        proof {
            assert(self@ =~= before@.update(
                row.index_spec() as int,
                before@[row.index_spec() as int].insert(column.index_spec() as nat),
            ));
        }
        changed
    }

    /// Whether the bit at `(row, column)` is set.
    pub fn contains(&self, row: R, column: C) -> (b: bool)
        requires
            row.index_spec() < self@.len(),
            column.index_spec() / 128 <= u32::MAX,
        ensures
            b == self@[row.index_spec() as int].contains(column.index_spec() as nat),
    {
        self.vector[row.index()].contains(column)
    }

    /// Adds the bits of row `read` to row `write`, and says whether row
    /// `write` has grown. The other rows stay as they are.
    pub fn merge(&mut self, read: R, write: R) -> (changed: bool)
        requires
            old(self).wf(),
            read.index_spec() < old(self)@.len(),
            write.index_spec() < old(self)@.len(),
        ensures
            final(self).wf(),
            final(self)@ == old(self)@.update(
                write.index_spec() as int,
                old(self)@[write.index_spec() as int].union(old(self)@[read.index_spec() as int]),
            ),
            changed == !old(self)@[read.index_spec() as int].subset_of(
                old(self)@[write.index_spec() as int],
            ),
    {
        let ghost before = *self;
        let read = read.index();
        let write = write.index();
        let mut changed = false;
        if read != write {
            let mut target = SparseBitSet::new();
            core::mem::swap(&mut target, &mut self.vector[write]);
            changed = target.insert_chunks(&self.vector[read]);
            self.vector[write] = target;
        }
        proof {
            let merged = before@[write as int].union(before@[read as int]);
            if read == write {
                assert(merged =~= before@[write as int]);
            }
            assert(self@.len() == before@.len());
            assert forall|r: int| 0 <= r < self@.len() implies self@[r] == before@.update(
                write as int,
                merged,
            )[r] by {
                if r != write {
                    assert(self.row_sets()[r] == before.row_sets()[r]);
                }
            }
            assert(self@ =~= before@.update(write as int, merged));
        }
        changed
    }

    /// Whether every bit of row `sub` is also set in row `sup`.
    pub fn is_subset(&self, sub: R, sup: R) -> (b: bool)
        requires
            self.wf(),
            sub.index_spec() < self@.len(),
            sup.index_spec() < self@.len(),
        ensures
            b == self@[sub.index_spec() as int].subset_of(self@[sup.index_spec() as int]),
    {
        let sub = sub.index();
        let sup = sup.index();
        if sub == sup {
            return true;
        }
        let bit_set_sub = &self.vector[sub];
        let bit_set_sup = &self.vector[sup];
        let chunks = bit_set_sub.chunks();
        let mut all = true;
        let mut c: usize = 0;
        while c < chunks.len()
            invariant
                c <= chunks.len(),
                all == forall|a: int|
                    0 <= a < c ==> (#[trigger] chunks[a]).members().subset_of(bit_set_sup@),
            decreases chunks.len() - c,
        {
            let held = bit_set_sup.contains_chunk(chunks[c]);
            all = all && chunks[c].bits_eq(held);
            c += 1;
        }
        proof {
            if all {
                assert forall|m: nat| bit_set_sub@.contains(m) implies bit_set_sup@.contains(m) by {
                    let k = (m / 128) as u32;
                    lemma_bit_of_zero(m % 128);
                    assert(bit_set_sub.chunk_map().contains_key(k));
                    let pos = choose|pos: int|
                        0 <= pos < chunks.len() && (#[trigger] chunks[pos]).key() == k;
                    assert(chunks[pos].members().contains(m));
                }
            } else {
                let a = choose|a: int|
                    0 <= a < c && !(#[trigger] chunks[a]).members().subset_of(bit_set_sup@);
                bit_set_sub.lemma_chunk_within(chunks[a].key());
            }
        }
        all
    }

    /// The columns that are set in `row`, in increasing order.
    pub fn iter(&self, row: R) -> (r: Vec<C>)
        requires
            self.wf(),
            row.index_spec() < self@.len(),
        ensures
            lists_in_order(r@, self@[row.index_spec() as int]),
    {
        self.vector[row.index()].iter()
    }

    /// The rows of the matrix, first row first.
    pub fn rows(&self) -> (r: &Vec<SparseBitSet<C>>)
        ensures
            r@ == self.row_sets(),
    {
        &self.vector
    }

    /// The row `row`.
    pub fn row(&self, row: R) -> (r: &SparseBitSet<C>)
        requires
            row.index_spec() < self@.len(),
        ensures
            *r == self.row_sets()[row.index_spec() as int],
    {
        &self.vector[row.index()]
    }

    /// The row `row`, to be changed in place. The other rows stay as they
    /// are.
    pub fn row_mut(&mut self, row: R) -> (r: &mut SparseBitSet<C>)
        requires
            row.index_spec() < old(self)@.len(),
        ensures
            *r == old(self).row_sets()[row.index_spec() as int],
            final(self).row_sets() == old(self).row_sets().update(
                row.index_spec() as int,
                *final(r),
            ),
    {
        &mut self.vector[row.index()]
    }
}

} // verus!
