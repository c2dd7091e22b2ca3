//! A map keyed by fixed-size values, kept in the order of the keys.

use std::collections::BTreeMap;

use vstd::prelude::*;
use vstd::std_specs::iter::IteratorSpec;

use crate::primitives::{
    be_u128, be_value, lemma_be_value_injective, lemma_fixed_bytes_ext, Address, BlockId, SeqNum,
    B256, U256,
};

verus! {

broadcast use {
    vstd::std_specs::btree::group_btree_axioms,
    vstd::laws_cmp::group_laws_cmp,
};

/// The integers by which a key is ordered and found.
pub type Ordinal = (u128, u128, u128, u128);

/// A key that is told apart from every other key by its ordinal.
pub trait Key: Copy {
    spec fn spec_ordinal(&self) -> Ordinal;

    proof fn lemma_ordinal_injective(a: &Self, b: &Self)
        requires
            a.spec_ordinal() == b.spec_ordinal(),
        ensures
            *a == *b,
    ;

    fn ordinal(&self) -> (r: Ordinal)
        ensures
            r == self.spec_ordinal(),
    ;
}

/// The two 128-bit halves of 32 bytes.
pub open spec fn halves(s: Seq<u8>) -> (u128, u128) {
    (be_value(s.subrange(0, 16)) as u128, be_value(s.subrange(16, s.len() as int)) as u128)
}

fn split_halves(s: &[u8]) -> (r: (u128, u128))
    requires
        16 <= s.len() <= 32,
    ensures
        r == halves(s@),
        r.0 == be_value(s@.subrange(0, 16)),
        r.1 == be_value(s@.subrange(16, s@.len() as int)),
{
    (be_u128(s, 0, 16), be_u128(s, 16, s.len()))
}

proof fn lemma_halves_injective(s: Seq<u8>, t: Seq<u8>)
    requires
        s.len() == t.len(),
        16 <= s.len() <= 32,
        halves(s) == halves(t),
    ensures
        s == t,
{
    crate::primitives::lemma_be_value_fits_u128(s.subrange(0, 16));
    crate::primitives::lemma_be_value_fits_u128(t.subrange(0, 16));
    crate::primitives::lemma_be_value_fits_u128(s.subrange(16, s.len() as int));
    crate::primitives::lemma_be_value_fits_u128(t.subrange(16, t.len() as int));
    lemma_be_value_injective(s.subrange(0, 16), t.subrange(0, 16));
    lemma_be_value_injective(s.subrange(16, s.len() as int), t.subrange(16, t.len() as int));
    assert(s =~= s.subrange(0, 16) + s.subrange(16, s.len() as int));
    assert(t =~= t.subrange(0, 16) + t.subrange(16, t.len() as int));
}

impl Key for Address {
    open spec fn spec_ordinal(&self) -> Ordinal {
        (halves(self@).0, halves(self@).1, 0, 0)
    }

    proof fn lemma_ordinal_injective(a: &Self, b: &Self) {
        lemma_halves_injective(a@, b@);
        lemma_fixed_bytes_ext(*a, *b);
    }

    fn ordinal(&self) -> (r: Ordinal) {
        let h = split_halves(self.as_slice());
        (h.0, h.1, 0, 0)
    }
}

impl Key for B256 {
    open spec fn spec_ordinal(&self) -> Ordinal {
        (halves(self@).0, halves(self@).1, 0, 0)
    }

    proof fn lemma_ordinal_injective(a: &Self, b: &Self) {
        lemma_halves_injective(a@, b@);
        lemma_fixed_bytes_ext(*a, *b);
    }

    fn ordinal(&self) -> (r: Ordinal) {
        let h = split_halves(self.as_slice());
        (h.0, h.1, 0, 0)
    }
}

impl Key for U256 {
    open spec fn spec_ordinal(&self) -> Ordinal {
        self.0.spec_ordinal()
    }

    proof fn lemma_ordinal_injective(a: &Self, b: &Self) {
        B256::lemma_ordinal_injective(&a.0, &b.0);
    }

    fn ordinal(&self) -> (r: Ordinal) {
        self.0.ordinal()
    }
}

impl Key for BlockId {
    open spec fn spec_ordinal(&self) -> Ordinal {
        self.0.spec_ordinal()
    }

    proof fn lemma_ordinal_injective(a: &Self, b: &Self) {
        B256::lemma_ordinal_injective(&a.0, &b.0);
    }

    fn ordinal(&self) -> (r: Ordinal) {
        self.0.ordinal()
    }
}

impl Key for SeqNum {
    open spec fn spec_ordinal(&self) -> Ordinal {
        (self.0 as u128, 0, 0, 0)
    }

    proof fn lemma_ordinal_injective(a: &Self, b: &Self) {
    }

    fn ordinal(&self) -> (r: Ordinal) {
        (self.0 as u128, 0, 0, 0)
    }
}

/// A block at a height.
#[derive(Clone, Copy, Debug)]
pub struct BlockKey {
    pub seq: SeqNum,
    pub id: BlockId,
}

impl Key for BlockKey {
    open spec fn spec_ordinal(&self) -> Ordinal {
        (self.seq.0 as u128, self.id.spec_ordinal().0, self.id.spec_ordinal().1, 0)
    }

    proof fn lemma_ordinal_injective(a: &Self, b: &Self) {
        BlockId::lemma_ordinal_injective(&a.id, &b.id);
    }

    fn ordinal(&self) -> (r: Ordinal) {
        let h = self.id.ordinal();
        (self.seq.0 as u128, h.0, h.1, 0)
    }
}

/// A storage slot of an account.
#[derive(Clone, Copy, Debug)]
pub struct SlotKey {
    pub address: Address,
    pub slot: B256,
}

impl Key for SlotKey {
    open spec fn spec_ordinal(&self) -> Ordinal {
        (
            self.address.spec_ordinal().0,
            self.address.spec_ordinal().1,
            self.slot.spec_ordinal().0,
            self.slot.spec_ordinal().1,
        )
    }

    proof fn lemma_ordinal_injective(a: &Self, b: &Self) {
        Address::lemma_ordinal_injective(&a.address, &b.address);
        B256::lemma_ordinal_injective(&a.slot, &b.slot);
    }

    fn ordinal(&self) -> (r: Ordinal) {
        let a = self.address.ordinal();
        let b = self.slot.ordinal();
        (a.0, a.1, b.0, b.1)
    }
}

/// A map from `K` to `V`.
pub struct KeyMap<K: Key, V> {
    entries: BTreeMap<Ordinal, (K, V)>,
}

impl<K: Key, V> KeyMap<K, V> {
    #[verifier::type_invariant]
    spec fn inv(self) -> bool {
        forall|o: Ordinal| #[trigger] self.entries@.contains_key(o) ==> self.entries@[o].0.spec_ordinal() == o
    }

    pub closed spec fn as_map(self) -> Map<K, V> {
        Map::new(
            |k: K| self.entries@.contains_key(k.spec_ordinal()) && self.entries@[k.spec_ordinal()].0 == k,
            |k: K| self.entries@[k.spec_ordinal()].1,
        )
    }

    pub fn new() -> (r: Self)
        ensures
            r@ == Map::<K, V>::empty(),
    {
        let r = KeyMap { entries: BTreeMap::new() };
        assert(r@ =~= Map::<K, V>::empty());
        r
    }

    /// Every key, once.
    pub fn keys(&self) -> (r: Vec<K>)
        ensures
            r@.no_duplicates(),
            r@.to_set() == self@.dom(),
            r@.len() == self@.len(),
            self@.dom().finite(),
    {
        proof {
            use_type_invariant(self);
        }
        let mut r: Vec<K> = Vec::new();
        let ghost ordinals = vstd::std_specs::btree::spec_keys_iter(&self.entries).remaining();
        for o in it: self.entries.keys()
            invariant
                it.seq() == ordinals,
                ordinals.unref().to_set() == self.entries@.dom(),
                r@.len() == it.index(),
                forall|j: int|
                    0 <= j < r@.len() ==> #[trigger] r@[j] == self.entries@[*ordinals[j]].0,
        {
            assert(ordinals.unref()[it.index()] == *o);
            assert(ordinals.unref().to_set().contains(*o));
            match self.entries.get(o) {
                Some(e) => {
                    r.push(e.0);
                },
                None => {},
            }
        }
        proof {
            self.lemma_listing(ordinals.unref(), r@);
        }
        r
    }

    proof fn lemma_listing(&self, ordinals: Seq<Ordinal>, keys: Seq<K>)
        requires
            self.inv(),
            ordinals.no_duplicates(),
            ordinals.to_set() == self.entries@.dom(),
            ordinals.len() == keys.len(),
            forall|j: int|
                0 <= j < keys.len() ==> #[trigger] keys[j] == self.entries@[ordinals[j]].0,
        ensures
            keys.no_duplicates(),
            keys.to_set() == self@.dom(),
            keys.len() == self@.len(),
            self@.dom().finite(),
    {
        assert forall|j: int| 0 <= j < keys.len() implies (#[trigger] keys[j]).spec_ordinal()
            == ordinals[j] by {
            assert(ordinals.to_set().contains(ordinals[j]));
        }
        assert forall|k: K| keys.to_set().contains(k) == self@.dom().contains(k) by {
            if keys.to_set().contains(k) {
                let j = choose|j: int| 0 <= j < keys.len() && keys[j] == k;
                assert(ordinals.to_set().contains(ordinals[j]));
                assert(keys[j].spec_ordinal() == ordinals[j]);
            }
            if self@.dom().contains(k) {
                assert(ordinals.to_set().contains(k.spec_ordinal()));
                let j = choose|j: int| 0 <= j < ordinals.len() && ordinals[j] == k.spec_ordinal();
                assert(keys[j] == self.entries@[ordinals[j]].0);
            }
        }
        assert(keys.to_set() =~= self@.dom());
        keys.unique_seq_to_set();
    }

    pub fn is_empty(&self) -> (r: bool)
        ensures
            r == (self@ == Map::<K, V>::empty()),
            r == (self@.dom() == Set::<K>::empty()),
    {
        proof {
            use_type_invariant(self);
        }
        let r = self.entries.is_empty();
        proof {
            if r {
                assert(self@ =~= Map::<K, V>::empty());
            } else {
                let o = choose|o: Ordinal| self.entries@.contains_key(o);
                assert(self.entries@.contains_key(o));
                assert(self@.contains_key(self.entries@[o].0));
            }
        }
        r
    }

    pub fn len(&self) -> (r: usize)
        ensures
            r == self@.len(),
            self@.dom().finite(),
    {
        self.keys().len()
    }

    /// Takes everything out.
    pub fn clear(&mut self)
        ensures
            final(self)@ == Map::<K, V>::empty(),
    {
        let fresh = BTreeMap::new();
        self.entries = fresh;
        assert(self@ =~= Map::<K, V>::empty());
    }

    pub fn contains_key(&self, k: &K) -> (r: bool)
        ensures
            r == self@.contains_key(*k),
    {
        proof {
            use_type_invariant(self);
        }
        let o = k.ordinal();
        let r = self.entries.contains_key(&o);
        proof {
            if r {
                K::lemma_ordinal_injective(&self.entries@[o].0, k);
            }
        }
        r
    }

    pub fn get(&self, k: &K) -> (r: Option<&V>)
        ensures
            match r {
                Some(v) => self@.contains_key(*k) && *v == self@[*k],
                None => !self@.contains_key(*k),
            },
    {
        proof {
            use_type_invariant(self);
        }
        let o = k.ordinal();
        match self.entries.get(&o) {
            Some(e) => {
                proof {
                    K::lemma_ordinal_injective(&self.entries@[o].0, k);
                }
                Some(&e.1)
            },
            None => None,
        }
    }

    pub fn insert(&mut self, k: K, v: V) -> (r: Option<V>)
        ensures
            final(self)@ == old(self)@.insert(k, v),
            match r {
                Some(w) => old(self)@.contains_key(k) && w == old(self)@[k],
                None => !old(self)@.contains_key(k),
            },
    {
        proof {
            use_type_invariant(&*self);
        }
        let o = k.ordinal();
        let ghost before = self.entries@;
        let mut entries = BTreeMap::new();
        std::mem::swap(&mut entries, &mut self.entries);
        let prior = entries.insert(o, (k, v));
        self.entries = entries;
        proof {
            if before.contains_key(o) {
                K::lemma_ordinal_injective(&before[o].0, &k);
            }
            assert forall|j: K| #[trigger] j.spec_ordinal() == o implies j == k by {
                K::lemma_ordinal_injective(&j, &k);
            }
            assert(self@ =~= old(self)@.insert(k, v));
        }
        match prior {
            Some(e) => Some(e.1),
            None => None,
        }
    }

    pub fn remove(&mut self, k: &K) -> (r: Option<V>)
        ensures
            final(self)@ == old(self)@.remove(*k),
            match r {
                Some(w) => old(self)@.contains_key(*k) && w == old(self)@[*k],
                None => !old(self)@.contains_key(*k),
            },
    {
        proof {
            use_type_invariant(&*self);
        }
        let o = k.ordinal();
        let ghost before = self.entries@;
        let mut entries = BTreeMap::new();
        std::mem::swap(&mut entries, &mut self.entries);
        let prior = entries.remove(&o);
        self.entries = entries;
        proof {
            if before.contains_key(o) {
                K::lemma_ordinal_injective(&before[o].0, k);
            }
            assert forall|j: K| #[trigger] j.spec_ordinal() == o implies j == *k by {
                K::lemma_ordinal_injective(&j, k);
            }
            assert(self@ =~= old(self)@.remove(*k));
        }
        match prior {
            Some(e) => Some(e.1),
            None => None,
        }
    }
}

impl<K: Key, V> View for KeyMap<K, V> {
    type V = Map<K, V>;

    open spec fn view(&self) -> Map<K, V> {
        self.as_map()
    }
}

} // verus!
