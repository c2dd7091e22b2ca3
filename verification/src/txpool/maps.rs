//! The maps that the bridge shares between its users.

use vstd::prelude::*;

use crate::primitives::{Address, FixedBytes, TxHash};
use crate::txpool::bridge::TxEntry;

verus! {

#[verifier::external_type_specification]
#[verifier::external_body]
#[verifier::reject_recursive_types(K)]
#[verifier::reject_recursive_types(V)]
#[verifier::reject_recursive_types(S)]
pub struct ExDashMap<K, V, S>(dashmap::DashMap<K, V, S>);

/// The transactions that a map holds, by their hashes.
pub uninterp spec fn status_contents(m: dashmap::DashMap<[u8; 32], TxEntry>) -> Map<TxHash, TxEntry>;

/// The senders that a map holds, by the hashes of their transactions.
pub uninterp spec fn sender_contents(m: dashmap::DashMap<[u8; 32], [u8; 20]>) -> Map<TxHash, Address>;

/// The hashes of transactions that a map holds, by their senders.
pub uninterp spec fn hashes_contents(m: dashmap::DashMap<[u8; 20], Vec<TxHash>>) -> Map<Address, Seq<TxHash>>;

/// `dashmap::DashMap::new`: a map that holds nothing.
#[verifier::external_body]
pub(crate) fn new_status_map() -> (r: dashmap::DashMap<[u8; 32], TxEntry>)
    ensures
        status_contents(r) == (Map::<TxHash, TxEntry>::empty()),
{
    dashmap::DashMap::new()
}

/// `dashmap::DashMap::get`: a copy of the value under a key, if there is one.
#[verifier::external_body]
pub(crate) fn status_get(m: &dashmap::DashMap<[u8; 32], TxEntry>, hash: &TxHash) -> (r: Option<TxEntry>)
    ensures
        match r {
            Some(e) => status_contents(*m).contains_key(*hash) && status_contents(*m)[*hash] == e,
            None => !status_contents(*m).contains_key(*hash),
        },
{
    m.get(&hash.0).map(|e| *e.value())
}

/// `dashmap::DashMap::insert`: the value under a key is set, whether or not there was one.
#[verifier::external_body]
pub(crate) fn status_insert(m: &mut dashmap::DashMap<[u8; 32], TxEntry>, hash: &TxHash, entry: TxEntry)
    ensures
        status_contents(*final(m)) == status_contents(*old(m)).insert(*hash, entry),
{
    m.insert(hash.0, entry);
}

/// `dashmap::DashMap::remove`: the value under a key is taken out, if there is one.
#[verifier::external_body]
pub(crate) fn status_remove(m: &mut dashmap::DashMap<[u8; 32], TxEntry>, hash: &TxHash) -> (r: bool)
    ensures
        r == status_contents(*old(m)).contains_key(*hash),
        status_contents(*final(m)) == status_contents(*old(m)).remove(*hash),
{
    m.remove(&hash.0).is_some()
}

/// `dashmap::DashMap::iter`: every key once, in some order.
#[verifier::external_body]
pub(crate) fn status_keys(m: &dashmap::DashMap<[u8; 32], TxEntry>) -> (r: Vec<TxHash>)
    ensures
        r@.no_duplicates(),
        r@.to_set() == status_contents(*m).dom(),
{
    m.iter().map(|e| FixedBytes(*e.key())).collect()
}

/// `dashmap::DashMap::new`: a map that holds nothing.
#[verifier::external_body]
pub(crate) fn new_sender_map() -> (r: dashmap::DashMap<[u8; 32], [u8; 20]>)
    ensures
        sender_contents(r) == (Map::<TxHash, Address>::empty()),
{
    dashmap::DashMap::new()
}

/// `dashmap::DashMap::insert`: the value under a key is set, whether or not there was one.
#[verifier::external_body]
pub(crate) fn sender_insert(m: &mut dashmap::DashMap<[u8; 32], [u8; 20]>, hash: &TxHash, address: &Address)
    ensures
        sender_contents(*final(m)) == sender_contents(*old(m)).insert(*hash, *address),
{
    m.insert(hash.0, address.0);
}

/// `dashmap::DashMap::remove`: the value under a key is taken out, if there is one.
#[verifier::external_body]
pub(crate) fn sender_remove(m: &mut dashmap::DashMap<[u8; 32], [u8; 20]>, hash: &TxHash) -> (r: Option<Address>)
    ensures
        match r {
            Some(a) => sender_contents(*old(m)).contains_key(*hash) && sender_contents(
                *old(m),
            )[*hash] == a,
            None => !sender_contents(*old(m)).contains_key(*hash),
        },
        sender_contents(*final(m)) == sender_contents(*old(m)).remove(*hash),
{
    m.remove(&hash.0).map(|e| FixedBytes(e.1))
}

/// `dashmap::DashMap::new`: a map that holds nothing.
#[verifier::external_body]
pub(crate) fn new_hashes_map() -> (r: dashmap::DashMap<[u8; 20], Vec<TxHash>>)
    ensures
        hashes_contents(r) == (Map::<Address, Seq<TxHash>>::empty()),
{
    dashmap::DashMap::new()
}

/// `dashmap::DashMap::get`: a copy of the value under a key, if there is one.
#[verifier::external_body]
pub(crate) fn hashes_get(m: &dashmap::DashMap<[u8; 20], Vec<TxHash>>, address: &Address) -> (r: Option<Vec<TxHash>>)
    ensures
        match r {
            Some(v) => hashes_contents(*m).contains_key(*address) && hashes_contents(*m)[*address]
                == v@,
            None => !hashes_contents(*m).contains_key(*address),
        },
{
    m.get(&address.0).map(|e| e.value().clone())
}

/// `dashmap::DashMap::insert`: the value under a key is set, whether or not there was one.
#[verifier::external_body]
pub(crate) fn hashes_insert(m: &mut dashmap::DashMap<[u8; 20], Vec<TxHash>>, address: &Address, hashes: Vec<TxHash>)
    ensures
        hashes_contents(*final(m)) == hashes_contents(*old(m)).insert(*address, hashes@),
{
    m.insert(address.0, hashes);
}

/// `dashmap::DashMap::remove`: the value under a key is taken out, if there is one.
#[verifier::external_body]
pub(crate) fn hashes_remove(m: &mut dashmap::DashMap<[u8; 20], Vec<TxHash>>, address: &Address)
    ensures
        hashes_contents(*final(m)) == hashes_contents(*old(m)).remove(*address),
{
    m.remove(&address.0);
}

/// `dashmap::DashMap::iter`: every key once, in some order.
#[verifier::external_body]
pub(crate) fn hashes_keys(m: &dashmap::DashMap<[u8; 20], Vec<TxHash>>) -> (r: Vec<Address>)
    ensures
        r@.no_duplicates(),
        r@.to_set() == hashes_contents(*m).dom(),
{
    m.iter().map(|e| FixedBytes(*e.key())).collect()
}

} // verus!
