//! The ledger of consensus blocks: where headers, bodies and heads are kept, and what is read back.

use vstd::prelude::*;

use crate::primitives::{BlockId, B256};

verus! {

/// The directory below the ledger that the store is in.
pub const BLOCK_LEDGER_ROCKSDB_DIR: &'static str = "rocksdb";

/// The file below the ledger that is written whenever a head changes.
pub const LEDGER_HEAD_NOTIFY_FILE: &'static str = ".ledger_head_notify";

/// The directory that headers were kept in before there was a store.
pub const BLOCKDB_HEADERS_PATH: &'static str = "headers";

/// `v1/h/`, which the key of a header starts with.
pub const HEADER_PREFIX: [u8; 5] = [0x76, 0x31, 0x2f, 0x68, 0x2f];

/// `v1/b/`, which the key of a body starts with.
pub const BODY_PREFIX: [u8; 5] = [0x76, 0x31, 0x2f, 0x62, 0x2f];

/// `v1/meta/proposed_head`, the key of the head that was proposed last.
pub const KEY_META_PROPOSED: [u8; 21] = [
    0x76, 0x31, 0x2f, 0x6d, 0x65, 0x74, 0x61, 0x2f, 0x70, 0x72, 0x6f, 0x70, 0x6f, 0x73, 0x65, 0x64,
    0x5f, 0x68, 0x65, 0x61, 0x64,
];

/// `v1/meta/voted_head`, the key of the head that was voted for last.
pub const KEY_META_VOTED: [u8; 18] = [
    0x76, 0x31, 0x2f, 0x6d, 0x65, 0x74, 0x61, 0x2f, 0x76, 0x6f, 0x74, 0x65, 0x64, 0x5f, 0x68, 0x65,
    0x61, 0x64,
];

/// `v1/meta/finalized_head`, the key of the head that was finalized last.
pub const KEY_META_FINALIZED: [u8; 22] = [
    0x76, 0x31, 0x2f, 0x6d, 0x65, 0x74, 0x61, 0x2f, 0x66, 0x69, 0x6e, 0x61, 0x6c, 0x69, 0x7a, 0x65,
    0x64, 0x5f, 0x68, 0x65, 0x61, 0x64,
];

/// The identity of a body.
#[derive(Clone, Copy, Debug)]
pub struct ConsensusBlockBodyId(pub B256);

/// The key of a header.
pub open spec fn spec_header_key(block_id: BlockId) -> Seq<u8> {
    HEADER_PREFIX@ + block_id.0@
}

/// The key of a header.
pub fn header_key(block_id: &BlockId) -> (r: Vec<u8>)
    ensures
        r@ == spec_header_key(*block_id),
{
    let prefix = HEADER_PREFIX;
    let mut k = vstd::slice::slice_to_vec(prefix.as_slice());
    k.extend_from_slice(block_id.0.as_slice());
    assert(k@ =~= spec_header_key(*block_id));
    k
}

/// The key of a body.
pub open spec fn spec_body_key(body_id: ConsensusBlockBodyId) -> Seq<u8> {
    BODY_PREFIX@ + body_id.0@
}

/// The key of a body.
pub fn body_key(body_id: &ConsensusBlockBodyId) -> (r: Vec<u8>)
    ensures
        r@ == spec_body_key(*body_id),
{
    let prefix = BODY_PREFIX;
    let mut k = vstd::slice::slice_to_vec(prefix.as_slice());
    k.extend_from_slice(body_id.0.as_slice());
    assert(k@ =~= spec_body_key(*body_id));
    k
}

/// A head of the ledger.
#[derive(Clone, Copy, Debug, PartialEq, Eq, Structural)]
pub enum Head {
    Proposed,
    Voted,
    Finalized,
}

/// The key of a head.
pub open spec fn spec_head_key(head: Head) -> Seq<u8> {
    match head {
        Head::Proposed => KEY_META_PROPOSED@,
        Head::Voted => KEY_META_VOTED@,
        Head::Finalized => KEY_META_FINALIZED@,
    }
}

/// The key of a head.
pub fn head_key(head: Head) -> (r: Vec<u8>)
    ensures
        r@ == spec_head_key(head),
{
    match head {
        Head::Proposed => {
            let key = KEY_META_PROPOSED;
            vstd::slice::slice_to_vec(key.as_slice())
        },
        Head::Voted => {
            let key = KEY_META_VOTED;
            vstd::slice::slice_to_vec(key.as_slice())
        },
        Head::Finalized => {
            let key = KEY_META_FINALIZED;
            vstd::slice::slice_to_vec(key.as_slice())
        },
    }
}

/// A write to the store.
pub struct LedgerPut {
    pub key: Vec<u8>,
    pub value: Vec<u8>,
}

/// The write that sets a head: the identity of the block, under the key of the head.
pub fn put_head(head: Head, block_id: &BlockId) -> (r: LedgerPut)
    ensures
        r.key@ == spec_head_key(head),
        r.value@ == block_id.0@,
{
    LedgerPut { key: head_key(head), value: vstd::slice::slice_to_vec(block_id.0.as_slice()) }
}

/// The write that keeps a header or a body, where `stored` tells whether the store has one under
/// its key already. What is there stays.
pub fn put_once(stored: bool, key: Vec<u8>, encoded: Vec<u8>) -> (r: Option<LedgerPut>)
    ensures
        match r {
            Some(put) => !stored && put.key == key && put.value == encoded,
            None => stored,
        },
{
    if stored {
        None
    } else {
        Some(LedgerPut { key, value: encoded })
    }
}

/// Why something cannot be read from the ledger.
#[derive(Clone, Copy, Debug, PartialEq, Eq, Structural)]
pub enum LedgerError {
    NoProposedHead,
    CorruptProposedHead,
    HeaderNotFound,
    BodyNotFound,
}

impl LedgerError {
    /// What an error says.
    pub open spec fn spec_message(self) -> Seq<char> {
        match self {
            LedgerError::NoProposedHead => "ledger has no proposed head"@,
            LedgerError::CorruptProposedHead => "corrupt proposed head id"@,
            LedgerError::HeaderNotFound => "bft header not found"@,
            LedgerError::BodyNotFound => "bft body not found"@,
        }
    }

    /// What an error says.
    pub fn message(&self) -> (r: &'static str)
        ensures
            r@ == self.spec_message(),
    {
        match self {
            LedgerError::NoProposedHead => "ledger has no proposed head",
            LedgerError::CorruptProposedHead => "corrupt proposed head id",
            LedgerError::HeaderNotFound => "bft header not found",
            LedgerError::BodyNotFound => "bft body not found",
        }
    }

    /// Whether something is missing, rather than damaged.
    pub fn is_not_found(&self) -> (r: bool)
        ensures
            r == !(self is CorruptProposedHead),
    {
        match self {
            LedgerError::CorruptProposedHead => false,
            _ => true,
        }
    }
}

/// The block that was proposed last, from what the store has under the key of that head.
pub fn parse_proposed_head(raw: &Option<Vec<u8>>) -> (r: Result<BlockId, LedgerError>)
    ensures
        match (*raw, r) {
            (None, Err(e)) => e == LedgerError::NoProposedHead,
            (Some(bytes), Ok(id)) => id.0@ == bytes@,
            (Some(bytes), Err(e)) => bytes@.len() != 32 && e == LedgerError::CorruptProposedHead,
            (None, Ok(_)) => false,
        },
{
    match raw {
        None => Err(LedgerError::NoProposedHead),
        Some(bytes) => {
            if bytes.len() != 32 {
                return Err(LedgerError::CorruptProposedHead);
            }
            let id = B256::from_slice_at(bytes.as_slice(), 0);
            assert(bytes@.subrange(0, 32) =~= bytes@);
            Ok(BlockId(id))
        },
    }
}

/// A header, from what the store has under its key.
pub fn find_header(raw: Option<Vec<u8>>) -> (r: Result<Vec<u8>, LedgerError>)
    ensures
        r == match raw {
            Some(bytes) => Ok(bytes),
            None => Err(LedgerError::HeaderNotFound),
        },
{
    match raw {
        Some(bytes) => Ok(bytes),
        None => Err(LedgerError::HeaderNotFound),
    }
}

/// A body, from what the store has under its key.
pub fn find_body(raw: Option<Vec<u8>>) -> (r: Result<Vec<u8>, LedgerError>)
    ensures
        r == match raw {
            Some(bytes) => Ok(bytes),
            None => Err(LedgerError::BodyNotFound),
        },
{
    match raw {
        Some(bytes) => Ok(bytes),
        None => Err(LedgerError::BodyNotFound),
    }
}

/// What the store holds after a header or a body was kept.
pub open spec fn after_put_once(db: Map<Seq<u8>, Seq<u8>>, key: Seq<u8>, value: Seq<u8>) -> Map<
    Seq<u8>,
    Seq<u8>,
> {
    if db.contains_key(key) {
        db
    } else {
        db.insert(key, value)
    }
}

/// What the store holds after a head was set.
pub open spec fn after_put_head(db: Map<Seq<u8>, Seq<u8>>, head: Head, block_id: BlockId) -> Map<
    Seq<u8>,
    Seq<u8>,
> {
    db.insert(spec_head_key(head), block_id.0@)
}

/// Different headers have different keys, and so do different bodies.
pub proof fn lemma_keys_tell_blocks_apart(a: BlockId, b: BlockId, c: ConsensusBlockBodyId, d: ConsensusBlockBodyId)
    ensures
        spec_header_key(a) == spec_header_key(b) ==> a == b,
        spec_body_key(c) == spec_body_key(d) ==> c == d,
{
    if spec_header_key(a) == spec_header_key(b) {
        assert(spec_header_key(a).skip(5) =~= a.0@);
        assert(spec_header_key(b).skip(5) =~= b.0@);
        crate::primitives::lemma_fixed_bytes_ext(a.0, b.0);
    }
    if spec_body_key(c) == spec_body_key(d) {
        assert(spec_body_key(c).skip(5) =~= c.0@);
        assert(spec_body_key(d).skip(5) =~= d.0@);
        crate::primitives::lemma_fixed_bytes_ext(c.0, d.0);
    }
}

/// Headers, bodies and heads are kept apart.
pub proof fn lemma_keys_are_disjoint(id: BlockId, body: ConsensusBlockBodyId, head: Head, other: Head)
    ensures
        spec_header_key(id) != spec_body_key(body),
        spec_header_key(id) != spec_head_key(head),
        spec_body_key(body) != spec_head_key(head),
        head != other ==> spec_head_key(head) != spec_head_key(other),
{
    assert(spec_header_key(id)[3] == HEADER_PREFIX[3]);
    assert(spec_body_key(body)[3] == BODY_PREFIX[3]);
    assert(spec_header_key(id).len() == 37);
    assert(spec_body_key(body).len() == 37);
}

/// What was kept first under a key stays: keeping something else there changes nothing.
pub proof fn lemma_kept_once(db: Map<Seq<u8>, Seq<u8>>, key: Seq<u8>, value: Seq<u8>, other: Seq<u8>)
    ensures
        after_put_once(db, key, value).contains_key(key),
        after_put_once(after_put_once(db, key, value), key, other) == after_put_once(
            db,
            key,
            value,
        ),
        !db.contains_key(key) ==> after_put_once(db, key, value)[key] == value,
{
}

/// A head that was set is the head that is read, and the blocks that are kept stay as they are.
pub proof fn lemma_head_reads_back(
    db: Map<Seq<u8>, Seq<u8>>,
    head: Head,
    block_id: BlockId,
    kept: BlockId,
    body: ConsensusBlockBodyId,
)
    ensures
        ({
            let after = after_put_head(db, head, block_id);
            &&& after[spec_head_key(head)] == block_id.0@
            &&& after.contains_key(spec_header_key(kept)) == db.contains_key(spec_header_key(kept))
            &&& after[spec_header_key(kept)] == db[spec_header_key(kept)]
            &&& after.contains_key(spec_body_key(body)) == db.contains_key(spec_body_key(body))
            &&& after[spec_body_key(body)] == db[spec_body_key(body)]
        }),
{
    lemma_keys_are_disjoint(kept, body, head, head);
}

/// The key of a header is `v1/h/` and the id of its block; that of a body is `v1/b/` and its id.
pub proof fn lemma_keys_are_prefix_and_id(id: BlockId, body: ConsensusBlockBodyId)
    ensures
        spec_header_key(id) == seq![0x76u8, 0x31u8, 0x2fu8, 0x68u8, 0x2fu8] + id.0@,
        spec_body_key(body) == seq![0x76u8, 0x31u8, 0x2fu8, 0x62u8, 0x2fu8] + body.0@,
{
    assert(HEADER_PREFIX@ =~= seq![0x76u8, 0x31u8, 0x2fu8, 0x68u8, 0x2fu8]);
    assert(BODY_PREFIX@ =~= seq![0x76u8, 0x31u8, 0x2fu8, 0x62u8, 0x2fu8]);
}

/// What is kept under a key that was free is read back from it, and nothing else changes.
pub proof fn lemma_kept_block_reads_back(
    db: Map<Seq<u8>, Seq<u8>>,
    key: Seq<u8>,
    value: Seq<u8>,
    other: Seq<u8>,
)
    ensures
        ({
            let after = after_put_once(db, key, value);
            &&& after.contains_key(key)
            &&& after[key] == if db.contains_key(key) {
                db[key]
            } else {
                value
            }
            &&& other != key ==> after.contains_key(other) == db.contains_key(other) && (
            db.contains_key(other) ==> after[other] == db[other])
        }),
{
}

/// An error of the ledger names what is missing or damaged.
pub proof fn lemma_errors_name_what_is_missing(e: LedgerError)
    ensures
        e is NoProposedHead ==> e.spec_message() == "ledger has no proposed head"@,
        e is CorruptProposedHead ==> e.spec_message() == "corrupt proposed head id"@,
        e is HeaderNotFound ==> e.spec_message() == "bft header not found"@,
        e is BodyNotFound ==> e.spec_message() == "bft body not found"@,
{
}

/// Each head has a key of its own, which spells its name.
pub proof fn lemma_heads_are_named()
    ensures
        spec_head_key(Head::Proposed).len() == 21,
        spec_head_key(Head::Voted).len() == 18,
        spec_head_key(Head::Finalized).len() == 22,
        spec_head_key(Head::Proposed).subrange(8, 16) == seq![
            0x70u8,
            0x72u8,
            0x6fu8,
            0x70u8,
            0x6fu8,
            0x73u8,
            0x65u8,
            0x64u8,
        ],
        spec_head_key(Head::Voted).subrange(8, 13) == seq![0x76u8, 0x6fu8, 0x74u8, 0x65u8, 0x64u8],
        spec_head_key(Head::Finalized).subrange(8, 17) == seq![
            0x66u8,
            0x69u8,
            0x6eu8,
            0x61u8,
            0x6cu8,
            0x69u8,
            0x7au8,
            0x65u8,
            0x64u8,
        ],
{
    assert(spec_head_key(Head::Proposed).subrange(8, 16) =~= seq![
        0x70u8,
        0x72u8,
        0x6fu8,
        0x70u8,
        0x6fu8,
        0x73u8,
        0x65u8,
        0x64u8,
    ]);
    assert(spec_head_key(Head::Voted).subrange(8, 13) =~= seq![
        0x76u8,
        0x6fu8,
        0x74u8,
        0x65u8,
        0x64u8,
    ]);
    assert(spec_head_key(Head::Finalized).subrange(8, 17) =~= seq![
        0x66u8,
        0x69u8,
        0x6eu8,
        0x61u8,
        0x6cu8,
        0x69u8,
        0x7au8,
        0x65u8,
        0x64u8,
    ]);
}

} // verus!
