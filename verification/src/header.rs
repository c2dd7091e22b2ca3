//! Block headers, and what is computed from a header as a whole.

use vstd::prelude::*;

use crate::hashing::keccak_alloy;
use crate::primitives::{Address, FixedBytes, B256, U256};

verus! {

/// The hash of an empty list of ommers.
pub const EMPTY_OMMER_ROOT_BYTES: [u8; 32] = [
    0x1d, 0xcc, 0x4d, 0xe8, 0xde, 0xc7, 0x5d, 0x7a, 0xab, 0x85, 0xb5, 0x67, 0xb6, 0xcc, 0xd4, 0x1a,
    0xd3, 0x12, 0x45, 0x1b, 0x94, 0x8a, 0x74, 0x13, 0xf0, 0xa1, 0x42, 0xfd, 0x40, 0xd4, 0x93, 0x47,
];

/// The root of an empty trie.
pub const EMPTY_ROOT_BYTES: [u8; 32] = [
    0x56, 0xe8, 0x1f, 0x17, 0x1b, 0xcc, 0x55, 0xa6, 0xff, 0x83, 0x45, 0xe6, 0x92, 0xc0, 0xf8, 0x6e,
    0x5b, 0x48, 0xe0, 0x1b, 0x99, 0x6c, 0xad, 0xc0, 0x01, 0x62, 0x2f, 0xb5, 0xe3, 0x63, 0xb4, 0x21,
];

/// A block header.
#[derive(Clone, Debug, PartialEq, Eq)]
pub struct BlockHeader {
    pub parent_hash: B256,
    pub ommers_hash: B256,
    pub beneficiary: Address,
    pub state_root: B256,
    pub transactions_root: B256,
    pub receipts_root: B256,
    pub logs_bloom: FixedBytes<256>,
    pub difficulty: U256,
    pub number: u64,
    pub gas_limit: u64,
    pub gas_used: u64,
    pub timestamp: u64,
    pub extra_data: Vec<u8>,
    pub mix_hash: B256,
    pub nonce: FixedBytes<8>,
    pub base_fee_per_gas: Option<u64>,
    pub withdrawals_root: Option<B256>,
    pub blob_gas_used: Option<u64>,
    pub excess_blob_gas: Option<u64>,
    pub parent_beacon_block_root: Option<B256>,
    pub requests_hash: Option<B256>,
}

/// What a header says.
#[verifier::ext_equal]
pub struct HeaderView {
    pub parent_hash: B256,
    pub ommers_hash: B256,
    pub beneficiary: Address,
    pub state_root: B256,
    pub transactions_root: B256,
    pub receipts_root: B256,
    pub logs_bloom: FixedBytes<256>,
    pub difficulty: U256,
    pub number: u64,
    pub gas_limit: u64,
    pub gas_used: u64,
    pub timestamp: u64,
    pub extra_data: Seq<u8>,
    pub mix_hash: B256,
    pub nonce: FixedBytes<8>,
    pub base_fee_per_gas: Option<u64>,
    pub withdrawals_root: Option<B256>,
    pub blob_gas_used: Option<u64>,
    pub excess_blob_gas: Option<u64>,
    pub parent_beacon_block_root: Option<B256>,
    pub requests_hash: Option<B256>,
}

impl View for BlockHeader {
    type V = HeaderView;

    open spec fn view(&self) -> HeaderView {
        HeaderView {
            parent_hash: self.parent_hash,
            ommers_hash: self.ommers_hash,
            beneficiary: self.beneficiary,
            state_root: self.state_root,
            transactions_root: self.transactions_root,
            receipts_root: self.receipts_root,
            logs_bloom: self.logs_bloom,
            difficulty: self.difficulty,
            number: self.number,
            gas_limit: self.gas_limit,
            gas_used: self.gas_used,
            timestamp: self.timestamp,
            extra_data: self.extra_data@,
            mix_hash: self.mix_hash,
            nonce: self.nonce,
            base_fee_per_gas: self.base_fee_per_gas,
            withdrawals_root: self.withdrawals_root,
            blob_gas_used: self.blob_gas_used,
            excess_blob_gas: self.excess_blob_gas,
            parent_beacon_block_root: self.parent_beacon_block_root,
            requests_hash: self.requests_hash,
        }
    }
}

/// What the header of an empty block without a number says.
pub open spec fn default_header() -> HeaderView {
    HeaderView {
        parent_hash: B256::spec_zero(),
        ommers_hash: FixedBytes(EMPTY_OMMER_ROOT_BYTES),
        beneficiary: Address::spec_zero(),
        state_root: FixedBytes(EMPTY_ROOT_BYTES),
        transactions_root: FixedBytes(EMPTY_ROOT_BYTES),
        receipts_root: FixedBytes(EMPTY_ROOT_BYTES),
        logs_bloom: FixedBytes::<256>::spec_zero(),
        difficulty: U256(B256::spec_zero()),
        number: 0,
        gas_limit: 0,
        gas_used: 0,
        timestamp: 0,
        extra_data: Seq::empty(),
        mix_hash: B256::spec_zero(),
        nonce: FixedBytes::<8>::spec_zero(),
        base_fee_per_gas: None,
        withdrawals_root: None,
        blob_gas_used: None,
        excess_blob_gas: None,
        parent_beacon_block_root: None,
        requests_hash: None,
    }
}

impl BlockHeader {
    /// The header of an empty block without a number.
    pub fn empty() -> (r: Self)
        ensures
            r@ == default_header(),
    {
        let r = BlockHeader {
            parent_hash: B256::zero(),
            ommers_hash: FixedBytes(EMPTY_OMMER_ROOT_BYTES),
            beneficiary: Address::zero(),
            state_root: FixedBytes(EMPTY_ROOT_BYTES),
            transactions_root: FixedBytes(EMPTY_ROOT_BYTES),
            receipts_root: FixedBytes(EMPTY_ROOT_BYTES),
            logs_bloom: FixedBytes::<256>::zero(),
            difficulty: U256(B256::zero()),
            number: 0,
            gas_limit: 0,
            gas_used: 0,
            timestamp: 0,
            extra_data: Vec::new(),
            mix_hash: B256::zero(),
            nonce: FixedBytes::<8>::zero(),
            base_fee_per_gas: None,
            withdrawals_root: None,
            blob_gas_used: None,
            excess_blob_gas: None,
            parent_beacon_block_root: None,
            requests_hash: None,
        };
        assert(r@ =~= default_header());
        r
    }

    /// The same header once more.
    pub fn copy(&self) -> (r: Self)
        ensures
            r@ == self@,
    {
        let r = BlockHeader {
            parent_hash: self.parent_hash,
            ommers_hash: self.ommers_hash,
            beneficiary: self.beneficiary,
            state_root: self.state_root,
            transactions_root: self.transactions_root,
            receipts_root: self.receipts_root,
            logs_bloom: self.logs_bloom,
            difficulty: self.difficulty,
            number: self.number,
            gas_limit: self.gas_limit,
            gas_used: self.gas_used,
            timestamp: self.timestamp,
            extra_data: vstd::slice::slice_to_vec(self.extra_data.as_slice()),
            mix_hash: self.mix_hash,
            nonce: self.nonce,
            base_fee_per_gas: self.base_fee_per_gas,
            withdrawals_root: self.withdrawals_root,
            blob_gas_used: self.blob_gas_used,
            excess_blob_gas: self.excess_blob_gas,
            parent_beacon_block_root: self.parent_beacon_block_root,
            requests_hash: self.requests_hash,
        };
        assert(r@ =~= self@);
        r
    }
}

impl Default for BlockHeader {
    fn default() -> (r: Self)
        ensures
            r@ == default_header(),
    {
        Self::empty()
    }
}

/// What consensus fixes of a block before it is executed.
#[derive(Clone, Copy, Debug, PartialEq, Eq)]
pub struct ProposedEthHeader {
    pub ommers_hash: B256,
    pub beneficiary: Address,
    pub transactions_root: B256,
    pub difficulty: u64,
    pub number: u64,
    pub gas_limit: u64,
    pub timestamp: u64,
    pub extra_data: B256,
    pub mix_hash: B256,
    pub nonce: FixedBytes<8>,
    pub base_fee_per_gas: u64,
    pub withdrawals_root: B256,
    pub blob_gas_used: u64,
    pub excess_blob_gas: u64,
    pub parent_beacon_block_root: B256,
    pub requests_hash: Option<B256>,
}

impl Default for ProposedEthHeader {
    fn default() -> (r: Self)
        ensures
            r == (ProposedEthHeader {
                ommers_hash: B256::spec_zero(),
                beneficiary: Address::spec_zero(),
                transactions_root: B256::spec_zero(),
                difficulty: 0,
                number: 0,
                gas_limit: 0,
                timestamp: 0,
                extra_data: B256::spec_zero(),
                mix_hash: B256::spec_zero(),
                nonce: FixedBytes::<8>::spec_zero(),
                base_fee_per_gas: 0,
                withdrawals_root: B256::spec_zero(),
                blob_gas_used: 0,
                excess_blob_gas: 0,
                parent_beacon_block_root: B256::spec_zero(),
                requests_hash: None,
            }),
    {
        ProposedEthHeader {
            ommers_hash: B256::zero(),
            beneficiary: Address::zero(),
            transactions_root: B256::zero(),
            difficulty: 0,
            number: 0,
            gas_limit: 0,
            timestamp: 0,
            extra_data: B256::zero(),
            mix_hash: B256::zero(),
            nonce: FixedBytes::<8>::zero(),
            base_fee_per_gas: 0,
            withdrawals_root: B256::zero(),
            blob_gas_used: 0,
            excess_blob_gas: 0,
            parent_beacon_block_root: B256::zero(),
            requests_hash: None,
        }
    }
}

#[verifier::external_type_specification]
#[verifier::external_body]
pub struct ExAlloyHeader(alloy_consensus::Header);

/// The words of a header as the fields of an `alloy_consensus::Header`; its numbers are left at
/// their defaults.
#[verifier::external_body]
fn alloy_words(h: &BlockHeader) -> (r: alloy_consensus::Header) {
    alloy_consensus::Header {
        parent_hash: h.parent_hash.0.into(),
        ommers_hash: h.ommers_hash.0.into(),
        beneficiary: h.beneficiary.0.into(),
        state_root: h.state_root.0.into(),
        transactions_root: h.transactions_root.0.into(),
        receipts_root: h.receipts_root.0.into(),
        logs_bloom: h.logs_bloom.0.into(),
        difficulty: alloy_primitives::U256::from_be_bytes(h.difficulty.0.0),
        mix_hash: h.mix_hash.0.into(),
        nonce: h.nonce.0.into(),
        extra_data: h.extra_data.clone().into(),
        ..Default::default()
    }
}

/// A header as an `alloy_consensus::Header` with the same fields.
#[verifier::external_body]
fn to_alloy(h: &BlockHeader) -> (r: alloy_consensus::Header) {
    alloy_consensus::Header {
        number: h.number,
        gas_limit: h.gas_limit,
        gas_used: h.gas_used,
        timestamp: h.timestamp,
        base_fee_per_gas: h.base_fee_per_gas,
        withdrawals_root: h.withdrawals_root.map(|w| w.0.into()),
        blob_gas_used: h.blob_gas_used,
        excess_blob_gas: h.excess_blob_gas,
        parent_beacon_block_root: h.parent_beacon_block_root.map(|w| w.0.into()),
        requests_hash: h.requests_hash.map(|w| w.0.into()),
        ..alloy_words(h)
    }
}

/// The numbers of an `alloy_consensus::Header`, on top of the words that are there.
#[verifier::external_body]
fn with_alloy_numbers(h: &alloy_consensus::Header, words: BlockHeader) -> (r: BlockHeader) {
    BlockHeader {
        number: h.number,
        gas_limit: h.gas_limit,
        gas_used: h.gas_used,
        timestamp: h.timestamp,
        base_fee_per_gas: h.base_fee_per_gas,
        withdrawals_root: h.withdrawals_root.map(|w| FixedBytes(w.0)),
        blob_gas_used: h.blob_gas_used,
        excess_blob_gas: h.excess_blob_gas,
        parent_beacon_block_root: h.parent_beacon_block_root.map(|w| FixedBytes(w.0)),
        requests_hash: h.requests_hash.map(|w| FixedBytes(w.0)),
        ..words
    }
}

/// The words of an `alloy_consensus::Header`, on top of the numbers that are there.
#[verifier::external_body]
fn with_alloy_words(h: &alloy_consensus::Header, base: BlockHeader) -> (r: BlockHeader) {
    BlockHeader {
        parent_hash: FixedBytes(h.parent_hash.0),
        ommers_hash: FixedBytes(h.ommers_hash.0),
        beneficiary: FixedBytes(h.beneficiary.0.0),
        state_root: FixedBytes(h.state_root.0),
        transactions_root: FixedBytes(h.transactions_root.0),
        receipts_root: FixedBytes(h.receipts_root.0),
        logs_bloom: FixedBytes(h.logs_bloom.0.0),
        difficulty: U256(FixedBytes(h.difficulty.to_be_bytes())),
        mix_hash: FixedBytes(h.mix_hash.0),
        nonce: FixedBytes(h.nonce.0),
        extra_data: h.extra_data.to_vec(),
        ..base
    }
}

/// What `alloy_rlp::encode` gives for an `alloy_consensus::Header` that says this.
pub uninterp spec fn header_rlp(h: HeaderView) -> Seq<u8>;

/// The hash of a header that says this: that of its RLP encoding.
pub open spec fn header_hash(h: HeaderView) -> B256 {
    keccak_alloy(header_rlp(h))
}

/// What the header says that `alloy_consensus::Header::decode` reads from the start of some bytes.
pub uninterp spec fn decoded_header(rlp: Seq<u8>) -> Option<HeaderView>;

/// `alloy_consensus::Header::hash_slow`: the Keccak-256 hash of the header's RLP encoding, which
/// depends on the fields alone.
#[verifier::external_body]
pub(crate) fn hash_slow(h: &BlockHeader) -> (r: B256)
    ensures
        r == header_hash(h@),
{
    FixedBytes(to_alloy(h).hash_slow().0)
}

/// Whether the fields that later rules added are there in the order in which they were added.
pub open spec fn in_order_of_addition(h: HeaderView) -> bool {
    &&& h.withdrawals_root is Some ==> h.base_fee_per_gas is Some
    &&& h.blob_gas_used is Some ==> h.withdrawals_root is Some
    &&& h.excess_blob_gas is Some ==> h.blob_gas_used is Some
    &&& h.parent_beacon_block_root is Some ==> h.excess_blob_gas is Some
    &&& h.requests_hash is Some ==> h.parent_beacon_block_root is Some
}

/// `alloy_rlp::encode` on an `alloy_consensus::Header`: its RLP encoding, which depends on the
/// fields alone. A header whose added fields are there in order is what `Header::decode` reads
/// back.
#[verifier::external_body]
pub(crate) fn encode_rlp(h: &BlockHeader) -> (r: Vec<u8>)
    ensures
        r@ == header_rlp(h@),
        in_order_of_addition(h@) ==> decoded_header(r@) == Some(h@),
{
    alloy_rlp::encode(to_alloy(h))
}

/// `alloy_consensus::Header::decode`: the header that the bytes start with, if they start with one,
/// which depends on the bytes alone. All of `blank` is overwritten.
#[verifier::external_body]
fn decode_rlp(rlp: &[u8], blank: BlockHeader) -> (r: Option<BlockHeader>)
    ensures
        match r {
            Some(h) => decoded_header(rlp@) == Some(h@),
            None => decoded_header(rlp@) is None,
        },
{
    let mut buf = rlp;
    let h: alloy_consensus::Header = alloy_rlp::Decodable::decode(&mut buf).ok()?;
    Some(with_alloy_words(&h, with_alloy_numbers(&h, blank)))
}

/// The RLP encoding of a header.
pub fn encode_header(header: &BlockHeader) -> (r: Vec<u8>)
    ensures
        r@ == header_rlp(header@),
        in_order_of_addition(header@) ==> decoded_header(r@) == Some(header@),
{
    encode_rlp(header)
}

/// The header that some bytes start with, if they start with one.
pub fn decode_header(rlp: &[u8]) -> (r: Option<BlockHeader>)
    ensures
        match r {
            Some(h) => decoded_header(rlp@) == Some(h@),
            None => decoded_header(rlp@) is None,
        },
{
    decode_rlp(rlp, BlockHeader::empty())
}

/// `alloy_consensus::Header::size`: how much memory a header takes, which depends on the machine; it
/// is never less than its extra data.
#[verifier::external_body]
pub(crate) fn header_size(h: &BlockHeader) -> (r: usize)
    ensures
        r >= h.extra_data@.len(),
{
    to_alloy(h).size()
}

/// What a header says is what it holds.
pub proof fn lemma_header_says_what_it_holds(h: BlockHeader)
    ensures
        h@.parent_hash == h.parent_hash,
        h@.ommers_hash == h.ommers_hash,
        h@.beneficiary == h.beneficiary,
        h@.state_root == h.state_root,
        h@.transactions_root == h.transactions_root,
        h@.receipts_root == h.receipts_root,
        h@.logs_bloom == h.logs_bloom,
        h@.difficulty == h.difficulty,
        h@.number == h.number,
        h@.gas_limit == h.gas_limit,
        h@.gas_used == h.gas_used,
        h@.timestamp == h.timestamp,
        h@.extra_data == h.extra_data@,
        h@.mix_hash == h.mix_hash,
        h@.nonce == h.nonce,
        h@.base_fee_per_gas == h.base_fee_per_gas,
        h@.withdrawals_root == h.withdrawals_root,
        h@.blob_gas_used == h.blob_gas_used,
        h@.excess_blob_gas == h.excess_blob_gas,
        h@.parent_beacon_block_root == h.parent_beacon_block_root,
        h@.requests_hash == h.requests_hash,
{
}

} // verus!
