//! Fixed-size byte values, block identities and sequence numbers.

use vstd::prelude::*;

verus! {

/// The natural number that `s` spells in base 256, most significant digit first.
pub open spec fn be_value(s: Seq<u8>) -> nat
    decreases s.len(),
{
    if s.len() == 0 {
        0
    } else {
        be_value(s.drop_last()) * 256 + s.last() as nat
    }
}

/// The last `len` base-256 digits of `n`, most significant digit first.
pub open spec fn be_bytes(n: nat, len: nat) -> Seq<u8>
    decreases len,
{
    if len == 0 {
        Seq::empty()
    } else {
        be_bytes(n / 256, (len - 1) as nat).push((n % 256) as u8)
    }
}

/// `256` to the power `len`.
pub open spec fn pow256(len: nat) -> nat
    decreases len,
{
    if len == 0 {
        1
    } else {
        pow256((len - 1) as nat) * 256
    }
}

pub proof fn lemma_be_value_bound(s: Seq<u8>)
    ensures
        be_value(s) < pow256(s.len()),
    decreases s.len(),
{
    if s.len() > 0 {
        lemma_be_value_bound(s.drop_last());
    }
}

pub proof fn lemma_be_value_injective(s: Seq<u8>, t: Seq<u8>)
    requires
        s.len() == t.len(),
        be_value(s) == be_value(t),
    ensures
        s == t,
    decreases s.len(),
{
    if s.len() > 0 {
        lemma_be_value_injective(s.drop_last(), t.drop_last());
        assert(s =~= s.drop_last().push(s.last()));
        assert(t =~= t.drop_last().push(t.last()));
    } else {
        assert(s =~= t);
    }
}

pub proof fn lemma_be_bytes_len(n: nat, len: nat)
    ensures
        be_bytes(n, len).len() == len,
    decreases len,
{
    if len > 0 {
        lemma_be_bytes_len(n / 256, (len - 1) as nat);
    }
}

/// Writing a number that fits and reading it back gives the number.
pub proof fn lemma_be_value_of_bytes(n: nat, len: nat)
    requires
        n < pow256(len),
    ensures
        be_value(be_bytes(n, len)) == n,
    decreases len,
{
    if len > 0 {
        lemma_be_value_of_bytes(n / 256, (len - 1) as nat);
        let s = be_bytes(n, len);
        assert(s.drop_last() =~= be_bytes(n / 256, (len - 1) as nat));
    }
}

/// Reading digits and writing them back gives the digits.
pub proof fn lemma_be_bytes_of_value(s: Seq<u8>)
    ensures
        be_bytes(be_value(s), s.len()) == s,
    decreases s.len(),
{
    if s.len() > 0 {
        lemma_be_bytes_of_value(s.drop_last());
        assert(be_value(s) / 256 == be_value(s.drop_last()));
        assert(s =~= s.drop_last().push(s.last()));
    } else {
        assert(s =~= be_bytes(be_value(s), s.len()));
    }
}

proof fn lemma_pow256_16()
    ensures
        pow256(16) == 0x1_0000_0000_0000_0000_0000_0000_0000_0000,
{
    reveal_with_fuel(pow256, 17);
}

pub proof fn lemma_pow256_8()
    ensures
        pow256(8) == 0x1_0000_0000_0000_0000,
{
    reveal_with_fuel(pow256, 9);
}

proof fn lemma_pow256_monotonic(a: nat, b: nat)
    requires
        a <= b,
    ensures
        pow256(a) <= pow256(b),
    decreases b,
{
    if a < b {
        lemma_pow256_monotonic(a, (b - 1) as nat);
    }
}

pub proof fn lemma_be_value_fits_u128(s: Seq<u8>)
    requires
        s.len() <= 16,
    ensures
        be_value(s) <= u128::MAX,
{
    lemma_be_value_bound(s);
    lemma_pow256_monotonic(s.len(), 16);
    lemma_pow256_16();
}

/// The value of at most 16 bytes of `s`, from `from` up to `to`.
pub fn be_u128(s: &[u8], from: usize, to: usize) -> (v: u128)
    requires
        from <= to <= s.len(),
        to - from <= 16,
    ensures
        v == be_value(s@.subrange(from as int, to as int)),
{
    let mut v: u128 = 0;
    let mut i: usize = from;
    assert(s@.subrange(from as int, from as int) =~= Seq::empty());
    while i < to
        invariant
            from <= i <= to <= s.len(),
            to - from <= 16,
            v == be_value(s@.subrange(from as int, i as int)),
        decreases to - i,
    {
        proof {
            let next = s@.subrange(from as int, i + 1);
            assert(next.drop_last() =~= s@.subrange(from as int, i as int));
            lemma_be_value_fits_u128(next);
        }
        v = v * 256 + s[i] as u128;
        i = i + 1;
    }
    v
}

/// The value of the eight bytes of `s` that start at `from`.
pub fn be_u64(s: &[u8], from: usize) -> (v: u64)
    requires
        from + 8 <= s.len(),
    ensures
        v == be_value(s@.subrange(from as int, from + 8)),
{
    let wide = be_u128(s, from, from + 8);
    proof {
        lemma_be_value_bound(s@.subrange(from as int, from + 8));
        lemma_pow256_8();
    }
    wide as u64
}

/// The last `len` base-256 digits of `n`.
pub fn be_digits(n: u64, len: usize) -> (r: Vec<u8>)
    ensures
        r@ == be_bytes(n as nat, len as nat),
    decreases len,
{
    if len == 0 {
        Vec::new()
    } else {
        let mut r = be_digits(n / 256, len - 1);
        r.push((n % 256) as u8);
        r
    }
}

/// `N` bytes.
#[derive(Clone, Copy, Debug, Eq, Hash)]
pub struct FixedBytes<const N: usize>(pub [u8; N]);

/// A 256-bit word.
pub type B256 = FixedBytes<32>;

/// A 160-bit account address.
pub type Address = FixedBytes<20>;

/// The hash by which a transaction is known.
pub type TxHash = FixedBytes<32>;

impl<const N: usize> View for FixedBytes<N> {
    type V = Seq<u8>;

    open spec fn view(&self) -> Seq<u8> {
        self.0@
    }
}

impl<const N: usize> PartialEq for FixedBytes<N> {
    fn eq(&self, other: &Self) -> (r: bool) {
        let mut i: usize = 0;
        while i < N
            invariant
                0 <= i <= N,
                forall|j: int| 0 <= j < i ==> self.0@[j] == other.0@[j],
            decreases N - i,
        {
            if self.0[i] != other.0[i] {
                assert(self.0@[i as int] != other.0@[i as int]);
                return false;
            }
            i = i + 1;
        }
        assert(self.0 =~= other.0);
        true
    }
}

impl<const N: usize> vstd::std_specs::cmp::PartialEqSpecImpl for FixedBytes<N> {
    open spec fn obeys_eq_spec() -> bool {
        true
    }

    open spec fn eq_spec(&self, other: &Self) -> bool {
        *self == *other
    }
}

pub proof fn lemma_fixed_bytes_ext<const N: usize>(a: FixedBytes<N>, b: FixedBytes<N>)
    requires
        a@ == b@,
    ensures
        a == b,
{
    assert forall|i: int| 0 <= i < N implies a.0[i] == b.0[i] by {
        assert(a@[i] == b@[i]);
    }
    assert(a.0 =~= b.0);
}

/// The `N` bytes of `s` that start at `from`.
pub open spec fn bytes_at<const N: usize>(s: Seq<u8>, from: int) -> FixedBytes<N> {
    choose|r: FixedBytes<N>| r@ == s.subrange(from, from + N)
}

impl<const N: usize> FixedBytes<N> {
    /// The value all of whose bytes are zero.
    pub open spec fn spec_zero() -> Self {
        FixedBytes([0u8; N])
    }

    /// The value all of whose bytes are zero.
    pub fn zero() -> (r: Self)
        ensures
            r == Self::spec_zero(),
            r@ == Seq::new(N as nat, |i: int| 0u8),
    {
        let r = FixedBytes([0u8; N]);
        assert(r@ =~= Seq::new(N as nat, |i: int| 0u8));
        r
    }

    /// The value all of whose bytes are `b`.
    pub open spec fn spec_repeat(b: u8) -> Self {
        FixedBytes([b; N])
    }

    /// The value all of whose bytes are `b`.
    pub fn repeat(b: u8) -> (r: Self)
        ensures
            r == Self::spec_repeat(b),
            r@ == Seq::new(N as nat, |i: int| b),
    {
        let r = FixedBytes([b; N]);
        assert(r@ =~= Seq::new(N as nat, |i: int| b));
        r
    }

    /// The `N` bytes of `s` that start at `from`.
    pub fn from_slice_at(s: &[u8], from: usize) -> (r: Self)
        requires
            from + N <= s.len(),
        ensures
            r@ == s@.subrange(from as int, from + N),
            r == bytes_at::<N>(s@, from as int),
    {
        let mut a = [0u8; N];
        let mut i: usize = 0;
        while i < N
            invariant
                0 <= i <= N,
                from + N <= s.len(),
                forall|j: int| 0 <= j < i ==> a@[j] == s@[from + j],
            decreases N - i,
        {
            a[i] = s[from + i];
            i = i + 1;
        }
        let r = FixedBytes(a);
        proof {
            assert(r@ =~= s@.subrange(from as int, from + N));
            lemma_fixed_bytes_ext(r, bytes_at::<N>(s@, from as int));
        }
        r
    }

    /// The bytes as a slice.
    pub fn as_slice(&self) -> (r: &[u8])
        ensures
            r@ == self@,
    {
        self.0.as_slice()
    }
}

/// The bytes at the place of a value are the value.
pub proof fn lemma_bytes_at<const N: usize>(s: Seq<u8>, from: int, v: FixedBytes<N>)
    requires
        s.subrange(from, from + N) == v@,
    ensures
        bytes_at::<N>(s, from) == v,
{
    assert(v@ == s.subrange(from, from + N));
    lemma_fixed_bytes_ext(v, bytes_at::<N>(s, from));
}

/// A 256-bit unsigned integer, held as its 32 big-endian bytes.
#[derive(Clone, Copy, Debug, Eq, Hash)]
pub struct U256(pub B256);

impl PartialEq for U256 {
    fn eq(&self, other: &Self) -> (r: bool) {
        self.0 == other.0
    }
}

impl vstd::std_specs::cmp::PartialEqSpecImpl for U256 {
    open spec fn obeys_eq_spec() -> bool {
        true
    }

    open spec fn eq_spec(&self, other: &Self) -> bool {
        *self == *other
    }
}

impl U256 {
    /// A number as a 256-bit integer.
    pub open spec fn spec_from_u64(n: u64) -> U256 {
        U256(bytes_at::<32>(be_bytes(n as nat, 32), 0))
    }

    /// A number as a 256-bit integer.
    pub fn from_u64(n: u64) -> (r: U256)
        ensures
            r == Self::spec_from_u64(n),
            r.0@ == be_bytes(n as nat, 32),
            r.spec_value() == n,
    {
        let digits = be_digits(n, 32);
        proof {
            lemma_pow256_8();
            lemma_pow256_monotonic(8, 32);
            lemma_be_value_of_bytes(n as nat, 32);
            lemma_be_bytes_len(n as nat, 32);
            assert(digits@.subrange(0, 32) =~= digits@);
        }
        U256(B256::from_slice_at(digits.as_slice(), 0))
    }
}

pub proof fn lemma_be_value_concat(s: Seq<u8>, t: Seq<u8>)
    ensures
        be_value(s + t) == be_value(s) * pow256(t.len()) + be_value(t),
    decreases t.len(),
{
    if t.len() > 0 {
        let p = pow256((t.len() - 1) as nat);
        lemma_be_value_concat(s, t.drop_last());
        assert((s + t).drop_last() =~= s + t.drop_last());
        assert((s + t).last() == t.last());
        assert(pow256(t.len()) == p * 256);
        assert((be_value(s) * p + be_value(t.drop_last())) * 256 == be_value(s) * (p * 256)
            + be_value(t.drop_last()) * 256) by (nonlinear_arith);
    } else {
        assert(s + t =~= s);
        let v = be_value(s);
        let p = pow256(t.len());
        assert(p == 1);
        assert(v * p == v) by (nonlinear_arith)
            requires
                p == 1,
        ;
    }
}

impl U256 {
    /// The number itself.
    pub open spec fn spec_value(self) -> nat {
        be_value(self.0@)
    }

    /// Whether a number is at least another one.
    pub fn at_least(&self, other: &U256) -> (r: bool)
        ensures
            r == (self.spec_value() >= other.spec_value()),
    {
        let (a, b) = (self.0.as_slice(), other.0.as_slice());
        let (a_high, a_low) = (be_u128(a, 0, 16), be_u128(a, 16, 32));
        let (b_high, b_low) = (be_u128(b, 0, 16), be_u128(b, 16, 32));
        proof {
            assert(a@ =~= a@.subrange(0, 16) + a@.subrange(16, 32));
            assert(b@ =~= b@.subrange(0, 16) + b@.subrange(16, 32));
            lemma_be_value_concat(a@.subrange(0, 16), a@.subrange(16, 32));
            lemma_be_value_concat(b@.subrange(0, 16), b@.subrange(16, 32));
            lemma_pow256_16();
            let p = pow256(16);
            assert(self.spec_value() == a_high * p + a_low);
            assert(other.spec_value() == b_high * p + b_low);
            assert(a_high > b_high ==> a_high * p >= b_high * p + p) by (nonlinear_arith);
            assert(a_high < b_high ==> a_high * p + p <= b_high * p) by (nonlinear_arith);
        }
        a_high > b_high || (a_high == b_high && a_low >= b_low)
    }
}

/// The position of a block in the chain.
#[derive(Clone, Copy, Debug, PartialEq, Eq, PartialOrd, Ord, Hash, Structural)]
pub struct SeqNum(pub u64);

/// The block number that stands for "no block".
pub const INVALID_BLOCK_NUM: u64 = u64::MAX;

/// The identity of a consensus block.
#[derive(Clone, Copy, Debug, Eq, Hash)]
pub struct BlockId(pub B256);

impl PartialEq for BlockId {
    fn eq(&self, other: &Self) -> (r: bool) {
        self.0 == other.0
    }
}

impl vstd::std_specs::cmp::PartialEqSpecImpl for BlockId {
    open spec fn obeys_eq_spec() -> bool {
        true
    }

    open spec fn eq_spec(&self, other: &Self) -> bool {
        *self == *other
    }
}

/// Bytes spell a number with the most significant byte first: a byte that follows makes the number 256
/// times as large, and is added.
pub proof fn lemma_last_byte_counts_least(s: Seq<u8>, b: u8, n: nat, len: nat)
    ensures
        be_value(s.push(b)) == be_value(s) * 256 + b,
        be_value(Seq::<u8>::empty()) == 0,
        len > 0 ==> be_bytes(n, len).len() == len && be_bytes(n, len).last() == (n % 256) as u8,
        len > 0 ==> be_bytes(n, len).drop_last() == be_bytes(n / 256, (len - 1) as nat),
{
    lemma_be_bytes_len(n, len);
    assert(s.push(b).drop_last() =~= s);
    if len > 0 {
        assert(be_bytes(n, len).drop_last() =~= be_bytes(n / 256, (len - 1) as nat));
    }
}

} // verus!
