//! Unsigned 256-bit amounts, held as 32 big-endian bytes.
use alloy_primitives::U256;
use vstd::arithmetic::div_mod::{lemma_mod_breakdown, lemma_small_mod};
use vstd::arithmetic::power::{lemma_pow_positive, pow};
use vstd::prelude::*;

verus! {

/// Number of bytes of an amount.
pub const AMOUNT_BYTES: usize = 32;

/// The numeric value of a big-endian byte string.
pub open spec fn be_value(s: Seq<u8>) -> nat
    decreases s.len(),
{
    if s.len() == 0 {
        0
    } else {
        be_value(s.drop_last()) * 256 + s.last() as nat
    }
}

/// One more than the largest 256-bit value: 256^32.
pub open spec fn modulus() -> nat {
    pow(256, 32) as nat
}

/// An unsigned 256-bit integer in big-endian byte order.
#[derive(Clone, Copy, Debug, PartialEq, Eq)]
pub struct Amount {
    pub bytes: [u8; 32],
}

impl Amount {
    /// The integer that the bytes stand for.
    pub open spec fn value(self) -> nat {
        be_value(self.bytes@)
    }

    /// The amount zero.
    pub fn zero() -> (r: Amount)
        ensures
            r.value() == 0,
            r.bytes@ == Seq::new(32, |i: int| 0u8),
    {
        let r = Amount { bytes: [0u8; 32] };
        assert(r.bytes@ =~= Seq::new(32, |i: int| 0u8));
        proof {
            lemma_be_value_zero(r.bytes@);
        }
        r
    }

    /// Whether the amount is zero.
    pub fn is_zero(&self) -> (r: bool)
        ensures
            r == (self.value() == 0),
    {
        let mut i: usize = 0;
        while i < AMOUNT_BYTES
            invariant
                i <= 32,
                self.bytes@.len() == 32,
                forall|j: int| 0 <= j < i ==> self.bytes@[j] == 0,
            decreases 32 - i,
        {
            if self.bytes[i] != 0 {
                proof {
                    lemma_be_value_nonzero(self.bytes@, i as int);
                }
                return false;
            }
            i = i + 1;
        }
        proof {
            lemma_be_value_zero(self.bytes@);
        }
        true
    }

    /// Whether two amounts hold the same bytes, hence the same value.
    pub fn same(&self, other: &Amount) -> (r: bool)
        ensures
            r == (self.bytes@ == other.bytes@),
    {
        let mut i: usize = 0;
        while i < AMOUNT_BYTES
            invariant
                i <= 32,
                self.bytes@.len() == 32,
                other.bytes@.len() == 32,
                forall|j: int| 0 <= j < i ==> self.bytes@[j] == other.bytes@[j],
            decreases 32 - i,
        {
            if self.bytes[i] != other.bytes[i] {
                return false;
            }
            i = i + 1;
        }
        assert(self.bytes@ =~= other.bytes@);
        true
    }

    /// Relies on `U256::from_be_bytes`, `U256::wrapping_add` and
    /// `U256::to_be_bytes`: the sum, wrapped around at 2^256.
    #[verifier::external_body]
    pub(crate) fn wrapping_add(&self, other: &Amount) -> (r: Amount)
        ensures
            r.value() == (self.value() + other.value()) % modulus(),
    {
        let a = U256::from_be_bytes::<32>(self.bytes);
        let b = U256::from_be_bytes::<32>(other.bytes);
        Amount { bytes: a.wrapping_add(b).to_be_bytes::<32>() }
    }

    /// Relies on `U256::from_be_bytes`, `U256`'s division and
    /// `U256::to_be_bytes`: the value halved, rounded down.
    #[verifier::external_body]
    pub(crate) fn half(&self) -> (r: Amount)
        ensures
            r.value() == self.value() / 2,
    {
        let a = U256::from_be_bytes::<32>(self.bytes);
        Amount { bytes: (a / U256::from(2u8)).to_be_bytes::<32>() }
    }

    /// Relies on `U256::from_be_bytes` and `U256`'s ordering: numeric
    /// comparison of the two values.
    #[verifier::external_body]
    pub(crate) fn lt(&self, other: &Amount) -> (r: bool)
        ensures
            r == (self.value() < other.value()),
    {
        U256::from_be_bytes::<32>(self.bytes) < U256::from_be_bytes::<32>(other.bytes)
    }
}

/// A byte string of zeros has value zero.
pub proof fn lemma_be_value_zero(s: Seq<u8>)
    requires
        forall|j: int| 0 <= j < s.len() ==> s[j] == 0,
    ensures
        be_value(s) == 0,
    decreases s.len(),
{
    if s.len() > 0 {
        lemma_be_value_zero(s.drop_last());
    }
}

/// A byte string with a non-zero byte has a non-zero value.
pub proof fn lemma_be_value_nonzero(s: Seq<u8>, i: int)
    requires
        0 <= i < s.len(),
        s[i] != 0,
    ensures
        be_value(s) > 0,
    decreases s.len(),
{
    if i < s.len() - 1 {
        lemma_be_value_nonzero(s.drop_last(), i);
        assert(be_value(s.drop_last()) * 256 > 0) by (nonlinear_arith)
            requires be_value(s.drop_last()) > 0;
    }
}

/// The last `len` big-endian bytes of `n`, i.e. `n` modulo 256^len.
pub open spec fn be_bytes(n: nat, len: nat) -> Seq<u8>
    decreases len,
{
    if len == 0 {
        Seq::empty()
    } else {
        be_bytes(n / 256, (len - 1) as nat).push((n % 256) as u8)
    }
}

/// The 32 big-endian bytes of `n`, wrapped at 2^256.
pub open spec fn amount_bytes(n: nat) -> Seq<u8> {
    be_bytes(n, 32)
}

/// `be_bytes` has the length asked for and the value of `n` modulo 256^len.
pub proof fn lemma_be_bytes(n: nat, len: nat)
    ensures
        be_bytes(n, len).len() == len,
        be_value(be_bytes(n, len)) == n % (pow(256, len) as nat),
    decreases len,
{
    reveal(pow);
    if len > 0 {
        let s = be_bytes(n / 256, (len - 1) as nat);
        lemma_be_bytes(n / 256, (len - 1) as nat);
        assert(be_bytes(n, len).drop_last() =~= s);
        lemma_pow_positive(256, (len - 1) as nat);
        lemma_mod_breakdown(n as int, 256, pow(256, (len - 1) as nat));
    }
}

/// A byte string of length `len` has a value below 256^len.
pub proof fn lemma_be_value_bound(s: Seq<u8>)
    ensures
        be_value(s) < pow(256, s.len()),
    decreases s.len(),
{
    reveal(pow);
    if s.len() > 0 {
        lemma_be_value_bound(s.drop_last());
        let a = be_value(s.drop_last()) as int;
        let p = pow(256, (s.len() - 1) as nat);
        let x = s.last() as int;
        assert(a * 256 + x < 256 * p) by (nonlinear_arith)
            requires
                a < p,
                0 <= x < 256,
        ;
    }
}

/// Every amount is below 2^256.
pub proof fn lemma_amount_bound(a: Amount)
    ensures
        a.value() < modulus(),
{
    lemma_be_value_bound(a.bytes@);
}

/// A value below 2^256 reads back from its 32 bytes.
pub proof fn lemma_amount_bytes_value(n: nat)
    requires
        n < modulus(),
    ensures
        amount_bytes(n).len() == 32,
        be_value(amount_bytes(n)) == n,
{
    lemma_be_bytes(n, 32);
    lemma_small_mod(n, modulus());
}

/// Two byte strings of one length with the same value are equal.
pub proof fn lemma_be_value_injective(s: Seq<u8>, t: Seq<u8>)
    requires
        s.len() == t.len(),
        be_value(s) == be_value(t),
    ensures
        s == t,
    decreases s.len(),
{
    if s.len() > 0 {
        let a = be_value(s.drop_last());
        let b = be_value(t.drop_last());
        let x = s.last() as int;
        let y = t.last() as int;
        assert(x == y && a == b) by (nonlinear_arith)
            requires
                a * 256 + x == b * 256 + y,
                0 <= x < 256,
                0 <= y < 256,
                a >= 0,
                b >= 0,
        ;
        lemma_be_value_injective(s.drop_last(), t.drop_last());
        assert(s =~= s.drop_last().push(s.last()));
        assert(t =~= t.drop_last().push(t.last()));
    } else {
        assert(s =~= t);
    }
}

/// The bytes of an amount are the bytes of its value.
pub proof fn lemma_amount_bytes(a: Amount)
    ensures
        amount_bytes(a.value()) == a.bytes@,
{
    lemma_amount_bound(a);
    lemma_amount_bytes_value(a.value());
    lemma_be_value_injective(amount_bytes(a.value()), a.bytes@);
}

} // verus!
