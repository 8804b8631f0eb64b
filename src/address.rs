//! Participant identities and the order-independent key of a pair of them.
use alloy_primitives::keccak256;
use vstd::prelude::*;

verus! {

/// Number of bytes of an identity.
pub const ADDRESS_BYTES: usize = 20;

/// Byte strings compared lexicographically: whether `a` comes strictly
/// before `b`.
pub open spec fn lex_lt(a: Seq<u8>, b: Seq<u8>) -> bool
    decreases a.len(),
{
    if a.len() == 0 || b.len() == 0 {
        a.len() == 0 && b.len() > 0
    } else if a[0] != b[0] {
        a[0] < b[0]
    } else {
        lex_lt(a.drop_first(), b.drop_first())
    }
}

/// The Keccak-256 digest of a byte string.
pub uninterp spec fn keccak_of(data: Seq<u8>) -> Seq<u8>;

/// A 20-byte participant identity. The all-zero identity stands for "nobody".
#[derive(Clone, Copy, Debug, PartialEq, Eq)]
pub struct Address {
    pub bytes: [u8; 20],
}

impl View for Address {
    type V = Seq<u8>;

    open spec fn view(&self) -> Seq<u8> {
        self.bytes@
    }
}

/// The 20 zero bytes of the empty identity.
pub open spec fn zero_address() -> Seq<u8> {
    Seq::new(20, |i: int| 0u8)
}

/// The key of the unordered pair {a, b}: the digest of the two identities,
/// the lexicographically smaller one first.
pub open spec fn pair_key(a: Seq<u8>, b: Seq<u8>) -> Seq<u8> {
    if lex_lt(a, b) {
        keccak_of(a + b)
    } else {
        keccak_of(b + a)
    }
}

impl Address {
    /// The empty identity.
    pub fn zero() -> (r: Address)
        ensures
            r@ == zero_address(),
    {
        let r = Address { bytes: [0u8; 20] };
        assert(r@ =~= zero_address());
        r
    }

    /// Whether this is the empty identity.
    pub fn is_zero(&self) -> (r: bool)
        ensures
            r == (self@ == zero_address()),
    {
        let z = Address::zero();
        self.same(&z)
    }

    /// Whether two identities are equal.
    pub fn same(&self, other: &Address) -> (r: bool)
        ensures
            r == (self@ == other@),
    {
        let mut i: usize = 0;
        while i < ADDRESS_BYTES
            invariant
                i <= 20,
                self@.len() == 20,
                other@.len() == 20,
                forall|j: int| 0 <= j < i ==> self@[j] == other@[j],
            decreases 20 - i,
        {
            if self.bytes[i] != other.bytes[i] {
                return false;
            }
            i = i + 1;
        }
        assert(self@ =~= other@);
        true
    }

    /// Whether this identity orders strictly before the other one, byte by
    /// byte.
    pub fn lt(&self, other: &Address) -> (r: bool)
        ensures
            r == lex_lt(self@, other@),
    {
        let mut i: usize = 0;
        assert(self@.skip(0) =~= self@);
        assert(other@.skip(0) =~= other@);
        while i < ADDRESS_BYTES
            invariant
                i <= 20,
                self@.len() == 20,
                other@.len() == 20,
                forall|j: int| 0 <= j < i ==> self@[j] == other@[j],
                lex_lt(self@, other@) == lex_lt(self@.skip(i as int), other@.skip(i as int)),
            decreases 20 - i,
        {
            let x = self.bytes[i];
            let y = other.bytes[i];
            assert(self@.skip(i as int)[0] == x);
            assert(other@.skip(i as int)[0] == y);
            if x != y {
                return x < y;
            }
            assert(self@.skip(i as int).drop_first() =~= self@.skip(i + 1));
            assert(other@.skip(i as int).drop_first() =~= other@.skip(i + 1));
            i = i + 1;
        }
        assert(self@.skip(20) =~= Seq::<u8>::empty());
        assert(other@.skip(20) =~= Seq::<u8>::empty());
        false
    }
}

/// Relies on alloy's `keccak256`: the Keccak-256 digest of the bytes, which
/// depends on them alone.
#[verifier::external_body]
fn keccak(data: &[u8]) -> (r: [u8; 32])
    ensures
        r@ == keccak_of(data@),
{
    keccak256(data).0
}

/// The order-independent key of two participants.
pub fn hash_players(player1: &Address, player2: &Address) -> (r: [u8; 32])
    ensures
        r@ == pair_key(player1@, player2@),
{
    let (lo, hi) = if player1.lt(player2) {
        (player1, player2)
    } else {
        (player2, player1)
    };
    let mut data: Vec<u8> = Vec::with_capacity(40);
    let mut i: usize = 0;
    while i < ADDRESS_BYTES
        invariant
            i <= 20,
            lo@.len() == 20,
            data@ =~= lo@.take(i as int),
        decreases 20 - i,
    {
        data.push(lo.bytes[i]);
        i = i + 1;
    }
    let mut j: usize = 0;
    while j < ADDRESS_BYTES
        invariant
            j <= 20,
            lo@.len() == 20,
            hi@.len() == 20,
            data@ =~= lo@ + hi@.take(j as int),
        decreases 20 - j,
    {
        data.push(hi.bytes[j]);
        j = j + 1;
    }
    assert(hi@.take(20) =~= hi@);
    keccak(data.as_slice())
}

/// Two identities of equal length that neither orders before the other are
/// equal.
pub proof fn lemma_lex_trichotomy(a: Seq<u8>, b: Seq<u8>)
    requires
        a.len() == b.len(),
        !lex_lt(a, b),
        !lex_lt(b, a),
    ensures
        a == b,
    decreases a.len(),
{
    if a.len() > 0 {
        lemma_lex_trichotomy(a.drop_first(), b.drop_first());
        assert(a =~= seq![a[0]] + a.drop_first());
        assert(b =~= seq![b[0]] + b.drop_first());
    } else {
        assert(a =~= b);
    }
}

/// The pairing key does not depend on which participant is named first.
pub proof fn lemma_pair_key_symmetric(a: Seq<u8>, b: Seq<u8>)
    requires
        a.len() == 20,
        b.len() == 20,
    ensures
        pair_key(a, b) == pair_key(b, a),
{
    if !lex_lt(a, b) && !lex_lt(b, a) {
        lemma_lex_trichotomy(a, b);
    } else if lex_lt(a, b) && lex_lt(b, a) {
        lemma_lex_asymmetric(a, b);
    }
}

/// No byte string orders strictly before one that orders before it.
pub proof fn lemma_lex_asymmetric(a: Seq<u8>, b: Seq<u8>)
    requires
        lex_lt(a, b),
    ensures
        !lex_lt(b, a),
    decreases a.len(),
{
    if a.len() > 0 && b.len() > 0 && a[0] == b[0] {
        lemma_lex_asymmetric(a.drop_first(), b.drop_first());
    }
}

} // verus!
