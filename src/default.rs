use vstd::array::*;
use vstd::prelude::*;
use vstd::std_specs::bits::*;

use core::cmp::Ordering;

use crate::order_laws;
use crate::Direction;
use crate::GetDirection;
use crate::GetDistance;
use crate::KeyOrder;
use crate::LeadingZeros;

verus! {

broadcast use group_array_axioms;

/// A key of `N` bytes, most significant byte first.
pub type Buf<const N: usize> = [u8; N];

/// Byte-wise exclusive-or of two byte strings of the same length.
pub open spec fn xor_bytes(a: Seq<u8>, b: Seq<u8>) -> Seq<u8> {
    Seq::new(a.len(), |i: int| a[i] ^ b[i])
}

/// Number of leading zero bits of a byte string, most significant byte first.
pub open spec fn leading_zero_bits(s: Seq<u8>) -> nat
    decreases s.len(),
{
    if s.len() == 0 {
        0
    } else if s[0] == 0 {
        8 + leading_zero_bits(s.drop_first())
    } else {
        u8_leading_zeros(s[0]) as nat
    }
}

/// The bit at index `i` of a byte string, most significant bit of the first byte at 0.
pub open spec fn bit_direction(s: Seq<u8>, i: int) -> Direction {
    if s[i / 8] & (1u8 << ((7 - i % 8) as u8)) == 0 {
        Direction::Left
    } else {
        Direction::Right
    }
}

/// The number of addressable bits of an `N`-byte key.
pub open spec fn buf_bits(n: usize) -> nat {
    if n <= usize::MAX / 8 {
        (8 * n) as nat
    } else {
        usize::MAX as nat
    }
}

/// The XOR distance is symmetric, and every key is at the zero distance
/// (all bytes zero) from itself.
pub proof fn lemma_distance_symmetric_identity<const N: usize>(a: Buf<N>, b: Buf<N>)
    ensures
        a.spec_distance(&b) == b.spec_distance(&a),
        a.spec_distance(&a)@ == Seq::new(N as nat, |i: int| 0u8),
{
    assert forall|i: int| 0 <= i < N implies a@[i] ^ b@[i] == b@[i] ^ a@[i] by {
        let x = a@[i];
        let y = b@[i];
        assert(x ^ y == y ^ x) by (bit_vector);
    }
    assert(xor_bytes(a@, b@) =~= xor_bytes(b@, a@));
    let zero = spec_array_fill_for_copy_type::<u8, N>(0u8);
    assert forall|i: int| 0 <= i < N implies a@[i] ^ a@[i] == 0u8 by {
        let x = a@[i];
        assert(x ^ x == 0u8) by (bit_vector);
    }
    assert(zero@ =~= xor_bytes(a@, a@));
    assert(xor_bytes(a@, a@) =~= Seq::new(N as nat, |i: int| 0u8));
}

impl<const N: usize> GetDistance for Buf<N> {
    open spec fn spec_distance(&self, right: &Self) -> Self {
        choose|r: [u8; N]| r@ == xor_bytes(self@, right@)
    }

    /// XOR distance between two keys of size N
    fn distance(&self, right: &Buf<N>) -> (r: [u8; N]) {
        let mut result: [u8; N] = [0u8; N];
        let mut i: usize = 0;
        while i < N
            invariant
                i <= N,
                result@.len() == N,
                forall|j: int| 0 <= j < i ==> result@[j] == self@[j] ^ right@[j],
            decreases N - i,
        {
            result[i] = self[i] ^ right[i];
            i = i + 1;
        }
        assert(result@ =~= xor_bytes(self@, right@));
        result
    }
}

/// Byte-wise lexicographic comparison of two byte strings of the same length.
pub open spec fn lex_cmp(a: Seq<u8>, b: Seq<u8>) -> Ordering
    decreases a.len(),
{
    if a.len() == 0 {
        Ordering::Equal
    } else if a[0] < b[0] {
        Ordering::Less
    } else if a[0] > b[0] {
        Ordering::Greater
    } else {
        lex_cmp(a.drop_first(), b.drop_first())
    }
}

proof fn lemma_lex_cmp(a: Seq<u8>, b: Seq<u8>, c: Seq<u8>)
    requires
        a.len() == b.len(),
        b.len() == c.len(),
    ensures
        lex_cmp(a, b) == Ordering::Equal <==> a == b,
        lex_cmp(a, b) == Ordering::Less <==> lex_cmp(b, a) == Ordering::Greater,
        lex_cmp(a, b) == Ordering::Less && lex_cmp(b, c) == Ordering::Less ==> lex_cmp(a, c) == Ordering::Less,
    decreases a.len(),
{
    if a.len() > 0 {
        lemma_lex_cmp(a.drop_first(), b.drop_first(), c.drop_first());
        if a[0] == b[0] && a.drop_first() == b.drop_first() {
            assert(a =~= seq![a[0]] + a.drop_first());
            assert(b =~= seq![b[0]] + b.drop_first());
        }
    } else {
        assert(a =~= b);
    }
}

/// Byte-wise lexicographic order is a total order on `N`-byte keys.
pub proof fn lemma_buf_order_laws<const N: usize>()
    ensures
        order_laws::<Buf<N>>(),
{
    assert forall|a: Buf<N>, b: Buf<N>| #[trigger] a.spec_cmp(&b) == Ordering::Equal <==> a == b by {
        lemma_lex_cmp(a@, b@, b@);
        if a@ == b@ {
            assert forall|i: int| 0 <= i < N implies a[i] == b[i] by {
                assert(a@[i] == b@[i]);
            }
            assert(a =~= b);
        }
    }
    assert forall|a: Buf<N>, b: Buf<N>| #[trigger] a.spec_cmp(&b) == Ordering::Less <==> b.spec_cmp(&a) == Ordering::Greater by {
        lemma_lex_cmp(a@, b@, b@);
    }
    assert forall|a: Buf<N>, b: Buf<N>, c: Buf<N>|
        #[trigger] a.spec_cmp(&b) == Ordering::Less && #[trigger] b.spec_cmp(&c) == Ordering::Less
            implies a.spec_cmp(&c) == Ordering::Less by {
        lemma_lex_cmp(a@, b@, c@);
    }
}

impl<const N: usize> KeyOrder for Buf<N> {
    open spec fn spec_cmp(&self, other: &Self) -> Ordering {
        lex_cmp(self@, other@)
    }

    /// Byte-wise lexicographic comparison
    fn key_cmp(&self, other: &Buf<N>) -> (r: Ordering) {
        let mut i: usize = 0;
        assert(self@.subrange(0, N as int) =~= self@);
        assert(other@.subrange(0, N as int) =~= other@);
        while i < N
            invariant
                i <= N,
                lex_cmp(self@, other@) == lex_cmp(self@.subrange(i as int, N as int), other@.subrange(i as int, N as int)),
            decreases N - i,
        {
            assert(self@.subrange(i as int, N as int).drop_first() =~= self@.subrange(i + 1, N as int));
            assert(other@.subrange(i as int, N as int).drop_first() =~= other@.subrange(i + 1, N as int));
            if self[i] < other[i] {
                return Ordering::Less;
            } else if self[i] > other[i] {
                return Ordering::Greater;
            }
            i = i + 1;
        }
        Ordering::Equal
    }
}

/// N key size in bits
impl<const N: usize> GetDirection for Buf<N> {
    open spec fn spec_key_bits() -> nat {
        buf_bits(N)
    }

    open spec fn spec_direction(&self, i: int) -> Direction {
        bit_direction(self@, i)
    }

    fn key_bits() -> (r: usize) {
        if N <= usize::MAX / 8 {
            8 * N
        } else {
            usize::MAX
        }
    }

    fn direction(&self, i: usize) -> (r: Direction) {
        let byte = i / 8;
        let bit = i % 8;
        if self[byte] & (1u8 << ((7 - bit) as u8)) == 0 {
            Direction::Left
        } else {
            Direction::Right
        }
    }
}

impl<const N: usize> LeadingZeros for Buf<N> {
    /// Saturates at 255 for keys whose leading zero count does not fit a byte.
    open spec fn spec_leading_zeros(&self) -> u8 {
        if leading_zero_bits(self@) < 256 {
            leading_zero_bits(self@) as u8
        } else {
            255
        }
    }

    fn leading_zeros(&self) -> (r: u8) {
        let mut result: usize = 0;
        let mut i: usize = 0;
        assert(self@.subrange(0, N as int) =~= self@);
        while i < N
            invariant
                i <= N,
                result == 8 * i,
                result < 256,
                leading_zero_bits(self@) == result + leading_zero_bits(self@.subrange(i as int, N as int)),
            decreases N - i,
        {
            proof {
                let rest = self@.subrange(i as int, N as int);
                assert(rest.drop_first() =~= self@.subrange(i + 1, N as int));
            }
            if self[i] == 0 {
                if result >= 248 {
                    return 255;
                }
                result = result + 8;
            } else {
                let z = self[i].leading_zeros();
                proof {
                    axiom_u8_leading_zeros(self@[i as int]);
                }
                let total = result + z as usize;
                if total < 256 {
                    return total as u8;
                } else {
                    return 255;
                }
            }
            i = i + 1;
        }
        assert(self@.subrange(N as int, N as int).len() == 0);
        result as u8
    }
}

} // verus!
