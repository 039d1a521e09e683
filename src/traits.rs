use core::cmp::Ordering;
use vstd::prelude::*;

verus! {

// Each trait ties its executable method to a spec function. A verified
// implementation defines the spec function; an implementation written outside
// Verus keeps the default, of which nothing is known.

/// Which child of a fork a key bit selects: `Left` for a 0 bit, `Right` for a 1 bit.
#[derive(Debug, Clone, Copy, PartialEq, Eq, Structural)]
pub enum Direction {
    Left,
    Right,
}

/// [KEY] XOR distance between two keys of same type
pub trait GetDistance: Sized {
    /// The distance between `self` and `right`.
    open spec fn spec_distance(&self, right: &Self) -> Self {
        arbitrary()
    }

    fn distance(&self, right: &Self) -> (r: Self)
        ensures
            r == self.spec_distance(right),
    ;
}

/// [KEY] Number of leading zero bits of a key
pub trait LeadingZeros {
    open spec fn spec_leading_zeros(&self) -> u8 {
        arbitrary()
    }

    fn leading_zeros(&self) -> (r: u8)
        ensures
            r == self.spec_leading_zeros(),
    ;
}

/// [KEY] Returns direction for a given node index i
pub trait GetDirection {
    /// The number of bits of a key: the bit lookup is defined below it.
    open spec fn spec_key_bits() -> nat {
        arbitrary()
    }

    /// The bit of `self` at index `i`, counted from the most significant end.
    open spec fn spec_direction(&self, i: int) -> Direction {
        arbitrary()
    }

    fn key_bits() -> (r: usize)
        ensures
            r as nat == Self::spec_key_bits(),
    ;

    fn direction(&self, i: usize) -> (r: Direction)
        requires
            (i as nat) < Self::spec_key_bits(),
        ensures
            r == self.spec_direction(i as int),
    ;
}

/// [KEY] A total order on keys, by which distances are ranked
pub trait KeyOrder: Sized {
    open spec fn spec_cmp(&self, other: &Self) -> Ordering {
        arbitrary()
    }

    fn key_cmp(&self, other: &Self) -> (r: Ordering)
        ensures
            r == self.spec_cmp(other),
    ;
}

/// `spec_cmp` is a total order whose equal elements are the same key.
pub open spec fn order_laws<Key: KeyOrder>() -> bool {
    &&& forall|a: Key, b: Key| #[trigger] a.spec_cmp(&b) == Ordering::Equal <==> a == b
    &&& forall|a: Key, b: Key| #[trigger] a.spec_cmp(&b) == Ordering::Less <==> b.spec_cmp(&a) == Ordering::Greater
    &&& forall|a: Key, b: Key, c: Key|
        #[trigger] a.spec_cmp(&b) == Ordering::Less && #[trigger] b.spec_cmp(&c) == Ordering::Less
            ==> a.spec_cmp(&c) == Ordering::Less
}

/// [ITEM] Returns key of an item
pub trait GetKey<Key> {
    open spec fn spec_key(&self) -> Key {
        arbitrary()
    }

    fn get_key(&self) -> (r: Key)
        ensures
            r == self.spec_key(),
    ;
}

/// [ITEM] Arbitrates between two items during an insertion: `true` when
/// `candidate` should replace `self`.
pub trait Arbiter {
    open spec fn spec_arbitrate(&self, candidate: &Self) -> bool {
        arbitrary()
    }

    fn arbitrate(&self, candidate: &Self) -> (r: bool)
        ensures
            r == self.spec_arbitrate(candidate),
    ;
}

} // verus!
