use vstd::prelude::*;
use vstd::std_specs::cmp::{PartialEqIs, PartialEqSpec, PartialOrdIs, PartialOrdSpec};

verus! {

/// The unsigned integer types that can hold the modulus and the shift of a
/// residual class. Every value of such a type is a natural number no larger
/// than `max_value()`, which itself fits in a `u128`.
pub trait UnsignedInt: Copy + Sized + Eq + Ord {
    /// The natural number that a value stands for.
    spec fn as_nat(self) -> nat;

    /// The largest value of the type.
    spec fn max_value() -> nat;

    proof fn lemma_range(self)
        ensures
            self.as_nat() <= Self::max_value(),
            Self::max_value() <= u128::MAX,
    ;

    /// The largest value fits in a `u128`.
    proof fn lemma_max_fits()
        ensures
            Self::max_value() <= u128::MAX,
    ;

    /// Two values that stand for the same number are the same value.
    proof fn lemma_injective(self, other: Self)
        ensures
            self.as_nat() == other.as_nat() ==> self == other,
    ;

    /// `==` and the comparisons of the type compare the numbers that the
    /// values stand for.
    proof fn lemma_compare(self, other: Self)
        ensures
            Self::obeys_eq_spec(),
            Self::obeys_partial_cmp_spec(),
            self.is_eq(&other) == (self.as_nat() == other.as_nat()),
            self.is_lt(&other) == (self.as_nat() < other.as_nat()),
            self.is_le(&other) == (self.as_nat() <= other.as_nat()),
            self.is_gt(&other) == (self.as_nat() > other.as_nat()),
            self.is_ge(&other) == (self.as_nat() >= other.as_nat()),
    ;

    /// Every number up to `max_value()` has a value that stands for it.
    proof fn lemma_surjective(n: nat)
        requires
            n <= Self::max_value(),
        ensures
            exists|x: Self| #[trigger] x.as_nat() == n,
    ;

    fn to_u128(self) -> (r: u128)
        ensures
            r == self.as_nat(),
    ;

    fn from_u128(v: u128) -> (r: Option<Self>)
        ensures
            v <= Self::max_value() ==> (r matches Some(x) && x.as_nat() == v),
            v > Self::max_value() ==> r is None,
    ;
}

impl UnsignedInt for u8 {
    proof fn lemma_surjective(n: nat) {
        assert((n as u8).as_nat() == n);
    }

    open spec fn as_nat(self) -> nat {
        self as nat
    }

    open spec fn max_value() -> nat {
        u8::MAX as nat
    }

    proof fn lemma_range(self) {
    }

    proof fn lemma_max_fits() {
    }

    proof fn lemma_injective(self, other: Self) {
    }

    proof fn lemma_compare(self, other: Self) {
    }

    fn to_u128(self) -> (r: u128) {
        self as u128
    }

    fn from_u128(v: u128) -> (r: Option<Self>) {
        if v <= u8::MAX as u128 {
            Some(v as u8)
        } else {
            None
        }
    }
}

impl UnsignedInt for u16 {
    proof fn lemma_surjective(n: nat) {
        assert((n as u16).as_nat() == n);
    }

    open spec fn as_nat(self) -> nat {
        self as nat
    }

    open spec fn max_value() -> nat {
        u16::MAX as nat
    }

    proof fn lemma_range(self) {
    }

    proof fn lemma_max_fits() {
    }

    proof fn lemma_injective(self, other: Self) {
    }

    proof fn lemma_compare(self, other: Self) {
    }

    fn to_u128(self) -> (r: u128) {
        self as u128
    }

    fn from_u128(v: u128) -> (r: Option<Self>) {
        if v <= u16::MAX as u128 {
            Some(v as u16)
        } else {
            None
        }
    }
}

impl UnsignedInt for u32 {
    proof fn lemma_surjective(n: nat) {
        assert((n as u32).as_nat() == n);
    }

    open spec fn as_nat(self) -> nat {
        self as nat
    }

    open spec fn max_value() -> nat {
        u32::MAX as nat
    }

    proof fn lemma_range(self) {
    }

    proof fn lemma_max_fits() {
    }

    proof fn lemma_injective(self, other: Self) {
    }

    proof fn lemma_compare(self, other: Self) {
    }

    fn to_u128(self) -> (r: u128) {
        self as u128
    }

    fn from_u128(v: u128) -> (r: Option<Self>) {
        if v <= u32::MAX as u128 {
            Some(v as u32)
        } else {
            None
        }
    }
}

impl UnsignedInt for u64 {
    proof fn lemma_surjective(n: nat) {
        assert((n as u64).as_nat() == n);
    }

    open spec fn as_nat(self) -> nat {
        self as nat
    }

    open spec fn max_value() -> nat {
        u64::MAX as nat
    }

    proof fn lemma_range(self) {
    }

    proof fn lemma_max_fits() {
    }

    proof fn lemma_injective(self, other: Self) {
    }

    proof fn lemma_compare(self, other: Self) {
    }

    fn to_u128(self) -> (r: u128) {
        self as u128
    }

    fn from_u128(v: u128) -> (r: Option<Self>) {
        if v <= u64::MAX as u128 {
            Some(v as u64)
        } else {
            None
        }
    }
}

impl UnsignedInt for u128 {
    proof fn lemma_surjective(n: nat) {
        assert((n as u128).as_nat() == n);
    }

    open spec fn as_nat(self) -> nat {
        self as nat
    }

    open spec fn max_value() -> nat {
        u128::MAX as nat
    }

    proof fn lemma_range(self) {
    }

    proof fn lemma_max_fits() {
    }

    proof fn lemma_injective(self, other: Self) {
    }

    proof fn lemma_compare(self, other: Self) {
    }

    fn to_u128(self) -> (r: u128) {
        self
    }

    fn from_u128(v: u128) -> (r: Option<Self>) {
        Some(v)
    }
}

impl UnsignedInt for usize {
    proof fn lemma_surjective(n: nat) {
        assert((n as usize).as_nat() == n);
    }

    open spec fn as_nat(self) -> nat {
        self as nat
    }

    open spec fn max_value() -> nat {
        usize::MAX as nat
    }

    proof fn lemma_range(self) {
    }

    proof fn lemma_max_fits() {
    }

    proof fn lemma_injective(self, other: Self) {
    }

    proof fn lemma_compare(self, other: Self) {
    }

    fn to_u128(self) -> (r: u128) {
        self as u128
    }

    fn from_u128(v: u128) -> (r: Option<Self>) {
        if v <= usize::MAX as u128 {
            Some(v as usize)
        } else {
            None
        }
    }
}

} // verus!
