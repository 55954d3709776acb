//! The interface of an ordered, graded basis.
use crate::{DegreeType, DimensionType};
use std::cmp::Ordering;
use vstd::prelude::*;

verus! {

/// A basis: a set of keys.
pub trait Basis {
    type KeyType;
}

/// A basis whose keys have a degree.
pub trait BasisWithDegree: Basis {
    /// The degree of a key.
    spec fn key_degree(key: &Self::KeyType) -> nat;

    /// The degree of `key`.
    fn degree(key: &Self::KeyType) -> (r: DegreeType)
        ensures
            r == Self::key_degree(key),
    ;
}

/// A basis whose keys are numbered: key `k` sits at position `position(k)` of a dense vector.
pub trait OrderedBasis: Basis {
    /// A key the basis can number.
    spec fn valid_key(key: &Self::KeyType) -> bool;

    /// A key whose position is addressable in memory.
    spec fn addressable_key(key: &Self::KeyType) -> bool;

    /// A position that holds a key.
    spec fn valid_index(index: int) -> bool;

    /// The position of a key.
    spec fn position(key: &Self::KeyType) -> int;

    /// The value by which `compare` orders keys.
    spec fn order_value(key: &Self::KeyType) -> int;

    /// Compares two keys by their order values.
    fn compare(lhs: &Self::KeyType, rhs: &Self::KeyType) -> (r: Ordering)
        requires
            Self::valid_key(lhs),
            Self::valid_key(rhs),
        ensures
            r == Ordering::Less <==> Self::order_value(lhs) < Self::order_value(rhs),
            r == Ordering::Equal <==> Self::order_value(lhs) == Self::order_value(rhs),
            r == Ordering::Greater <==> Self::order_value(lhs) > Self::order_value(rhs),
    ;

    /// The position of `key`.
    fn key_to_index(key: &Self::KeyType) -> (r: DimensionType)
        requires
            Self::valid_key(key),
            Self::addressable_key(key),
        ensures
            r == Self::position(key),
    ;

    /// The key at position `index`.
    fn index_to_key(index: DimensionType) -> (r: Self::KeyType)
        requires
            Self::valid_index(index as int),
        ensures
            Self::valid_key(&r),
            Self::position(&r) == index,
    ;
}

/// A numbered basis whose keys of each degree fill one contiguous block of positions.
pub trait OrderedBasisWithDegree: OrderedBasis + BasisWithDegree {
    /// The first position of the block of degree `deg`.
    spec fn start_spec(deg: nat) -> int;

    /// The basis has the blocks it describes.
    spec fn graded() -> bool;

    /// The first position of the block of degree `deg`.
    fn start_of_degree(deg: DegreeType) -> (r: DimensionType)
        requires
            Self::graded(),
            Self::start_spec(deg as nat) <= usize::MAX,
        ensures
            r == Self::start_spec(deg as nat),
    ;

    /// The degree of the block holding position `index`.
    fn index_to_degree(index: DimensionType) -> (r: DegreeType)
        requires
            Self::graded(),
        ensures
            Self::start_spec(r as nat) <= index < Self::start_spec(r as nat + 1),
    ;
}

} // verus!
