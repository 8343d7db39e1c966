//! A dynamic pairing-based accumulator over BLS12-381: a constant-size commitment
//! to a set of field elements, updated as elements are added and deleted, with
//! pairing-checked proofs of membership and non-membership.
pub mod accumulator;
pub mod field;
pub mod group;
pub mod poly;
pub mod product;
pub mod setup;

pub use accumulator::{
    accumulator_value_of, AccumulatorError, AddProof, DeleteProof, DynamicAccumulator, IntersectionProof,
    MembershipProof, NonMembershipProof, QueryResult, UnionProof,
};
pub use field::Scalar;
pub use group::{G1Point, G2Point};
pub use setup::element_to_field;
