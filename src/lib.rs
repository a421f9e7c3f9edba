//! Projective-Niels points over the Goldilocks prime field, with
//! constant-time selection and negation and the conversion to extended
//! twisted-Edwards coordinates.

pub mod field;
pub mod extended;
pub mod projective;
