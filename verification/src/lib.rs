//! A KZG (Kate) polynomial commitment scheme over the BN254 scalar field:
//! dense polynomials with exact modular arithmetic, an evaluation-domain
//! representation with a radix-2 transform for fast multiplication, and the
//! commit / witness / verify protocol built on a structured reference string.

pub mod field;
pub mod polynomial;
pub mod ft;
pub mod kzg;
