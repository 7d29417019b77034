//! Penrose tilings and aperiodic lattices: Fibonacci substitution, Farey
//! sequences, the Stern–Brocot tree and the combinatorics of Penrose inflation.

pub mod fibonacci;
pub mod substitution;
pub mod number_theory;
pub mod farey;
pub mod farey_laws;
pub mod penrose;
pub mod inflation;

pub use farey::FareySequence;
pub use inflation::InflationDeflation;
pub use number_theory::gcd;
pub use penrose::PenroseTopology;
pub use substitution::{mat2_mul_u64, SubstitutionMatrix};
