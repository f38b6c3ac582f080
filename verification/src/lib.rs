//! Finite groups built from modular arithmetic, with the number theory that
//! makes them well defined.
//!
//! * `utils` and `const_utils`: greatest common divisors, Bezout cofactors,
//!   modular inverses and Euler's totient function.
//! * `rt`: the group of units modulo a number chosen at run time.
//! * `ct`: the additive group of residues and the group of units modulo a
//!   number that is part of the type.
//!
//! The remaining modules hold the mathematics that the contracts are stated
//! in and proved from: `divisibility`, `remainder`, `modular`, `counting`,
//! `totient`, `unit_group` and `lagrange`.
pub mod const_utils;
pub mod counting;
pub mod ct;
pub mod divisibility;
pub mod lagrange;
pub mod modular;
pub mod remainder;
pub mod rt;
pub mod totient;
pub mod unit_group;
pub mod utils;
