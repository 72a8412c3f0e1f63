//! The supported vocabulary kinds, one module each.
//!
//! Only the affiliations kind carries a real conversion; the other four are
//! declared and answer every request with an error.

pub mod affiliations;
pub mod awards;
pub mod funding;
pub mod names;
pub mod subjects;
