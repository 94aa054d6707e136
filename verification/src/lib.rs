//! Numeric puzzles: digit groupings, arithmetic expressions over them, and
//! prime factorization of 64-bit integers.

pub mod enumeration;
pub mod expression;
pub mod factor_map;
pub mod factorization;
pub mod grouping;
pub mod modular;
pub mod number_theory;
pub mod operator;
pub mod primality;
pub mod ranking;
pub mod rho;
pub mod trial_table;
