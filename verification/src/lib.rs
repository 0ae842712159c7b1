//! Prime-implicant generation (Quine-McCluskey) for truth tables with
//! asserted, negated and don't-care rows.
//!
//! A truth table with `width` input bits is classified row by row
//! ([`seeding::tabulate`]); the rows that are not negated become implicants
//! of a single row ([`seeding::seed_implicants`]); combination rounds merge
//! implicants that differ in one fixed bit ([`level::combine_level`]) until
//! none is left to merge, and the implicants that no round could merge are
//! the prime implicants ([`engine::calculate_prime_implicants`]).

pub mod bits;
pub mod cube;
pub mod implicant;
pub mod level;
pub mod prime;
pub mod engine;
pub mod rules;
pub mod seeding;
pub mod report;
