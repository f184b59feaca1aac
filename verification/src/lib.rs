//! Numerical semigroups: the sliding-window computation of the Apéry set and
//! minimal generators, derived invariants (Frobenius number, genus, type,
//! Kunz coefficients, pseudo-Frobenius numbers), constructions that produce
//! new semigroups, integer matrices attached to the Kunz cone, and a small
//! arithmetic expression evaluator.
pub mod arith;
pub mod generated;
pub mod semigroup;
pub mod inspect;
pub mod compute;
pub mod derived;
pub mod matrix;
pub mod determinant;
pub mod kunz_matrices;
pub mod manipulators;
pub mod constructions;
pub mod eva;
pub mod strata;
pub mod creators;
pub mod identities;
pub mod text;
pub mod cones;
pub mod tally;
pub mod html;
pub mod grid;
pub mod diagonals;
pub mod gap_script;
pub mod out_file;
pub mod variables;
pub mod listing;
pub mod probes;
pub mod hasse;
pub mod input;
pub mod diagonal_laws;
pub mod tables;
pub mod order;
pub mod descent_image;
pub mod kappa_laws;
pub mod kstar_laws;
pub mod ladder_laws;
