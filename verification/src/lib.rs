//! In-place algorithms on slices, a flat two-dimensional table, and a token
//! buffer for line-oriented input.
//!
//! * `slice`: a cursor that steps through the permutations of a slice in
//!   lexicographic order, and a three-way partition around a pivot.
//! * `permutation`, `walk`, `arrangements`: what such a step is, the laws of
//!   stepping once and of stepping again and again, and how many steps lead
//!   through all the permutations.
//! * `order`, `lex`, `occurrences`: the order on elements, the lexicographic
//!   order on sequences, and counting.
//! * `dp`: a table stored row after row.
//! * `stdio`: the tokens of lines of input.
//!
//! Every function carries a contract over the sequence that a slice, a vector
//! or a string stands for, and every contract is proved. Two contracts are
//! taken on trust, those of `char::is_whitespace` and `String::push` in
//! `stdio`.
pub mod arrangements;
pub mod dp;
pub mod lex;
pub mod occurrences;
pub mod order;
pub mod permutation;
pub mod slice;
pub mod stdio;
pub mod walk;
