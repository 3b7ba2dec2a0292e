//! A word-puzzle solver over an in-memory English dictionary.
//!
//! Queries are written in a small query language: an expression matches an
//! ordered tuple of words against per-slot predicates, an anagram equation
//! `L =a R` yields pairs of tuples that are letter-permutations of each
//! other, and a spoonerism equation `L =s R` swaps the leading letters of
//! two-word tuples.  The solver pipeline is built on a multiset-indexed
//! anagram dictionary keyed by products of primes.

pub mod anagram_dict;
pub mod anagram_iterator;
pub mod anagram_key;
pub mod anagram_settings;
pub mod binary_map;
pub mod character;
pub mod equation;
pub mod examples;
pub mod expression;
pub mod fixed_length_expression;
pub mod full_state;
pub mod homograph;
pub mod many_expression;
pub mod parser;
pub mod pattern;
pub mod phrase_expressions;
pub mod question;
pub mod solution;
pub mod solvable;
pub mod term_dict;
pub mod text;
pub mod word_context;
pub mod word_query;
pub mod wordnet;
