//! A symbolic expression engine: mathematical expressions are trees of
//! operator nodes - sums, products, powers, negation, exponentials,
//! logarithms, constants and named functions. The engine computes formal
//! derivatives and rewrites trees toward a canonical simplified form with
//! algebraic identities: distribution, associative flattening,
//! neutral-element folding, like-term grouping and common-factor
//! extraction.
//!
//! Every operation carries a contract against a ghost tree model
//! ([`view::TreeView`]) and is verified against it:
//! - [`math_kind`] - the closed set of node kinds and their tables;
//! - [`math_type`] - the tree itself, constructors and structural queries;
//! - [`order`] - the total order on canonical trees;
//! - [`sort`] - canonicalization and its theory;
//! - [`rewrite`] - the four rewrite passes;
//! - [`simplify`] - the bounded fixed-point driver;
//! - [`derivative`] - the differentiation rules;
//! - [`factor`] - the common-factor search;
//! - [`display`] - the two text renderings;
//! - [`laws`] - the algebraic laws, proved for all inputs.

pub mod math_kind;
pub mod view;
pub mod math_type;
pub mod order;
pub mod sort;
pub mod rewrite;
pub mod simplify;
pub mod derivative;
pub mod factor;
pub mod display;
pub mod laws;
