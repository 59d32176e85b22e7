//! Satisfiability of word equations. The search rewrites the two sides of an
//! equation as words, by elementary transformations; the generalized equation
//! laid out from an equation is where the consistency conditions C1 and C2 are
//! stated and checked.
//!
//! - `word`: letters, words, substitutions and word equations.
//! - `ge`: generalized equations and their consistency conditions C1 and C2.
//! - `engine`: the elementary transformations and the bounded search.
//! - `invariants`: equations in which each variable occurs twice stay so, and
//!   their generalized equations satisfy C1 and C2.
//! - `soundness`: the images kept along the search take both sides of the
//!   original equation to the same word at an accepting node.
pub mod word;
pub mod ge;
pub mod engine;
pub mod invariants;
pub mod soundness;
