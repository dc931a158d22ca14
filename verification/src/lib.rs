//! Typed, order-preserving values built from grammar-matched parse trees.
//!
//! A grammar engine turns source text into a tree of labelled nodes ([`tree`]). The
//! builders here walk such a tree and produce the typed values it stands for:
//! documents of a TOML-like configuration language ([`toml`]), JSON values
//! ([`json`]), syntax trees of a small array language ([`jlang`]) and tables of
//! comma-separated values ([`csv`]). They share the resolution of dotted key paths
//! ([`path`]) and of number literals ([`number`]).
//!
//! Every builder is all or nothing: it hands back the whole value, or the error of
//! the first node, in tree order, that could not be built. What each builder hands
//! back is stated over mathematical models of trees and values, and proved.

pub mod csv;
pub mod jlang;
pub mod json;
pub mod number;
pub mod path;
pub mod text;
pub mod toml;
pub mod tree;
