//! Truth tables of propositional formulas.
//!
//! A formula is written with identifiers of letters, the negation sign
//! `!`, the connectives `&`, `|`, `=>` and `<=>`, and parentheses. Its text
//! is checked ([`check_validity`]), split into tokens ([`tokens`]), reduced
//! to a tree of groups ([`group`], [`reduce`]) and converted into an
//! expression ([`parse`], [`expression`]), which is evaluated under each
//! combination of truth values of its variables ([`var_values`],
//! [`table`]).
//!
//! The other modules hold what is proved of these: that the tokens of a
//! checked text can be reduced ([`lexing`], [`shape`], [`stages`]), what
//! the reduced tree means ([`meaning`]), what tokenizing and grouping keep
//! ([`spelling`]), how the walk through the truth values counts
//! ([`enumeration`]), and what follows for the library as a whole
//! ([`laws`]).

pub mod check_validity;
pub mod enumeration;
pub mod expression;
pub mod group;
pub mod laws;
pub mod lexing;
pub mod meaning;
pub mod parse;
pub mod reduce;
pub mod shape;
pub mod spelling;
pub mod stages;
pub mod table;
pub mod text;
pub mod tokens;
pub mod var_values;
