//! A small ahead-of-time translator: source text in a minimal procedural
//! language goes in, x86-64 assembly text comes out.
//!
//! The text is cleaned ([`cleaner`]), cut into tokens ([`lexer`]) and walked
//! once, token by token, by the code generator ([`generator`]). What the
//! generator writes is defined by the state machine in [`model`]; what holds
//! of every walk is proved in [`invariants`], and what holds of the lines of
//! the text it returns in [`textual`].

use vstd::prelude::*;

pub mod chars;
pub mod text;
pub mod decimal;
pub mod token;
pub mod lexer;
pub mod cleaner;
pub mod error;
pub mod emit;
pub mod model;
pub mod generator;
pub mod invariants;
pub mod textual;
pub mod driver;
