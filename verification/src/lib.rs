//! Replaces every word of a structured document by a substitute of the same
//! shape, leaving separators, delimiters and structural directives untouched.
//!
//! A document arrives as a tree of [`node::Node`]s. [`node::mutilate`] walks
//! the tree and decides for each node what is echoed and what is handed to
//! the tokenizer, [`text::mutilate_text`], which echoes the separator runs
//! of a text and hands each word to [`word::mutilate_word`]. The word
//! mutilator draws a substitute: a digit for a number, else a known word of
//! the same hyphenation signature or of the same length from the
//! [`index::WordIndex`], else as many letters as the word has characters.
//! All of them work on a [`context::Context`], which
//! [`context::build_context`] sets up.
//!
//! What each of them does is stated over plain sequences of characters: how
//! a text falls apart into words and separator runs is defined in
//! [`tokens`], which substitutes a word may get in [`word`], what may become
//! of a node in [`node`]. The draws are left open: a contract says which
//! outputs are possible, not which one a seed gives.

pub mod alphabet;
pub mod context;
pub mod hyphenation;
pub mod index;
pub mod node;
pub mod strings;
pub mod text;
pub mod tokens;
pub mod word;
pub mod wordlist;
