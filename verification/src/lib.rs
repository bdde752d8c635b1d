//! Analysis of a text corpus of chapters and verses.
//!
//! The corpus is loaded once from a JSON document ([`quran::Quran`]) and then
//! only read. Over it the crate computes statistics
//! ([`quran::analyze::Analyzer`], [`quran::summary::Summary`]), searches for
//! terms with the diacritics set aside ([`quran::search::QuranSearch`]), and
//! builds a concordance with its report
//! ([`quran::concordance::Concordance`]).
//!
//! Every function states in its contract what it returns, over sequences of
//! characters and the views of the corpus types, and is verified against it.
//! What rests on code outside the crate is named where it is declared: the
//! JSON parser in [`json`], and two functions of the standard library in
//! [`text`].

pub mod error;
pub mod json;
pub mod quran;
pub mod seqs;
pub mod text;
pub mod util;

pub use util::remove_diacritics;
