//! A verse of the corpus.

use crate::text::{contains_chars, contains_seq, split_words, words_of};
use crate::util::{normalized, normalized_chars};
use vstd::prelude::*;

verus! {

/// A verse: its number within the chapter, the name of the chapter that owns
/// it, and its text as it was loaded, diacritics included.
#[derive(Debug)]
pub struct Ayah {
    pub(crate) ayah_number: u32,
    pub(crate) surah_name: String,
    pub(crate) text: String,
}

/// What a verse holds, as mathematical values.
pub struct AyahView {
    pub number: nat,
    pub surah_name: Seq<char>,
    pub text: Seq<char>,
}

impl View for Ayah {
    type V = AyahView;

    open(crate) spec fn view(&self) -> AyahView {
        AyahView {
            number: self.ayah_number as nat,
            surah_name: self.surah_name@,
            text: self.text@,
        }
    }
}

/// Whether a verse with the text `text` matches the search term `term`: the
/// normal form of the term is a contiguous part of the normal form of the
/// text. The empty term matches every text.
pub open spec fn verse_matches(text: Seq<char>, term: Seq<char>) -> bool {
    contains_seq(normalized(text), normalized(term))
}

impl AyahView {
    /// The words of the verse: the whitespace-delimited parts of its text,
    /// diacritics kept.
    pub open spec fn words(self) -> Seq<Seq<char>> {
        words_of(self.text)
    }

    /// The number of characters of the text, diacritics counted.
    pub open spec fn letters(self) -> nat {
        self.text.len()
    }
}

/// The views of the verses of `ayahs`, in order.
pub open spec fn ayah_views(ayahs: Seq<Ayah>) -> Seq<AyahView> {
    ayahs.map_values(|a: Ayah| a@)
}

impl Ayah {
    /// The words of the verse, each a slice of its text.
    pub fn words(&self) -> (words: Vec<&str>)
        ensures
            words@.len() == self@.words().len(),
            forall|k: int| 0 <= k < words@.len() ==> (#[trigger] words@[k])@ == self@.words()[k],
    {
        split_words(self.text.as_str())
    }

    /// The text of the verse as it was loaded.
    pub fn text(&self) -> (text: &str)
        ensures
            text@ == self@.text,
    {
        self.text.as_str()
    }

    /// The name of the chapter that owns the verse.
    pub fn surah_name(&self) -> (name: &str)
        ensures
            name@ == self@.surah_name,
    {
        self.surah_name.as_str()
    }

    /// The number of the verse within its chapter, as its record gives it.
    pub fn number(&self) -> (number: usize)
        ensures
            number == self@.number,
    {
        self.ayah_number as usize
    }

    /// Whether the verse matches `search_term`, diacritics set aside on both
    /// sides.
    pub fn contains_word(&self, search_term: &str) -> (found: bool)
        ensures
            found == verse_matches(self@.text, search_term@),
    {
        let needle = normalized_chars(search_term);
        let stripped = normalized_chars(self.text.as_str());
        contains_chars(&stripped, &needle)
    }

    /// The number of characters of the text, diacritics counted.
    pub fn total_letters(&self) -> (n: usize)
        ensures
            n == self@.letters(),
    {
        self.text.as_str().unicode_len()
    }

    /// The number of words of the text.
    pub fn total_words(&self) -> (n: usize)
        ensures
            n == self@.words().len(),
    {
        self.words().len()
    }
}

} // verus!
