//! A chapter of the corpus.

use super::verse::{ayah_views, Ayah, AyahView};
use vstd::prelude::*;

verus! {

/// A chapter: its number, its name, the number of verses that its record
/// declares, and its verses in order. The declared number is kept as it was
/// read and need not be the number of verses held.
#[derive(Debug)]
pub struct Surah {
    pub(crate) id: u32,
    pub(crate) name: String,
    pub(crate) total_verses: u32,
    pub(crate) ayahs: Vec<Ayah>,
}

/// What a chapter holds, as mathematical values.
pub struct SurahView {
    pub id: nat,
    pub name: Seq<char>,
    pub total_verses: nat,
    pub ayahs: Seq<AyahView>,
}

impl View for Surah {
    type V = SurahView;

    open(crate) spec fn view(&self) -> SurahView {
        SurahView {
            id: self.id as nat,
            name: self.name@,
            total_verses: self.total_verses as nat,
            ayahs: ayah_views(self.ayahs@),
        }
    }
}

/// The letters of `ayahs`, all verses together.
pub open spec fn letters_in(ayahs: Seq<AyahView>) -> nat
    decreases ayahs.len(),
{
    if ayahs.len() == 0 {
        0
    } else {
        letters_in(ayahs.drop_last()) + ayahs.last().letters()
    }
}

/// The words of `ayahs` as they stand in the text, verse after verse.
pub open spec fn ayah_words(ayahs: Seq<AyahView>) -> Seq<Seq<char>>
    decreases ayahs.len(),
{
    if ayahs.len() == 0 {
        Seq::empty()
    } else {
        ayah_words(ayahs.drop_last()) + ayahs.last().words()
    }
}

/// The letters of the first verses are among the letters of all.
pub proof fn lemma_letters_prefix(ayahs: Seq<AyahView>, n: int)
    requires
        0 <= n <= ayahs.len(),
    ensures
        letters_in(ayahs.take(n)) <= letters_in(ayahs),
    decreases ayahs.len() - n,
{
    if n == ayahs.len() {
        assert(ayahs.take(n) =~= ayahs);
    } else {
        lemma_letters_prefix(ayahs, n + 1);
        assert(ayahs.take(n + 1).drop_last() =~= ayahs.take(n));
    }
}

/// The words of the first verses are among the words of all.
pub proof fn lemma_words_prefix(ayahs: Seq<AyahView>, n: int)
    requires
        0 <= n <= ayahs.len(),
    ensures
        ayah_words(ayahs.take(n)).len() <= ayah_words(ayahs).len(),
    decreases ayahs.len() - n,
{
    if n == ayahs.len() {
        assert(ayahs.take(n) =~= ayahs);
    } else {
        lemma_words_prefix(ayahs, n + 1);
        assert(ayahs.take(n + 1).drop_last() =~= ayahs.take(n));
    }
}

impl SurahView {
    /// The letters of the chapter: those of its verses.
    pub open spec fn letters(self) -> nat {
        letters_in(self.ayahs)
    }

    /// The number of words of the chapter.
    pub open spec fn words(self) -> nat {
        ayah_words(self.ayahs).len()
    }

    /// Whether every verse names this chapter as its owner.
    pub open spec fn well_formed(self) -> bool {
        forall|k: int| 0 <= k < self.ayahs.len() ==> (#[trigger] self.ayahs[k]).surah_name == self.name
    }
}

/// The views of the chapters of `surahs`, in order.
pub open spec fn surah_views(surahs: Seq<Surah>) -> Seq<SurahView> {
    surahs.map_values(|s: Surah| s@)
}

impl Surah {
    /// The name of the chapter.
    pub fn name(&self) -> (name: String)
        ensures
            name@ == self@.name,
    {
        self.name.clone()
    }

    /// The verses of the chapter, in order.
    pub fn ayas(&self) -> (ayahs: &Vec<Ayah>)
        ensures
            ayah_views(ayahs@) == self@.ayahs,
    {
        &self.ayahs
    }

    /// The number of verses that the chapter holds.
    pub fn total_ayahs(&self) -> (n: usize)
        ensures
            n == self@.ayahs.len(),
    {
        self.ayahs.len()
    }

    /// The letters of the chapter, diacritics counted.
    pub fn total_letters(&self) -> (n: usize)
        requires
            self@.letters() <= usize::MAX,
        ensures
            n == self@.letters(),
    {
        let mut n: usize = 0;
        let mut i: usize = 0;
        while i < self.ayahs.len()
            invariant
                i <= self.ayahs.len(),
                self@.ayahs == ayah_views(self.ayahs@),
                self@.letters() <= usize::MAX,
                n == letters_in(self@.ayahs.take(i as int)),
            decreases self.ayahs.len() - i,
        {
            proof {
                lemma_letters_prefix(self@.ayahs, i + 1);
                assert(self@.ayahs.take(i + 1).drop_last() =~= self@.ayahs.take(i as int));
            }
            n = n + self.ayahs[i].total_letters();
            i = i + 1;
        }
        assert(self@.ayahs.take(i as int) =~= self@.ayahs);
        n
    }

    /// The number of words of the chapter.
    pub fn total_words(&self) -> (n: usize)
        requires
            self@.words() <= usize::MAX,
        ensures
            n == self@.words(),
    {
        let mut n: usize = 0;
        let mut i: usize = 0;
        while i < self.ayahs.len()
            invariant
                i <= self.ayahs.len(),
                self@.ayahs == ayah_views(self.ayahs@),
                self@.words() <= usize::MAX,
                n == ayah_words(self@.ayahs.take(i as int)).len(),
            decreases self.ayahs.len() - i,
        {
            proof {
                lemma_words_prefix(self@.ayahs, i + 1);
                assert(self@.ayahs.take(i + 1).drop_last() =~= self@.ayahs.take(i as int));
            }
            n = n + self.ayahs[i].total_words();
            i = i + 1;
        }
        assert(self@.ayahs.take(i as int) =~= self@.ayahs);
        n
    }
}

} // verus!
