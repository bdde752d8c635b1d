//! Statistics over the corpus: counts, averages, the longest and the
//! shortest chapter, and the most common word.

use super::frequency::{is_most_common, most_common, occurrences, word_views};
use super::surah::{ayah_words, lemma_letters_prefix, letters_in, surah_views, SurahView};
use super::verse::{ayah_views, Ayah, AyahView};
use super::{all_ayahs, ayah_ref_views, Quran};
use crate::text::{decimal, decimal_of, lowercase, lowercase_of, signed_decimal, signed_decimal_of};
use vstd::string::StringExecFns;
use vstd::prelude::*;

verus! {

/// The letters of `chapters`, all chapters together.
pub open spec fn corpus_letters(chapters: Seq<SurahView>) -> nat
    decreases chapters.len(),
{
    if chapters.len() == 0 {
        0
    } else {
        corpus_letters(chapters.drop_last()) + chapters.last().letters()
    }
}

/// The words of `chapters` as they stand in the text, in corpus order.
pub open spec fn corpus_words(chapters: Seq<SurahView>) -> Seq<Seq<char>>
    decreases chapters.len(),
{
    if chapters.len() == 0 {
        Seq::empty()
    } else {
        corpus_words(chapters.drop_last()) + ayah_words(chapters.last().ayahs)
    }
}

/// `words`, each in lower case.
pub open spec fn lowered(words: Seq<Seq<char>>) -> Seq<Seq<char>> {
    words.map_values(|w: Seq<char>| lowercase_of(w))
}

/// The words that the frequencies are counted over: the words of the corpus
/// in lower case, diacritics kept, so that words that differ in a diacritic
/// count as different words.
pub open spec fn frequency_words(chapters: Seq<SurahView>) -> Seq<Seq<char>> {
    lowered(corpus_words(chapters))
}

/// Whether the chapter at the position `at` has letters, more than every
/// chapter before it, and no fewer than any chapter.
pub open spec fn is_first_longest(chapters: Seq<SurahView>, at: int) -> bool {
    &&& 0 <= at < chapters.len()
    &&& chapters[at].letters() > 0
    &&& forall|j: int| 0 <= j < at ==> (#[trigger] chapters[j]).letters() < chapters[at].letters()
    &&& forall|j: int|
        0 <= j < chapters.len() ==> (#[trigger] chapters[j]).letters() <= chapters[at].letters()
}

/// Whether `name` and `letters` are those of the longest chapter: the first
/// of the chapters with the most letters. Where no chapter has a letter,
/// the name is empty and the count is 0.
pub open spec fn is_longest(chapters: Seq<SurahView>, name: Seq<char>, letters: nat) -> bool {
    ||| {
        &&& letters == 0
        &&& name == Seq::<char>::empty()
        &&& forall|j: int| 0 <= j < chapters.len() ==> (#[trigger] chapters[j]).letters() == 0
    }
    ||| exists|at: int| #[trigger]
        is_first_longest(chapters, at) && name == chapters[at].name && letters
            == chapters[at].letters()
}

/// Whether the chapter at the position `at` has fewer letters than `limit`,
/// fewer than every chapter before it, and no more than any chapter.
pub open spec fn is_first_shortest(chapters: Seq<SurahView>, at: int, limit: nat) -> bool {
    &&& 0 <= at < chapters.len()
    &&& chapters[at].letters() < limit
    &&& forall|j: int| 0 <= j < at ==> (#[trigger] chapters[j]).letters() > chapters[at].letters()
    &&& forall|j: int|
        0 <= j < chapters.len() ==> (#[trigger] chapters[j]).letters() >= chapters[at].letters()
}

/// Whether `name` and `letters` are what the search for the shortest chapter
/// holds after `chapters`. It starts from `limit` letters and an empty name,
/// and a chapter takes the place only with fewer letters than are held, so
/// of the chapters with the fewest letters the first is kept.
pub open spec fn is_shortest_below(
    chapters: Seq<SurahView>,
    name: Seq<char>,
    letters: nat,
    limit: nat,
) -> bool {
    ||| {
        &&& letters == limit
        &&& name == Seq::<char>::empty()
        &&& forall|j: int| 0 <= j < chapters.len() ==> (#[trigger] chapters[j]).letters() >= limit
    }
    ||| exists|at: int| #[trigger]
        is_first_shortest(chapters, at, limit) && name == chapters[at].name && letters
            == chapters[at].letters()
}

/// Whether `name` and `letters` are those of the shortest chapter: the first
/// of the chapters with the fewest letters. The search starts from the
/// largest count that the machine holds. For a corpus without chapters the
/// name is empty and the count is 0.
pub open spec fn is_shortest(chapters: Seq<SurahView>, name: Seq<char>, letters: nat) -> bool {
    if chapters.len() == 0 {
        letters == 0 && name == Seq::<char>::empty()
    } else {
        is_shortest_below(chapters, name, letters, usize::MAX as nat)
    }
}

/// The letters of the first chapters are among the letters of all.
pub proof fn lemma_corpus_letters_prefix(chapters: Seq<SurahView>, n: int)
    requires
        0 <= n <= chapters.len(),
    ensures
        corpus_letters(chapters.take(n)) <= corpus_letters(chapters),
    decreases chapters.len() - n,
{
    if n == chapters.len() {
        assert(chapters.take(n) =~= chapters);
    } else {
        lemma_corpus_letters_prefix(chapters, n + 1);
        assert(chapters.take(n + 1).drop_last() =~= chapters.take(n));
    }
}

/// Whether the statistics of `chapters` fit their fields: the letters fit
/// the machine word, and no word occurs more often than a 32-bit count
/// holds.
pub open spec fn within_limits(chapters: Seq<SurahView>) -> bool {
    &&& corpus_letters(chapters) <= usize::MAX
    &&& forall|w: Seq<char>| #[trigger] occurrences(frequency_words(chapters), w) <= i32::MAX
}

/// The count of the most common word bounds the count of every word.
proof fn lemma_top_bounds_all(words: Seq<Seq<char>>, w: Seq<char>, n: int)
    requires
        is_most_common(words, Some((w, n))),
    ensures
        (forall|v: Seq<char>| #[trigger] occurrences(words, v) <= i32::MAX) == (n <= i32::MAX),
{
}

/// Without words no word occurs.
proof fn lemma_no_words_no_occurrences(words: Seq<Seq<char>>)
    requires
        is_most_common(words, None),
    ensures
        forall|v: Seq<char>| #[trigger] occurrences(words, v) <= i32::MAX,
{
    assert forall|v: Seq<char>| #[trigger] occurrences(words, v) <= i32::MAX by {
        super::frequency::lemma_occurrences_bound(words, v);
    }
}

/// The statistics of a corpus.
#[derive(Debug)]
pub struct Analyzer {
    pub total_surahs: usize,
    pub total_ayahs: usize,
    pub total_letters: usize,
    pub total_words: usize,
    pub average_letters_per_surah: usize,
    pub average_words_per_surah: usize,
    pub longest_surah_name: String,
    pub longest_surah_letters: usize,
    pub shortest_surah_name: String,
    pub shortest_surah_letters: usize,
    pub most_common_word: Option<(String, i32)>,
}

/// The rows of the table that shows the statistics `a`: a label and a value
/// each. The two rows for the most common word stand only where there is
/// one; its word is followed by a space.
pub open spec fn table_rows(a: Analyzer) -> Seq<(Seq<char>, Seq<char>)> {
    seq![
        ("Total Surahs"@, decimal_of(a.total_surahs as nat)),
        ("Total Ayahs"@, decimal_of(a.total_ayahs as nat)),
        ("Average Letters per Surah"@, decimal_of(a.average_letters_per_surah as nat)),
        ("Average Words per Surah"@, decimal_of(a.average_words_per_surah as nat)),
        ("Longest Surah Name"@, a.longest_surah_name@),
        ("Longest Surah Letters"@, decimal_of(a.longest_surah_letters as nat)),
        ("Shortest Surah Name"@, a.shortest_surah_name@),
        ("Shortest Surah Letters"@, decimal_of(a.shortest_surah_letters as nat)),
    ] + match a.most_common_word {
        Some((word, count)) => seq![
            ("Most Common Word"@, word@ + " "@),
            ("Most Common Word Occurrences"@, signed_decimal_of(count as int)),
        ],
        None => Seq::empty(),
    }
}

/// The views of the rows of a table.
pub open spec fn row_views(rows: Seq<(String, String)>) -> Seq<(Seq<char>, Seq<char>)> {
    rows.map_values(|r: (String, String)| (r.0@, r.1@))
}

/// A row with the label `label` and the numeral of `n`.
fn count_row(label: &str, n: usize) -> (row: (String, String))
    ensures
        row.0@ == label@,
        row.1@ == decimal_of(n as nat),
{
    (label.to_owned(), decimal(n as u128))
}

/// A row with the label `label` and a copy of `text`.
fn text_row(label: &str, text: &String) -> (row: (String, String))
    ensures
        row.0@ == label@,
        row.1@ == text@,
{
    (label.to_owned(), text.clone())
}

/// Appends the words of `ayah`, in lower case, to `words`.
fn push_lowered(ayah: &Ayah, words: &mut Vec<String>)
    ensures
        word_views(final(words)@) == word_views(old(words)@) + lowered(ayah@.words()),
{
    let parts = ayah.words();
    let ghost before = word_views(words@);
    let ghost texts = ayah@.words();
    let mut k: usize = 0;
    assert(before + lowered(texts.take(0)) =~= before);
    while k < parts.len()
        invariant
            k <= parts.len(),
            parts@.len() == texts.len(),
            forall|a: int| 0 <= a < parts@.len() ==> (#[trigger] parts@[a])@ == texts[a],
            word_views(words@) == before + lowered(texts.take(k as int)),
        decreases parts.len() - k,
    {
        let ghost held = words@;
        let word = lowercase(parts[k]);
        words.push(word);
        proof {
            assert(word_views(words@) =~= word_views(held).push(lowercase_of(texts[k as int])));
            assert(before + lowered(texts.take(k + 1)) =~= (before + lowered(
                texts.take(k as int),
            )).push(lowercase_of(texts[k as int])));
        }
        k = k + 1;
    }
    assert(texts.take(k as int) =~= texts);
}

/// The words of the corpus in lower case, in corpus order: see
/// [`frequency_words`].
pub fn lowered_words(quran: &Quran) -> (words: Vec<String>)
    ensures
        word_views(words@) == frequency_words(quran@),
{
    let surahs = quran.surahs();
    let ghost chapters = quran@;
    let mut words: Vec<String> = Vec::new();
    let mut i: usize = 0;
    assert(word_views(words@) =~= lowered(corpus_words(chapters.take(0))));
    while i < surahs.len()
        invariant
            i <= surahs.len(),
            chapters == surah_views(surahs@),
            word_views(words@) == lowered(corpus_words(chapters.take(i as int))),
        decreases surahs.len() - i,
    {
        let ayahs = surahs[i].ayas();
        let ghost verses = surahs@[i as int]@.ayahs;
        let ghost before = corpus_words(chapters.take(i as int));
        let mut j: usize = 0;
        assert(lowered(before + ayah_words(verses.take(0))) =~= lowered(before));
        while j < ayahs.len()
            invariant
                j <= ayahs.len(),
                verses == ayah_views(ayahs@),
                word_views(words@) == lowered(before + ayah_words(verses.take(j as int))),
            decreases ayahs.len() - j,
        {
            push_lowered(&ayahs[j], &mut words);
            proof {
                assert(verses.take(j + 1).drop_last() =~= verses.take(j as int));
                assert(verses.take(j + 1).last() == ayahs@[j as int]@);
                assert(lowered(before + ayah_words(verses.take(j + 1))) =~= lowered(
                    before + ayah_words(verses.take(j as int)),
                ) + lowered(ayahs@[j as int]@.words()));
            }
            j = j + 1;
        }
        proof {
            assert(verses.take(j as int) =~= verses);
            assert(chapters.take(i + 1).drop_last() =~= chapters.take(i as int));
            assert(chapters.take(i + 1).last() == surahs@[i as int]@);
        }
        i = i + 1;
    }
    assert(chapters.take(i as int) =~= chapters);
    words
}

impl Analyzer {
    /// The most common word with its count, as mathematical values.
    pub open spec fn top_word(&self) -> Option<(Seq<char>, int)> {
        match self.most_common_word {
            Some((word, count)) => Some((word@, count as int)),
            None => None,
        }
    }

    /// Whether these are the statistics of `chapters`.
    ///
    /// The counts are those of the chapters, of all verses, of all letters
    /// with diacritics, and of all words. The averages are the letters and
    /// the words divided by the number of chapters, rounded down, and 0 for
    /// a corpus without chapters. For the rest see [`is_longest`],
    /// [`is_shortest`] and [`is_most_common`] over [`frequency_words`].
    pub open spec fn describes(&self, chapters: Seq<SurahView>) -> bool {
        &&& self.total_surahs == chapters.len()
        &&& self.total_ayahs == all_ayahs(chapters).len()
        &&& self.total_letters == corpus_letters(chapters)
        &&& self.total_words == corpus_words(chapters).len()
        &&& self.average_letters_per_surah == if chapters.len() == 0 {
            0
        } else {
            corpus_letters(chapters) as int / chapters.len() as int
        }
        &&& self.average_words_per_surah == if chapters.len() == 0 {
            0
        } else {
            corpus_words(chapters).len() as int / chapters.len() as int
        }
        &&& is_longest(chapters, self.longest_surah_name@, self.longest_surah_letters as nat)
        &&& is_shortest(chapters, self.shortest_surah_name@, self.shortest_surah_letters as nat)
        &&& is_most_common(frequency_words(chapters), self.top_word())
    }

    /// The rows of the table that shows these statistics: see
    /// [`table_rows`].
    pub fn rows(&self) -> (rows: Vec<(String, String)>)
        ensures
            row_views(rows@) == table_rows(*self),
    {
        let mut rows: Vec<(String, String)> = Vec::new();
        rows.push(count_row("Total Surahs", self.total_surahs));
        rows.push(count_row("Total Ayahs", self.total_ayahs));
        rows.push(count_row("Average Letters per Surah", self.average_letters_per_surah));
        rows.push(count_row("Average Words per Surah", self.average_words_per_surah));
        rows.push(text_row("Longest Surah Name", &self.longest_surah_name));
        rows.push(count_row("Longest Surah Letters", self.longest_surah_letters));
        rows.push(text_row("Shortest Surah Name", &self.shortest_surah_name));
        rows.push(count_row("Shortest Surah Letters", self.shortest_surah_letters));
        match &self.most_common_word {
            Some((word, count)) => {
                let mut shown = word.clone();
                shown.append(" ");
                rows.push(("Most Common Word".to_owned(), shown));
                rows.push(("Most Common Word Occurrences".to_owned(), signed_decimal(*count)));
            },
            None => {},
        }
        assert(row_views(rows@) =~= table_rows(*self));
        rows
    }

    /// Whether the corpus is within the limits of [`Analyzer::new`]: see
    /// [`within_limits`].
    pub fn fits(quran: &Quran) -> (fits: bool)
        ensures
            fits == within_limits(quran@),
    {
        let ghost chapters = quran@;
        let surahs = quran.surahs();
        let mut total: usize = 0;
        let mut i: usize = 0;
        while i < surahs.len()
            invariant
                i <= surahs.len(),
                chapters == quran@,
                chapters == surah_views(surahs@),
                total == corpus_letters(chapters.take(i as int)),
            decreases surahs.len() - i,
        {
            let ayahs = surahs[i].ayas();
            let ghost verses = surahs@[i as int]@.ayahs;
            let ghost before = total;
            let mut j: usize = 0;
            proof {
                assert(chapters.take(i + 1).drop_last() =~= chapters.take(i as int));
                assert(chapters.take(i + 1).last() == surahs@[i as int]@);
                lemma_corpus_letters_prefix(chapters, i + 1);
                assert(verses.take(0) =~= Seq::<AyahView>::empty());
            }
            while j < ayahs.len()
                invariant
                    j <= ayahs.len(),
                    chapters == quran@,
                    verses == ayah_views(ayahs@),
                    total == before + letters_in(verses.take(j as int)),
                    corpus_letters(chapters.take(i + 1)) == before + letters_in(verses),
                    corpus_letters(chapters.take(i + 1)) <= corpus_letters(chapters),
                decreases ayahs.len() - j,
            {
                proof {
                    assert(verses.take(j + 1).drop_last() =~= verses.take(j as int));
                    assert(verses.take(j + 1).last() == ayahs@[j as int]@);
                    lemma_letters_prefix(verses, j + 1);
                    assert(letters_in(verses.take(j + 1)) == letters_in(verses.take(j as int))
                        + ayahs@[j as int]@.letters());
                }
                match total.checked_add(ayahs[j].total_letters()) {
                    Some(sum) => {
                        total = sum;
                    },
                    None => {
                        return false;
                    },
                }
                j = j + 1;
            }
            assert(verses.take(j as int) =~= verses);
            i = i + 1;
        }
        assert(chapters.take(i as int) =~= chapters);
        let words = lowered_words(quran);
        match most_common(&words) {
            Some((word, count)) => {
                proof {
                    lemma_top_bounds_all(frequency_words(chapters), word@, count as int);
                }
                count <= 0x7fff_ffff
            },
            None => {
                proof {
                    lemma_no_words_no_occurrences(frequency_words(chapters));
                }
                true
            },
        }
    }

    /// Computes the statistics of the corpus where they fit their fields,
    /// and gives nothing where they do not: see [`Analyzer::new`] and
    /// [`within_limits`].
    pub fn try_new(quran: &Quran) -> (analyzer: Option<Analyzer>)
        ensures
            match analyzer {
                Some(analyzer) => within_limits(quran@) && analyzer.describes(quran@),
                None => !within_limits(quran@),
            },
    {
        if Self::fits(quran) {
            Some(Self::new(quran))
        } else {
            None
        }
    }

    /// Computes the statistics of the corpus: see [`Analyzer::describes`].
    ///
    /// The letters of the corpus must fit the machine word, and the count of
    /// the most common word its 32-bit field: see [`within_limits`].
    pub fn new(quran: &Quran) -> (analyzer: Analyzer)
        requires
            within_limits(quran@),
        ensures
            analyzer.describes(quran@),
    {
        let ghost chapters = quran@;
        let surahs = quran.surahs();
        let total_surahs = surahs.len();
        let ayas = quran.ayas();
        let total_ayahs = ayas.len();
        assert(ayah_ref_views(ayas@).len() == ayas@.len());
        let mut total_letters: usize = 0;
        let mut longest_surah_name = String::new();
        let mut longest_surah_letters: usize = 0;
        let mut shortest_surah_name = String::new();
        let mut shortest_surah_letters: usize = usize::MAX;
        let mut i: usize = 0;
        while i < surahs.len()
            invariant
                i <= surahs.len(),
                chapters == surah_views(surahs@),
                corpus_letters(chapters) <= usize::MAX,
                total_letters == corpus_letters(chapters.take(i as int)),
                is_longest(
                    chapters.take(i as int),
                    longest_surah_name@,
                    longest_surah_letters as nat,
                ),
                is_shortest_below(
                    chapters.take(i as int),
                    shortest_surah_name@,
                    shortest_surah_letters as nat,
                    usize::MAX as nat,
                ),
            decreases surahs.len() - i,
        {
            let surah = &surahs[i];
            let ghost seen = chapters.take(i as int);
            let ghost next = chapters.take(i + 1);
            proof {
                lemma_corpus_letters_prefix(chapters, i + 1);
                assert(next.drop_last() =~= seen);
                assert(next.last() == surah@);
                assert(next =~= seen.push(surah@));
            }
            let surah_letters = surah.total_letters();
            if surah_letters > longest_surah_letters {
                proof {
                    lemma_longest_replaced(seen, longest_surah_name@, longest_surah_letters as nat, surah@);
                }
                longest_surah_letters = surah_letters;
                longest_surah_name = surah.name();
            } else {
                proof {
                    lemma_longest_kept(seen, longest_surah_name@, longest_surah_letters as nat, surah@);
                }
            }
            if surah_letters < shortest_surah_letters {
                proof {
                    lemma_shortest_replaced(
                        seen,
                        shortest_surah_name@,
                        shortest_surah_letters as nat,
                        usize::MAX as nat,
                        surah@,
                    );
                }
                shortest_surah_letters = surah_letters;
                shortest_surah_name = surah.name();
            } else {
                proof {
                    lemma_shortest_kept(
                        seen,
                        shortest_surah_name@,
                        shortest_surah_letters as nat,
                        usize::MAX as nat,
                        surah@,
                    );
                }
            }
            total_letters = total_letters + surah_letters;
            i = i + 1;
        }
        assert(chapters.take(i as int) =~= chapters);
        let words = lowered_words(quran);
        let total_words = words.len();
        assert(word_views(words@).len() == words@.len());
        assert(frequency_words(chapters).len() == corpus_words(chapters).len());
        let most_common_word = match most_common(&words) {
            Some((word, count)) => {
                assert(count == occurrences(frequency_words(chapters), word@));
                Some((word, count as i32))
            },
            None => None,
        };
        if total_surahs == 0 {
            return Analyzer {
                total_surahs,
                total_ayahs,
                total_letters,
                total_words,
                average_letters_per_surah: 0,
                average_words_per_surah: 0,
                longest_surah_name,
                longest_surah_letters,
                shortest_surah_name,
                shortest_surah_letters: 0,
                most_common_word,
            };
        }
        let average_letters_per_surah = total_letters / total_surahs;
        let average_words_per_surah = total_words / total_surahs;
        Analyzer {
            total_surahs,
            total_ayahs,
            total_letters,
            total_words,
            average_letters_per_surah,
            average_words_per_surah,
            longest_surah_name,
            longest_surah_letters,
            shortest_surah_name,
            shortest_surah_letters,
            most_common_word,
        }
    }
}

/// A chapter with more letters than the longest so far becomes the longest.
proof fn lemma_longest_replaced(
    seen: Seq<SurahView>,
    name: Seq<char>,
    letters: nat,
    chapter: SurahView,
)
    requires
        is_longest(seen, name, letters),
        chapter.letters() > letters,
    ensures
        is_longest(seen.push(chapter), chapter.name, chapter.letters()),
{
    let next = seen.push(chapter);
    let at = seen.len() as int;
    assert(next[at] == chapter);
    assert forall|j: int| 0 <= j < at implies (#[trigger] next[j]).letters()
        < chapter.letters() by {
        assert(next[j] == seen[j]);
        if !(letters == 0 && forall|j: int|
            0 <= j < seen.len() ==> (#[trigger] seen[j]).letters() == 0) {
            let top = choose|top: int| #[trigger]
                is_first_longest(seen, top) && name == seen[top].name && letters
                    == seen[top].letters();
            assert(seen[j].letters() <= seen[top].letters());
        }
    }
    assert(is_first_longest(next, at));
}

/// A chapter with no more letters than the longest so far leaves it the
/// longest.
proof fn lemma_longest_kept(seen: Seq<SurahView>, name: Seq<char>, letters: nat, chapter: SurahView)
    requires
        is_longest(seen, name, letters),
        chapter.letters() <= letters,
    ensures
        is_longest(seen.push(chapter), name, letters),
{
    let next = seen.push(chapter);
    if letters == 0 && forall|j: int| 0 <= j < seen.len() ==> (#[trigger] seen[j]).letters() == 0 {
        assert forall|j: int| 0 <= j < next.len() implies (#[trigger] next[j]).letters() == 0 by {
            if j < seen.len() {
                assert(next[j] == seen[j]);
            }
        }
    } else {
        let top = choose|top: int| #[trigger]
            is_first_longest(seen, top) && name == seen[top].name && letters
                == seen[top].letters();
        assert(next[top] == seen[top]);
        assert forall|j: int| 0 <= j < next.len() implies (#[trigger] next[j]).letters()
            <= next[top].letters() by {
            if j < seen.len() {
                assert(next[j] == seen[j]);
            }
        }
        assert forall|j: int| 0 <= j < top implies (#[trigger] next[j]).letters()
            < next[top].letters() by {
            assert(next[j] == seen[j]);
        }
        assert(is_first_longest(next, top));
    }
}

/// A chapter with fewer letters than the shortest so far becomes the
/// shortest.
proof fn lemma_shortest_replaced(
    seen: Seq<SurahView>,
    name: Seq<char>,
    letters: nat,
    limit: nat,
    chapter: SurahView,
)
    requires
        is_shortest_below(seen, name, letters, limit),
        chapter.letters() < letters,
    ensures
        is_shortest_below(seen.push(chapter), chapter.name, chapter.letters(), limit),
{
    let next = seen.push(chapter);
    let at = seen.len() as int;
    assert(next[at] == chapter);
    assert forall|j: int| 0 <= j < at implies (#[trigger] next[j]).letters()
        > chapter.letters() by {
        assert(next[j] == seen[j]);
        if !(letters == limit && forall|j: int|
            0 <= j < seen.len() ==> (#[trigger] seen[j]).letters() >= limit) {
            let low = choose|low: int| #[trigger]
                is_first_shortest(seen, low, limit) && name == seen[low].name && letters
                    == seen[low].letters();
            assert(seen[j].letters() >= seen[low].letters());
        }
    }
    if letters == limit && forall|j: int|
        0 <= j < seen.len() ==> (#[trigger] seen[j]).letters() >= limit {
    } else {
        let low = choose|low: int| #[trigger]
            is_first_shortest(seen, low, limit) && name == seen[low].name && letters
                == seen[low].letters();
    }
    assert(is_first_shortest(next, at, limit));
}

/// A chapter with no fewer letters than the shortest so far leaves it the
/// shortest.
proof fn lemma_shortest_kept(
    seen: Seq<SurahView>,
    name: Seq<char>,
    letters: nat,
    limit: nat,
    chapter: SurahView,
)
    requires
        is_shortest_below(seen, name, letters, limit),
        chapter.letters() >= letters,
    ensures
        is_shortest_below(seen.push(chapter), name, letters, limit),
{
    let next = seen.push(chapter);
    if letters == limit && forall|j: int|
        0 <= j < seen.len() ==> (#[trigger] seen[j]).letters() >= limit {
        assert forall|j: int| 0 <= j < next.len() implies (#[trigger] next[j]).letters()
            >= limit by {
            if j < seen.len() {
                assert(next[j] == seen[j]);
            }
        }
    } else {
        let low = choose|low: int| #[trigger]
            is_first_shortest(seen, low, limit) && name == seen[low].name && letters
                == seen[low].letters();
        assert(next[low] == seen[low]);
        assert forall|j: int| 0 <= j < next.len() implies (#[trigger] next[j]).letters()
            >= next[low].letters() by {
            if j < seen.len() {
                assert(next[j] == seen[j]);
            }
        }
        assert forall|j: int| 0 <= j < low implies (#[trigger] next[j]).letters()
            > next[low].letters() by {
            assert(next[j] == seen[j]);
        }
        assert(is_first_shortest(next, low, limit));
    }
}

} // verus!
