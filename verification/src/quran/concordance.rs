//! The concordance: for each word of the scope, as it stands in the text
//! with its diacritics, the places where it occurs.

use super::analyze::corpus_words;
use super::frequency::{
    absent_until, is_roster, lemma_occurrences_push, lemma_occurs_at, lemma_occurs_somewhere,
    lemma_roster_new, lemma_roster_seen, listed, occurrences,
};
use super::surah::{ayah_words, surah_views, Surah, SurahView};
use super::verse::{ayah_views, Ayah, AyahView};
use super::Quran;
use vstd::prelude::*;

verus! {

/// A place where a word occurs: verse number, chapter name and verse text.
pub type Location = (nat, Seq<char>, Seq<char>);

/// One occurrence of a word: the word and its place.
pub type Occurrence = (Seq<char>, Location);

/// An entry of the concordance: a word, the number of its occurrences, and
/// their places in the order in which they were recorded.
#[derive(Debug)]
pub struct ConcordanceEntry {
    pub word: String,
    pub count: usize,
    pub locations: Vec<(usize, String, String)>,
}

/// What an entry holds, as mathematical values.
pub struct EntryView {
    pub word: Seq<char>,
    pub count: nat,
    pub locations: Seq<Location>,
}

/// The views of `locations`, in order.
pub open spec fn location_views(locations: Seq<(usize, String, String)>) -> Seq<Location> {
    locations.map_values(|l: (usize, String, String)| (l.0 as nat, l.1@, l.2@))
}

impl View for ConcordanceEntry {
    type V = EntryView;

    open spec fn view(&self) -> EntryView {
        EntryView {
            word: self.word@,
            count: self.count as nat,
            locations: location_views(self.locations@),
        }
    }
}

/// The views of `entries`, in order.
pub open spec fn entry_views(entries: Seq<ConcordanceEntry>) -> Seq<EntryView> {
    entries.map_values(|e: ConcordanceEntry| e@)
}

/// The words of `entries`, in order.
pub open spec fn entry_words(entries: Seq<EntryView>) -> Seq<Seq<char>> {
    entries.map_values(|e: EntryView| e.word)
}

/// The words of `occurrences`, in order.
pub open spec fn occurrence_words(occurrences: Seq<Occurrence>) -> Seq<Seq<char>> {
    occurrences.map_values(|o: Occurrence| o.0)
}

/// The test that keeps the occurrences of `w`.
pub open spec fn of_word(w: Seq<char>) -> spec_fn(Occurrence) -> bool {
    |o: Occurrence| o.0 == w
}

/// The places of the occurrences of `w` among `occurrences`, in order.
pub open spec fn places(occurrences: Seq<Occurrence>, w: Seq<char>) -> Seq<Location> {
    occurrences.filter(of_word(w)).map_values(|o: Occurrence| o.1)
}

/// The occurrences that the verse `a` gives under the chapter name `name`:
/// one for each of its words, in order.
pub open spec fn verse_occurrences(name: Seq<char>, a: AyahView) -> Seq<Occurrence> {
    a.words().map_values(|w: Seq<char>| (w, (a.number, name, a.text)))
}

/// The occurrences that `ayahs` give under the chapter name `name`, verse
/// after verse.
pub open spec fn occurrences_among(name: Seq<char>, ayahs: Seq<AyahView>) -> Seq<Occurrence>
    decreases ayahs.len(),
{
    if ayahs.len() == 0 {
        Seq::empty()
    } else {
        occurrences_among(name, ayahs.drop_last()) + verse_occurrences(name, ayahs.last())
    }
}

/// The occurrences that the whole of `chapters` gives, in corpus order.
pub open spec fn corpus_occurrences(chapters: Seq<SurahView>) -> Seq<Occurrence>
    decreases chapters.len(),
{
    if chapters.len() == 0 {
        Seq::empty()
    } else {
        corpus_occurrences(chapters.drop_last()) + occurrences_among(
            chapters.last().name,
            chapters.last().ayahs,
        )
    }
}

/// The verses of `chapter` at the positions from `start` up to, not
/// including, `end`, both counted from 0. The start is 0 and the end is the
/// number of verses where none is given; an end behind the last verse stands
/// for the number of verses, and an end below the start leaves no verse.
pub open spec fn scope_verses(chapter: SurahView, start: Option<usize>, end: Option<usize>) -> Seq<
    AyahView,
> {
    let count = chapter.ayahs.len() as int;
    let from = match start {
        Some(start) => start as int,
        None => 0,
    };
    let to = match end {
        Some(end) => if end as int > count {
            count
        } else {
            end as int
        },
        None => count,
    };
    if from < to {
        chapter.ayahs.subrange(from, to)
    } else {
        Seq::empty()
    }
}

/// The occurrences of a scope. Without a chapter number the scope is the
/// whole corpus, and the verse range is not looked at. With one, counted from
/// 1 and with 0 standing for 1, it is the verse range of that chapter (see
/// [`scope_verses`]), and nothing where the corpus has no such chapter.
pub open spec fn scope_occurrences(
    chapters: Seq<SurahView>,
    surah_number: Option<usize>,
    start: Option<usize>,
    end: Option<usize>,
) -> Seq<Occurrence> {
    match surah_number {
        None => corpus_occurrences(chapters),
        Some(number) => {
            let at = if number == 0 {
                0
            } else {
                number as int - 1
            };
            if at < chapters.len() {
                occurrences_among(chapters[at].name, scope_verses(chapters[at], start, end))
            } else {
                Seq::empty()
            }
        },
    }
}

/// Whether `entries` is the index of `occurrences`: one entry for each
/// distinct word, in the order in which the words first occur, each with the
/// places of its word in order and their number.
pub open spec fn is_index(entries: Seq<EntryView>, occurrences: Seq<Occurrence>) -> bool {
    &&& is_roster(entry_words(entries), occurrence_words(occurrences))
    &&& forall|k: int|
        0 <= k < entries.len() ==> (#[trigger] entries[k]).locations == places(
            occurrences,
            entries[k].word,
        ) && entries[k].count == entries[k].locations.len()
}

/// The occurrences that `entries` count, all entries together.
pub open spec fn total_count(entries: Seq<EntryView>) -> nat
    decreases entries.len(),
{
    if entries.len() == 0 {
        0
    } else {
        total_count(entries.drop_last()) + entries.last().count
    }
}

/// One more occurrence adds its place to the places of its word and to no
/// others.
pub proof fn lemma_places_push(occurrences: Seq<Occurrence>, o: Occurrence, w: Seq<char>)
    ensures
        places(occurrences.push(o), w) == if o.0 == w {
            places(occurrences, w).push(o.1)
        } else {
            places(occurrences, w)
        },
{
    occurrences.lemma_filter_push(o, of_word(w));
    if o.0 == w {
        assert(places(occurrences.push(o), w) =~= places(occurrences, w).push(o.1));
    }
}

/// A word has as many places as occurrences.
pub proof fn lemma_places_len(occurrences: Seq<Occurrence>, w: Seq<char>)
    ensures
        places(occurrences, w).len() == super::frequency::occurrences(
            occurrence_words(occurrences),
            w,
        ),
    decreases occurrences.len(),
{
    reveal(Seq::filter);
    if occurrences.len() > 0 {
        let before = occurrences.drop_last();
        lemma_places_len(before, w);
        assert(before.push(occurrences.last()) =~= occurrences);
        lemma_places_push(before, occurrences.last(), w);
        assert(occurrence_words(occurrences).drop_last() =~= occurrence_words(before));
    }
}

/// Counting one more occurrence of a word that the index lists keeps it the
/// index.
proof fn lemma_index_seen(entries: Seq<EntryView>, recorded: Seq<Occurrence>, o: Occurrence, at: int)
    requires
        is_index(entries, recorded),
        0 <= at < entries.len(),
        entries[at].word == o.0,
    ensures
        is_index(
            entries.update(
                at,
                EntryView {
                    word: o.0,
                    count: entries[at].count + 1,
                    locations: entries[at].locations.push(o.1),
                },
            ),
            recorded.push(o),
        ),
{
    let entry = EntryView {
        word: o.0,
        count: entries[at].count + 1,
        locations: entries[at].locations.push(o.1),
    };
    let entries2 = entries.update(at, entry);
    let keys = entry_words(entries);
    assert(entry_words(entries2) =~= keys);
    assert(keys[at] == o.0);
    assert(occurrence_words(recorded.push(o)) =~= occurrence_words(recorded).push(o.0));
    lemma_roster_seen(keys, occurrence_words(recorded), o.0);
    assert forall|k: int| 0 <= k < entries2.len() implies (#[trigger] entries2[k]).locations
        == places(recorded.push(o), entries2[k].word) && entries2[k].count
        == entries2[k].locations.len() by {
        lemma_places_push(recorded, o, entries2[k].word);
        assert(entries[k].locations == places(recorded, entries[k].word));
        if k != at {
            assert(keys[k] == entries[k].word);
            if k < at {
                assert(keys[k] != keys[at]);
            } else {
                assert(keys[at] != keys[k]);
            }
        }
    }
}

/// Listing a word that the index lacks, with its one place, keeps it the
/// index.
proof fn lemma_index_new(entries: Seq<EntryView>, recorded: Seq<Occurrence>, o: Occurrence)
    requires
        is_index(entries, recorded),
        !listed(entry_words(entries), o.0),
    ensures
        is_index(
            entries.push(EntryView { word: o.0, count: 1, locations: seq![o.1] }),
            recorded.push(o),
        ),
{
    let entry = EntryView { word: o.0, count: 1, locations: seq![o.1] };
    let entries2 = entries.push(entry);
    let keys = entry_words(entries);
    assert(entry_words(entries2) =~= keys.push(o.0));
    assert(occurrence_words(recorded.push(o)) =~= occurrence_words(recorded).push(o.0));
    lemma_roster_new(keys, occurrence_words(recorded), o.0);
    assert forall|k: int| 0 <= k < entries2.len() implies (#[trigger] entries2[k]).locations
        == places(recorded.push(o), entries2[k].word) && entries2[k].count
        == entries2[k].locations.len() by {
        lemma_places_push(recorded, o, entries2[k].word);
        if k < entries.len() {
            assert(entries[k].locations == places(recorded, entries[k].word));
            assert(keys[k] == entries[k].word);
        } else {
            lemma_places_len(recorded, o.0);
            assert(places(recorded, o.0) =~= Seq::empty());
            assert(places(recorded, o.0).push(o.1) =~= seq![o.1]);
        }
    }
}

/// Nothing recorded leaves no entry.
pub proof fn lemma_index_of_nothing(entries: Seq<EntryView>)
    requires
        is_index(entries, Seq::empty()),
    ensures
        entries.len() == 0,
{
    if entries.len() > 0 {
        assert(occurrences(
            occurrence_words(Seq::<Occurrence>::empty()),
            entry_words(entries)[0],
        ) > 0);
    }
}

/// The count of one entry more or less is the difference of the totals.
pub proof fn lemma_total_update(entries: Seq<EntryView>, at: int, entry: EntryView)
    requires
        0 <= at < entries.len(),
    ensures
        total_count(entries.update(at, entry)) + entries[at].count == total_count(entries)
            + entry.count,
    decreases entries.len(),
{
    let changed = entries.update(at, entry);
    if at == entries.len() - 1 {
        assert(changed.drop_last() =~= entries.drop_last());
    } else {
        lemma_total_update(entries.drop_last(), at, entry);
        assert(changed.drop_last() =~= entries.drop_last().update(at, entry));
    }
}

/// The index without the last occurrence: where that was the only
/// occurrence of its word, the word's entry, which is the last, is dropped;
/// otherwise the entry loses its last place.
pub open spec fn index_before(entries: Seq<EntryView>, recorded: Seq<Occurrence>) -> Seq<
    EntryView,
> {
    let w = recorded.last().0;
    if occurrences(occurrence_words(recorded.drop_last()), w) == 0 {
        entries.drop_last()
    } else {
        let at = choose|at: int| 0 <= at < entries.len() && (#[trigger] entries[at]).word == w;
        entries.update(
            at,
            EntryView {
                word: w,
                count: (entries[at].count - 1) as nat,
                locations: entries[at].locations.drop_last(),
            },
        )
    }
}

/// Taking the last occurrence back gives the index of the occurrences
/// before it, with one occurrence less in the total.
pub proof fn lemma_index_before(entries: Seq<EntryView>, recorded: Seq<Occurrence>)
    requires
        is_index(entries, recorded),
        recorded.len() > 0,
    ensures
        is_index(index_before(entries, recorded), recorded.drop_last()),
        total_count(entries) == total_count(index_before(entries, recorded)) + 1,
{
    let o = recorded.last();
    let w = o.0;
    let before = recorded.drop_last();
    let words = occurrence_words(recorded);
    let words0 = occurrence_words(before);
    let keys = entry_words(entries);
    let entries0 = index_before(entries, recorded);
    let keys0 = entry_words(entries0);
    assert(before.push(o) =~= recorded);
    assert(words0.push(w) =~= words);
    assert(words[words.len() - 1] == w);
    assert(listed(keys, words[words.len() - 1]));
    let at = choose|at: int| 0 <= at < keys.len() && #[trigger] keys[at] == w;
    assert(entries[at].word == w);
    lemma_places_push(before, o, w);
    lemma_places_len(before, w);
    assert(entries[at].locations == places(recorded, entries[at].word));
    assert forall|p: int| 0 <= p < words0.len() implies words0[p] == #[trigger] words[p] by {}
    assert forall|k: int, p: int|
        0 <= k < keys.len() && 0 <= p < words0.len() && #[trigger] absent_until(
            words0,
            keys[k],
            p,
        ) implies listed(keys.take(k), words0[p]) by {
        assert forall|q: int| 0 <= q <= p && q < words.len() implies #[trigger] words[q]
            != keys[k] by {
            assert(words0[q] == words[q]);
        }
        assert(absent_until(words, keys[k], p));
        assert(words[p] == words0[p]);
    }
    if occurrences(words0, w) == 0 {
        assert forall|p: int| 0 <= p < words0.len() implies #[trigger] words0[p] != w by {
            if words0[p] == w {
                lemma_occurs_at(words0, p);
            }
        }
        if at < keys.len() - 1 {
            let other = keys[keys.len() - 1];
            assert(keys[at] != keys[keys.len() - 1]);
            assert(occurrences(words, keys[keys.len() - 1]) > 0);
            let p = lemma_occurs_somewhere(words, other);
            assert(p < words0.len());
            assert(absent_until(words0, keys[at], p));
            assert(listed(keys.take(at), words0[p]));
            let a = choose|a: int|
                0 <= a < keys.take(at).len() && #[trigger] keys.take(at)[a] == words0[p];
            assert(keys[a] != keys[keys.len() - 1]);
        }
        assert(at == keys.len() - 1);
        assert(keys0 =~= keys.drop_last());
        assert forall|a: int, b: int| 0 <= a < b < keys0.len() implies #[trigger] keys0[a]
            != #[trigger] keys0[b] by {
            assert(keys[a] != keys[b]);
        }
        assert forall|k: int| 0 <= k < keys0.len() implies occurrences(
            words0,
            #[trigger] keys0[k],
        ) > 0 by {
            assert(keys[k] != keys[at]);
            assert(occurrences(words, keys[k]) > 0);
            lemma_occurrences_push(words0, w, keys[k]);
        }
        assert forall|p: int| 0 <= p < words0.len() implies listed(
            keys0,
            #[trigger] words0[p],
        ) by {
            assert(listed(keys, words[p]));
            let k = choose|k: int| 0 <= k < keys.len() && #[trigger] keys[k] == words[p];
            assert(keys0[k] == words0[p]);
        }
        assert forall|k: int, p: int|
            0 <= k < keys0.len() && 0 <= p < words0.len() && #[trigger] absent_until(
                words0,
                keys0[k],
                p,
            ) implies listed(keys0.take(k), words0[p]) by {
            assert(keys0[k] == keys[k]);
            assert(absent_until(words0, keys[k], p));
            assert(keys0.take(k) =~= keys.take(k));
        }
        assert forall|k: int| 0 <= k < entries0.len() implies (#[trigger] entries0[k]).locations
            == places(before, entries0[k].word) && entries0[k].count
            == entries0[k].locations.len() by {
            assert(entries0[k] == entries[k]);
            assert(keys[k] == entries[k].word);
            assert(keys[k] != keys[at]);
            lemma_places_push(before, o, entries[k].word);
        }
        assert(places(before, w).len() == 0);
        assert(entries.last().count == 1);
    } else {
        let found = choose|at: int|
            0 <= at < entries.len() && (#[trigger] entries[at]).word == w;
        assert(keys[found] == w);
        if found != at {
            if found < at {
                assert(keys[found] != keys[at]);
            } else {
                assert(keys[at] != keys[found]);
            }
        }
        assert(keys0 =~= keys);
        assert forall|k: int| 0 <= k < keys0.len() implies occurrences(
            words0,
            #[trigger] keys0[k],
        ) > 0 by {
            assert(occurrences(words, keys[k]) > 0);
            lemma_occurrences_push(words0, w, keys[k]);
        }
        assert forall|p: int| 0 <= p < words0.len() implies listed(
            keys0,
            #[trigger] words0[p],
        ) by {
            assert(listed(keys, words[p]));
        }
        assert forall|k: int| 0 <= k < entries0.len() implies (#[trigger] entries0[k]).locations
            == places(before, entries0[k].word) && entries0[k].count
            == entries0[k].locations.len() by {
            assert(keys[k] == entries[k].word);
            lemma_places_push(before, o, entries[k].word);
            assert(entries[k].locations == places(recorded, entries[k].word));
            if k == at {
                assert(places(before, w).push(o.1).drop_last() =~= places(before, w));
            } else {
                if k < at {
                    assert(keys[k] != keys[at]);
                } else {
                    assert(keys[at] != keys[k]);
                }
            }
        }
        lemma_total_update(entries, at, entries0[at]);
    }
}

/// The counts of an index add up to the number of occurrences indexed.
pub proof fn lemma_index_total(entries: Seq<EntryView>, recorded: Seq<Occurrence>)
    requires
        is_index(entries, recorded),
    ensures
        total_count(entries) == recorded.len(),
    decreases recorded.len(),
{
    if recorded.len() == 0 {
        assert(recorded =~= Seq::empty());
        lemma_index_of_nothing(entries);
    } else {
        lemma_index_before(entries, recorded);
        lemma_index_total(index_before(entries, recorded), recorded.drop_last());
    }
}

/// Given occurrences have one index: two lists of entries that both are the
/// index of `recorded` are the same list.
pub proof fn lemma_index_unique(
    first: Seq<EntryView>,
    second: Seq<EntryView>,
    recorded: Seq<Occurrence>,
)
    requires
        is_index(first, recorded),
        is_index(second, recorded),
    ensures
        first == second,
    decreases recorded.len(),
{
    if recorded.len() == 0 {
        assert(recorded =~= Seq::empty());
        lemma_index_of_nothing(first);
        lemma_index_of_nothing(second);
        assert(first =~= second);
    } else {
        let w = recorded.last().0;
        let before = recorded.drop_last();
        let first0 = index_before(first, recorded);
        let second0 = index_before(second, recorded);
        lemma_index_before(first, recorded);
        lemma_index_before(second, recorded);
        lemma_index_unique(first0, second0, before);
        let words = occurrence_words(recorded);
        assert(words[words.len() - 1] == w);
        assert(listed(entry_words(first), words[words.len() - 1]));
        assert(listed(entry_words(second), words[words.len() - 1]));
        let a = choose|a: int|
            0 <= a < entry_words(first).len() && #[trigger] entry_words(first)[a] == w;
        let b = choose|b: int|
            0 <= b < entry_words(second).len() && #[trigger] entry_words(second)[b] == w;
        assert(first[a].word == w && second[b].word == w);
        if occurrences(occurrence_words(before), w) == 0 {
            assert(first.len() == second.len());
            assert forall|k: int| 0 <= k < first.len() implies first[k] == second[k] by {
                if k < first.len() - 1 {
                    assert(first0[k] == first[k]);
                    assert(second0[k] == second[k]);
                } else {
                    assert(entry_words(first0) =~= entry_words(first).drop_last());
                    assert(entry_words(second0) =~= entry_words(second).drop_last());
                    if a < first.len() - 1 {
                        assert(entry_words(first0)[a] == w);
                        assert(occurrences(occurrence_words(before), entry_words(first0)[a]) > 0);
                    }
                    if b < second.len() - 1 {
                        assert(entry_words(second0)[b] == w);
                        assert(occurrences(occurrence_words(before), entry_words(second0)[b]) > 0);
                    }
                    assert(first[k].locations == places(recorded, first[k].word));
                    assert(second[k].locations == places(recorded, second[k].word));
                }
            }
            assert(first =~= second);
        } else {
            let fa = choose|at: int| 0 <= at < first.len() && (#[trigger] first[at]).word == w;
            let sb = choose|at: int| 0 <= at < second.len() && (#[trigger] second[at]).word == w;
            assert(first0[fa].word == w);
            assert(second0[sb].word == w);
            assert(entry_words(first0)[fa] == w);
            assert(entry_words(first0)[sb] == w);
            if fa != sb {
                if fa < sb {
                    assert(entry_words(first0)[fa] != entry_words(first0)[sb]);
                } else {
                    assert(entry_words(first0)[sb] != entry_words(first0)[fa]);
                }
            }
            assert(first.len() == second.len());
            assert forall|k: int| 0 <= k < first.len() implies first[k] == second[k] by {
                if k != fa {
                    assert(first0[k] == first[k]);
                    assert(second0[k] == second[k]);
                } else {
                    assert(first[k].locations == places(recorded, first[k].word));
                    assert(second[k].locations == places(recorded, second[k].word));
                }
            }
            assert(first =~= second);
        }
    }
}

/// The occurrences of verses are those of their words, in order.
pub proof fn lemma_occurrences_among_words(name: Seq<char>, ayahs: Seq<AyahView>)
    ensures
        occurrence_words(occurrences_among(name, ayahs)) == ayah_words(ayahs),
    decreases ayahs.len(),
{
    if ayahs.len() == 0 {
        assert(occurrence_words(occurrences_among(name, ayahs)) =~= ayah_words(ayahs));
    } else {
        lemma_occurrences_among_words(name, ayahs.drop_last());
        assert(occurrence_words(occurrences_among(name, ayahs)) =~= occurrence_words(
            occurrences_among(name, ayahs.drop_last()),
        ) + ayahs.last().words());
    }
}

/// The occurrences of a corpus are those of its words, in corpus order.
pub proof fn lemma_corpus_occurrences_words(chapters: Seq<SurahView>)
    ensures
        occurrence_words(corpus_occurrences(chapters)) == corpus_words(chapters),
    decreases chapters.len(),
{
    if chapters.len() == 0 {
        assert(occurrence_words(corpus_occurrences(chapters)) =~= corpus_words(chapters));
    } else {
        lemma_corpus_occurrences_words(chapters.drop_last());
        lemma_occurrences_among_words(chapters.last().name, chapters.last().ayahs);
        assert(occurrence_words(corpus_occurrences(chapters)) =~= occurrence_words(
            corpus_occurrences(chapters.drop_last()),
        ) + occurrence_words(occurrences_among(chapters.last().name, chapters.last().ayahs)));
    }
}

/// The occurrence counts of a concordance over the whole corpus add up to
/// the number of words of the corpus, which is the total that the statistics
/// report: both split the same texts at whitespace, and the concordance
/// keeps the diacritics of each word where the frequencies only change its
/// case, so neither joins nor splits an occurrence.
pub proof fn lemma_concordance_counts_every_word(
    entries: Seq<EntryView>,
    chapters: Seq<SurahView>,
)
    requires
        is_index(entries, corpus_occurrences(chapters)),
    ensures
        total_count(entries) == corpus_words(chapters).len(),
{
    lemma_index_total(entries, corpus_occurrences(chapters));
    lemma_corpus_occurrences_words(chapters);
    assert(occurrence_words(corpus_occurrences(chapters)).len() == corpus_occurrences(
        chapters,
    ).len());
}

/// The occurrence counts of a concordance over verses of one chapter add up
/// to the number of words of those verses; over all verses of the chapter
/// that is the chapter's word count.
pub proof fn lemma_concordance_counts_chapter_words(
    entries: Seq<EntryView>,
    name: Seq<char>,
    ayahs: Seq<AyahView>,
)
    requires
        is_index(entries, occurrences_among(name, ayahs)),
    ensures
        total_count(entries) == ayah_words(ayahs).len(),
{
    lemma_index_total(entries, occurrences_among(name, ayahs));
    lemma_occurrences_among_words(name, ayahs);
    assert(occurrence_words(occurrences_among(name, ayahs)).len() == occurrences_among(
        name,
        ayahs,
    ).len());
}

/// Builds the concordance of a corpus. Each call of
/// [`Concordance::generate`] records the occurrences of one scope; the
/// concordance is the index of all that was recorded.
pub struct Concordance<'a> {
    quran: &'a Quran,
    concordance: Vec<ConcordanceEntry>,
    recorded: Ghost<Seq<Occurrence>>,
}

impl<'a> View for Concordance<'a> {
    type V = Seq<EntryView>;

    closed spec fn view(&self) -> Seq<EntryView> {
        entry_views(self.concordance@)
    }
}

impl<'a> Concordance<'a> {
    /// The corpus that the concordance is built over.
    pub closed spec fn corpus(&self) -> Seq<SurahView> {
        self.quran@
    }

    /// All occurrences recorded so far, in the order of recording.
    pub closed spec fn recorded(&self) -> Seq<Occurrence> {
        self.recorded@
    }

    /// Whether the entries are the index of what was recorded.
    pub open spec fn well_formed(&self) -> bool {
        is_index(self@, self.recorded())
    }

    /// A concordance of `quran` with nothing recorded.
    pub fn new(quran: &'a Quran) -> (concordance: Self)
        ensures
            concordance.well_formed(),
            concordance.corpus() == quran@,
            concordance.recorded() == Seq::<Occurrence>::empty(),
            concordance@ == Seq::<EntryView>::empty(),
    {
        let concordance = Self { quran, concordance: Vec::new(), recorded: Ghost(Seq::empty()) };
        assert(concordance@ =~= Seq::<EntryView>::empty());
        assert(occurrence_words(Seq::<Occurrence>::empty()) =~= Seq::<Seq<char>>::empty());
        assert(entry_words(Seq::<EntryView>::empty()) =~= Seq::<Seq<char>>::empty());
        concordance
    }

    /// The entries, in the order in which their words were first recorded.
    pub fn entries(&self) -> (entries: &Vec<ConcordanceEntry>)
        ensures
            entry_views(entries@) == self@,
    {
        &self.concordance
    }

    /// Records the occurrences of a scope: see [`scope_occurrences`].
    ///
    /// What was recorded before stays, and the occurrences of the scope are
    /// recorded behind it in corpus order, so the entries stay the index of
    /// all that was recorded.
    pub fn generate(
        &mut self,
        surah_number: Option<usize>,
        start_ayah_number: Option<usize>,
        end_ayah_number: Option<usize>,
    )
        requires
            old(self).well_formed(),
        ensures
            final(self).well_formed(),
            final(self).corpus() == old(self).corpus(),
            final(self).recorded() == old(self).recorded() + scope_occurrences(
                old(self).corpus(),
                surah_number,
                start_ayah_number,
                end_ayah_number,
            ),
    {
        let quran: &'a Quran = self.quran;
        let surahs = quran.surahs();
        let ghost chapters = quran@;
        let ghost before = self.recorded@;
        let start_ayah_number = match start_ayah_number {
            Some(start) => start,
            None => 0,
        };
        match surah_number {
            Some(number) => {
                let at = if number == 0 {
                    0
                } else {
                    number - 1
                };
                if at < surahs.len() {
                    let surah = &surahs[at];
                    let ayahs_count = surah.ayas().len();
                    let mut end_ayah_number = match end_ayah_number {
                        Some(end) => end,
                        None => ayahs_count,
                    };
                    if end_ayah_number > ayahs_count {
                        end_ayah_number = ayahs_count;
                    }
                    if start_ayah_number < end_ayah_number {
                        self.record_verses(surah, start_ayah_number, end_ayah_number);
                    } else {
                        assert(before + Seq::<Occurrence>::empty() =~= before);
                    }
                } else {
                    assert(before + Seq::<Occurrence>::empty() =~= before);
                }
            },
            None => {
                let mut i: usize = 0;
                assert(before + corpus_occurrences(chapters.take(0)) =~= before);
                while i < surahs.len()
                    invariant
                        i <= surahs.len(),
                        chapters == surah_views(surahs@),
                        self.well_formed(),
                        self.corpus() == old(self).corpus(),
                        self.recorded() == before + corpus_occurrences(chapters.take(i as int)),
                    decreases surahs.len() - i,
                {
                    let surah = &surahs[i];
                    let count = surah.ayas().len();
                    let ghost held = self.recorded();
                    self.record_verses(surah, 0, count);
                    proof {
                        assert(surah@.ayahs.subrange(0, count as int) =~= surah@.ayahs);
                        assert(chapters.take(i + 1).drop_last() =~= chapters.take(i as int));
                        assert(chapters.take(i + 1).last() == surah@);
                        assert(before + corpus_occurrences(chapters.take(i + 1)) =~= held
                            + occurrences_among(surah@.name, surah@.ayahs));
                    }
                    i = i + 1;
                }
                assert(chapters.take(i as int) =~= chapters);
            },
        }
    }

    /// Records the occurrences of the verses of `surah` at the positions
    /// from `from` up to, not including, `to`.
    fn record_verses(&mut self, surah: &Surah, from: usize, to: usize)
        requires
            old(self).well_formed(),
            from <= to <= surah@.ayahs.len(),
        ensures
            final(self).well_formed(),
            final(self).corpus() == old(self).corpus(),
            final(self).recorded() == old(self).recorded() + occurrences_among(
                surah@.name,
                surah@.ayahs.subrange(from as int, to as int),
            ),
    {
        let ayahs = surah.ayas();
        let ghost before = self.recorded@;
        let ghost name = surah@.name;
        let ghost verses = surah@.ayahs;
        let mut j: usize = from;
        proof {
            assert(verses.subrange(from as int, j as int) =~= Seq::empty());
            assert(before + Seq::<Occurrence>::empty() =~= before);
        }
        while j < to
            invariant
                from <= j <= to <= ayahs.len(),
                verses == ayah_views(ayahs@),
                name == surah@.name,
                self.well_formed(),
                self.corpus() == old(self).corpus(),
                self.recorded() == before + occurrences_among(
                    name,
                    verses.subrange(from as int, j as int),
                ),
            decreases to - j,
        {
            let ayah = &ayahs[j];
            let ghost held = self.recorded();
            self.record_verse(surah, ayah);
            proof {
                let next = verses.subrange(from as int, j + 1);
                assert(next.drop_last() =~= verses.subrange(from as int, j as int));
                assert(next.last() == ayah@);
                assert(before + occurrences_among(name, next) =~= held + verse_occurrences(
                    name,
                    ayah@,
                ));
            }
            j = j + 1;
        }
    }

    /// Records the occurrences of the words of `ayah`, a verse of `surah`.
    fn record_verse(&mut self, surah: &Surah, ayah: &Ayah)
        requires
            old(self).well_formed(),
        ensures
            final(self).well_formed(),
            final(self).corpus() == old(self).corpus(),
            final(self).recorded() == old(self).recorded() + verse_occurrences(
                surah@.name,
                ayah@,
            ),
    {
        let words = ayah.words();
        let ghost before = self.recorded@;
        let ghost name = surah@.name;
        let ghost texts = ayah@.words();
        let ghost all = verse_occurrences(name, ayah@);
        let mut k: usize = 0;
        assert(before + all.take(0) =~= before);
        while k < words.len()
            invariant
                k <= words.len(),
                words@.len() == texts.len(),
                forall|a: int| 0 <= a < words@.len() ==> (#[trigger] words@[a])@ == texts[a],
                texts == ayah@.words(),
                name == surah@.name,
                all == verse_occurrences(name, ayah@),
                self.well_formed(),
                self.corpus() == old(self).corpus(),
                self.recorded() == before + all.take(k as int),
            decreases words.len() - k,
        {
            let ghost held = self.recorded();
            self.record(words[k], ayah.number(), surah.name(), ayah.text().to_owned());
            proof {
                assert(all[k as int] == (texts[k as int], (ayah@.number, name, ayah@.text)));
                assert(before + all.take(k + 1) =~= held.push(all[k as int]));
            }
            k = k + 1;
        }
        assert(all.take(k as int) =~= all);
    }

    /// The number of occurrences that the entries count, all together.
    pub fn total(&self) -> (total: u128)
        ensures
            total == total_count(self@),
    {
        let mut total: u128 = 0;
        let mut i: usize = 0;
        assert(self@.take(0) =~= Seq::<EntryView>::empty());
        while i < self.concordance.len()
            invariant
                i <= self.concordance.len(),
                self@ == entry_views(self.concordance@),
                total == total_count(self@.take(i as int)),
                total <= i * usize::MAX,
            decreases self.concordance.len() - i,
        {
            proof {
                assert(self@.take(i + 1).drop_last() =~= self@.take(i as int));
                assert(self@.take(i + 1).last() == self.concordance@[i as int]@);
                assert(i * usize::MAX + usize::MAX == (i + 1) * usize::MAX) by (nonlinear_arith);
                assert((i + 1) * usize::MAX <= usize::MAX * usize::MAX) by (nonlinear_arith)
                    requires
                        i + 1 <= usize::MAX,
                ;
                assert(usize::MAX * usize::MAX <= u128::MAX) by (nonlinear_arith)
                    requires
                        usize::MAX <= 0xffff_ffff_ffff_ffff,
                ;
            }
            total = total + self.concordance[i].count as u128;
            i = i + 1;
        }
        assert(self@.take(i as int) =~= self@);
        total
    }

    /// Records one occurrence of `word` at the given place.
    fn record(&mut self, word: &str, number: usize, name: String, text: String)
        requires
            old(self).well_formed(),
        ensures
            final(self).well_formed(),
            final(self).corpus() == old(self).corpus(),
            final(self).recorded() == old(self).recorded().push(
                (word@, (number as nat, name@, text@)),
            ),
    {
        let ghost o: Occurrence = (word@, (number as nat, name@, text@));
        let ghost held = self@;
        let key = word.to_owned();
        let mut k: usize = 0;
        while k < self.concordance.len() && !same_key(&self.concordance[k].word, &key)
            invariant
                k <= self.concordance.len(),
                *self == *old(self),
                held == self@,
                key@ == word@,
                forall|a: int| 0 <= a < k ==> #[trigger] entry_words(held)[a] != word@,
            decreases self.concordance.len() - k,
        {
            assert(entry_words(held)[k as int] == self.concordance@[k as int].word@);
            k = k + 1;
        }
        if k < self.concordance.len() {
            proof {
                assert(held[k as int].word == o.0);
                lemma_index_seen(held, self.recorded@, o, k as int);
            }
            let ghost before = self.concordance@[k as int]@;
            let entry = &mut self.concordance[k];
            entry.locations.push((number, name, text));
            entry.count = entry.locations.len();
            proof {
                let after = self.concordance@[k as int]@;
                assert(after.locations =~= before.locations.push(o.1));
                assert(self@ =~= held.update(
                    k as int,
                    EntryView {
                        word: o.0,
                        count: before.count + 1,
                        locations: before.locations.push(o.1),
                    },
                ));
            }
        } else {
            proof {
                assert(!listed(entry_words(held), o.0));
                lemma_index_new(held, self.recorded@, o);
            }
            let mut locations: Vec<(usize, String, String)> = Vec::new();
            locations.push((number, name, text));
            self.concordance.push(ConcordanceEntry { word: key, count: 1, locations });
            proof {
                assert(location_views(locations@) =~= seq![o.1]);
                assert(self@ =~= held.push(
                    EntryView { word: o.0, count: 1, locations: seq![o.1] },
                ));
            }
        }
        proof {
            self.recorded@ = self.recorded@.push(o);
        }
    }
}

/// Whether two words have the same characters.
fn same_key(a: &String, b: &String) -> (same: bool)
    ensures
        same == (a@ == b@),
{
    *a == *b
}

} // verus!
