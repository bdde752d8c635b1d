//! Search over the corpus: by term, by several terms, within a range of
//! verses and within one chapter. Texts are compared in normal form, so a
//! term matches whatever diacritics the verse carries.

use super::surah::{surah_views, SurahView};
use crate::seqs::{lemma_filter_item, lemma_filter_keeps_all};
use crate::text::lemma_contains_empty;
use crate::util::{lemma_normalized_empty, normalized};
use super::verse::{ayah_views, verse_matches, AyahView};
use super::{all_ayahs, ayah_ref_views, well_formed, Quran};
use vstd::prelude::*;

verus! {

/// A search result as mathematical values: chapter name, verse number and
/// verse text.
pub type Hit = (Seq<char>, nat, Seq<char>);

/// The views of `hits`, in order.
pub open spec fn hit_views(hits: Seq<(String, usize, String)>) -> Seq<Hit> {
    hits.map_values(|h: (String, usize, String)| (h.0@, h.1 as nat, h.2@))
}

/// The test that keeps the verses that match `term`.
pub open spec fn matching(term: Seq<char>) -> spec_fn(AyahView) -> bool {
    |a: AyahView| verse_matches(a.text, term)
}

/// The results for those of `ayahs` that match `term`, in order, each under
/// the chapter name `name`.
pub open spec fn named_hits(name: Seq<char>, ayahs: Seq<AyahView>, term: Seq<char>) -> Seq<Hit> {
    ayahs.filter(matching(term)).map_values(|a: AyahView| (name, a.number, a.text))
}

/// The results for those of `ayahs` that match `term`, in order, each under
/// the chapter name that the verse itself carries.
pub open spec fn own_hits(ayahs: Seq<AyahView>, term: Seq<char>) -> Seq<Hit> {
    ayahs.filter(matching(term)).map_values(|a: AyahView| (a.surah_name, a.number, a.text))
}

/// The results of a search for `term` in `chapters`: chapter after chapter,
/// the matching verses of each in their order, under the chapter's name.
pub open spec fn search_hits(chapters: Seq<SurahView>, term: Seq<char>) -> Seq<Hit>
    decreases chapters.len(),
{
    if chapters.len() == 0 {
        Seq::empty()
    } else {
        search_hits(chapters.drop_last(), term) + named_hits(
            chapters.last().name,
            chapters.last().ayahs,
            term,
        )
    }
}

/// The results of a search for each of `terms` in turn, one after another.
/// A verse that matches two terms stands twice.
pub open spec fn multi_hits(chapters: Seq<SurahView>, terms: Seq<Seq<char>>) -> Seq<Hit>
    decreases terms.len(),
{
    if terms.len() == 0 {
        Seq::empty()
    } else {
        multi_hits(chapters, terms.drop_last()) + search_hits(chapters, terms.last())
    }
}

/// The window of a range search: the verses at the positions `start` to
/// `end`, both included, of the corpus read as one sequence of verses.
/// Positions behind the last verse hold nothing, and the window is empty
/// where `end` is below `start`.
pub open spec fn window(chapters: Seq<SurahView>, start: nat, end: nat) -> Seq<AyahView> {
    let all = all_ayahs(chapters);
    if end < start || start >= all.len() {
        Seq::empty()
    } else if end + 1 >= all.len() {
        all.subrange(start as int, all.len() as int)
    } else {
        all.subrange(start as int, end as int + 1)
    }
}

/// The results of a search for `term` among the verses of the window from
/// `start` to `end`.
pub open spec fn range_hits(chapters: Seq<SurahView>, start: nat, end: nat, term: Seq<char>) -> Seq<
    Hit,
> {
    own_hits(window(chapters, start, end), term)
}

/// The results of a search for `term` in the chapter with the 1-based number
/// `surah_number`; none where there is no such chapter.
pub open spec fn surah_hits(chapters: Seq<SurahView>, term: Seq<char>, surah_number: nat) -> Seq<
    Hit,
> {
    if 1 <= surah_number <= chapters.len() {
        own_hits(chapters[surah_number - 1].ayahs, term)
    } else {
        Seq::empty()
    }
}

/// Every verse of `chapters` as a result, in corpus order, under its
/// chapter's name.
pub open spec fn listing(chapters: Seq<SurahView>) -> Seq<Hit>
    decreases chapters.len(),
{
    if chapters.len() == 0 {
        Seq::empty()
    } else {
        let last = chapters.last();
        listing(chapters.drop_last()) + last.ayahs.map_values(
            |a: AyahView| (last.name, a.number, a.text),
        )
    }
}

/// The results among `ayahs` and one more verse.
pub proof fn lemma_named_hits_push(
    name: Seq<char>,
    ayahs: Seq<AyahView>,
    a: AyahView,
    term: Seq<char>,
)
    ensures
        named_hits(name, ayahs.push(a), term) == if verse_matches(a.text, term) {
            named_hits(name, ayahs, term).push((name, a.number, a.text))
        } else {
            named_hits(name, ayahs, term)
        },
{
    ayahs.lemma_filter_push(a, matching(term));
    if verse_matches(a.text, term) {
        assert(named_hits(name, ayahs.push(a), term) =~= named_hits(name, ayahs, term).push(
            (name, a.number, a.text),
        ));
    }
}

/// The results among `ayahs` and one more verse.
pub proof fn lemma_own_hits_push(ayahs: Seq<AyahView>, a: AyahView, term: Seq<char>)
    ensures
        own_hits(ayahs.push(a), term) == if verse_matches(a.text, term) {
            own_hits(ayahs, term).push((a.surah_name, a.number, a.text))
        } else {
            own_hits(ayahs, term)
        },
{
    ayahs.lemma_filter_push(a, matching(term));
    if verse_matches(a.text, term) {
        assert(own_hits(ayahs.push(a), term) =~= own_hits(ayahs, term).push(
            (a.surah_name, a.number, a.text),
        ));
    }
}

/// A search over chapters that follow one another is the search over the
/// first of them followed by the search over the rest.
pub proof fn lemma_search_hits_concat(
    first: Seq<SurahView>,
    rest: Seq<SurahView>,
    term: Seq<char>,
)
    ensures
        search_hits(first + rest, term) == search_hits(first, term) + search_hits(rest, term),
    decreases rest.len(),
{
    if rest.len() == 0 {
        assert(first + rest =~= first);
        assert(search_hits(first, term) + search_hits(rest, term) =~= search_hits(first, term));
    } else {
        lemma_search_hits_concat(first, rest.drop_last(), term);
        assert((first + rest).drop_last() =~= first + rest.drop_last());
        assert((first + rest).last() == rest.last());
        let hits = named_hits(rest.last().name, rest.last().ayahs, term);
        assert((search_hits(first, term) + search_hits(rest.drop_last(), term)) + hits
            =~= search_hits(first, term) + (search_hits(rest.drop_last(), term) + hits));
    }
}

/// In a chapter whose verses all carry its name, the results under the
/// chapter's name are the results under the verses' own.
pub proof fn lemma_named_hits_own(chapter: SurahView, term: Seq<char>)
    requires
        chapter.well_formed(),
    ensures
        named_hits(chapter.name, chapter.ayahs, term) == own_hits(chapter.ayahs, term),
{
    let kept = chapter.ayahs.filter(matching(term));
    assert forall|i: int| 0 <= i < kept.len() implies (#[trigger] kept[i]).surah_name
        == chapter.name by {
        let at = lemma_filter_item(chapter.ayahs, matching(term), i);
        assert(chapter.ayahs[at].surah_name == chapter.name);
    }
    assert(named_hits(chapter.name, chapter.ayahs, term) =~= own_hits(chapter.ayahs, term));
}

/// A search for the empty term returns every verse of the corpus, in corpus
/// order: every verse matches the empty term, so the results are the
/// [`listing`] of the corpus, which has one entry for each verse of
/// [`all_ayahs`], with that verse's number and text.
pub proof fn lemma_empty_term_finds_all(chapters: Seq<SurahView>)
    ensures
        search_hits(chapters, Seq::empty()) == listing(chapters),
        listing(chapters).len() == all_ayahs(chapters).len(),
        forall|p: int|
            0 <= p < listing(chapters).len() ==> (#[trigger] listing(chapters)[p]).1 == all_ayahs(
                chapters,
            )[p].number && listing(chapters)[p].2 == all_ayahs(chapters)[p].text,
        well_formed(chapters) ==> forall|p: int|
            0 <= p < listing(chapters).len() ==> (#[trigger] listing(chapters)[p]).0 == all_ayahs(
                chapters,
            )[p].surah_name,
    decreases chapters.len(),
{
    if chapters.len() > 0 {
        let last = chapters.last();
        let term = Seq::<char>::empty();
        lemma_empty_term_finds_all(chapters.drop_last());
        assert forall|i: int| 0 <= i < last.ayahs.len() implies matching(term)(
            #[trigger] last.ayahs[i],
        ) by {
            lemma_normalized_empty();
            lemma_contains_empty(normalized(last.ayahs[i].text));
        }
        lemma_filter_keeps_all(last.ayahs, matching(term));
        assert(named_hits(last.name, last.ayahs, term) =~= last.ayahs.map_values(
            |a: AyahView| (last.name, a.number, a.text),
        ));
        if well_formed(chapters) {
            assert(last.well_formed());
            assert forall|k: int| 0 <= k < chapters.drop_last().len() implies (
            #[trigger] chapters.drop_last()[k]).well_formed() by {
                assert(chapters[k].well_formed());
            }
        }
    }
}

/// The results of a search within a chapter are among the results of the
/// search over the whole corpus: for a chapter number that the corpus has,
/// they are the contiguous part of the whole search's results that follows
/// the results from the chapters before it.
pub proof fn lemma_surah_hits_within_search(
    chapters: Seq<SurahView>,
    term: Seq<char>,
    surah_number: nat,
)
    requires
        well_formed(chapters),
        1 <= surah_number <= chapters.len(),
    ensures
        ({
            let whole = search_hits(chapters, term);
            let part = surah_hits(chapters, term, surah_number);
            let offset = search_hits(chapters.take(surah_number - 1), term).len();
            &&& offset + part.len() <= whole.len()
            &&& whole.subrange(offset as int, offset as int + part.len()) == part
            &&& forall|i: int| 0 <= i < part.len() ==> whole.contains(#[trigger] part[i])
        }),
{
    let whole = search_hits(chapters, term);
    let part = surah_hits(chapters, term, surah_number);
    let before = chapters.take(surah_number - 1);
    let chapter = chapters[surah_number - 1];
    let upto = chapters.take(surah_number as int);
    let after = chapters.skip(surah_number as int);
    let offset = search_hits(before, term).len();
    assert(upto + after =~= chapters);
    lemma_search_hits_concat(upto, after, term);
    assert(upto.drop_last() =~= before);
    assert(upto.last() == chapter);
    assert(chapter.well_formed());
    lemma_named_hits_own(chapter, term);
    assert(search_hits(upto, term) == search_hits(before, term) + part);
    assert(whole.subrange(offset as int, offset as int + part.len()) =~= part);
    assert forall|i: int| 0 <= i < part.len() implies whole.contains(#[trigger] part[i]) by {
        assert(whole[offset + i] == part[i]);
    }
}

/// A range search whose end is below its start has no results.
pub proof fn lemma_reversed_range_is_empty(
    chapters: Seq<SurahView>,
    start: nat,
    end: nat,
    term: Seq<char>,
)
    requires
        end < start,
    ensures
        range_hits(chapters, start, end, term) == Seq::<Hit>::empty(),
{
    reveal(Seq::filter);
    assert(own_hits(Seq::empty(), term) =~= Seq::empty());
}

/// Whether `hit` is the result for the verse at the position `at` of the
/// corpus read as one sequence of verses, and that verse matches `term`.
pub open spec fn is_hit_at(chapters: Seq<SurahView>, term: Seq<char>, hit: Hit, at: int) -> bool {
    let all = all_ayahs(chapters);
    &&& 0 <= at < all.len()
    &&& verse_matches(all[at].text, term)
    &&& hit == (all[at].surah_name, all[at].number, all[at].text)
}

/// Whether `hit` is the result for a matching verse at one of the positions
/// `start` to `end` of the corpus.
pub open spec fn is_hit_within(
    chapters: Seq<SurahView>,
    start: nat,
    end: nat,
    term: Seq<char>,
    hit: Hit,
) -> bool {
    exists|at: int| start <= at <= end && is_hit_at(chapters, term, hit, at)
}

/// A range search never returns a verse from outside its window: every
/// result is the result for a matching verse at a position from `start` to
/// `end`.
pub proof fn lemma_range_hits_in_window(
    chapters: Seq<SurahView>,
    start: nat,
    end: nat,
    term: Seq<char>,
)
    ensures
        forall|i: int|
            0 <= i < range_hits(chapters, start, end, term).len() ==> is_hit_within(
                chapters,
                start,
                end,
                term,
                #[trigger] range_hits(chapters, start, end, term)[i],
            ),
{
    let hits = range_hits(chapters, start, end, term);
    let verses = window(chapters, start, end);
    assert forall|i: int| 0 <= i < hits.len() implies is_hit_within(
        chapters,
        start,
        end,
        term,
        #[trigger] hits[i],
    ) by {
        let q = lemma_filter_item(verses, matching(term), i);
        assert(is_hit_at(chapters, term, hits[i], start + q));
    }
}

/// Searches the verses of a corpus.
pub struct QuranSearch<'a> {
    quran: &'a Quran,
}

impl<'a> QuranSearch<'a> {
    /// The corpus that is searched.
    pub closed spec fn corpus(&self) -> Seq<SurahView> {
        self.quran@
    }

    /// A search over `quran`.
    pub fn new(quran: &'a Quran) -> (search: QuranSearch<'a>)
        ensures
            search.corpus() == quran@,
            well_formed(search.corpus()),
    {
        proof {
            use_type_invariant(quran);
        }
        QuranSearch { quran }
    }

    /// Every verse whose normal form contains the normal form of
    /// `search_term`, in corpus order: see [`search_hits`].
    pub fn search(&mut self, search_term: &str) -> (results: Vec<(String, usize, String)>)
        ensures
            hit_views(results@) == search_hits(old(self).corpus(), search_term@),
            *final(self) == *old(self),
    {
        let ghost chapters = self.quran@;
        let ghost term = search_term@;
        let surahs = self.quran.surahs();
        let mut results: Vec<(String, usize, String)> = Vec::new();
        let mut i: usize = 0;
        assert(hit_views(results@) =~= Seq::empty());
        while i < surahs.len()
            invariant
                i <= surahs.len(),
                chapters == surah_views(surahs@),
                term == search_term@,
                hit_views(results@) == search_hits(chapters.take(i as int), term),
            decreases surahs.len() - i,
        {
            let surah = &surahs[i];
            let ayahs = surah.ayas();
            let ghost before = hit_views(results@);
            let ghost name = surah@.name;
            let ghost verses = surah@.ayahs;
            let mut j: usize = 0;
            proof {
                reveal(Seq::filter);
                assert(verses.take(0) =~= Seq::empty());
                assert(named_hits(name, verses.take(0), term) =~= Seq::empty());
                assert(before + Seq::<Hit>::empty() =~= before);
            }
            while j < ayahs.len()
                invariant
                    j <= ayahs.len(),
                    verses == ayah_views(ayahs@),
                    name == surah@.name,
                    term == search_term@,
                    hit_views(results@) == before + named_hits(name, verses.take(j as int), term),
                decreases ayahs.len() - j,
            {
                let ayah = &ayahs[j];
                proof {
                    assert(verses.take(j + 1) =~= verses.take(j as int).push(ayah@));
                    lemma_named_hits_push(name, verses.take(j as int), ayah@, term);
                }
                if ayah.contains_word(search_term) {
                    let ghost held = results@;
                    results.push((surah.name(), ayah.number(), ayah.text().to_owned()));
                    proof {
                        let hit = (name, ayah@.number, ayah@.text);
                        assert(hit_views(results@) =~= hit_views(held).push(hit));
                        assert(before + named_hits(name, verses.take(j as int), term).push(hit)
                            =~= (before + named_hits(name, verses.take(j as int), term)).push(hit));
                    }
                }
                j = j + 1;
            }
            proof {
                assert(verses.take(j as int) =~= verses);
                assert(chapters.take(i + 1).drop_last() =~= chapters.take(i as int));
                assert(chapters.take(i + 1).last() == surah@);
            }
            i = i + 1;
        }
        assert(chapters.take(i as int) =~= chapters);
        results
    }

    /// The results of [`QuranSearch::search`] for each term in turn, one
    /// after another: see [`multi_hits`].
    pub fn search_multiple_terms(&mut self, search_terms: Vec<&str>) -> (results: Vec<
        (String, usize, String),
    >)
        ensures
            hit_views(results@) == multi_hits(
                old(self).corpus(),
                search_terms@.map_values(|t: &str| t@),
            ),
            *final(self) == *old(self),
    {
        let ghost chapters = self.corpus();
        let ghost terms = search_terms@.map_values(|t: &str| t@);
        let mut search_results: Vec<(String, usize, String)> = Vec::new();
        let mut i: usize = 0;
        assert(hit_views(search_results@) =~= Seq::empty());
        while i < search_terms.len()
            invariant
                i <= search_terms.len(),
                *self == *old(self),
                chapters == self.corpus(),
                terms == search_terms@.map_values(|t: &str| t@),
                hit_views(search_results@) == multi_hits(chapters, terms.take(i as int)),
            decreases search_terms.len() - i,
        {
            let mut temp_results = self.search(search_terms[i]);
            let ghost held = search_results@;
            let ghost added = temp_results@;
            search_results.append(&mut temp_results);
            proof {
                assert(hit_views(search_results@) =~= hit_views(held) + hit_views(added));
                assert(terms.take(i + 1).drop_last() =~= terms.take(i as int));
                assert(terms.take(i + 1).last() == search_terms@[i as int]@);
            }
            i = i + 1;
        }
        assert(terms.take(i as int) =~= terms);
        search_results
    }

    /// The matching verses among those at the positions `start_ayah_number`
    /// to `end_ayah_number`, both included, counted from 0 over the whole
    /// corpus: see [`range_hits`]. A window that reaches behind the last verse
    /// ends there, and one whose end is below its start is empty.
    pub fn search_range(
        &mut self,
        start_ayah_number: usize,
        end_ayah_number: usize,
        search_term: &str,
    ) -> (results: Vec<(String, usize, String)>)
        ensures
            hit_views(results@) == range_hits(
                old(self).corpus(),
                start_ayah_number as nat,
                end_ayah_number as nat,
                search_term@,
            ),
            *final(self) == *old(self),
    {
        let ghost chapters = self.quran@;
        let ghost term = search_term@;
        let mut search_results: Vec<(String, usize, String)> = Vec::new();
        let ayas = self.quran.ayas();
        let count = ayas.len();
        let ghost all = all_ayahs(chapters);
        proof {
            reveal(Seq::filter);
            assert(hit_views(search_results@) =~= Seq::empty());
            assert(own_hits(Seq::empty(), term) =~= Seq::empty());
        }
        if end_ayah_number < start_ayah_number || start_ayah_number >= count {
            return search_results;
        }
        let stop = if end_ayah_number >= count - 1 {
            count
        } else {
            end_ayah_number + 1
        };
        let mut i: usize = start_ayah_number;
        assert(all.subrange(start_ayah_number as int, i as int) =~= Seq::empty());
        while i < stop
            invariant
                start_ayah_number <= i <= stop <= count,
                count == all.len(),
                all == ayah_ref_views(ayas@),
                term == search_term@,
                hit_views(search_results@) == own_hits(
                    all.subrange(start_ayah_number as int, i as int),
                    term,
                ),
            decreases stop - i,
        {
            let ayah = ayas[i];
            proof {
                assert(all.subrange(start_ayah_number as int, i + 1) =~= all.subrange(
                    start_ayah_number as int,
                    i as int,
                ).push(ayah@));
                lemma_own_hits_push(
                    all.subrange(start_ayah_number as int, i as int),
                    ayah@,
                    term,
                );
            }
            if ayah.contains_word(search_term) {
                let ghost held = search_results@;
                search_results.push(
                    (ayah.surah_name().to_owned(), ayah.number(), ayah.text().to_owned()),
                );
                assert(hit_views(search_results@) =~= hit_views(held).push(
                    (ayah@.surah_name, ayah@.number, ayah@.text),
                ));
            }
            i = i + 1;
        }
        search_results
    }

    /// The matching verses of the chapter with the 1-based number
    /// `surah_number`: see [`surah_hits`]. There are none where the corpus
    /// has no chapter of that number.
    pub fn search_surah(&mut self, search_term: &str, surah_number: usize) -> (results: Vec<
        (String, usize, String),
    >)
        ensures
            hit_views(results@) == surah_hits(
                old(self).corpus(),
                search_term@,
                surah_number as nat,
            ),
            *final(self) == *old(self),
    {
        let ghost term = search_term@;
        let mut search_results: Vec<(String, usize, String)> = Vec::new();
        let surahs = self.quran.surahs();
        proof {
            reveal(Seq::filter);
            assert(hit_views(search_results@) =~= Seq::empty());
        }
        if surah_number < 1 || surah_number > surahs.len() {
            return search_results;
        }
        let surah = &surahs[surah_number - 1];
        let ayahs = surah.ayas();
        let ghost verses = surah@.ayahs;
        let mut j: usize = 0;
        proof {
            assert(verses.take(0) =~= Seq::empty());
            assert(own_hits(verses.take(0), term) =~= Seq::empty());
        }
        while j < ayahs.len()
            invariant
                j <= ayahs.len(),
                verses == ayah_views(ayahs@),
                term == search_term@,
                hit_views(search_results@) == own_hits(verses.take(j as int), term),
            decreases ayahs.len() - j,
        {
            let ayah = &ayahs[j];
            proof {
                assert(verses.take(j + 1) =~= verses.take(j as int).push(ayah@));
                lemma_own_hits_push(verses.take(j as int), ayah@, term);
            }
            if ayah.contains_word(search_term) {
                let ghost held = search_results@;
                search_results.push(
                    (ayah.surah_name().to_owned(), ayah.number(), ayah.text().to_owned()),
                );
                assert(hit_views(search_results@) =~= hit_views(held).push(
                    (ayah@.surah_name, ayah@.number, ayah@.text),
                ));
            }
            j = j + 1;
        }
        assert(verses.take(j as int) =~= verses);
        search_results
    }
}

} // verus!
