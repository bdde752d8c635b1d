//! The statistics of a corpus together with the results of one search.

use super::analyze::{row_views, table_rows, within_limits, Analyzer};
use super::search::{hit_views, search_hits, Hit, QuranSearch};
use super::surah::SurahView;
use super::Quran;
use crate::text::{decimal, decimal_of};
use vstd::prelude::*;
use vstd::string::StringExecFns;

verus! {

/// The statistics of a corpus and the verses that match a search term, each
/// as the name of its chapter and its text.
#[derive(Debug)]
pub struct Summary {
    pub total_surahs: usize,
    pub total_ayahs: usize,
    pub total_letters: usize,
    pub total_words: usize,
    pub average_letters_per_surah: usize,
    pub average_words_per_surah: usize,
    pub longest_surah_name: String,
    pub longest_surah_letters: usize,
    pub shortest_surah_name: String,
    pub shortest_surah_letters: usize,
    pub most_common_word: Option<(String, i32)>,
    pub search_results: Vec<(String, String)>,
}

/// The views of search results that are a chapter name and a verse text.
pub open spec fn pair_views(results: Seq<(String, String)>) -> Seq<(Seq<char>, Seq<char>)> {
    results.map_values(|r: (String, String)| (r.0@, r.1@))
}

/// The chapter name and the verse text of each of `hits`.
pub open spec fn hit_pairs(hits: Seq<Hit>) -> Seq<(Seq<char>, Seq<char>)> {
    hits.map_values(|h: Hit| (h.0, h.2))
}

/// The three lines that show each of `results`: its chapter, its text and a
/// rule.
pub open spec fn result_lines(results: Seq<(Seq<char>, Seq<char>)>) -> Seq<Seq<char>>
    decreases results.len(),
{
    if results.len() == 0 {
        Seq::empty()
    } else {
        result_lines(results.drop_last()) + seq![
            "Surah: "@ + results.last().0,
            "Ayah: "@ + results.last().1,
            "---"@,
        ]
    }
}

/// The lines of the report on `results`: a heading, then the results or,
/// where there are none, a line that says so, then their number.
pub open spec fn report_lines(results: Seq<(Seq<char>, Seq<char>)>) -> Seq<Seq<char>> {
    seq!["Search Results:"@] + if results.len() == 0 {
        seq!["No matching results found."@]
    } else {
        result_lines(results)
    } + seq![decimal_of(results.len())]
}

/// The views of `lines`, in order.
pub open spec fn line_views(lines: Seq<String>) -> Seq<Seq<char>> {
    lines.map_values(|l: String| l@)
}

/// `opening` followed by `text`.
fn joined(opening: &str, text: &String) -> (line: String)
    ensures
        line@ == opening@ + text@,
{
    let mut line = opening.to_owned();
    line.append(text.as_str());
    line
}

impl Summary {
    /// The statistics that the summary holds.
    pub open spec fn statistics(&self) -> Analyzer {
        Analyzer {
            total_surahs: self.total_surahs,
            total_ayahs: self.total_ayahs,
            total_letters: self.total_letters,
            total_words: self.total_words,
            average_letters_per_surah: self.average_letters_per_surah,
            average_words_per_surah: self.average_words_per_surah,
            longest_surah_name: self.longest_surah_name,
            longest_surah_letters: self.longest_surah_letters,
            shortest_surah_name: self.shortest_surah_name,
            shortest_surah_letters: self.shortest_surah_letters,
            most_common_word: self.most_common_word,
        }
    }

    /// Whether this is the summary of `chapters` for the search term `term`:
    /// its statistics are those of the chapters (see
    /// [`Analyzer::describes`]), and its search results are those of a search
    /// for the term over the whole corpus (see [`search_hits`]), each as
    /// chapter name and verse text.
    pub open spec fn describes(&self, chapters: Seq<SurahView>, term: Seq<char>) -> bool {
        &&& self.statistics().describes(chapters)
        &&& pair_views(self.search_results@) == hit_pairs(search_hits(chapters, term))
    }

    /// Computes the summary of the corpus for `search_term` where the
    /// statistics fit their fields, and gives nothing where they do not: see
    /// [`Summary::new`] and [`within_limits`].
    pub fn try_new(quran: Quran, search_term: &str) -> (summary: Option<Summary>)
        ensures
            match summary {
                Some(summary) => within_limits(quran@) && summary.describes(quran@, search_term@),
                None => !within_limits(quran@),
            },
    {
        if Analyzer::fits(&quran) {
            Some(Self::new(quran, search_term))
        } else {
            None
        }
    }

    /// Computes the summary of the corpus for `search_term`: see
    /// [`Summary::describes`]. The limits are those of [`Analyzer::new`].
    pub fn new(quran: Quran, search_term: &str) -> (summary: Summary)
        requires
            within_limits(quran@),
        ensures
            summary.describes(quran@, search_term@),
    {
        let statistics = Analyzer::new(&quran);
        let mut search = QuranSearch::new(&quran);
        let hits = search.search(search_term);
        let mut search_results: Vec<(String, String)> = Vec::new();
        let mut i: usize = 0;
        assert(pair_views(search_results@) =~= hit_pairs(hit_views(hits@).take(0)));
        while i < hits.len()
            invariant
                i <= hits.len(),
                pair_views(search_results@) == hit_pairs(hit_views(hits@).take(i as int)),
            decreases hits.len() - i,
        {
            let ghost held = search_results@;
            search_results.push((hits[i].0.clone(), hits[i].2.clone()));
            proof {
                let hit = hit_views(hits@)[i as int];
                assert(pair_views(search_results@) =~= pair_views(held).push((hit.0, hit.2)));
                assert(hit_pairs(hit_views(hits@).take(i + 1)) =~= hit_pairs(
                    hit_views(hits@).take(i as int),
                ).push((hit.0, hit.2)));
            }
            i = i + 1;
        }
        assert(hit_views(hits@).take(i as int) =~= hit_views(hits@));
        let Analyzer {
            total_surahs,
            total_ayahs,
            total_letters,
            total_words,
            average_letters_per_surah,
            average_words_per_surah,
            longest_surah_name,
            longest_surah_letters,
            shortest_surah_name,
            shortest_surah_letters,
            most_common_word,
        } = statistics;
        Summary {
            total_surahs,
            total_ayahs,
            total_letters,
            total_words,
            average_letters_per_surah,
            average_words_per_surah,
            longest_surah_name,
            longest_surah_letters,
            shortest_surah_name,
            shortest_surah_letters,
            most_common_word,
            search_results,
        }
    }

    /// The lines of the report on the search results: see [`report_lines`].
    pub fn search_report(&self) -> (lines: Vec<String>)
        ensures
            line_views(lines@) == report_lines(pair_views(self.search_results@)),
    {
        let ghost results = pair_views(self.search_results@);
        let mut lines: Vec<String> = Vec::new();
        lines.push("Search Results:".to_owned());
        if self.search_results.len() == 0 {
            lines.push("No matching results found.".to_owned());
        } else {
            let mut i: usize = 0;
            assert(line_views(lines@) =~= seq!["Search Results:"@] + result_lines(
                results.take(0),
            ));
            while i < self.search_results.len()
                invariant
                    i <= self.search_results.len(),
                    results == pair_views(self.search_results@),
                    line_views(lines@) == seq!["Search Results:"@] + result_lines(
                        results.take(i as int),
                    ),
                decreases self.search_results.len() - i,
            {
                let ghost held = line_views(lines@);
                let result = &self.search_results[i];
                lines.push(joined("Surah: ", &result.0));
                lines.push(joined("Ayah: ", &result.1));
                lines.push("---".to_owned());
                proof {
                    assert(results.take(i + 1).drop_last() =~= results.take(i as int));
                    assert(results.take(i + 1).last() == results[i as int]);
                    assert(line_views(lines@) =~= held + seq![
                        "Surah: "@ + results[i as int].0,
                        "Ayah: "@ + results[i as int].1,
                        "---"@,
                    ]);
                }
                i = i + 1;
            }
            assert(results.take(i as int) =~= results);
        }
        lines.push(decimal(self.search_results.len() as u128));
        assert(line_views(lines@) =~= report_lines(results));
        lines
    }

    /// The rows of the table that shows the statistics: see [`table_rows`].
    pub fn rows(&self) -> (rows: Vec<(String, String)>)
        ensures
            row_views(rows@) == table_rows(self.statistics()),
    {
        let statistics = Analyzer {
            total_surahs: self.total_surahs,
            total_ayahs: self.total_ayahs,
            total_letters: self.total_letters,
            total_words: self.total_words,
            average_letters_per_surah: self.average_letters_per_surah,
            average_words_per_surah: self.average_words_per_surah,
            longest_surah_name: self.longest_surah_name.clone(),
            longest_surah_letters: self.longest_surah_letters,
            shortest_surah_name: self.shortest_surah_name.clone(),
            shortest_surah_letters: self.shortest_surah_letters,
            most_common_word: match &self.most_common_word {
                Some((word, count)) => Some((word.clone(), *count)),
                None => None,
            },
        };
        statistics.rows()
    }
}

} // verus!
