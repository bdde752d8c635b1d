//! The corpus: chapters in order, each with its verses in order, and its
//! loading from a JSON document.

pub mod analyze;
pub mod concordance;
pub mod frequency;
pub mod report;
pub mod search;
pub mod summary;
pub mod surah;
pub mod verse;

use crate::error::QuranError;
use crate::json::{error_text, json_document, json_views, parse_json, Json, JsonView};
use surah::{surah_views, Surah, SurahView};
use verse::{ayah_views, Ayah, AyahView};
use vstd::prelude::*;
use vstd::string::StringExecFns;

verus! {

/// The place of the corpus document. A parse error names it.
pub const QURAN_FILE_PATH: &'static str = "../../data/quran.json";

/// The corpus. It is built once, by loading, and never changed.
#[derive(Debug)]
pub struct Quran {
    pub(crate) surahs: Vec<Surah>,
}

impl View for Quran {
    type V = Seq<SurahView>;

    open(crate) spec fn view(&self) -> Seq<SurahView> {
        surah_views(self.surahs@)
    }
}

/// The verses of all of `chapters`, chapter after chapter, each chapter's
/// verses in their order.
pub open spec fn all_ayahs(chapters: Seq<SurahView>) -> Seq<AyahView>
    decreases chapters.len(),
{
    if chapters.len() == 0 {
        Seq::empty()
    } else {
        all_ayahs(chapters.drop_last()) + chapters.last().ayahs
    }
}

/// The views of the verses that `ayahs` refers to, in order.
pub open spec fn ayah_ref_views(ayahs: Seq<&Ayah>) -> Seq<AyahView> {
    ayahs.map_values(|a: &Ayah| a@)
}

/// Whether every verse of `chapters` names the chapter that holds it.
pub open spec fn well_formed(chapters: Seq<SurahView>) -> bool {
    forall|k: int| 0 <= k < chapters.len() ==> (#[trigger] chapters[k]).well_formed()
}

/// What a verse record gives: the verse, or the message of the first field
/// that is absent or of the wrong type. The `id` is a non-negative integer,
/// kept modulo 2^32; the `text` is a string.
pub open spec fn verse_record(record: JsonView, surah_name: Seq<char>) -> Result<AyahView, Seq<char>> {
    if record.member("id"@).number() is None {
        Err("Invalid ayah id"@)
    } else if record.member("text"@).text() is None {
        Err("Invalid ayah text"@)
    } else {
        Ok(
            AyahView {
                number: (record.member("id"@).number()->0 as u32) as nat,
                surah_name,
                text: record.member("text"@).text()->0,
            },
        )
    }
}

/// What a list of verse records gives: the verses in order, or the error of
/// the first record that has one.
pub open spec fn verse_records(records: Seq<JsonView>, surah_name: Seq<char>) -> Result<
    Seq<AyahView>,
    Seq<char>,
>
    decreases records.len(),
{
    if records.len() == 0 {
        Ok(Seq::empty())
    } else {
        match verse_records(records.drop_last(), surah_name) {
            Err(message) => Err(message),
            Ok(before) => match verse_record(records.last(), surah_name) {
                Err(message) => Err(message),
                Ok(verse) => Ok(before.push(verse)),
            },
        }
    }
}

/// What a chapter record gives: the chapter, or the message of the first
/// failure. The fields are read in the order `id`, `name`, `total_verses`,
/// `verses`, and then the verse records in their order. The two numbers are
/// non-negative integers, kept modulo 2^32; every verse is given the
/// chapter's name.
pub open spec fn chapter_record(record: JsonView) -> Result<SurahView, Seq<char>> {
    if record.member("id"@).number() is None {
        Err("Invalid surah id"@)
    } else if record.member("name"@).text() is None {
        Err("Invalid surah name"@)
    } else if record.member("total_verses"@).number() is None {
        Err("Invalid total verses"@)
    } else if record.member("verses"@).items() is None {
        Err("Invalid verses"@)
    } else {
        let name = record.member("name"@).text()->0;
        match verse_records(record.member("verses"@).items()->0, name) {
            Err(message) => Err(message),
            Ok(ayahs) => Ok(
                SurahView {
                    id: (record.member("id"@).number()->0 as u32) as nat,
                    name,
                    total_verses: (record.member("total_verses"@).number()->0 as u32) as nat,
                    ayahs,
                },
            ),
        }
    }
}

/// What a list of chapter records gives: the chapters in order, or the error
/// of the first record that has one.
pub open spec fn chapter_records(records: Seq<JsonView>) -> Result<Seq<SurahView>, Seq<char>>
    decreases records.len(),
{
    if records.len() == 0 {
        Ok(Seq::empty())
    } else {
        match chapter_records(records.drop_last()) {
            Err(message) => Err(message),
            Ok(before) => match chapter_record(records.last()) {
                Err(message) => Err(message),
                Ok(chapter) => Ok(before.push(chapter)),
            },
        }
    }
}

/// What a parsed document gives: the corpus, where the document is an array
/// of valid chapter records, and else the message of the first failure.
pub open spec fn corpus_of(document: JsonView) -> Result<Seq<SurahView>, Seq<char>> {
    match document.items() {
        None => Err("Invalid JSON structure"@),
        Some(records) => chapter_records(records),
    }
}

/// The verses that a list of records gives all carry the chapter's name.
pub proof fn lemma_verse_records_named(records: Seq<JsonView>, surah_name: Seq<char>)
    ensures
        verse_records(records, surah_name) matches Ok(ayahs) ==> ayahs.len() == records.len()
            && forall|k: int| 0 <= k < ayahs.len() ==> (#[trigger] ayahs[k]).surah_name == surah_name,
    decreases records.len(),
{
    if records.len() > 0 {
        lemma_verse_records_named(records.drop_last(), surah_name);
    }
}

/// A corpus that loading gives is well formed, and has one chapter for each
/// record.
pub proof fn lemma_chapter_records_well_formed(records: Seq<JsonView>)
    ensures
        chapter_records(records) matches Ok(chapters) ==> chapters.len() == records.len()
            && well_formed(chapters),
    decreases records.len(),
{
    if records.len() > 0 {
        lemma_chapter_records_well_formed(records.drop_last());
        let record = records.last();
        if record.member("verses"@).items() is Some && record.member("name"@).text() is Some {
            lemma_verse_records_named(
                record.member("verses"@).items()->0,
                record.member("name"@).text()->0,
            );
        }
    }
}

/// How the detail of the error for a document that is not JSON begins: the
/// document's place, a colon and a space. The parser's diagnostic follows.
pub open spec fn parse_error_opening() -> Seq<char> {
    QURAN_FILE_PATH@ + ": "@
}

/// The error for a record that lacks a field.
fn invalid(message: &str) -> (e: QuranError)
    ensures
        e == QuranError::JsonError(e->JsonError_0),
        e->JsonError_0@ == message@,
{
    QuranError::JsonError(message.to_owned())
}

impl Quran {
    /// Whether every verse names the chapter that holds it. Loading
    /// establishes this and nothing changes a corpus, so it holds of every
    /// corpus that a program holds.
    #[verifier::type_invariant]
    pub open spec fn well_formed(&self) -> bool {
        well_formed(self@)
    }

    /// Loads the corpus from the text of its JSON document: an array of
    /// chapter records, each with `id`, `name`, `total_verses` and `verses`,
    /// the last an array of records with `id` and `text`.
    ///
    /// A document that the parser rejects gives a `JsonError` that starts
    /// with the document's place; one that parses gives what
    /// [`Quran::parse_surahs`] makes of it.
    pub fn new(document: &str) -> (r: Result<Quran, QuranError>)
        ensures
            match json_document(document@) {
                None => r matches Err(QuranError::JsonError(message))
                    && parse_error_opening().is_prefix_of(message@),
                Some(tree) => match corpus_of(tree) {
                    Ok(chapters) => r matches Ok(quran) && quran@ == chapters
                        && quran.well_formed(),
                    Err(text) => r matches Err(QuranError::JsonError(message)) && message@ == text,
                },
            },
    {
        match parse_json(document) {
            Err(error) => {
                let mut message = String::from_str(QURAN_FILE_PATH);
                message.append(": ");
                let diagnostic = error_text(&error);
                message.append(diagnostic.as_str());
                assert(message@.subrange(0, parse_error_opening().len() as int)
                    =~= parse_error_opening());
                Err(QuranError::JsonError(message))
            },
            Ok(tree) => {
                match Self::parse_surahs(tree) {
                    Ok(surahs) => Ok(Quran { surahs }),
                    Err(error) => Err(error),
                }
            },
        }
    }

    /// The chapters, in order.
    pub fn surahs(&self) -> (surahs: &[Surah])
        ensures
            surah_views(surahs@) == self@,
            self.well_formed(),
    {
        proof {
            use_type_invariant(self);
        }
        self.surahs.as_slice()
    }

    /// The chapter at the 0-based position `surah_number`.
    pub fn surah(&self, surah_number: usize) -> (surah: &Surah)
        requires
            surah_number < self@.len(),
        ensures
            surah@ == self@[surah_number as int],
    {
        &self.surahs[surah_number]
    }

    /// All verses of the corpus: see [`all_ayahs`].
    pub fn ayas(&self) -> (ayahs: Vec<&Ayah>)
        ensures
            ayah_ref_views(ayahs@) == all_ayahs(self@),
    {
        let mut ayahs: Vec<&Ayah> = Vec::new();
        let mut i: usize = 0;
        while i < self.surahs.len()
            invariant
                i <= self.surahs.len(),
                self@ == surah_views(self.surahs@),
                ayah_ref_views(ayahs@) == all_ayahs(self@.take(i as int)),
            decreases self.surahs.len() - i,
        {
            let surah = &self.surahs[i];
            let ghost before = ayah_ref_views(ayahs@);
            let mut j: usize = 0;
            while j < surah.ayahs.len()
                invariant
                    j <= surah.ayahs.len(),
                    ayah_ref_views(ayahs@) == before + ayah_views(surah.ayahs@).take(
                        j as int,
                    ),
                decreases surah.ayahs.len() - j,
            {
                let ghost held = ayahs@;
                ayahs.push(&surah.ayahs[j]);
                proof {
                    let verses = ayah_views(surah.ayahs@);
                    assert(ayah_ref_views(ayahs@) =~= ayah_ref_views(held).push(verses[j as int]));
                    assert(before + verses.take(j + 1) =~= (before + verses.take(j as int)).push(
                        verses[j as int],
                    ));
                }
                j = j + 1;
            }
            proof {
                assert(ayah_views(surah.ayahs@).take(j as int) =~= surah@.ayahs);
                assert(self@.take(i + 1).drop_last() =~= self@.take(i as int));
                assert(self@.take(i + 1).last() == surah@);
            }
            i = i + 1;
        }
        assert(self@.take(i as int) =~= self@);
        ayahs
    }

    /// Reads the verse records of a chapter: see [`verse_records`].
    fn parse_ayahs(records: &Vec<Json>, surah_name: &String) -> (r: Result<Vec<Ayah>, QuranError>)
        ensures
            match verse_records(json_views(records@), surah_name@) {
                Ok(ayahs) => r matches Ok(parsed) && ayah_views(parsed@) == ayahs,
                Err(text) => r matches Err(QuranError::JsonError(message)) && message@ == text,
            },
    {
        let mut parsed_ayahs: Vec<Ayah> = Vec::new();
        let ghost shown = json_views(records@);
        let mut i: usize = 0;
        assert(ayah_views(parsed_ayahs@) =~= Seq::empty());
        while i < records.len()
            invariant
                i <= records.len(),
                shown == json_views(records@),
                verse_records(shown.take(i as int), surah_name@) == Ok::<Seq<AyahView>, Seq<char>>(
                    ayah_views(parsed_ayahs@),
                ),
            decreases records.len() - i,
        {
            let record = &records[i];
            proof {
                assert(shown.take(i + 1).drop_last() =~= shown.take(i as int));
                assert(shown.take(i + 1).last() == record@);
                lemma_records_error_stays(shown, surah_name@, i + 1);
            }
            let ayah_number = match record.member_u64("id") {
                Some(id) => #[verifier::truncate]
                (id as u32),
                None => {
                    return Err(invalid("Invalid ayah id"));
                },
            };
            let ayah_text = match record.member_str("text") {
                Some(text) => text.to_owned(),
                None => {
                    return Err(invalid("Invalid ayah text"));
                },
            };
            let ayah = Ayah { ayah_number, surah_name: surah_name.clone(), text: ayah_text };
            parsed_ayahs.push(ayah);
            assert(ayah_views(parsed_ayahs@) =~= verse_records(
                shown.take(i + 1),
                surah_name@,
            )->Ok_0);
            i = i + 1;
        }
        assert(shown.take(i as int) =~= shown);
        Ok(parsed_ayahs)
    }

    /// Reads a chapter record: see [`chapter_record`].
    fn parse_surah(record: &Json) -> (r: Result<Surah, QuranError>)
        ensures
            match chapter_record(record@) {
                Ok(chapter) => r matches Ok(surah) && surah@ == chapter,
                Err(text) => r matches Err(QuranError::JsonError(message)) && message@ == text,
            },
    {
        let id = match record.member_u64("id") {
            Some(id) => #[verifier::truncate]
            (id as u32),
            None => {
                return Err(invalid("Invalid surah id"));
            },
        };
        let surah_name = match record.member_str("name") {
            Some(name) => name.to_owned(),
            None => {
                return Err(invalid("Invalid surah name"));
            },
        };
        let total_verses = match record.member_u64("total_verses") {
            Some(count) => #[verifier::truncate]
            (count as u32),
            None => {
                return Err(invalid("Invalid total verses"));
            },
        };
        let ayahs = match record.member_array("verses") {
            Some(records) => records,
            None => {
                return Err(invalid("Invalid verses"));
            },
        };
        match Self::parse_ayahs(ayahs, &surah_name) {
            Ok(parsed_ayahs) => Ok(
                Surah { name: surah_name, id, total_verses, ayahs: parsed_ayahs },
            ),
            Err(error) => Err(error),
        }
    }

    /// Builds the chapters from a parsed document: see [`corpus_of`].
    ///
    /// The result is the chapters in the order of their records where the
    /// document is an array and every record is valid. Otherwise it is the
    /// `JsonError` whose detail names the first thing found wrong.
    pub fn parse_surahs(json_value: Json) -> (r: Result<Vec<Surah>, QuranError>)
        ensures
            match corpus_of(json_value@) {
                Ok(chapters) => r matches Ok(surahs) && surah_views(surahs@) == chapters
                    && well_formed(chapters),
                Err(text) => r matches Err(QuranError::JsonError(message)) && message@ == text,
            },
    {
        let records = match json_value.as_array() {
            Some(records) => records,
            None => {
                return Err(invalid("Invalid JSON structure"));
            },
        };
        let mut parsed_surahs: Vec<Surah> = Vec::new();
        let ghost shown = json_views(records@);
        let mut i: usize = 0;
        assert(surah_views(parsed_surahs@) =~= Seq::empty());
        while i < records.len()
            invariant
                i <= records.len(),
                shown == json_views(records@),
                corpus_of(json_value@) == chapter_records(shown),
                chapter_records(shown.take(i as int)) == Ok::<Seq<SurahView>, Seq<char>>(
                    surah_views(parsed_surahs@),
                ),
            decreases records.len() - i,
        {
            proof {
                assert(shown.take(i + 1).drop_last() =~= shown.take(i as int));
                assert(shown.take(i + 1).last() == records@[i as int]@);
                lemma_chapters_error_stays(shown, i + 1);
            }
            match Self::parse_surah(&records[i]) {
                Ok(surah) => {
                    parsed_surahs.push(surah);
                    assert(surah_views(parsed_surahs@) =~= chapter_records(
                        shown.take(i + 1),
                    )->Ok_0);
                },
                Err(error) => {
                    return Err(error);
                },
            }
            i = i + 1;
        }
        proof {
            assert(shown.take(i as int) =~= shown);
            lemma_chapter_records_well_formed(shown);
        }
        Ok(parsed_surahs)
    }
}

/// An error among the first records is the error of the whole list.
pub proof fn lemma_records_error_stays(records: Seq<JsonView>, surah_name: Seq<char>, n: int)
    requires
        0 <= n <= records.len(),
    ensures
        verse_records(records.take(n), surah_name) is Err ==> verse_records(records, surah_name)
            == verse_records(records.take(n), surah_name),
    decreases records.len() - n,
{
    if n == records.len() {
        assert(records.take(n) =~= records);
    } else {
        assert(records.take(n + 1).drop_last() =~= records.take(n));
        lemma_records_error_stays(records, surah_name, n + 1);
    }
}

/// An error among the first chapter records is the error of the whole list.
pub proof fn lemma_chapters_error_stays(records: Seq<JsonView>, n: int)
    requires
        0 <= n <= records.len(),
    ensures
        chapter_records(records.take(n)) is Err ==> chapter_records(records) == chapter_records(
            records.take(n),
        ),
    decreases records.len() - n,
{
    if n == records.len() {
        assert(records.take(n) =~= records);
    } else {
        assert(records.take(n + 1).drop_last() =~= records.take(n));
        lemma_chapters_error_stays(records, n + 1);
    }
}

} // verus!
