use quranic_analyzer::error::QuranError;
use quranic_analyzer::json::{parse_json, Json};
use quranic_analyzer::quran::analyze::{lowered_words, Analyzer};
use quranic_analyzer::quran::concordance::Concordance;
use quranic_analyzer::quran::frequency::most_common;
use quranic_analyzer::quran::report::{ReportOrder, RULE};
use quranic_analyzer::quran::search::QuranSearch;
use quranic_analyzer::quran::summary::Summary;
use quranic_analyzer::quran::{Quran, QURAN_FILE_PATH};

const CHAPTER_NAMES: [&str; 114] = ["الفاتحة", "البقرة", "آل عمران", "النساء", "المائدة", "الأنعام", "الأعراف", "الأنفال", "التوبة", "يونس", "هود", "يوسف", "الرعد", "إبراهيم", "الحجر", "النحل", "الإسراء", "الكهف", "مريم", "طه", "الأنبياء", "الحج", "المؤمنون", "النور", "الفرقان", "الشعراء", "النمل", "القصص", "العنكبوت", "الروم", "لقمان", "السجدة", "الأحزاب", "سبأ", "فاطر", "يس", "الصافات", "ص", "الزمر", "غافر", "فصلت", "الشورى", "الزخرف", "الدخان", "الجاثية", "الأحقاف", "محمد", "الفتح", "الحجرات", "ق", "الذاريات", "الطور", "النجم", "القمر", "الرحمن", "الواقعة", "الحديد", "المجادلة", "الحشر", "الممتحنة", "الصف", "الجمعة", "المنافقون", "التغابن", "الطلاق", "التحريم", "الملك", "القلم", "الحاقة", "المعارج", "نوح", "الجن", "المزمل", "المدثر", "القيامة", "الإنسان", "المرسلات", "النبأ", "النازعات", "عبس", "التكوير", "الانفطار", "المطففين", "الانشقاق", "البروج", "الطارق", "الأعلى", "الغاشية", "الفجر", "البلد", "الشمس", "الليل", "الضحى", "الشرح", "التين", "العلق", "القدر", "البينة", "الزلزلة", "العاديات", "القارعة", "التكاثر", "العصر", "الهمزة", "الفيل", "قريش", "الماعون", "الكوثر", "الكافرون", "النصر", "المسد", "الإخلاص", "الفلق", "الناس"];

const DECLARED_VERSES: [usize; 114] = [7, 286, 200, 176, 120, 165, 206, 75, 129, 109, 123, 111, 43, 52, 99, 128, 111, 110, 98, 135, 112, 78, 118, 64, 77, 227, 93, 88, 69, 60, 34, 30, 73, 54, 45, 83, 182, 88, 75, 85, 54, 53, 89, 59, 37, 35, 38, 29, 18, 45, 60, 49, 62, 55, 78, 96, 29, 22, 24, 13, 14, 11, 11, 18, 12, 12, 30, 52, 52, 44, 28, 28, 20, 56, 40, 31, 50, 40, 46, 42, 29, 19, 36, 25, 22, 17, 19, 26, 30, 20, 15, 21, 11, 8, 8, 19, 5, 8, 8, 11, 11, 8, 3, 9, 5, 4, 7, 3, 6, 3, 5, 4, 5, 6];

const OPENING: [&str; 7] = [
    "بِسْمِ اللَّهِ الرَّحْمَٰنِ الرَّحِيمِ",
    "الْحَمْدُ لِلَّهِ رَبِّ الْعَالَمِينَ",
    "الرَّحْمَٰنِ الرَّحِيمِ",
    "مَالِكِ يَوْمِ الدِّينِ",
    "إِيَّاكَ نَعْبُدُ وَإِيَّاكَ نَسْتَعِينُ",
    "اهْدِنَا الصِّرَاطَ الْمُسْتَقِيمَ",
    "صِرَاطَ الَّذِينَ أَنْعَمْتَ عَلَيْهِمْ غَيْرِ الْمَغْضُوبِ عَلَيْهِمْ وَلَا الضَّالِّينَ",
];

const LETTER_OF_SOLOMON: &str = "إِنَّهُ مِنْ سُلَيْمَانَ وَإِنَّهُ بِسْمِ اللَّهِ الرَّحْمَٰنِ الرَّحِيمِ";

const SINCERITY: [&str; 4] = [
    "قُلْ هُوَ اللَّهُ أَحَدٌ",
    "اللَّهُ الصَّمَدُ",
    "لَمْ يَلِدْ وَلَمْ يُولَدْ",
    "وَلَمْ يَكُنْ لَهُ كُفُوًا أَحَدٌ",
];

fn verse_record(id: usize, text: &str) -> String {
    format!("{{\"id\": {}, \"text\": \"{}\", \"translation\": \"\"}}", id, text)
}

fn chapter_record(id: usize, name: &str, total_verses: usize, verses: &[String]) -> String {
    format!(
        "{{\"id\": {}, \"name\": \"{}\", \"transliteration\": \"\", \"translation\": \"\", \"type\": \"meccan\", \"total_verses\": {}, \"verses\": [{}]}}",
        id,
        name,
        total_verses,
        verses.join(", ")
    )
}

fn document(chapters: &[String]) -> String {
    format!("[{}]", chapters.join(",\n"))
}

fn numbered(texts: &[&str]) -> Vec<String> {
    let mut records = Vec::new();
    for (at, text) in texts.iter().enumerate() {
        records.push(verse_record(at + 1, text));
    }
    records
}

/// A corpus of the given chapters, each a name and its verses, numbered
/// from 1.
fn corpus(chapters: &[(&str, &[&str])]) -> Quran {
    let mut records = Vec::new();
    for (at, (name, texts)) in chapters.iter().enumerate() {
        records.push(chapter_record(at + 1, name, texts.len(), &numbered(texts)));
    }
    Quran::new(&document(&records)).unwrap()
}

/// The corpus in abridged form: all 114 chapter records with their names and
/// declared verse counts, and the verses of the first and of the 112th
/// chapter and verse 30 of the 27th.
fn create_test_quran() -> Quran {
    let mut records = Vec::new();
    for at in 0..114 {
        let verses = match at + 1 {
            1 => numbered(&OPENING),
            27 => vec![verse_record(30, LETTER_OF_SOLOMON)],
            112 => numbered(&SINCERITY),
            _ => Vec::new(),
        };
        records.push(chapter_record(at + 1, CHAPTER_NAMES[at], DECLARED_VERSES[at], &verses));
    }
    Quran::new(&document(&records)).unwrap()
}

fn hit(name: &str, number: usize, text: &str) -> (String, usize, String) {
    (name.to_string(), number, text.to_string())
}

fn json_error(result: Result<Quran, QuranError>) -> String {
    match result {
        Err(QuranError::JsonError(detail)) => detail,
        Err(QuranError::FileOpenError(detail)) => panic!("file error: {}", detail),
        Ok(_) => panic!("the document was accepted"),
    }
}

#[test]
fn test_new() {
    let quran = create_test_quran();
    assert_eq!(quran.surahs().len(), 114);
}

#[test]
fn test_search() {
    // Create a test Quran instance
    let quran = create_test_quran();

    // Create a QuranSearch instance
    let mut search = QuranSearch::new(&quran);

    let search_term = "بسم الله الرحمن الرحيم";

    // Perform the search
    let search_results = search.search(search_term);
    assert_eq!(search_results.len(), 2);
}

#[test]
fn test_search_surah() {
    // Create a test Quran instance
    let quran = create_test_quran();

    // Create a QuranSearch instance
    let mut search = QuranSearch::new(&quran);

    // Perform the search within a specific surah
    let search_results = search.search_surah("الله", 1);

    // Assert the expected results
    assert_eq!(search_results.len(), 1);
}

#[test]
fn test_search_range() {
    let quran = create_test_quran();

    // Search for verses in the range 1-5 containing the term "Allah"
    let mut search = QuranSearch::new(&quran);

    let search_results = search.search_range(1, 5, "الله");

    assert_eq!(search_results.len(), 0);
}

#[test]
fn search_returns_name_number_and_text() {
    let quran = create_test_quran();
    let mut search = QuranSearch::new(&quran);
    let results = search.search("بسم الله الرحمن الرحيم");
    assert_eq!(
        results,
        vec![hit(CHAPTER_NAMES[0], 1, OPENING[0]), hit(CHAPTER_NAMES[26], 30, LETTER_OF_SOLOMON)]
    );
}

#[test]
fn search_sets_diacritics_aside_on_both_sides() {
    let quran = create_test_quran();
    let mut search = QuranSearch::new(&quran);
    let bare = search.search("الرحمن");
    let vocalized = search.search("الرَّحْمَٰنِ");
    let wasla = search.search("ٱلرحمن");
    assert_eq!(bare.len(), 3);
    assert_eq!(vocalized, bare);
    assert_eq!(wasla, bare);
}

#[test]
fn search_is_case_sensitive_for_other_scripts() {
    let quran = corpus(&[("Latin", &["Hello World", "hello world"])]);
    let mut search = QuranSearch::new(&quran);
    assert_eq!(search.search("Hello"), vec![hit("Latin", 1, "Hello World")]);
    assert_eq!(search.search("hello"), vec![hit("Latin", 2, "hello world")]);
    assert_eq!(search.search("ello"), vec![hit("Latin", 1, "Hello World"), hit("Latin", 2, "hello world")]);
}

#[test]
fn search_for_the_empty_term_returns_every_verse_in_order() {
    let quran = create_test_quran();
    let mut search = QuranSearch::new(&quran);
    let results = search.search("");
    let mut expected = Vec::new();
    for (at, text) in OPENING.iter().enumerate() {
        expected.push(hit(CHAPTER_NAMES[0], at + 1, text));
    }
    expected.push(hit(CHAPTER_NAMES[26], 30, LETTER_OF_SOLOMON));
    for (at, text) in SINCERITY.iter().enumerate() {
        expected.push(hit(CHAPTER_NAMES[111], at + 1, text));
    }
    assert_eq!(results, expected);
    assert_eq!(results.len(), quran.ayas().len());
}

#[test]
fn search_for_a_term_of_marks_only_returns_every_verse() {
    // The normal form of such a term is empty.
    let quran = create_test_quran();
    let mut search = QuranSearch::new(&quran);
    assert_eq!(search.search("\u{064E}\u{0651}").len(), 12);
}

#[test]
fn search_in_a_chapter_is_part_of_the_search_in_the_corpus() {
    let quran = create_test_quran();
    let mut search = QuranSearch::new(&quran);
    for term in ["الله", "", "الرحمن", "لم", "zzz"] {
        let whole = search.search(term);
        for number in 1..=114 {
            let part = search.search_surah(term, number);
            for result in &part {
                assert!(whole.contains(result), "{:?} in chapter {}", term, number);
            }
        }
    }
}

#[test]
fn search_surah_gives_the_matches_of_that_chapter() {
    let quran = create_test_quran();
    let mut search = QuranSearch::new(&quran);
    assert_eq!(search.search_surah("الله", 1), vec![hit(CHAPTER_NAMES[0], 1, OPENING[0])]);
    assert_eq!(
        search.search_surah("الله", 112),
        vec![hit(CHAPTER_NAMES[111], 1, SINCERITY[0]), hit(CHAPTER_NAMES[111], 2, SINCERITY[1])]
    );
    assert_eq!(search.search_surah("الله", 2), Vec::new());
}

#[test]
fn search_surah_without_such_a_chapter_finds_nothing() {
    let quran = create_test_quran();
    let mut search = QuranSearch::new(&quran);
    assert_eq!(search.search_surah("الله", 0), Vec::new());
    assert_eq!(search.search_surah("الله", 115), Vec::new());
    assert_eq!(search.search_surah("", usize::MAX), Vec::new());
}

#[test]
fn search_range_on_a_term_without_match_is_empty() {
    let quran = create_test_quran();
    let mut search = QuranSearch::new(&quran);
    assert_eq!(search.search_range(0, 0, "zzz"), Vec::new());
}

#[test]
fn search_range_with_the_end_below_the_start_is_empty() {
    let quran = create_test_quran();
    let mut search = QuranSearch::new(&quran);
    assert_eq!(search.search_range(1, 0, ""), Vec::new());
    assert_eq!(search.search_range(5, 2, "الله"), Vec::new());
    assert_eq!(search.search_range(usize::MAX, 0, ""), Vec::new());
}

#[test]
fn search_range_takes_both_ends_in() {
    let quran = create_test_quran();
    let mut search = QuranSearch::new(&quran);
    assert_eq!(search.search_range(0, 0, "الله"), vec![hit(CHAPTER_NAMES[0], 1, OPENING[0])]);
    assert_eq!(
        search.search_range(2, 3, ""),
        vec![hit(CHAPTER_NAMES[0], 3, OPENING[2]), hit(CHAPTER_NAMES[0], 4, OPENING[3])]
    );
    // The window runs across chapters: position 7 is verse 30 of chapter 27.
    assert_eq!(
        search.search_range(6, 8, ""),
        vec![
            hit(CHAPTER_NAMES[0], 7, OPENING[6]),
            hit(CHAPTER_NAMES[26], 30, LETTER_OF_SOLOMON),
            hit(CHAPTER_NAMES[111], 1, SINCERITY[0]),
        ]
    );
}

#[test]
fn search_range_never_leaves_its_window() {
    let quran = create_test_quran();
    let mut search = QuranSearch::new(&quran);
    let all = search.search("");
    for start in 0..14 {
        for end in 0..14 {
            let results = search.search_range(start, end, "");
            let expected: Vec<(String, usize, String)> = all
                .iter()
                .enumerate()
                .filter(|(at, _)| start <= *at && *at <= end)
                .map(|(_, result)| result.clone())
                .collect();
            assert_eq!(results, expected, "{}..={}", start, end);
        }
    }
}

#[test]
fn search_range_ends_at_the_last_verse() {
    let quran = create_test_quran();
    let mut search = QuranSearch::new(&quran);
    assert_eq!(search.search_range(0, usize::MAX, "").len(), 12);
    assert_eq!(search.search_range(11, 500, ""), vec![hit(CHAPTER_NAMES[111], 4, SINCERITY[3])]);
    assert_eq!(search.search_range(12, 500, ""), Vec::new());
    assert_eq!(search.search_range(0, usize::MAX, "الله").len(), 4);
}

#[test]
fn search_multiple_terms_joins_the_searches() {
    let quran = create_test_quran();
    let mut search = QuranSearch::new(&quran);
    let first = search.search("الله");
    let second = search.search("الرحيم");
    let both = search.search_multiple_terms(vec!["الله", "الرحيم"]);
    let mut expected = first.clone();
    expected.extend(second.clone());
    assert_eq!(both, expected);
    // The first verse matches both terms and stands twice.
    let opening = hit(CHAPTER_NAMES[0], 1, OPENING[0]);
    assert_eq!(both.iter().filter(|result| **result == opening).count(), 2);
    assert_eq!(search.search_multiple_terms(Vec::new()), Vec::new());
    assert_eq!(search.search_multiple_terms(vec!["الله", "الله"]).len(), 2 * first.len());
}

#[test]
fn one_chapter_of_two_verses() {
    let quran = corpus(&[("Test", &["بِسْمِ اللَّهِ", "اللَّه أكبر"])]);
    let mut search = QuranSearch::new(&quran);
    assert_eq!(
        search.search("الله"),
        vec![hit("Test", 1, "بِسْمِ اللَّهِ"), hit("Test", 2, "اللَّه أكبر")]
    );
    let summary = Analyzer::new(&quran);
    assert_eq!(summary.total_ayahs, 2);
    assert_eq!(summary.longest_surah_name, "Test");
    assert_eq!(summary.shortest_surah_name, "Test");
    assert_eq!(summary.total_surahs, 1);
    let summary = Summary::new(quran, "الله");
    assert_eq!(summary.total_ayahs, 2);
    assert_eq!(summary.longest_surah_name, "Test");
    assert_eq!(summary.shortest_surah_name, "Test");
    assert_eq!(
        summary.search_results,
        vec![
            ("Test".to_string(), "بِسْمِ اللَّهِ".to_string()),
            ("Test".to_string(), "اللَّه أكبر".to_string())
        ]
    );
}

#[test]
fn concordance_of_one_verse() {
    let quran = corpus(&[("Test", &["الله الله الرحمن"])]);
    let mut concordance = Concordance::new(&quran);
    concordance.generate(None, None, None);
    let entries = concordance.entries();
    assert_eq!(entries.len(), 2);
    assert_eq!(entries[0].word, "الله");
    assert_eq!(entries[0].count, 2);
    assert_eq!(
        entries[0].locations,
        vec![
            (1, "Test".to_string(), "الله الله الرحمن".to_string()),
            (1, "Test".to_string(), "الله الله الرحمن".to_string())
        ]
    );
    assert_eq!(entries[1].word, "الرحمن");
    assert_eq!(entries[1].count, 1);
    assert_eq!(entries[1].locations.len(), 1);
    assert_eq!(concordance.total(), 3);
}

#[test]
fn concordance_keeps_the_diacritics_of_its_words() {
    let quran = corpus(&[("Test", &["اللَّه الله اللَّه"])]);
    let mut concordance = Concordance::new(&quran);
    concordance.generate(None, None, None);
    let entries = concordance.entries();
    assert_eq!(entries.len(), 2);
    assert_eq!((entries[0].word.as_str(), entries[0].count), ("اللَّه", 2));
    assert_eq!((entries[1].word.as_str(), entries[1].count), ("الله", 1));
}

#[test]
fn concordance_counts_add_up_to_the_word_count_of_the_statistics() {
    let quran = create_test_quran();
    let mut concordance = Concordance::new(&quran);
    concordance.generate(None, None, None);
    let statistics = Analyzer::new(&quran);
    assert_eq!(statistics.total_words, 52);
    assert_eq!(concordance.total(), 52);
    let counted: usize = concordance.entries().iter().map(|entry| entry.count).sum();
    assert_eq!(counted, statistics.total_words);
    for entry in concordance.entries() {
        assert_eq!(entry.count, entry.locations.len());
    }
}

#[test]
fn concordance_counts_of_a_chapter_add_up_to_its_word_count() {
    let quran = create_test_quran();
    for number in [1, 2, 27, 112] {
        let mut concordance = Concordance::new(&quran);
        concordance.generate(Some(number), None, None);
        let words = quran.surah(number - 1).total_words();
        assert_eq!(concordance.total(), words as u128);
        let counted: usize = concordance.entries().iter().map(|entry| entry.count).sum();
        assert_eq!(counted, words);
    }
    let mut concordance = Concordance::new(&quran);
    concordance.generate(Some(1), Some(1), Some(3));
    assert_eq!(concordance.total(), 6);
}

#[test]
fn concordance_of_a_verse_range() {
    let quran = corpus(&[("One", &["a b", "c", "a d", "e"]), ("Two", &["f a"])]);
    let words = |concordance: &Concordance| -> Vec<(String, usize)> {
        concordance.entries().iter().map(|entry| (entry.word.clone(), entry.count)).collect()
    };
    let pair = |word: &str, count: usize| (word.to_string(), count);

    let mut concordance = Concordance::new(&quran);
    concordance.generate(Some(1), Some(1), Some(3));
    assert_eq!(words(&concordance), vec![pair("c", 1), pair("a", 1), pair("d", 1)]);
    assert_eq!(concordance.entries()[1].locations, vec![(3, "One".to_string(), "a d".to_string())]);

    // Without a start the range begins at the first verse; without an end it
    // runs to the last.
    let mut concordance = Concordance::new(&quran);
    concordance.generate(Some(1), None, Some(1));
    assert_eq!(words(&concordance), vec![pair("a", 1), pair("b", 1)]);
    let mut concordance = Concordance::new(&quran);
    concordance.generate(Some(1), Some(3), None);
    assert_eq!(words(&concordance), vec![pair("e", 1)]);

    // An end behind the last verse stands for the number of verses.
    let mut concordance = Concordance::new(&quran);
    concordance.generate(Some(1), Some(2), Some(100));
    assert_eq!(words(&concordance), vec![pair("a", 1), pair("d", 1), pair("e", 1)]);

    // An end below the start, or a start behind the last verse, leaves nothing.
    let mut concordance = Concordance::new(&quran);
    concordance.generate(Some(1), Some(3), Some(1));
    assert_eq!(words(&concordance), Vec::new());
    concordance.generate(Some(1), Some(2), Some(2));
    assert_eq!(words(&concordance), Vec::new());
    concordance.generate(Some(1), Some(9), None);
    assert_eq!(words(&concordance), Vec::new());
    concordance.generate(Some(1), Some(9), Some(20));
    assert_eq!(words(&concordance), Vec::new());

    // The chapter number counts from 1, and 0 stands for 1.
    let mut concordance = Concordance::new(&quran);
    concordance.generate(Some(2), None, None);
    assert_eq!(words(&concordance), vec![pair("f", 1), pair("a", 1)]);
    assert_eq!(concordance.entries()[0].locations, vec![(1, "Two".to_string(), "f a".to_string())]);
    let mut concordance = Concordance::new(&quran);
    concordance.generate(Some(0), Some(0), Some(1));
    assert_eq!(words(&concordance), vec![pair("a", 1), pair("b", 1)]);

    // A chapter that the corpus lacks gives nothing.
    let mut concordance = Concordance::new(&quran);
    concordance.generate(Some(3), None, None);
    assert_eq!(words(&concordance), Vec::new());
    concordance.generate(Some(usize::MAX), Some(usize::MAX), Some(usize::MAX));
    assert_eq!(words(&concordance), Vec::new());

    // Without a chapter the whole corpus is read, whatever the range.
    let mut concordance = Concordance::new(&quran);
    concordance.generate(None, Some(2), Some(3));
    assert_eq!(
        words(&concordance),
        vec![pair("a", 3), pair("b", 1), pair("c", 1), pair("d", 1), pair("e", 1), pair("f", 1)]
    );
    assert_eq!(
        concordance.entries()[0].locations,
        vec![
            (1, "One".to_string(), "a b".to_string()),
            (3, "One".to_string(), "a d".to_string()),
            (1, "Two".to_string(), "f a".to_string())
        ]
    );
}

#[test]
fn concordance_adds_up_over_calls() {
    let quran = corpus(&[("One", &["a b", "c"]), ("Two", &["b"])]);
    let mut concordance = Concordance::new(&quran);
    assert_eq!(concordance.entries().len(), 0);
    assert_eq!(concordance.total(), 0);
    concordance.generate(Some(2), None, None);
    concordance.generate(None, None, None);
    let words: Vec<(&str, usize)> =
        concordance.entries().iter().map(|entry| (entry.word.as_str(), entry.count)).collect();
    assert_eq!(words, vec![("b", 3), ("a", 1), ("c", 1)]);
    assert_eq!(concordance.total(), 5);
}

fn cells(row: &[&str]) -> Vec<String> {
    row.iter().map(|cell| cell.to_string()).collect()
}

#[test]
fn report_by_count() {
    let quran = corpus(&[("One", &["b a", "c a b"]), ("Two", &["a"])]);
    let mut concordance = Concordance::new(&quran);
    concordance.generate(None, None, None);
    assert_eq!(concordance.ordering(ReportOrder::ByCount), vec![1, 0, 2]);
    let rows = concordance.report_rows(ReportOrder::ByCount);
    let expected = vec![
        cells(&["الكلمة", "العدد", "رقم الأية", "السورة", "الأية"]),
        cells(&["a", "3", "", ""]),
        cells(&["", "", "1", "One", "b a"]),
        cells(&["", "", "2", "One", "c a b"]),
        cells(&["", "", "1", "Two", "a"]),
        cells(&["b", "2", "", ""]),
        cells(&["", "", "1", "One", "b a"]),
        cells(&["", "", "2", "One", "c a b"]),
        cells(&["c", "1", "", ""]),
        cells(&["", "", "2", "One", "c a b"]),
        cells(&[RULE, RULE, RULE, RULE, RULE]),
        cells(&["العدد الكلى", "6", "", ""]),
    ];
    assert_eq!(rows, expected);
    assert_eq!(RULE, "-".repeat(15));
}

#[test]
fn report_in_alphabetical_order() {
    let quran = corpus(&[("One", &["b a", "c a b", "B ab"])]);
    let mut concordance = Concordance::new(&quran);
    concordance.generate(None, None, None);
    // The entries stand as b, a, c, B, ab.
    assert_eq!(concordance.ordering(ReportOrder::Alphabetical), vec![3, 1, 4, 0, 2]);
    let rows = concordance.report_rows(ReportOrder::Alphabetical);
    let words: Vec<&str> = rows
        .iter()
        .filter(|row| row.len() == 4 && row[0] != "العدد الكلى")
        .map(|row| row[0].as_str())
        .collect();
    assert_eq!(words, vec!["B", "a", "ab", "b", "c"]);
    assert_eq!(rows.last().unwrap(), &cells(&["العدد الكلى", "7", "", ""]));
    assert_eq!(rows.len(), 1 + 5 + 7 + 2);
}

#[test]
fn report_by_count_keeps_equal_counts_in_their_order() {
    let quran = corpus(&[("One", &["d c b a", "x x"])]);
    let mut concordance = Concordance::new(&quran);
    concordance.generate(None, None, None);
    assert_eq!(concordance.ordering(ReportOrder::ByCount), vec![4, 0, 1, 2, 3]);
}

#[test]
fn report_of_an_empty_concordance() {
    let quran = corpus(&[]);
    let concordance = Concordance::new(&quran);
    for order in [ReportOrder::ByCount, ReportOrder::Alphabetical] {
        assert_eq!(concordance.ordering(order), Vec::<usize>::new());
        assert_eq!(
            concordance.report_rows(order),
            vec![
                cells(&["الكلمة", "العدد", "رقم الأية", "السورة", "الأية"]),
                cells(&[RULE, RULE, RULE, RULE, RULE]),
                cells(&["العدد الكلى", "0", "", ""]),
            ]
        );
    }
}

#[test]
fn report_in_a_given_order() {
    let quran = corpus(&[("One", &["b a"])]);
    let mut concordance = Concordance::new(&quran);
    concordance.generate(None, None, None);
    let rows = concordance.report_in_order(&vec![1, 1]);
    assert_eq!(rows.len(), 1 + 4 + 2);
    assert_eq!(rows[1], cells(&["a", "1", "", ""]));
    assert_eq!(rows[3], cells(&["a", "1", "", ""]));
}

#[test]
fn statistics_of_a_small_corpus() {
    let quran = corpus(&[
        ("First", &["ab cd", "e"]),
        ("Second", &["abcde fgh ij", "ab ab"]),
        ("Third", &["x"]),
    ]);
    let statistics = Analyzer::new(&quran);
    assert_eq!(statistics.total_surahs, 3);
    assert_eq!(statistics.total_ayahs, 5);
    // Letters count every character, spaces too: 5 + 1, 12 + 5, 1.
    assert_eq!(statistics.total_letters, 24);
    assert_eq!(statistics.total_words, 9);
    assert_eq!(statistics.average_letters_per_surah, 8);
    assert_eq!(statistics.average_words_per_surah, 3);
    assert_eq!(statistics.longest_surah_name, "Second");
    assert_eq!(statistics.longest_surah_letters, 17);
    assert_eq!(statistics.shortest_surah_name, "Third");
    assert_eq!(statistics.shortest_surah_letters, 1);
    assert_eq!(statistics.most_common_word, Some(("ab".to_string(), 3)));
}

#[test]
fn averages_are_rounded_down() {
    let quran = corpus(&[("One", &["abc de"]), ("Two", &["f"]), ("Three", &["g h i"])]);
    let statistics = Analyzer::new(&quran);
    assert_eq!(statistics.total_letters, 12);
    assert_eq!(statistics.total_words, 6);
    assert_eq!(statistics.average_letters_per_surah, 4);
    assert_eq!(statistics.average_words_per_surah, 2);
    let quran = corpus(&[("One", &["abc de"]), ("Two", &["f"])]);
    let statistics = Analyzer::new(&quran);
    assert_eq!(statistics.average_letters_per_surah, 3);
    assert_eq!(statistics.average_words_per_surah, 1);
}

#[test]
fn letters_count_diacritics() {
    let quran = corpus(&[("Test", &["بِسْمِ اللَّهِ"])]);
    let statistics = Analyzer::new(&quran);
    assert_eq!(statistics.total_letters, 14);
    assert_eq!(statistics.total_words, 2);
}

#[test]
fn of_equal_chapters_the_first_is_longest_and_shortest() {
    let quran = corpus(&[("One", &["abc"]), ("Two", &["de", "f"]), ("Three", &["ghi"])]);
    let statistics = Analyzer::new(&quran);
    assert_eq!(statistics.longest_surah_name, "One");
    assert_eq!(statistics.longest_surah_letters, 3);
    assert_eq!(statistics.shortest_surah_name, "One");
    assert_eq!(statistics.shortest_surah_letters, 3);
    let quran = corpus(&[("One", &["abcd"]), ("Two", &["de"]), ("Three", &["fg"]), ("Four", &["hijk"])]);
    let statistics = Analyzer::new(&quran);
    assert_eq!(statistics.longest_surah_name, "One");
    assert_eq!(statistics.shortest_surah_name, "Two");
}

#[test]
fn chapters_without_letters_have_no_longest() {
    let quran = corpus(&[("One", &[]), ("Two", &[""])]);
    let statistics = Analyzer::new(&quran);
    assert_eq!(statistics.total_surahs, 2);
    assert_eq!(statistics.total_ayahs, 1);
    assert_eq!(statistics.total_letters, 0);
    assert_eq!(statistics.longest_surah_name, "");
    assert_eq!(statistics.longest_surah_letters, 0);
    assert_eq!(statistics.shortest_surah_name, "One");
    assert_eq!(statistics.shortest_surah_letters, 0);
    assert_eq!(statistics.most_common_word, None);
    assert_eq!(statistics.average_letters_per_surah, 0);
}

#[test]
fn statistics_of_a_corpus_without_chapters() {
    let quran = Quran::new("[]").unwrap();
    assert!(Analyzer::fits(&quran));
    let statistics = Analyzer::new(&quran);
    assert_eq!(statistics.total_surahs, 0);
    assert_eq!(statistics.total_ayahs, 0);
    assert_eq!(statistics.total_letters, 0);
    assert_eq!(statistics.total_words, 0);
    assert_eq!(statistics.average_letters_per_surah, 0);
    assert_eq!(statistics.average_words_per_surah, 0);
    assert_eq!(statistics.longest_surah_name, "");
    assert_eq!(statistics.longest_surah_letters, 0);
    assert_eq!(statistics.shortest_surah_name, "");
    assert_eq!(statistics.shortest_surah_letters, 0);
    assert_eq!(statistics.most_common_word, None);
    let summary = Summary::new(quran, "x");
    assert_eq!(summary.total_surahs, 0);
    assert_eq!(summary.shortest_surah_letters, 0);
    assert_eq!(summary.search_results, Vec::new());
}

#[test]
fn most_common_word_ignores_case_and_keeps_diacritics() {
    let quran = corpus(&[("Test", &["Hello world hello", "WORLD HELLO x"])]);
    let statistics = Analyzer::new(&quran);
    assert_eq!(statistics.most_common_word, Some(("hello".to_string(), 3)));
    assert_eq!(
        lowered_words(&quran),
        vec!["hello", "world", "hello", "world", "hello", "x"]
    );
    // Words that differ in a diacritic are different words.
    let quran = corpus(&[("Test", &["اللَّه الله اللَّه الله الله"])]);
    let statistics = Analyzer::new(&quran);
    assert_eq!(statistics.most_common_word, Some(("الله".to_string(), 3)));
}

#[test]
fn of_equally_common_words_the_first_wins() {
    let quran = corpus(&[("Test", &["b a c", "c a b"])]);
    let statistics = Analyzer::new(&quran);
    assert_eq!(statistics.most_common_word, Some(("b".to_string(), 2)));
    let quran = corpus(&[("Test", &["z y y z x x x"])]);
    let statistics = Analyzer::new(&quran);
    assert_eq!(statistics.most_common_word, Some(("x".to_string(), 3)));
    let words: Vec<String> = ["q", "p", "p", "q"].iter().map(|w| w.to_string()).collect();
    assert_eq!(most_common(&words), Some(("q".to_string(), 2)));
    assert_eq!(most_common(&Vec::new()), None);
}

#[test]
fn statistics_of_the_abridged_corpus() {
    let quran = create_test_quran();
    assert!(Analyzer::fits(&quran));
    let statistics = Analyzer::new(&quran);
    assert_eq!(statistics.total_surahs, 114);
    assert_eq!(statistics.total_ayahs, 12);
    assert_eq!(statistics.total_letters, 457);
    assert_eq!(statistics.total_words, 52);
    assert_eq!(statistics.average_letters_per_surah, 4);
    assert_eq!(statistics.average_words_per_surah, 0);
    assert_eq!(statistics.longest_surah_name, CHAPTER_NAMES[0]);
    assert_eq!(statistics.longest_surah_letters, 284);
    assert_eq!(statistics.shortest_surah_name, CHAPTER_NAMES[1]);
    assert_eq!(statistics.shortest_surah_letters, 0);
}

#[test]
fn checked_statistics_are_the_statistics() {
    let quran = create_test_quran();
    assert!(Analyzer::fits(&quran));
    let statistics = Analyzer::try_new(&quran).unwrap();
    assert_eq!(statistics.total_surahs, 114);
    assert_eq!(statistics.total_words, 52);
    assert_eq!(statistics.rows(), Analyzer::new(&quran).rows());
    let summary = Summary::try_new(quran, "الله").unwrap();
    assert_eq!(summary.total_ayahs, 12);
    assert_eq!(summary.search_results.len(), 4);
}

#[test]
fn summary_holds_statistics_and_search_results() {
    let quran = create_test_quran();
    let summary = Summary::new(quran, "الله");
    assert_eq!(summary.total_surahs, 114);
    assert_eq!(summary.total_ayahs, 12);
    assert_eq!(summary.total_words, 52);
    assert_eq!(
        summary.search_results,
        vec![
            (CHAPTER_NAMES[0].to_string(), OPENING[0].to_string()),
            (CHAPTER_NAMES[26].to_string(), LETTER_OF_SOLOMON.to_string()),
            (CHAPTER_NAMES[111].to_string(), SINCERITY[0].to_string()),
            (CHAPTER_NAMES[111].to_string(), SINCERITY[1].to_string()),
        ]
    );
}

fn pairs(rows: &[(&str, &str)]) -> Vec<(String, String)> {
    rows.iter().map(|(label, value)| (label.to_string(), value.to_string())).collect()
}

#[test]
fn rows_of_the_statistics() {
    let quran = corpus(&[("First", &["ab cd", "e"]), ("Second", &["abcde fgh ij", "ab ab"])]);
    let statistics = Analyzer::new(&quran);
    let expected = pairs(&[
        ("Total Surahs", "2"),
        ("Total Ayahs", "4"),
        ("Average Letters per Surah", "11"),
        ("Average Words per Surah", "4"),
        ("Longest Surah Name", "Second"),
        ("Longest Surah Letters", "17"),
        ("Shortest Surah Name", "First"),
        ("Shortest Surah Letters", "6"),
        ("Most Common Word", "ab "),
        ("Most Common Word Occurrences", "3"),
    ]);
    assert_eq!(statistics.rows(), expected);
    let summary = Summary::new(quran, "");
    assert_eq!(summary.rows(), expected);
}

#[test]
fn rows_without_a_most_common_word() {
    let quran = Quran::new("[]").unwrap();
    let rows = Analyzer::new(&quran).rows();
    assert_eq!(rows.len(), 8);
    assert_eq!(rows[0], ("Total Surahs".to_string(), "0".to_string()));
    assert_eq!(rows[7], ("Shortest Surah Letters".to_string(), "0".to_string()));
}

#[test]
fn report_on_the_search_results() {
    let quran = corpus(&[("First", &["ab cd", "e"]), ("Second", &["ab"])]);
    let summary = Summary::new(quran, "ab");
    assert_eq!(
        summary.search_report(),
        vec!["Search Results:", "Surah: First", "Ayah: ab cd", "---", "Surah: Second", "Ayah: ab", "---", "2"]
    );
    let quran = corpus(&[("First", &["ab cd", "e"])]);
    let summary = Summary::new(quran, "zzz");
    assert_eq!(summary.search_report(), vec!["Search Results:", "No matching results found.", "0"]);
}

#[test]
fn a_document_that_is_no_json_is_rejected_with_its_place() {
    for text in ["", "[", "{\"id\": }", "[1, 2,]", "nonsense", "[] []"] {
        let detail = json_error(Quran::new(text));
        assert!(detail.starts_with("../../data/quran.json: "), "{:?}: {}", text, detail);
        assert!(detail.len() > "../../data/quran.json: ".len());
    }
    assert_eq!(QURAN_FILE_PATH, "../../data/quran.json");
    assert_eq!(
        json_error(Quran::new("[")),
        "../../data/quran.json: EOF while parsing a list at line 1 column 1"
    );
}

#[test]
fn a_document_that_is_no_array_is_rejected() {
    for text in ["{}", "null", "true", "1", "\"text\"", "{\"surahs\": []}"] {
        assert_eq!(json_error(Quran::new(text)), "Invalid JSON structure", "{:?}", text);
    }
}

#[test]
fn a_record_without_a_required_field_is_rejected() {
    let chapter = |fields: &str| format!("[{{{}}}]", fields);
    let cases = [
        ("\"name\": \"n\", \"total_verses\": 1, \"verses\": []", "Invalid surah id"),
        ("\"id\": \"1\", \"name\": \"n\", \"total_verses\": 1, \"verses\": []", "Invalid surah id"),
        ("\"id\": -1, \"name\": \"n\", \"total_verses\": 1, \"verses\": []", "Invalid surah id"),
        ("\"id\": 1.5, \"name\": \"n\", \"total_verses\": 1, \"verses\": []", "Invalid surah id"),
        ("\"id\": null, \"name\": \"n\", \"total_verses\": 1, \"verses\": []", "Invalid surah id"),
        ("\"id\": 1, \"total_verses\": 1, \"verses\": []", "Invalid surah name"),
        ("\"id\": 1, \"name\": 7, \"total_verses\": 1, \"verses\": []", "Invalid surah name"),
        ("\"id\": 1, \"name\": \"n\", \"verses\": []", "Invalid total verses"),
        ("\"id\": 1, \"name\": \"n\", \"total_verses\": \"1\", \"verses\": []", "Invalid total verses"),
        ("\"id\": 1, \"name\": \"n\", \"total_verses\": 1", "Invalid verses"),
        ("\"id\": 1, \"name\": \"n\", \"total_verses\": 1, \"verses\": {}", "Invalid verses"),
        ("\"id\": 1, \"name\": \"n\", \"total_verses\": 1, \"verses\": [{\"text\": \"t\"}]", "Invalid ayah id"),
        ("\"id\": 1, \"name\": \"n\", \"total_verses\": 1, \"verses\": [7]", "Invalid ayah id"),
        ("\"id\": 1, \"name\": \"n\", \"total_verses\": 1, \"verses\": [{\"id\": 1}]", "Invalid ayah text"),
        ("\"id\": 1, \"name\": \"n\", \"total_verses\": 1, \"verses\": [{\"id\": 1, \"text\": 5}]", "Invalid ayah text"),
        ("", "Invalid surah id"),
    ];
    for (fields, expected) in cases {
        assert_eq!(json_error(Quran::new(&chapter(fields))), expected, "{}", fields);
    }
    assert_eq!(json_error(Quran::new("[5]")), "Invalid surah id");
    assert_eq!(json_error(Quran::new("[[]]")), "Invalid surah id");
}

#[test]
fn the_first_failure_is_reported() {
    // The chapter's own fields are read before its verses, and chapters
    // and verses in their order.
    let text = "[{\"id\": 1, \"name\": \"n\", \"total_verses\": 1, \"verses\": [{\"id\": 1, \"text\": \"t\"}, {\"id\": 2}, {\"text\": \"t\"}]}, {\"name\": \"m\"}]";
    assert_eq!(json_error(Quran::new(text)), "Invalid ayah text");
    let text = "[{\"id\": 1, \"name\": \"n\", \"verses\": [{\"id\": 2}]}]";
    assert_eq!(json_error(Quran::new(text)), "Invalid total verses");
    let text = "[{\"id\": 1, \"name\": \"n\", \"total_verses\": 1, \"verses\": []}, {\"id\": 2}, {}]";
    assert_eq!(json_error(Quran::new(text)), "Invalid surah name");
}

#[test]
fn messages_of_the_errors() {
    let error = QuranError::FileOpenError("data/quran.json".to_string());
    assert_eq!(error.message(), "failed to open file: data/quran.json");
    let error = QuranError::JsonError("Invalid surah id".to_string());
    assert_eq!(error.message(), "failed to parse JSON: Invalid surah id");
    match Quran::new("{}") {
        Err(error) => assert_eq!(error.message(), "failed to parse JSON: Invalid JSON structure"),
        Ok(_) => panic!("the document was accepted"),
    }
}

#[test]
fn numbers_are_kept_in_32_bits() {
    let text = "[{\"id\": 4294967297, \"name\": \"n\", \"total_verses\": 4294967296, \"verses\": [{\"id\": 4294967299, \"text\": \"t\"}, {\"id\": 18446744073709551615, \"text\": \"u\"}]}]";
    let quran = Quran::new(text).unwrap();
    let verses = quran.surah(0).ayas();
    assert_eq!(verses[0].number(), 3);
    assert_eq!(verses[1].number(), 4294967295);
    assert_eq!(json_error(Quran::new("[{\"id\": 18446744073709551616}]")), "Invalid surah id");
}

#[test]
fn the_declared_verse_count_is_not_enforced() {
    let quran = create_test_quran();
    assert_eq!(quran.surah(1).total_ayahs(), 0);
    assert_eq!(quran.surah(0).total_ayahs(), 7);
    assert_eq!(quran.surah(26).total_ayahs(), 1);
}

#[test]
fn later_members_of_a_record_replace_earlier_ones() {
    let text = "[{\"id\": 1, \"name\": \"first\", \"name\": \"second\", \"total_verses\": 0, \"verses\": []}]";
    let quran = Quran::new(text).unwrap();
    assert_eq!(quran.surah(0).name(), "second");
}

#[test]
fn parse_surahs_reads_a_parsed_document() {
    let text = |s: &str| Json::Text(s.to_string());
    let key = |s: &str| s.to_string();
    let verse = Json::Object(vec![(key("id"), Json::Number(Some(5))), (key("text"), text("a b"))]);
    let chapter = Json::Object(vec![
        (key("id"), Json::Number(Some(9))),
        (key("name"), text("Nine")),
        (key("total_verses"), Json::Number(Some(1))),
        (key("verses"), Json::Array(vec![verse])),
    ]);
    let surahs = Quran::parse_surahs(Json::Array(vec![chapter])).unwrap();
    assert_eq!(surahs.len(), 1);
    assert_eq!(surahs[0].name(), "Nine");
    assert_eq!(surahs[0].total_ayahs(), 1);
    let verse = &surahs[0].ayas()[0];
    assert_eq!(verse.number(), 5);
    assert_eq!(verse.text(), "a b");
    assert_eq!(verse.surah_name(), "Nine");

    assert_eq!(Quran::parse_surahs(Json::Array(Vec::new())).unwrap().len(), 0);
    let detail = |document: Json| match Quran::parse_surahs(document) {
        Err(QuranError::JsonError(detail)) => detail,
        _ => panic!("no parse error"),
    };
    assert_eq!(detail(Json::Null), "Invalid JSON structure");
    assert_eq!(detail(Json::Object(Vec::new())), "Invalid JSON structure");
    assert_eq!(detail(Json::Array(vec![Json::Null])), "Invalid surah id");
    assert_eq!(
        detail(Json::Array(vec![Json::Object(vec![(key("id"), Json::Number(None))])])),
        "Invalid surah id"
    );
    assert_eq!(
        detail(Json::Array(vec![Json::Object(vec![(key("id"), Json::Number(Some(1)))])])),
        "Invalid surah name"
    );
    assert_eq!(
        detail(Json::Array(vec![Json::Object(vec![
            (key("id"), Json::Number(Some(1))),
            (key("name"), Json::Bool(true))
        ])])),
        "Invalid surah name"
    );
}

#[test]
fn parse_json_gives_the_parsed_value() {
    let parsed = parse_json("{\"b\": 1, \"a\": [true, null, \"x\", -1, 1.5, 18446744073709551615], \"c\": {}}").unwrap();
    assert_eq!(
        format!("{:?}", parsed),
        "Object([(\"a\", Array([Bool(true), Null, Text(\"x\"), Number(None), Number(None), Number(Some(18446744073709551615))])), (\"b\", Number(Some(1))), (\"c\", Object([]))])"
    );
    assert_eq!(format!("{:?}", parse_json(" 7 ").unwrap()), "Number(Some(7))");
    assert_eq!(format!("{:?}", parse_json("\"\\u0627\"").unwrap()), "Text(\"\u{0627}\")");
    assert!(parse_json("").is_err());
    assert!(parse_json("[1,]").is_err());
    assert_eq!(parse_json("{\"a\" 1}").unwrap_err().to_string(), "expected `:` at line 1 column 6");
}

#[test]
fn json_values_are_read_by_key_and_kind() {
    let object = Json::Object(vec![
        ("n".to_string(), Json::Number(Some(3))),
        ("s".to_string(), Json::Text("x".to_string())),
        ("a".to_string(), Json::Array(vec![Json::Null, Json::Bool(false)])),
        ("n".to_string(), Json::Number(Some(4))),
    ]);
    assert_eq!(object.member_u64("n"), Some(3));
    assert_eq!(object.member_u64("s"), None);
    assert_eq!(object.member_u64("missing"), None);
    assert_eq!(object.member_str("s"), Some("x"));
    assert_eq!(object.member_str("n"), None);
    assert_eq!(object.member_array("a").map(|items| items.len()), Some(2));
    assert!(object.member_array("s").is_none());
    assert!(object.get("missing").is_none());
    assert!(matches!(object.get("s"), Some(Json::Text(_))));
    assert!(Json::Null.get("n").is_none());
    assert_eq!(Json::Number(Some(8)).as_u64(), Some(8));
    assert_eq!(Json::Number(None).as_u64(), None);
    assert_eq!(Json::Text("8".to_string()).as_u64(), None);
    assert_eq!(Json::Text("8".to_string()).as_str(), Some("8"));
    assert_eq!(Json::Bool(true).as_str(), None);
    assert!(Json::Array(Vec::new()).as_array().is_some());
    assert!(Json::Object(Vec::new()).as_array().is_none());
}

#[test]
fn corpus_gives_chapters_and_verses_in_order() {
    let quran = create_test_quran();
    let surahs = quran.surahs();
    assert_eq!(surahs.len(), 114);
    for (at, surah) in surahs.iter().enumerate() {
        assert_eq!(surah.name(), CHAPTER_NAMES[at]);
    }
    assert_eq!(quran.surah(111).name(), CHAPTER_NAMES[111]);
    let verses = quran.ayas();
    assert_eq!(verses.len(), 12);
    let numbers: Vec<usize> = verses.iter().map(|verse| verse.number()).collect();
    assert_eq!(numbers, vec![1, 2, 3, 4, 5, 6, 7, 30, 1, 2, 3, 4]);
    assert_eq!(verses[7].text(), LETTER_OF_SOLOMON);
    assert_eq!(verses[7].surah_name(), CHAPTER_NAMES[26]);
    assert_eq!(verses[8].text(), SINCERITY[0]);
}

#[test]
fn chapter_gives_its_verses_and_counts() {
    let quran = create_test_quran();
    let surah = quran.surah(0);
    assert_eq!(surah.name(), CHAPTER_NAMES[0]);
    assert_eq!(surah.total_ayahs(), 7);
    assert_eq!(surah.ayas().len(), 7);
    assert_eq!(surah.total_letters(), 284);
    assert_eq!(surah.total_words(), 29);
    assert_eq!(quran.surah(1).total_letters(), 0);
    assert_eq!(quran.surah(1).total_words(), 0);
}

#[test]
fn verse_gives_its_text_and_words() {
    let quran = create_test_quran();
    let verse = &quran.surah(0).ayas()[0];
    assert_eq!(verse.text(), OPENING[0]);
    assert_eq!(verse.surah_name(), CHAPTER_NAMES[0]);
    assert_eq!(verse.number(), 1);
    assert_eq!(verse.words(), vec!["بِسْمِ", "اللَّهِ", "الرَّحْمَٰنِ", "الرَّحِيمِ"]);
    assert_eq!(verse.total_words(), 4);
    assert_eq!(verse.total_letters(), 38);
    assert!(verse.contains_word("الله"));
    assert!(verse.contains_word("اللَّهِ"));
    assert!(verse.contains_word("سم الله الر"));
    assert!(verse.contains_word(""));
    assert!(!verse.contains_word("لله ال رحمن"));
    assert!(!verse.contains_word("الحمد"));
}

#[test]
fn words_of_a_verse_with_stray_whitespace() {
    let quran = corpus(&[("Test", &["  a \\t b\\n c  ", "", "   "])]);
    let verses = quran.surah(0).ayas();
    assert_eq!(verses[0].text(), "  a \t b\n c  ");
    assert_eq!(verses[0].words(), vec!["a", "b", "c"]);
    assert_eq!(verses[0].total_words(), 3);
    assert_eq!(verses[0].total_letters(), 12);
    assert_eq!(verses[1].words(), Vec::<&str>::new());
    assert_eq!(verses[2].total_words(), 0);
    assert_eq!(verses[2].total_letters(), 3);
}
