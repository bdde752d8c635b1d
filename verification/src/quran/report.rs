//! The report of a concordance: its entries in alphabetical order or by
//! falling count, as the rows of a table.

use super::concordance::{
    entry_views, location_views, total_count, Concordance, ConcordanceEntry, EntryView, Location,
};
use crate::text::{chars_of, decimal, decimal_of};
use vstd::prelude::*;

verus! {

/// The order of the entries in a report.
#[derive(Clone, Copy, Debug)]
pub enum ReportOrder {
    /// By word, in the order of the characters' code points.
    Alphabetical,
    /// By falling number of occurrences.
    ByCount,
}

/// The rule that closes the entries of a report: fifteen hyphens.
pub const RULE: &'static str = "---------------";

/// Whether `a` stands before `b` in the dictionary: at the first position
/// where they differ `a` has the smaller code point, or `a` ends there and
/// `b` goes on.
pub open spec fn lex_less(a: Seq<char>, b: Seq<char>) -> bool
    decreases a.len(),
{
    if b.len() == 0 {
        false
    } else if a.len() == 0 {
        true
    } else if a[0] != b[0] {
        (a[0] as int) < (b[0] as int)
    } else {
        lex_less(a.drop_first(), b.drop_first())
    }
}

/// Of two different words one stands before the other.
pub proof fn lemma_lex_total(a: Seq<char>, b: Seq<char>)
    ensures
        a == b || lex_less(a, b) || lex_less(b, a),
    decreases a.len(),
{
    if a.len() == 0 || b.len() == 0 {
        if a.len() == 0 && b.len() == 0 {
            assert(a =~= b);
        }
    } else if a[0] == b[0] {
        lemma_lex_total(a.drop_first(), b.drop_first());
        if a.drop_first() == b.drop_first() {
            assert(a =~= seq![a[0]] + a.drop_first());
            assert(b =~= seq![b[0]] + b.drop_first());
        }
    }
}

/// The dictionary order is transitive.
pub proof fn lemma_lex_transitive(a: Seq<char>, b: Seq<char>, c: Seq<char>)
    requires
        lex_less(a, b),
        lex_less(b, c),
    ensures
        lex_less(a, c),
    decreases a.len(),
{
    if a.len() > 0 && a[0] == b[0] && b[0] == c[0] {
        lemma_lex_transitive(a.drop_first(), b.drop_first(), c.drop_first());
    }
}

/// Of two words at most one stands before the other, and none before
/// itself.
pub proof fn lemma_lex_asymmetric(a: Seq<char>, b: Seq<char>)
    requires
        lex_less(a, b),
    ensures
        !lex_less(b, a),
        a != b,
    decreases a.len(),
{
    if a.len() > 0 && a[0] == b[0] {
        lemma_lex_asymmetric(a.drop_first(), b.drop_first());
    }
}

/// Whether the entry at `i` stands before the entry at `j` in a report in
/// the given order. Entries that the order does not tell apart keep the
/// order in which they stand in the concordance.
pub open spec fn comes_before(entries: Seq<EntryView>, order: ReportOrder, i: int, j: int) -> bool {
    match order {
        ReportOrder::Alphabetical => lex_less(entries[i].word, entries[j].word) || (
        entries[i].word == entries[j].word && i < j),
        ReportOrder::ByCount => entries[i].count > entries[j].count || (entries[i].count
            == entries[j].count && i < j),
    }
}

/// Of two entries one comes before the other.
pub proof fn lemma_comes_before_total(entries: Seq<EntryView>, order: ReportOrder, i: int, j: int)
    requires
        i != j,
    ensures
        comes_before(entries, order, i, j) || comes_before(entries, order, j, i),
{
    lemma_lex_total(entries[i].word, entries[j].word);
}

/// The order of a report is transitive.
pub proof fn lemma_comes_before_transitive(
    entries: Seq<EntryView>,
    order: ReportOrder,
    i: int,
    j: int,
    k: int,
)
    requires
        comes_before(entries, order, i, j),
        comes_before(entries, order, j, k),
    ensures
        comes_before(entries, order, i, k),
{
    if order is Alphabetical {
        let a = entries[i].word;
        let b = entries[j].word;
        let c = entries[k].word;
        if lex_less(a, b) && lex_less(b, c) {
            lemma_lex_transitive(a, b, c);
        }
    }
}

/// Of two entries at most one comes before the other.
pub proof fn lemma_comes_before_asymmetric(
    entries: Seq<EntryView>,
    order: ReportOrder,
    i: int,
    j: int,
)
    requires
        comes_before(entries, order, i, j),
    ensures
        !comes_before(entries, order, j, i),
{
    if order is Alphabetical {
        let a = entries[i].word;
        let b = entries[j].word;
        if lex_less(a, b) {
            lemma_lex_asymmetric(a, b);
        }
        if lex_less(b, a) {
            lemma_lex_asymmetric(b, a);
        }
    }
}

/// Whether `perm` lists the positions of `entries` in the order of a
/// report: every position once, each before all that come after it. There
/// is one such list: see [`lemma_ordering_unique`].
pub open spec fn is_ordering(perm: Seq<usize>, entries: Seq<EntryView>, order: ReportOrder) -> bool {
    &&& perm.len() == entries.len()
    &&& forall|a: int| 0 <= a < perm.len() ==> #[trigger] perm[a] < entries.len()
    &&& forall|a: int, b: int| 0 <= a < b < perm.len() ==> #[trigger] perm[a] != #[trigger] perm[b]
    &&& forall|a: int, b: int|
        0 <= a < b < perm.len() ==> comes_before(
            entries,
            order,
            #[trigger] perm[a] as int,
            #[trigger] perm[b] as int,
        )
}

/// The positions of `entries` in the order of a report: the one list that
/// [`is_ordering`] accepts.
pub open spec fn ordering_of(entries: Seq<EntryView>, order: ReportOrder) -> Seq<usize> {
    choose|perm: Seq<usize>| is_ordering(perm, entries, order)
}

/// A list of `n` different positions below `n` holds every position below
/// `n`.
pub proof fn lemma_ordering_holds(perm: Seq<usize>, n: nat, x: usize) -> (at: int)
    requires
        perm.len() == n,
        forall|a: int| 0 <= a < perm.len() ==> #[trigger] perm[a] < n,
        forall|a: int, b: int| 0 <= a < b < perm.len() ==> #[trigger] perm[a] != #[trigger] perm[b],
        x < n,
    ensures
        0 <= at < perm.len(),
        perm[at] == x,
{
    let values = perm.map_values(|v: usize| v as int);
    assert forall|a: int, b: int|
        0 <= a < values.len() && 0 <= b < values.len() && a != b implies values[a]
        != values[b] by {
        if a < b {
            assert(perm[a] != perm[b]);
        } else {
            assert(perm[b] != perm[a]);
        }
    }
    values.unique_seq_to_set();
    vstd::set_lib::lemma_int_range(0, n as int);
    let all = vstd::set_lib::set_int_range(0, n as int);
    assert forall|v: int| values.to_set().contains(v) implies all.contains(v) by {
        let a = choose|a: int| 0 <= a < values.len() && values[a] == v;
        assert(perm[a] < n);
    }
    assert(values.to_set().subset_of(all));
    vstd::set_lib::lemma_len_subset(values.to_set(), all);
    vstd::set_lib::lemma_subset_equality(values.to_set(), all);
    assert(all.contains(x as int));
    assert(values.to_set().contains(x as int));
    assert(values.contains(x as int));
    let at = choose|at: int| 0 <= at < values.len() && values[at] == x as int;
    assert(values[at] == perm[at] as int);
    at
}

/// For given entries and order there is one ordering: two lists that both
/// are the order of the report are the same list.
pub proof fn lemma_ordering_unique(
    first: Seq<usize>,
    second: Seq<usize>,
    entries: Seq<EntryView>,
    order: ReportOrder,
)
    requires
        is_ordering(first, entries, order),
        is_ordering(second, entries, order),
    ensures
        first == second,
{
    assert forall|a: int| 0 <= a < first.len() implies first[a] == second[a] by {
        lemma_same_up_to(first, second, entries, order, a);
    }
    assert(first =~= second);
}

/// Two orderings of the same entries agree at the position `at` and before
/// it.
proof fn lemma_same_up_to(
    first: Seq<usize>,
    second: Seq<usize>,
    entries: Seq<EntryView>,
    order: ReportOrder,
    at: int,
)
    requires
        is_ordering(first, entries, order),
        is_ordering(second, entries, order),
        0 <= at < first.len(),
    ensures
        forall|a: int| 0 <= a <= at ==> first[a] == second[a],
    decreases at,
{
    if at > 0 {
        lemma_same_up_to(first, second, entries, order, at - 1);
    }
    let x = first[at];
    let y = second[at];
    if x != y {
        let b = lemma_ordering_holds(second, entries.len(), x);
        let c = lemma_ordering_holds(first, entries.len(), y);
        if b < at {
            assert(first[b] == second[b]);
            assert(first[b] != first[at]);
        }
        if c < at {
            assert(first[c] == second[c]);
            assert(second[c] != second[at]);
        }
        assert(at < b && at < c);
        assert(comes_before(entries, order, second[at] as int, second[b] as int));
        assert(comes_before(entries, order, first[at] as int, first[c] as int));
        lemma_comes_before_asymmetric(entries, order, x as int, y as int);
    }
}

/// A row of the report: its cells.
pub type Row = Seq<Seq<char>>;

/// The row of column headings: word, count, verse number, chapter, verse.
pub open spec fn header_row() -> Row {
    seq!["الكلمة"@, "العدد"@, "رقم الأية"@, "السورة"@, "الأية"@]
}

/// The row that opens the entry `e`: its word and its count.
pub open spec fn entry_row(e: EntryView) -> Row {
    seq![e.word, decimal_of(e.count), ""@, ""@]
}

/// The row for one place of a word: verse number, chapter and verse.
pub open spec fn location_row(l: Location) -> Row {
    seq![""@, ""@, decimal_of(l.0), l.1, l.2]
}

/// The rows of the entry `e`: its opening row, then a row for each of its
/// places.
pub open spec fn entry_block(e: EntryView) -> Seq<Row> {
    seq![entry_row(e)] + e.locations.map_values(|l: Location| location_row(l))
}

/// The rows of the entries at the positions `perm`, block after block.
pub open spec fn entry_blocks(entries: Seq<EntryView>, perm: Seq<usize>) -> Seq<Row>
    decreases perm.len(),
{
    if perm.len() == 0 {
        Seq::empty()
    } else {
        entry_blocks(entries, perm.drop_last()) + entry_block(entries[perm.last() as int])
    }
}

/// The row of rules under the entries.
pub open spec fn rule_row() -> Row {
    seq![RULE@, RULE@, RULE@, RULE@, RULE@]
}

/// The closing row: the label of the total and the total of all counts.
pub open spec fn total_row(total: nat) -> Row {
    seq!["العدد الكلى"@, decimal_of(total), ""@, ""@]
}

/// The rows of the report with the entries in the order `perm`: the
/// headings, the entries' blocks, the rule and the total.
pub open spec fn report_of(entries: Seq<EntryView>, perm: Seq<usize>) -> Seq<Row> {
    seq![header_row()] + entry_blocks(entries, perm) + seq![
        rule_row(),
        total_row(total_count(entries)),
    ]
}

/// The views of the cells of a row.
pub open spec fn cell_views(cells: Seq<String>) -> Row {
    cells.map_values(|c: String| c@)
}

/// The views of the rows of a table.
pub open spec fn table_views(rows: Seq<Vec<String>>) -> Seq<Row> {
    rows.map_values(|r: Vec<String>| cell_views(r@))
}

/// Whether `a` has the smaller code point.
fn char_less(a: char, b: char) -> (less: bool)
    ensures
        less == ((a as int) < (b as int)),
{
    (a as u32) < (b as u32)
}

/// Decides [`lex_less`].
pub fn word_less(a: &Vec<char>, b: &Vec<char>) -> (less: bool)
    ensures
        less == lex_less(a@, b@),
{
    let mut k: usize = 0;
    assert(a@.skip(0) =~= a@);
    assert(b@.skip(0) =~= b@);
    while k < a.len() && k < b.len() && a[k] == b[k]
        invariant
            k <= a.len(),
            k <= b.len(),
            lex_less(a@, b@) == lex_less(a@.skip(k as int), b@.skip(k as int)),
        decreases a.len() - k,
    {
        assert(a@.skip(k as int).drop_first() =~= a@.skip(k + 1));
        assert(b@.skip(k as int).drop_first() =~= b@.skip(k + 1));
        k = k + 1;
    }
    if k == b.len() {
        false
    } else if k == a.len() {
        true
    } else {
        char_less(a[k], b[k])
    }
}

/// A row of four cells.
fn row_of_four(first: String, second: String) -> (row: Vec<String>)
    ensures
        cell_views(row@) == seq![first@, second@, ""@, ""@],
{
    let mut row: Vec<String> = Vec::new();
    row.push(first);
    row.push(second);
    row.push("".to_owned());
    row.push("".to_owned());
    assert(cell_views(row@) =~= seq![first@, second@, ""@, ""@]);
    row
}

/// The row for one place of a word: see [`location_row`].
fn row_of_location(location: &(usize, String, String)) -> (row: Vec<String>)
    ensures
        cell_views(row@) == location_row((location.0 as nat, location.1@, location.2@)),
{
    let mut row: Vec<String> = Vec::new();
    row.push("".to_owned());
    row.push("".to_owned());
    row.push(decimal(location.0 as u128));
    row.push(location.1.clone());
    row.push(location.2.clone());
    assert(cell_views(row@) =~= location_row((location.0 as nat, location.1@, location.2@)));
    row
}

impl<'a> Concordance<'a> {
    /// Whether the entry at `i` comes before the entry at `j`: see
    /// [`comes_before`]. `keys` holds the characters of the entries' words.
    fn entry_precedes(
        entries: &Vec<ConcordanceEntry>,
        keys: &Vec<Vec<char>>,
        order: ReportOrder,
        i: usize,
        j: usize,
    ) -> (before: bool)
        requires
            i < entries.len(),
            j < entries.len(),
            keys@.len() == entries@.len(),
            forall|k: int| 0 <= k < keys@.len() ==> (#[trigger] keys@[k])@ == entries@[k].word@,
        ensures
            before == comes_before(entry_views(entries@), order, i as int, j as int),
    {
        match order {
            ReportOrder::Alphabetical => {
                if word_less(&keys[i], &keys[j]) {
                    true
                } else if word_less(&keys[j], &keys[i]) {
                    false
                } else {
                    proof {
                        lemma_lex_total(keys@[i as int]@, keys@[j as int]@);
                    }
                    i < j
                }
            },
            ReportOrder::ByCount => entries[i].count > entries[j].count || (entries[i].count
                == entries[j].count && i < j),
        }
    }

    /// The positions of the entries in the order of a report: see
    /// [`is_ordering`].
    pub fn ordering(&self, order: ReportOrder) -> (perm: Vec<usize>)
        ensures
            is_ordering(perm@, self@, order),
            perm@ == ordering_of(self@, order),
    {
        let entries = self.entries();
        let ghost views = self@;
        let mut keys: Vec<Vec<char>> = Vec::new();
        let mut n: usize = 0;
        while n < entries.len()
            invariant
                n <= entries.len(),
                keys@.len() == n,
                forall|k: int| 0 <= k < n ==> (#[trigger] keys@[k])@ == entries@[k].word@,
            decreases entries.len() - n,
        {
            keys.push(chars_of(entries[n].word.as_str()));
            n = n + 1;
        }
        let mut perm: Vec<usize> = Vec::new();
        let mut i: usize = 0;
        while i < entries.len()
            invariant
                i <= entries.len(),
                views == entry_views(entries@),
                keys@.len() == entries@.len(),
                forall|k: int| 0 <= k < keys@.len() ==> (#[trigger] keys@[k])@ == entries@[k].word@,
                perm@.len() == i,
                forall|a: int| 0 <= a < perm@.len() ==> #[trigger] perm@[a] < i,
                forall|a: int, b: int|
                    0 <= a < b < perm@.len() ==> #[trigger] perm@[a] != #[trigger] perm@[b],
                forall|a: int, b: int|
                    0 <= a < b < perm@.len() ==> comes_before(
                        views,
                        order,
                        #[trigger] perm@[a] as int,
                        #[trigger] perm@[b] as int,
                    ),
            decreases entries.len() - i,
        {
            let mut at: usize = 0;
            while at < perm.len() && !Self::entry_precedes(entries, &keys, order, i, perm[at])
                invariant
                    at <= perm.len(),
                    i < entries.len(),
                    views == entry_views(entries@),
                    keys@.len() == entries@.len(),
                    forall|k: int|
                        0 <= k < keys@.len() ==> (#[trigger] keys@[k])@ == entries@[k].word@,
                    forall|a: int| 0 <= a < perm@.len() ==> #[trigger] perm@[a] < i,
                    forall|a: int|
                        0 <= a < at ==> comes_before(views, order, #[trigger] perm@[a] as int, i as int),
                decreases perm.len() - at,
            {
                proof {
                    lemma_comes_before_total(views, order, i as int, perm@[at as int] as int);
                }
                at = at + 1;
            }
            let ghost held = perm@;
            perm.insert(at, i);
            proof {
                assert forall|a: int, b: int| 0 <= a < b < perm@.len() implies comes_before(
                    views,
                    order,
                    #[trigger] perm@[a] as int,
                    #[trigger] perm@[b] as int,
                ) by {
                    if b < at {
                        assert(perm@[a] == held[a] && perm@[b] == held[b]);
                    } else if b == at {
                        assert(perm@[a] == held[a]);
                    } else if a < at {
                        assert(perm@[a] == held[a] && perm@[b] == held[b - 1]);
                    } else if a == at {
                        assert(perm@[b] == held[b - 1]);
                        if b - 1 > at {
                            assert(comes_before(
                                views,
                                order,
                                held[at as int] as int,
                                held[b - 1] as int,
                            ));
                            lemma_comes_before_transitive(
                                views,
                                order,
                                i as int,
                                held[at as int] as int,
                                held[b - 1] as int,
                            );
                        }
                    } else {
                        assert(perm@[a] == held[a - 1] && perm@[b] == held[b - 1]);
                    }
                }
                assert forall|a: int, b: int| 0 <= a < b < perm@.len() implies #[trigger] perm@[a]
                    != #[trigger] perm@[b] by {
                    if a < at {
                        assert(perm@[a] == held[a]);
                    } else if a > at {
                        assert(perm@[a] == held[a - 1]);
                    }
                    if b < at {
                        assert(perm@[b] == held[b]);
                    } else if b > at {
                        assert(perm@[b] == held[b - 1]);
                    }
                }
                assert forall|a: int| 0 <= a < perm@.len() implies #[trigger] perm@[a] < i + 1 by {
                    if a < at {
                        assert(perm@[a] == held[a]);
                    } else if a > at {
                        assert(perm@[a] == held[a - 1]);
                    }
                }
            }
            i = i + 1;
        }
        proof {
            lemma_ordering_unique(perm@, ordering_of(views, order), views, order);
        }
        perm
    }

    /// The rows of the report with the entries at the positions `perm`, in
    /// that order: see [`report_of`].
    pub fn report_in_order(&self, perm: &Vec<usize>) -> (rows: Vec<Vec<String>>)
        requires
            forall|a: int| 0 <= a < perm@.len() ==> #[trigger] perm@[a] < self@.len(),
        ensures
            table_views(rows@) == report_of(self@, perm@),
    {
        let entries = self.entries();
        let ghost views = self@;
        let mut rows: Vec<Vec<String>> = Vec::new();
        let mut header: Vec<String> = Vec::new();
        header.push("الكلمة".to_owned());
        header.push("العدد".to_owned());
        header.push("رقم الأية".to_owned());
        header.push("السورة".to_owned());
        header.push("الأية".to_owned());
        assert(cell_views(header@) =~= header_row());
        rows.push(header);
        let mut a: usize = 0;
        assert(table_views(rows@) =~= seq![header_row()] + entry_blocks(views, perm@.take(0)));
        while a < perm.len()
            invariant
                a <= perm.len(),
                views == entry_views(entries@),
                forall|k: int| 0 <= k < perm@.len() ==> #[trigger] perm@[k] < views.len(),
                table_views(rows@) == seq![header_row()] + entry_blocks(
                    views,
                    perm@.take(a as int),
                ),
            decreases perm.len() - a,
        {
            let entry = &entries[perm[a]];
            let ghost e = entry@;
            let ghost before = table_views(rows@);
            rows.push(row_of_four(entry.word.clone(), decimal(entry.count as u128)));
            assert(table_views(rows@) =~= before + seq![entry_row(e)]);
            let mut j: usize = 0;
            assert(e.locations.take(0).map_values(|l: Location| location_row(l)) =~= Seq::<
                Row,
            >::empty());
            while j < entry.locations.len()
                invariant
                    j <= entry.locations.len(),
                    e == entry@,
                    table_views(rows@) == before + seq![entry_row(e)] + e.locations.take(
                        j as int,
                    ).map_values(|l: Location| location_row(l)),
                decreases entry.locations.len() - j,
            {
                let ghost held = table_views(rows@);
                rows.push(row_of_location(&entry.locations[j]));
                proof {
                    let l = e.locations[j as int];
                    assert(table_views(rows@) =~= held.push(location_row(l)));
                    assert(e.locations.take(j + 1).map_values(|l: Location| location_row(l))
                        =~= e.locations.take(j as int).map_values(|l: Location| location_row(l)).push(
                        location_row(l),
                    ));
                }
                j = j + 1;
            }
            proof {
                assert(e.locations.take(j as int) =~= e.locations);
                assert(perm@.take(a + 1).drop_last() =~= perm@.take(a as int));
                assert(perm@.take(a + 1).last() == perm@[a as int]);
                assert(table_views(rows@) =~= seq![header_row()] + (entry_blocks(
                    views,
                    perm@.take(a as int),
                ) + entry_block(e)));
            }
            a = a + 1;
        }
        assert(perm@.take(a as int) =~= perm@);
        let mut rule: Vec<String> = Vec::new();
        rule.push(RULE.to_owned());
        rule.push(RULE.to_owned());
        rule.push(RULE.to_owned());
        rule.push(RULE.to_owned());
        rule.push(RULE.to_owned());
        assert(cell_views(rule@) =~= rule_row());
        let ghost held = table_views(rows@);
        rows.push(rule);
        rows.push(row_of_four("العدد الكلى".to_owned(), decimal(self.total())));
        assert(table_views(rows@) =~= held + seq![rule_row(), total_row(total_count(views))]);
        rows
    }

    /// The rows of the report in the given order: the headings, then for
    /// each entry its word and count and a row for each of its places, then
    /// a rule and the total of all counts. See [`report_of`] and
    /// [`is_ordering`].
    pub fn report_rows(&self, order: ReportOrder) -> (rows: Vec<Vec<String>>)
        ensures
            is_ordering(ordering_of(self@, order), self@, order),
            table_views(rows@) == report_of(self@, ordering_of(self@, order)),
    {
        let perm = self.ordering(order);
        self.report_in_order(&perm)
    }
}

} // verus!
