//! Diacritic handling for Arabic text: the vocalization marks (tashkeel) and
//! the normalization that search uses to compare texts.

use crate::seqs::lemma_filter_keeps_all;
use crate::text::{chars_of, string_of};
use vstd::prelude::*;

verus! {

/// Fathatan, the doubled fatha.
pub const FATHATAN: char = '\u{064B}';

/// Dammatan, the doubled damma.
pub const DAMMATAN: char = '\u{064C}';

/// Kasratan, the doubled kasra.
pub const KASRATAN: char = '\u{064D}';

/// Fatha.
pub const FATHA: char = '\u{064E}';

/// Damma.
pub const DAMMA: char = '\u{064F}';

/// Kasra.
pub const KASRA: char = '\u{0650}';

/// Shadda, the mark of a doubled consonant.
pub const SHADDA: char = '\u{0651}';

/// Sukun, the mark of a consonant without vowel.
pub const SUKUN: char = '\u{0652}';

/// Alef with wasla above, an orthographic variant of the plain alef.
pub const ALEF_WASLA: char = '\u{0671}';

/// The plain alef.
pub const ALEF: char = '\u{0627}';

/// Whether `c` is one of the eight vocalization marks.
pub open spec fn tashkeel(c: char) -> bool {
    c == FATHATAN || c == DAMMATAN || c == KASRATAN || c == FATHA || c == DAMMA || c == KASRA
        || c == SUKUN || c == SHADDA
}

/// The test that keeps every character but the vocalization marks.
pub open spec fn not_tashkeel() -> spec_fn(char) -> bool {
    |c: char| !tashkeel(c)
}

/// `s` without its vocalization marks.
pub open spec fn without_tashkeel(s: Seq<char>) -> Seq<char> {
    s.filter(not_tashkeel())
}

/// `s` with every `from` turned into `to`.
pub open spec fn replaced(s: Seq<char>, from: char, to: char) -> Seq<char> {
    s.map_values(
        |c: char|
            if c == from {
                to
            } else {
                c
            },
    )
}

/// Whether normalization removes `c`: the vocalization marks and the other
/// combining marks after them, the superscript alef, the small high and low
/// Quranic annotation signs and stop marks, the Arabic-Indic digits in both
/// forms, and the Arabic comma, semicolon and question mark.
pub open spec fn removed(c: char) -> bool {
    let n = c as int;
    ||| n == 0x060C
    ||| n == 0x061B
    ||| n == 0x061F
    ||| 0x064B <= n <= 0x065B
    ||| 0x0660 <= n <= 0x0669
    ||| n == 0x0670
    ||| 0x06D6 <= n <= 0x06DC
    ||| 0x06DF <= n <= 0x06E8
    ||| 0x06EA <= n <= 0x06F9
}

/// The test that keeps the characters that normalization does not remove.
pub open spec fn not_removed() -> spec_fn(char) -> bool {
    |c: char| !removed(c)
}

/// The normal form of `s` under which texts are compared: alef with wasla
/// becomes the plain alef, then every character that [`removed`] names is
/// dropped.
pub open spec fn normalized(s: Seq<char>) -> Seq<char> {
    replaced(s, ALEF_WASLA, ALEF).filter(not_removed())
}

/// Every character of a normal form is one that normalization keeps, and
/// none is the alef with wasla.
pub proof fn lemma_normalized_chars(s: Seq<char>)
    ensures
        forall|i: int|
            0 <= i < normalized(s).len() ==> !removed(#[trigger] normalized(s)[i]) && normalized(
                s,
            )[i] != ALEF_WASLA,
{
    let r = replaced(s, ALEF_WASLA, ALEF);
    let t = normalized(s);
    assert forall|i: int| 0 <= i < t.len() implies !removed(#[trigger] t[i]) && t[i]
        != ALEF_WASLA by {
        r.lemma_filter_pred(not_removed(), i);
        assert(t.contains(t[i]));
        r.lemma_filter_contains_rev(not_removed(), t[i]);
        let j = choose|j: int| 0 <= j < r.len() && r[j] == t[i];
        assert(r[j] != ALEF_WASLA);
    }
}

/// Normalization is idempotent: a normal form is its own normal form.
pub proof fn lemma_normalized_idempotent(s: Seq<char>)
    ensures
        normalized(normalized(s)) == normalized(s),
{
    let t = normalized(s);
    lemma_normalized_chars(s);
    assert(replaced(t, ALEF_WASLA, ALEF) =~= t);
    lemma_filter_keeps_all(t, not_removed());
}

/// The empty text is its own normal form.
pub proof fn lemma_normalized_empty()
    ensures
        normalized(Seq::<char>::empty()) == Seq::<char>::empty(),
{
    assert(replaced(Seq::<char>::empty(), ALEF_WASLA, ALEF) =~= Seq::<char>::empty());
    lemma_filter_keeps_all(Seq::<char>::empty(), not_removed());
}

/// Removes the vocalization marks from `text`.
pub fn strip_tashkeel(text: &str) -> (stripped: String)
    ensures
        stripped@ == without_tashkeel(text@),
{
    let chars = chars_of(text);
    let mut stripped = String::new();
    let mut i: usize = 0;
    proof {
        reveal(Seq::filter);
    }
    while i < chars.len()
        invariant
            chars@ == text@,
            i <= chars.len(),
            stripped@ == without_tashkeel(chars@.take(i as int)),
        decreases chars.len() - i,
    {
        let c = chars[i];
        proof {
            assert(chars@.take(i + 1) =~= chars@.take(i as int).push(c));
            chars@.take(i as int).lemma_filter_push(c, not_tashkeel());
        }
        if !is_tashkeel(c) {
            stripped.push(c);
        }
        i = i + 1;
    }
    assert(chars@.take(chars.len() as int) =~= chars@);
    stripped
}

/// Whether `word` holds at least one vocalization mark.
pub fn is_vocalized(word: &str) -> (r: bool)
    ensures
        r == exists|i: int| 0 <= i < word@.len() && tashkeel(#[trigger] word@[i]),
{
    let chars = chars_of(word);
    let mut i: usize = 0;
    while i < chars.len()
        invariant
            chars@ == word@,
            i <= chars.len(),
            forall|k: int| 0 <= k < i ==> !tashkeel(#[trigger] chars@[k]),
        decreases chars.len() - i,
    {
        if is_tashkeel(chars[i]) {
            return true;
        }
        i = i + 1;
    }
    false
}

/// Whether `archar` is one of the eight vocalization marks.
pub fn is_tashkeel(archar: char) -> (r: bool)
    ensures
        r == tashkeel(archar),
{
    archar == FATHATAN || archar == DAMMATAN || archar == KASRATAN || archar == FATHA || archar
        == DAMMA || archar == KASRA || archar == SUKUN || archar == SHADDA
}

/// Copies `input`, writing `replace_char` wherever `search_char` stands.
pub fn replace_character(input: &str, search_char: char, replace_char: char) -> (output: String)
    ensures
        output@ == replaced(input@, search_char, replace_char),
{
    let chars = chars_of(input);
    let mut output = String::new();
    let mut i: usize = 0;
    while i < chars.len()
        invariant
            chars@ == input@,
            i <= chars.len(),
            output@ == replaced(chars@.take(i as int), search_char, replace_char),
        decreases chars.len() - i,
    {
        let c = chars[i];
        if c == search_char {
            output.push(replace_char);
        } else {
            output.push(c);
        }
        assert(output@ =~= replaced(chars@.take(i + 1), search_char, replace_char));
        i = i + 1;
    }
    assert(chars@.take(chars.len() as int) =~= chars@);
    output
}

/// Decides [`removed`].
pub fn is_removed(c: char) -> (r: bool)
    ensures
        r == removed(c),
{
    let n: u32 = c as u32;
    n == 0x060C || n == 0x061B || n == 0x061F || (0x064B <= n && n <= 0x065B) || (0x0660 <= n && n
        <= 0x0669) || n == 0x0670 || (0x06D6 <= n && n <= 0x06DC) || (0x06DF <= n && n <= 0x06E8)
        || (0x06EA <= n && n <= 0x06F9)
}

/// The characters of the normal form of `input`.
pub fn normalized_chars(input: &str) -> (output: Vec<char>)
    ensures
        output@ == normalized(input@),
{
    let chars = chars_of(input);
    let mut output: Vec<char> = Vec::new();
    let mut i: usize = 0;
    proof {
        reveal(Seq::filter);
        assert(replaced(chars@.take(0), ALEF_WASLA, ALEF) =~= Seq::<char>::empty());
    }
    while i < chars.len()
        invariant
            chars@ == input@,
            i <= chars.len(),
            output@ == normalized(chars@.take(i as int)),
        decreases chars.len() - i,
    {
        let c = if chars[i] == ALEF_WASLA {
            ALEF
        } else {
            chars[i]
        };
        proof {
            let before = replaced(chars@.take(i as int), ALEF_WASLA, ALEF);
            assert(replaced(chars@.take(i + 1), ALEF_WASLA, ALEF) =~= before.push(c));
            before.lemma_filter_push(c, not_removed());
        }
        if !is_removed(c) {
            output.push(c);
        }
        i = i + 1;
    }
    assert(chars@.take(chars.len() as int) =~= chars@);
    output
}

/// The normal form of `input`: see [`normalized`].
pub fn remove_diacritics(input: &str) -> (output: String)
    ensures
        output@ == normalized(input@),
{
    let chars = normalized_chars(input);
    string_of(&chars)
}

} // verus!
