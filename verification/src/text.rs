//! Character-level helpers shared by the analyzers: conversion between
//! strings and character vectors, whitespace tokenization, substring search,
//! decimal rendering and lowercasing.

use vstd::prelude::*;
use vstd::string::StringExecFns;

verus! {

/// `String::push` of the standard library: appends one character to the end
/// of the string and leaves the characters before it unchanged.
pub assume_specification[ String::push ](s: &mut String, c: char)
    ensures
        final(s)@ == old(s)@.push(c),
;

/// What `str::to_lowercase` of the standard library returns for a string with
/// the given characters. The mapping follows the Unicode case tables and is a
/// function of the characters alone.
pub uninterp spec fn lowercase_of(s: Seq<char>) -> Seq<char>;

/// `str::to_lowercase` of the standard library. Nothing is proved of the
/// result; the contract only names it.
#[verifier::external_body]
pub(crate) fn lowercase(s: &str) -> (r: String)
    ensures
        r@ == lowercase_of(s@),
{
    s.to_lowercase()
}

/// The characters of `s`, in order.
pub fn chars_of(s: &str) -> (v: Vec<char>)
    ensures
        v@ == s@,
{
    let mut v: Vec<char> = Vec::new();
    for c in it: s.chars()
        invariant
            it.seq() == s@,
            v@ == it.seq().take(it.index() as int),
    {
        v.push(c);
    }
    v
}

/// The string made of the characters of `v`, in order.
pub fn string_of(v: &Vec<char>) -> (s: String)
    ensures
        s@ == v@,
{
    let mut s = String::new();
    let mut i: usize = 0;
    while i < v.len()
        invariant
            i <= v.len(),
            s@ == v@.take(i as int),
        decreases v.len() - i,
    {
        s.push(v[i]);
        i = i + 1;
    }
    assert(v@.take(v.len() as int) =~= v@);
    s
}

/// Whether `c` separates words: the characters that Unicode gives the
/// property White_Space.
pub open spec fn is_space(c: char) -> bool {
    let n = c as int;
    ||| 0x0009 <= n <= 0x000D
    ||| n == 0x0020
    ||| n == 0x0085
    ||| n == 0x00A0
    ||| n == 0x1680
    ||| 0x2000 <= n <= 0x200A
    ||| n == 0x2028
    ||| n == 0x2029
    ||| n == 0x202F
    ||| n == 0x205F
    ||| n == 0x3000
}

/// Decides [`is_space`].
pub fn is_whitespace(c: char) -> (r: bool)
    ensures
        r == is_space(c),
{
    let n: u32 = c as u32;
    (0x0009 <= n && n <= 0x000D) || n == 0x0020 || n == 0x0085 || n == 0x00A0 || n == 0x1680 || (
    0x2000 <= n && n <= 0x200A) || n == 0x2028 || n == 0x2029 || n == 0x202F || n == 0x205F || n
        == 0x3000
}

/// The whitespace-delimited words of `s`, in order: its maximal runs of
/// characters that are not whitespace. Reading `s` from the left, a
/// whitespace character adds nothing, a character that follows another word
/// character extends the last word, and any other character starts a word.
pub open spec fn words_of(s: Seq<char>) -> Seq<Seq<char>>
    decreases s.len(),
{
    if s.len() == 0 {
        Seq::empty()
    } else {
        let before = words_of(s.drop_last());
        if is_space(s.last()) {
            before
        } else if s.len() >= 2 && !is_space(s[s.len() - 2]) {
            before.drop_last().push(before.last().push(s.last()))
        } else {
            before.push(seq![s.last()])
        }
    }
}

/// Whether `s[from..to]` is a maximal run of word characters as far as `to`:
/// it is not empty, holds no whitespace, and is not preceded by a word
/// character.
pub open spec fn is_word_run(s: Seq<char>, from: int, to: int) -> bool {
    &&& 0 <= from < to <= s.len()
    &&& from > 0 ==> is_space(s[from - 1])
    &&& forall|k: int| from <= k < to ==> !is_space(#[trigger] s[k])
}

/// Reading a maximal run of word characters adds exactly that run as the
/// next word.
pub proof fn lemma_words_run(s: Seq<char>, from: int, to: int)
    requires
        is_word_run(s, from, to),
    ensures
        words_of(s.take(to)) == words_of(s.take(from)).push(s.subrange(from, to)),
    decreases to - from,
{
    let t = s.take(to);
    assert(t.drop_last() =~= s.take(to - 1));
    assert(t.last() == s[to - 1]);
    if to - 1 == from {
        assert(s.subrange(from, to) =~= seq![s[to - 1]]);
        if t.len() >= 2 {
            assert(t[t.len() - 2] == s[from - 1]);
        }
    } else {
        lemma_words_run(s, from, to - 1);
        assert(t[t.len() - 2] == s[to - 2]);
        let before = words_of(s.take(to - 1));
        let start = words_of(s.take(from));
        assert(before.drop_last() =~= start);
        assert(before.last().push(s[to - 1]) =~= s.subrange(from, to));
    }
}

/// Reading a whitespace character adds no word.
pub proof fn lemma_words_space(s: Seq<char>, i: int)
    requires
        0 <= i < s.len(),
        is_space(s[i]),
    ensures
        words_of(s.take(i + 1)) == words_of(s.take(i)),
{
    let t = s.take(i + 1);
    assert(t.drop_last() =~= s.take(i));
    assert(t.last() == s[i]);
}

/// Splits `text` into its whitespace-delimited words, each a slice of `text`.
pub fn split_words<'a>(text: &'a str) -> (words: Vec<&'a str>)
    ensures
        words@.len() == words_of(text@).len(),
        forall|k: int| 0 <= k < words@.len() ==> (#[trigger] words@[k])@ == words_of(text@)[k],
{
    let chars = chars_of(text);
    let n = chars.len();
    let mut words: Vec<&'a str> = Vec::new();
    let mut i: usize = 0;
    while i < n
        invariant
            n == chars@.len(),
            chars@ == text@,
            i <= n,
            0 < i < n && !is_space(chars@[i - 1]) ==> is_space(chars@[i as int]),
            words@.len() == words_of(chars@.take(i as int)).len(),
            forall|k: int|
                0 <= k < words@.len() ==> (#[trigger] words@[k])@ == words_of(
                    chars@.take(i as int),
                )[k],
        decreases n - i,
    {
        if is_whitespace(chars[i]) {
            proof {
                lemma_words_space(chars@, i as int);
            }
            i = i + 1;
        } else {
            let start = i;
            while i < n && !is_whitespace(chars[i])
                invariant
                    n == chars@.len(),
                    start <= i <= n,
                    forall|k: int| start <= k < i ==> !is_space(#[trigger] chars@[k]),
                decreases n - i,
            {
                i = i + 1;
            }
            proof {
                lemma_words_run(chars@, start as int, i as int);
            }
            let word = text.substring_char(start, i);
            words.push(word);
        }
    }
    assert(chars@.take(n as int) =~= chars@);
    words
}

/// Whether `needle` stands in `hay` at offset `at`.
pub open spec fn occurs_at(hay: Seq<char>, needle: Seq<char>, at: int) -> bool {
    &&& 0 <= at
    &&& at + needle.len() <= hay.len()
    &&& forall|k: int| 0 <= k < needle.len() ==> hay[at + k] == #[trigger] needle[k]
}

/// Whether `needle` is a contiguous part of `hay`. The empty sequence is a
/// part of every sequence.
pub open spec fn contains_seq(hay: Seq<char>, needle: Seq<char>) -> bool {
    exists|at: int| occurs_at(hay, needle, at)
}

/// The empty sequence is a part of every sequence.
pub proof fn lemma_contains_empty(hay: Seq<char>)
    ensures
        contains_seq(hay, Seq::empty()),
{
    assert(occurs_at(hay, Seq::empty(), 0));
}

/// Decides [`contains_seq`] by trying every offset.
pub fn contains_chars(hay: &Vec<char>, needle: &Vec<char>) -> (r: bool)
    ensures
        r == contains_seq(hay@, needle@),
{
    let n = hay.len();
    let m = needle.len();
    if m > n {
        return false;
    }
    let last = n - m;
    let mut at: usize = 0;
    while at <= last
        invariant
            n == hay@.len(),
            m == needle@.len(),
            m <= n,
            last == n - m,
            at <= last + 1,
            forall|k: int| 0 <= k < at ==> !occurs_at(hay@, needle@, k),
        decreases last + 1 - at,
    {
        let mut j: usize = 0;
        while j < m && hay[at + j] == needle[j]
            invariant
                n == hay@.len(),
                m == needle@.len(),
                at + m <= n,
                j <= m,
                forall|k: int| 0 <= k < j ==> hay@[at + k] == #[trigger] needle@[k],
            decreases m - j,
        {
            j = j + 1;
        }
        if j == m {
            assert(occurs_at(hay@, needle@, at as int));
            return true;
        }
        assert(!occurs_at(hay@, needle@, at as int)) by {
            assert(hay@[at + j] != needle@[j as int]);
        }
        at = at + 1;
    }
    false
}

/// The decimal digit for `d`.
pub open spec fn digit_char(d: nat) -> char
    recommends
        d < 10,
{
    (0x30 + d) as char
}

/// The decimal numeral of `n`, without sign or leading zeros.
pub open spec fn decimal_of(n: nat) -> Seq<char>
    decreases n,
{
    if n < 10 {
        seq![digit_char(n)]
    } else {
        decimal_of(n / 10).push(digit_char(n % 10))
    }
}

/// Renders `n` as its decimal numeral.
pub fn decimal(n: u128) -> (s: String)
    ensures
        s@ == decimal_of(n as nat),
    decreases n,
{
    let d: u8 = (n % 10) as u8;
    let c: char = (0x30u8 + d) as char;
    if n < 10 {
        let mut s = String::new();
        s.push(c);
        assert(s@ =~= seq![digit_char(n as nat)]);
        s
    } else {
        let mut s = decimal(n / 10);
        s.push(c);
        s
    }
}

/// The decimal numeral of the integer `n`, with a minus sign before the
/// digits where it is negative.
pub open spec fn signed_decimal_of(n: int) -> Seq<char> {
    if n < 0 {
        seq!['-'] + decimal_of((-n) as nat)
    } else {
        decimal_of(n as nat)
    }
}

/// Renders `n` as its decimal numeral.
pub fn signed_decimal(n: i32) -> (s: String)
    ensures
        s@ == signed_decimal_of(n as int),
{
    if n < 0 {
        let magnitude: i64 = -(n as i64);
        let digits = decimal(magnitude as u128);
        let mut s = String::new();
        s.push('-');
        s.append(digits.as_str());
        assert(s@ =~= seq!['-'] + digits@);
        s
    } else {
        decimal(n as u128)
    }
}

} // verus!
