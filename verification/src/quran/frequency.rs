//! Word frequencies: how often each word occurs in a sequence of words, and
//! which word occurs most often.

use vstd::prelude::*;

verus! {

/// How often `w` occurs in `words`.
pub open spec fn occurrences(words: Seq<Seq<char>>, w: Seq<char>) -> nat
    decreases words.len(),
{
    if words.len() == 0 {
        0
    } else {
        occurrences(words.drop_last(), w) + if words.last() == w {
            1nat
        } else {
            0nat
        }
    }
}

/// Whether `w` does not occur in `words` at the position `until` or before.
pub open spec fn absent_until(words: Seq<Seq<char>>, w: Seq<char>, until: int) -> bool {
    forall|q: int| 0 <= q <= until && q < words.len() ==> #[trigger] words[q] != w
}

/// Whether `top` is the most common word of `words` with its number of
/// occurrences. There is none where there are no words. Otherwise no word
/// occurs more often, and of the words that occur as often it is the one
/// that occurs first: every word that stands before its first occurrence
/// occurs less often. At most one value of `top` meets this.
pub open spec fn is_most_common(words: Seq<Seq<char>>, top: Option<(Seq<char>, int)>) -> bool {
    match top {
        None => words.len() == 0,
        Some((w, n)) => {
            &&& n == occurrences(words, w)
            &&& n > 0
            &&& forall|v: Seq<char>| #[trigger] occurrences(words, v) <= n
            &&& forall|p: int|
                0 <= p < words.len() && #[trigger] absent_until(words, w, p) ==> occurrences(
                    words,
                    words[p],
                ) < n
        },
    }
}

/// A word cannot occur more often than there are words.
pub proof fn lemma_occurrences_bound(words: Seq<Seq<char>>, w: Seq<char>)
    ensures
        occurrences(words, w) <= words.len(),
    decreases words.len(),
{
    if words.len() > 0 {
        lemma_occurrences_bound(words.drop_last(), w);
    }
}

/// One more word adds one occurrence of itself and none of another word.
pub proof fn lemma_occurrences_push(words: Seq<Seq<char>>, x: Seq<char>, w: Seq<char>)
    ensures
        occurrences(words.push(x), w) == occurrences(words, w) + if x == w {
            1nat
        } else {
            0nat
        },
{
    assert(words.push(x).drop_last() =~= words);
}

/// A word that stands in `words` occurs at least once.
pub proof fn lemma_occurs_at(words: Seq<Seq<char>>, p: int)
    requires
        0 <= p < words.len(),
    ensures
        occurrences(words, words[p]) > 0,
    decreases words.len(),
{
    if p < words.len() - 1 {
        lemma_occurs_at(words.drop_last(), p);
    }
}

/// A word that occurs stands somewhere in `words`.
pub proof fn lemma_occurs_somewhere(words: Seq<Seq<char>>, w: Seq<char>) -> (p: int)
    requires
        occurrences(words, w) > 0,
    ensures
        0 <= p < words.len(),
        words[p] == w,
    decreases words.len(),
{
    if words.last() == w {
        words.len() - 1
    } else {
        lemma_occurs_somewhere(words.drop_last(), w)
    }
}

/// A word that stands before the first occurrence of the most common word
/// occurs less often than it.
proof fn lemma_earlier_has_fewer(words: Seq<Seq<char>>, w: Seq<char>, n: int, p: int)
    requires
        is_most_common(words, Some((w, n))),
        0 <= p < words.len(),
        absent_until(words, w, p),
    ensures
        occurrences(words, words[p]) < n,
{
}

/// No word occurs more often than the most common one.
proof fn lemma_none_has_more(words: Seq<Seq<char>>, w: Seq<char>, n: int, v: Seq<char>)
    requires
        is_most_common(words, Some((w, n))),
    ensures
        occurrences(words, v) <= n,
        occurrences(words, w) == n,
        n > 0,
{
}

/// At most one word is the most common one.
pub proof fn lemma_most_common_unique(
    words: Seq<Seq<char>>,
    first: Option<(Seq<char>, int)>,
    second: Option<(Seq<char>, int)>,
)
    requires
        is_most_common(words, first),
        is_most_common(words, second),
    ensures
        first == second,
{
    match (first, second) {
        (Some((w1, n1)), Some((w2, n2))) => {
            lemma_none_has_more(words, w1, n1, w2);
            lemma_none_has_more(words, w2, n2, w1);
            if w1 != w2 {
                let here = first_of(words, w1);
                let there = first_of(words, w2);
                if here < there {
                    assert(absent_until(words, w2, here));
                    lemma_earlier_has_fewer(words, w2, n2, here);
                } else {
                    assert(absent_until(words, w1, there));
                    lemma_earlier_has_fewer(words, w1, n1, there);
                }
            }
        },
        (Some((w, n)), None) => {
            lemma_none_has_more(words, w, n, w);
            let p = lemma_occurs_somewhere(words, w);
        },
        (None, Some((w, n))) => {
            lemma_none_has_more(words, w, n, w);
            let p = lemma_occurs_somewhere(words, w);
        },
        (None, None) => {},
    }
}

/// The first position at which a word that occurs stands.
pub proof fn first_of(words: Seq<Seq<char>>, w: Seq<char>) -> (p: int)
    requires
        occurrences(words, w) > 0,
    ensures
        0 <= p < words.len(),
        words[p] == w,
        forall|q: int| 0 <= q < p ==> #[trigger] words[q] != w,
    decreases words.len(),
{
    if occurrences(words.drop_last(), w) > 0 {
        let p = first_of(words.drop_last(), w);
        assert forall|q: int| 0 <= q < p implies #[trigger] words[q] != w by {
            assert(words.drop_last()[q] == words[q]);
        }
        p
    } else {
        assert forall|q: int| 0 <= q < words.len() - 1 implies #[trigger] words[q] != w by {
            if words[q] == w {
                lemma_occurs_at(words.drop_last(), q);
            }
        }
        words.len() - 1
    }
}

/// Whether `w` is one of `keys`.
pub open spec fn listed(keys: Seq<Seq<char>>, w: Seq<char>) -> bool {
    exists|k: int| 0 <= k < keys.len() && #[trigger] keys[k] == w
}

/// Whether `keys` is the roster of `words`: the distinct words, each once,
/// in the order in which they first occur.
pub open spec fn is_roster(keys: Seq<Seq<char>>, words: Seq<Seq<char>>) -> bool {
    &&& forall|a: int, b: int| 0 <= a < b < keys.len() ==> #[trigger] keys[a] != #[trigger] keys[b]
    &&& forall|k: int| 0 <= k < keys.len() ==> occurrences(words, #[trigger] keys[k]) > 0
    &&& forall|p: int| 0 <= p < words.len() ==> listed(keys, #[trigger] words[p])
    &&& forall|k: int, p: int|
        0 <= k < keys.len() && 0 <= p < words.len() && #[trigger] absent_until(words, keys[k], p)
            ==> listed(keys.take(k), words[p])
}

/// Reading a word that the roster lists keeps it the roster.
pub proof fn lemma_roster_seen(keys: Seq<Seq<char>>, words: Seq<Seq<char>>, w: Seq<char>)
    requires
        is_roster(keys, words),
        listed(keys, w),
    ensures
        is_roster(keys, words.push(w)),
{
    let words2 = words.push(w);
    assert forall|k: int| 0 <= k < keys.len() implies occurrences(words2, #[trigger] keys[k])
        > 0 by {
        lemma_occurrences_push(words, w, keys[k]);
    }
    assert forall|p: int| 0 <= p < words2.len() implies listed(keys, #[trigger] words2[p]) by {
        if p < words.len() {
            assert(words2[p] == words[p]);
        }
    }
    assert forall|k: int, p: int|
        0 <= k < keys.len() && 0 <= p < words2.len() && #[trigger] absent_until(
            words2,
            keys[k],
            p,
        ) implies listed(keys.take(k), words2[p]) by {
        lemma_roster_order_step(keys, words, w, k, p);
    }
}

/// Reading a word that the roster lacks puts it at the roster's end.
pub proof fn lemma_roster_new(keys: Seq<Seq<char>>, words: Seq<Seq<char>>, w: Seq<char>)
    requires
        is_roster(keys, words),
        !listed(keys, w),
    ensures
        is_roster(keys.push(w), words.push(w)),
        occurrences(words, w) == 0,
{
    let keys2 = keys.push(w);
    let words2 = words.push(w);
    if occurrences(words, w) > 0 {
        let p = lemma_occurs_somewhere(words, w);
        assert(listed(keys, words[p]));
    }
    assert forall|a: int, b: int| 0 <= a < b < keys2.len() implies #[trigger] keys2[a]
        != #[trigger] keys2[b] by {
        if b == keys.len() {
            assert(keys[a] != w);
        } else {
            assert(keys[a] != keys[b]);
        }
    }
    assert forall|k: int| 0 <= k < keys2.len() implies occurrences(words2, #[trigger] keys2[k])
        > 0 by {
        lemma_occurrences_push(words, w, keys2[k]);
        if k < keys.len() {
            assert(keys2[k] == keys[k]);
        }
    }
    assert forall|p: int| 0 <= p < words2.len() implies listed(keys2, #[trigger] words2[p]) by {
        if p < words.len() {
            assert(listed(keys, words[p]));
            let k = choose|k: int| 0 <= k < keys.len() && #[trigger] keys[k] == words[p];
            assert(keys2[k] == words2[p]);
        } else {
            assert(keys2[keys.len() as int] == words2[p]);
        }
    }
    assert forall|k: int, p: int|
        0 <= k < keys2.len() && 0 <= p < words2.len() && #[trigger] absent_until(
            words2,
            keys2[k],
            p,
        ) implies listed(keys2.take(k), words2[p]) by {
        if k < keys.len() {
            assert(keys2[k] == keys[k]);
            lemma_roster_order_step(keys, words, w, k, p);
            assert(keys2.take(k) =~= keys.take(k));
        } else {
            assert(words2[words.len() as int] == w);
            assert(p < words.len());
            assert(listed(keys, words[p]));
            assert(keys2.take(k) =~= keys);
        }
    }
}

/// The order of a roster is kept where one more word is read.
proof fn lemma_roster_order_step(
    keys: Seq<Seq<char>>,
    words: Seq<Seq<char>>,
    w: Seq<char>,
    k: int,
    p: int,
)
    requires
        is_roster(keys, words),
        0 <= k < keys.len(),
        0 <= p < words.len() + 1,
        absent_until(words.push(w), keys[k], p),
    ensures
        listed(keys.take(k), words.push(w)[p]),
{
    let words2 = words.push(w);
    let key = keys[k];
    let at = lemma_occurs_somewhere(words, key);
    assert(words2[at] == key);
    assert(p < at);
    assert forall|q: int| 0 <= q <= p && q < words.len() implies #[trigger] words[q] != key by {
        assert(words2[q] == words[q]);
    }
    assert(absent_until(words, keys[k], p));
}

/// The words of the entries of a tally.
pub open spec fn tally_keys(t: Seq<(Seq<char>, nat)>) -> Seq<Seq<char>> {
    t.map_values(|e: (Seq<char>, nat)| e.0)
}

/// Whether `t` is the tally of `words`: one entry for each distinct word,
/// with the number of its occurrences, the entries in the order in which the
/// words first occur.
pub open spec fn is_tally(t: Seq<(Seq<char>, nat)>, words: Seq<Seq<char>>) -> bool {
    &&& is_roster(tally_keys(t), words)
    &&& forall|k: int| 0 <= k < t.len() ==> (#[trigger] t[k]).1 == occurrences(words, t[k].0)
}

/// The views of the entries of a tally.
pub open spec fn tally_views(t: Seq<(String, usize)>) -> Seq<(Seq<char>, nat)> {
    t.map_values(|e: (String, usize)| (e.0@, e.1 as nat))
}

/// The views of `words`, in order.
pub open spec fn word_views(words: Seq<String>) -> Seq<Seq<char>> {
    words.map_values(|w: String| w@)
}

/// Counting one more occurrence of a word that the tally lists keeps it the
/// tally.
proof fn lemma_tally_bump(t: Seq<(Seq<char>, nat)>, words: Seq<Seq<char>>, w: Seq<char>, at: int)
    requires
        is_tally(t, words),
        0 <= at < t.len(),
        t[at].0 == w,
    ensures
        is_tally(t.update(at, (w, t[at].1 + 1)), words.push(w)),
{
    let t2 = t.update(at, (w, t[at].1 + 1));
    let words2 = words.push(w);
    assert(tally_keys(t2) =~= tally_keys(t));
    assert(tally_keys(t)[at] == w);
    lemma_roster_seen(tally_keys(t), words, w);
    assert forall|k: int| 0 <= k < t2.len() implies (#[trigger] t2[k]).1 == occurrences(
        words2,
        t2[k].0,
    ) by {
        lemma_occurrences_push(words, w, t2[k].0);
        assert(t[k].1 == occurrences(words, t[k].0));
        if k != at {
            assert(tally_keys(t)[k] == t[k].0);
            if k < at {
                assert(tally_keys(t)[k] != tally_keys(t)[at]);
            } else {
                assert(tally_keys(t)[at] != tally_keys(t)[k]);
            }
        }
    }
}

/// Listing a word that the tally lacks, with one occurrence, keeps it the
/// tally.
proof fn lemma_tally_new(t: Seq<(Seq<char>, nat)>, words: Seq<Seq<char>>, w: Seq<char>)
    requires
        is_tally(t, words),
        !listed(tally_keys(t), w),
    ensures
        is_tally(t.push((w, 1)), words.push(w)),
{
    let t2 = t.push((w, 1nat));
    let words2 = words.push(w);
    assert(tally_keys(t2) =~= tally_keys(t).push(w));
    lemma_roster_new(tally_keys(t), words, w);
    assert forall|k: int| 0 <= k < t2.len() implies (#[trigger] t2[k]).1 == occurrences(
        words2,
        t2[k].0,
    ) by {
        lemma_occurrences_push(words, w, t2[k].0);
        if k < t.len() {
            assert(t[k].1 == occurrences(words, t[k].0));
            assert(tally_keys(t)[k] == t[k].0);
        }
    }
}

/// The first entry of a tally with the largest count is the most common
/// word.
proof fn lemma_tally_top(t: Seq<(Seq<char>, nat)>, words: Seq<Seq<char>>, at: int)
    requires
        is_tally(t, words),
        0 <= at < t.len(),
        forall|k: int| 0 <= k < t.len() ==> (#[trigger] t[k]).1 <= t[at].1,
        forall|k: int| 0 <= k < at ==> (#[trigger] t[k]).1 < t[at].1,
    ensures
        is_most_common(words, Some((t[at].0, t[at].1 as int))),
{
    let keys = tally_keys(t);
    let w = t[at].0;
    let n = t[at].1;
    assert(keys[at] == w);
    assert(t[at].1 == occurrences(words, w));
    assert forall|v: Seq<char>| #[trigger] occurrences(words, v) <= n by {
        if occurrences(words, v) > 0 {
            let p = lemma_occurs_somewhere(words, v);
            assert(listed(keys, words[p]));
            let k = choose|k: int| 0 <= k < keys.len() && #[trigger] keys[k] == words[p];
            assert(t[k].1 == occurrences(words, t[k].0));
        }
    }
    assert forall|p: int|
        0 <= p < words.len() && #[trigger] absent_until(words, w, p) implies occurrences(
        words,
        words[p],
    ) < n by {
        assert(absent_until(words, keys[at], p));
        assert(listed(keys.take(at), words[p]));
        let a = choose|a: int|
            0 <= a < keys.take(at).len() && #[trigger] keys.take(at)[a] == words[p];
        assert(keys.take(at)[a] == t[a].0);
        assert(t[a].1 == occurrences(words, t[a].0));
    }
}

/// Whether two words have the same characters.
fn same_word(a: &String, b: &String) -> (same: bool)
    ensures
        same == (a@ == b@),
{
    *a == *b
}

/// Tallies `words`: see [`is_tally`].
pub(crate) fn tally(words: &Vec<String>) -> (t: Vec<(String, usize)>)
    ensures
        is_tally(tally_views(t@), word_views(words@)),
{
    let mut t: Vec<(String, usize)> = Vec::new();
    let mut i: usize = 0;
    assert(tally_views(t@) =~= Seq::empty());
    assert(word_views(words@).take(0) =~= Seq::empty());
    while i < words.len()
        invariant
            i <= words.len(),
            is_tally(tally_views(t@), word_views(words@).take(i as int)),
        decreases words.len() - i,
    {
        let ghost seen = word_views(words@).take(i as int);
        let ghost held = tally_views(t@);
        let word = words[i].clone();
        assert(word@ == word_views(words@)[i as int]);
        assert(word_views(words@).take(i + 1) =~= seen.push(word@));
        let mut k: usize = 0;
        while k < t.len() && !same_word(&t[k].0, &word)
            invariant
                k <= t.len(),
                held == tally_views(t@),
                forall|a: int| 0 <= a < k ==> #[trigger] tally_keys(held)[a] != word@,
            decreases t.len() - k,
        {
            assert(held[k as int].0 == t@[k as int].0@);
            k = k + 1;
        }
        if k < t.len() {
            let n = t[k].1;
            proof {
                assert(held[k as int] == (word@, n as nat));
                lemma_tally_bump(held, seen, word@, k as int);
                lemma_occurrences_bound(seen.push(word@), word@);
                assert(held.update(k as int, (word@, n as nat + 1))[k as int].1 == occurrences(
                    seen.push(word@),
                    word@,
                ));
            }
            t.set(k, (word, n + 1));
            assert(tally_views(t@) =~= held.update(k as int, (word@, n as nat + 1)));
        } else {
            proof {
                assert(!listed(tally_keys(held), word@));
                lemma_tally_new(held, seen, word@);
            }
            t.push((word, 1));
            assert(tally_views(t@) =~= held.push((word@, 1nat)));
        }
        i = i + 1;
    }
    assert(word_views(words@).take(i as int) =~= word_views(words@));
    t
}

/// The most common of `words` with the number of its occurrences: see
/// [`is_most_common`].
pub fn most_common(words: &Vec<String>) -> (top: Option<(String, usize)>)
    ensures
        is_most_common(
            word_views(words@),
            match top {
                Some((w, n)) => Some((w@, n as int)),
                None => None,
            },
        ),
{
    let t = tally(words);
    if t.len() == 0 {
        proof {
            if words.len() > 0 {
                assert(listed(tally_keys(tally_views(t@)), word_views(words@)[0]));
            }
        }
        return None;
    }
    let ghost held = tally_views(t@);
    let mut best: usize = 0;
    let mut k: usize = 1;
    while k < t.len()
        invariant
            1 <= k <= t.len(),
            best < k,
            held == tally_views(t@),
            forall|a: int| 0 <= a < k ==> (#[trigger] held[a]).1 <= held[best as int].1,
            forall|a: int| 0 <= a < best ==> (#[trigger] held[a]).1 < held[best as int].1,
        decreases t.len() - k,
    {
        if t[k].1 > t[best].1 {
            best = k;
        }
        k = k + 1;
    }
    proof {
        lemma_tally_top(held, word_views(words@), best as int);
    }
    Some((t[best].0.clone(), t[best].1))
}

} // verus!
