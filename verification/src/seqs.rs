//! Facts about sequences that several modules use.

use vstd::prelude::*;

verus! {

/// A filter changes nothing in a sequence whose items all pass it.
pub proof fn lemma_filter_keeps_all<A>(s: Seq<A>, pred: spec_fn(A) -> bool)
    requires
        forall|i: int| 0 <= i < s.len() ==> pred(#[trigger] s[i]),
    ensures
        s.filter(pred) == s,
    decreases s.len(),
{
    reveal(Seq::filter);
    if s.len() > 0 {
        lemma_filter_keeps_all(s.drop_last(), pred);
        assert(s.drop_last().push(s.last()) =~= s);
    }
}

/// Every item that a filter keeps passes it and stands in the sequence that
/// was filtered.
pub proof fn lemma_filter_item<A>(s: Seq<A>, pred: spec_fn(A) -> bool, i: int) -> (at: int)
    requires
        0 <= i < s.filter(pred).len(),
    ensures
        0 <= at < s.len(),
        s[at] == s.filter(pred)[i],
        pred(s[at]),
{
    let kept = s.filter(pred);
    s.lemma_filter_pred(pred, i);
    assert(kept.contains(kept[i]));
    s.lemma_filter_contains_rev(pred, kept[i]);
    choose|at: int| 0 <= at < s.len() && s[at] == kept[i]
}

} // verus!
