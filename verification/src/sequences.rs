//! Facts about filtered sequences.

use vstd::prelude::*;

verus! {

/// Filtering keeps entries in order. The result `src` names, for each entry
/// of the filtered sequence, the index it had before.
pub proof fn lemma_filter_sources<A>(s: Seq<A>, pred: spec_fn(A) -> bool) -> (src: Seq<int>)
    ensures
        src.len() == s.filter(pred).len(),
        forall|j: int|
            0 <= j < src.len() ==> 0 <= #[trigger] src[j] < s.len() && s[src[j]] == s.filter(
                pred,
            )[j] && pred(s[src[j]]),
        forall|j: int, k: int| 0 <= j < k < src.len() ==> #[trigger] src[j] < #[trigger] src[k],
        forall|i: int|
            0 <= i < s.len() && pred(#[trigger] s[i]) ==> exists|j: int|
                0 <= j < src.len() && #[trigger] src[j] == i,
    decreases s.len(),
{
    reveal(Seq::filter);
    if s.len() == 0 {
        Seq::empty()
    } else {
        let rest = s.drop_last();
        let before = lemma_filter_sources(rest, pred);
        let src = if pred(s.last()) {
            before.push(s.len() - 1)
        } else {
            before
        };
        assert forall|i: int| 0 <= i < s.len() && pred(#[trigger] s[i]) implies exists|j: int|
            0 <= j < src.len() && #[trigger] src[j] == i by {
            if i < s.len() - 1 {
                assert(pred(rest[i]));
                let j = choose|j: int| 0 <= j < before.len() && #[trigger] before[j] == i;
                assert(src[j] == i);
            } else {
                assert(src[src.len() - 1] == i);
            }
        }
        src
    }
}

/// Filtering a sequence from index `i` on either keeps the entry at `i`
/// in front of the filtered rest, or drops it.
pub proof fn lemma_filter_skip<A>(s: Seq<A>, pred: spec_fn(A) -> bool, i: int)
    requires
        0 <= i < s.len(),
    ensures
        s.skip(i).filter(pred) == if pred(s[i]) {
            seq![s[i]] + s.skip(i + 1).filter(pred)
        } else {
            s.skip(i + 1).filter(pred)
        },
{
    let head = seq![s[i]];
    assert(s.skip(i) =~= head + s.skip(i + 1));
    Seq::filter_distributes_over_add(head, s.skip(i + 1), pred);
    reveal_with_fuel(Seq::filter, 2);
    assert(head.drop_last() =~= Seq::<A>::empty());
    if pred(s[i]) {
        assert(head.filter(pred) =~= head);
    } else {
        assert(head.filter(pred) =~= Seq::<A>::empty());
    }
}

} // verus!
