//! Where the entries of a filtered list come from.

use vstd::prelude::*;

verus! {

/// Gives the places of the entries that a filter keeps: they are in order, and every
/// entry that passes is at one of them.
pub proof fn lemma_places<A>(s: Seq<A>, pred: spec_fn(A) -> bool) -> (at: Seq<int>)
    ensures
        at.len() == s.filter(pred).len(),
        forall|k: int| 0 <= k < at.len() ==> 0 <= #[trigger] at[k] < s.len(),
        forall|j: int, k: int| 0 <= j < k < at.len() ==> #[trigger] at[j] < #[trigger] at[k],
        forall|k: int|
            0 <= k < at.len() ==> s.filter(pred)[k] == s[#[trigger] at[k]] && pred(s[at[k]]),
        forall|i: int| 0 <= i < s.len() && pred(#[trigger] s[i]) ==> at.contains(i),
    decreases s.len(),
{
    reveal(Seq::filter);
    if s.len() == 0 {
        Seq::empty()
    } else {
        let before = lemma_places(s.drop_last(), pred);
        let n = s.len() - 1;
        assert forall|k: int| 0 <= k < before.len() implies s[#[trigger] before[k]]
            == s.drop_last()[before[k]] by {}
        let at = if pred(s.last()) {
            before.push(n)
        } else {
            before
        };
        assert forall|i: int| 0 <= i < s.len() && pred(#[trigger] s[i]) implies at.contains(i) by {
            if i < n {
                assert(pred(s.drop_last()[i]));
                let k = choose|k: int| 0 <= k < before.len() && before[k] == i;
                assert(at[k] == i);
            } else {
                assert(at[at.len() - 1] == i);
            }
        }
        at
    }
}

} // verus!
