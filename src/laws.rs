use vstd::prelude::*;
use crate::domain::{
    DomainView, applied, complete, entry_released, ingress_after, is_next, new_released, release_ok,
    stamps_between, txns_of, well_formed,
};

verus! {

/// The clock never goes back, and moves by exactly one for each buffer
/// entry consumed; each timestamp passed had its entry, which is now gone.
pub proof fn lemma_clock_counts_entries(a: DomainView, b: DomainView)
    requires
        applied(a, b),
    ensures
        b.ts >= a.ts,
        b.ts - a.ts == b.released.len() - a.released.len(),
        forall|k: i64| a.ts < k <= b.ts ==> #[trigger] a.buffer.contains_key(k) && !b.buffer.contains_key(k),
        b.buffer == a.buffer.remove_keys(stamps_between(a.ts, b.ts)),
{
}

/// Buffer entries are consumed one timestamp at a time, in increasing order,
/// so each timestamp's entry is consumed at most once, and only after all
/// earlier ones.
pub proof fn lemma_consumed_in_order(v: DomainView)
    requires
        well_formed(v),
    ensures
        forall|i: int, j: int| 0 <= i < j < v.released.len() ==> (#[trigger] v.released[i]).0 < (#[trigger] v.released[j]).0,
        forall|i: int| 0 < i < v.released.len() ==> (#[trigger] v.released[i]).0 == v.released[i - 1].0 + 1,
        v.released.len() > 0 ==> v.released.last().0 == v.ts,
{
}

/// A transaction is released only once all the fragments its base table
/// sends have come, counted under the ingress counts in force at its
/// timestamp; each entry consumed is logged as what was buffered at its
/// timestamp; and the transactions consumed are applied, each once, in
/// timestamp order, and nothing else is.
pub proof fn lemma_released_transactions_complete(a: DomainView, b: DomainView)
    requires
        applied(a, b),
    ensures
        forall|i: int| 0 <= i < new_released(a, b).len() ==> {
            &&& entry_released(a.buffer[(a.ts + 1 + i) as i64], (#[trigger] new_released(a, b)[i]).1)
            &&& release_ok(ingress_after(a.ingress, new_released(a, b).subrange(0, i)), new_released(a, b)[i].1)
        },
        b.txns == a.txns + txns_of(new_released(a, b)),
        b.ingress == ingress_after(a.ingress, new_released(a, b)),
{
}

/// A complete entry at the next timestamp is consumed, whatever it carries:
/// a transaction without records still moves the clock past its timestamp.
pub proof fn lemma_complete_entry_advances(a: DomainView, b: DomainView, t: i64)
    requires
        applied(a, b),
        is_next(a, t),
        complete(a, t),
    ensures
        b.ts >= t,
{
    if b.ts == a.ts {
        assert(stamps_between(a.ts, b.ts) =~= Set::<i64>::empty());
        assert(b.buffer =~= a.buffer);
        assert(complete(b, t));
    }
}

} // verus!
