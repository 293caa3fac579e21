use vstd::prelude::*;
use crate::model::{
    Best, Row, benefit_sum, is_selection, increasing, lemma_earnings_fit, lemma_sums_push,
    price_sum, rows_wf, within,
};

verus! {

/// The single-pass choice over the first `k` items: each item is bought,
/// in list order, when what is left of the budget still covers its price.
pub open spec fn greedy_prefix(data: Seq<Row>, budget: int, k: int) -> Seq<usize>
    decreases k,
{
    if k <= 0 {
        seq![]
    } else {
        let prev = greedy_prefix(data, budget, k - 1);
        if data[k - 1].price <= budget - price_sum(data, prev) {
            prev.push((k - 1) as usize)
        } else {
            prev
        }
    }
}

/// The single-pass choice over the whole list.
pub open spec fn greedy_choice(data: Seq<Row>, budget: int) -> Seq<usize> {
    greedy_prefix(data, budget, data.len() as int)
}

/// Appending an index above every chosen one keeps a selection ordered.
pub proof fn lemma_push_selection(data: Seq<Row>, c: Seq<usize>, k: usize)
    requires
        is_selection(data, c),
        within(c, 0, k as int),
        k < data.len(),
    ensures
        is_selection(data, c.push(k)),
        within(c.push(k), 0, k + 1),
{
    let d = c.push(k);
    assert forall|i: int, j: int| 0 <= i < j < d.len() implies d[i] < d[j] by {
        if j < c.len() {
            assert(c[i] < c[j]);
        } else {
            assert(0 <= c[i] < k);
        }
    }
    assert forall|i: int| 0 <= i < d.len() implies 0 <= #[trigger] d[i] < k + 1 by {
        if i < c.len() {
            assert(c[i] < k);
        }
    }
}

/// Single pass over the list, which is expected to be sorted by decreasing
/// profit: every item that still fits in the remaining balance is bought,
/// and a skipped item is never reconsidered.
pub fn optimized_one_loop(data: Vec<Row>, balance: u64) -> (best: Best)
    requires
        rows_wf(data@),
    ensures
        best.consistent(data@, balance as int),
        best.actions@ == greedy_choice(data@, balance as int),
{
    let mut best = Best { earnings: 0, actions: Vec::new(), balance };
    let mut i: usize = 0;
    while i < data.len()
        invariant
            0 <= i <= data.len(),
            rows_wf(data@),
            best.consistent(data@, balance as int),
            within(best.actions@, 0, i as int),
            best.actions@ == greedy_prefix(data@, balance as int, i as int),
        decreases data.len() - i,
    {
        let row = &data[i];
        if best.balance >= row.price {
            proof {
                lemma_sums_push(data@, best.actions@, i);
                lemma_push_selection(data@, best.actions@, i);
                lemma_earnings_fit(data@, best.actions@.push(i));
            }
            best.earnings = best.earnings + row.benefits;
            best.balance = best.balance - row.price;
            best.actions.push(i);
        } else {
            proof {
                assert(within(best.actions@, 0, i + 1));
            }
        }
        i += 1;
    }
    best
}

} // verus!
