use vstd::prelude::*;
use crate::greedy::lemma_push_selection;
use crate::model::{
    Best, MAX_PROFIT, Row, benefit_sum, increasing, is_selection, lemma_earnings_fit,
    lemma_sums_prepend, lemma_sums_push, price_sum, rows_wf, within,
};

verus! {

/// What a frame of the pruned search returns, given the purchase `actions`
/// of the path, the next candidate `k`, the running best `current` and
/// whether an extension has already failed to improve it (`stopped`).
///
/// Unaffordable candidates are skipped; at the first affordable candidate
/// after a failure the frame ends; otherwise the candidate is bought, kept
/// if it beats the running best, and the search goes on from the next item.
/// The recursive result replaces the running best only when strictly better,
/// and a result that is not marks the frame as stopped.
pub open spec fn pruned_walk(
    data: Seq<Row>,
    budget: int,
    actions: Seq<usize>,
    k: int,
    current: Seq<usize>,
    stopped: bool,
) -> Seq<usize>
    decreases data.len() - k,
{
    if k < 0 || k >= data.len() {
        current
    } else if budget - price_sum(data, actions) < data[k].price {
        pruned_walk(data, budget, actions, k + 1, current, stopped)
    } else if stopped {
        current
    } else {
        let bought = actions.push(k as usize);
        let cur1 = if benefit_sum(data, bought) > benefit_sum(data, current) {
            bought
        } else {
            current
        };
        let rec = pruned_walk(data, budget, bought, k + 1, bought, false);
        if benefit_sum(data, rec) > benefit_sum(data, cur1) {
            pruned_walk(data, budget, actions, k + 1, rec, false)
        } else {
            pruned_walk(data, budget, actions, k + 1, cur1, true)
        }
    }
}

fn pruned_from(
    start: usize,
    balance: u64,
    earnings: u128,
    actions: &Vec<usize>,
    data: &Vec<Row>,
    Ghost(budget): Ghost<int>,
) -> (r: Best)
    requires
        rows_wf(data@),
        budget <= u64::MAX,
        start <= data.len(),
        is_selection(data@, actions@),
        within(actions@, 0, start as int),
        balance == budget - price_sum(data@, actions@),
        earnings == benefit_sum(data@, actions@),
    ensures
        r.consistent(data@, budget),
        r.actions@ == pruned_walk(data@, budget, actions@, start as int, actions@, false),
    decreases data.len() - start,
{
    let mut current_best = Best { earnings, actions: actions.clone(), balance };
    assert(current_best.actions@ =~= actions@);
    let mut stopped = false;
    let mut i: usize = start;
    while i < data.len()
        invariant
            start <= i <= data.len(),
            rows_wf(data@),
            budget <= u64::MAX,
            is_selection(data@, actions@),
            within(actions@, 0, start as int),
            balance == budget - price_sum(data@, actions@),
            earnings == benefit_sum(data@, actions@),
            current_best.consistent(data@, budget),
            pruned_walk(data@, budget, actions@, start as int, actions@, false) == pruned_walk(
                data@,
                budget,
                actions@,
                i as int,
                current_best.actions@,
                stopped,
            ),
        ensures
            current_best.consistent(data@, budget),
            current_best.actions@ == pruned_walk(
                data@,
                budget,
                actions@,
                start as int,
                actions@,
                false,
            ),
        decreases data.len() - i,
    {
        let row = &data[i];
        if balance < row.price {
            i += 1;
        } else if stopped {
            break;
        } else {
            proof {
                assert(within(actions@, 0, i as int));
                lemma_sums_push(data@, actions@, i);
                lemma_push_selection(data@, actions@, i);
                lemma_earnings_fit(data@, actions@.push(i));
            }
            let new_balance = balance - row.price;
            let new_earnings = earnings + row.benefits;
            let mut new_actions = actions.clone();
            assert(new_actions@ =~= actions@);
            new_actions.push(i);
            if new_earnings > current_best.earnings {
                let kept = new_actions.clone();
                assert(kept@ =~= new_actions@);
                current_best = Best { earnings: new_earnings, actions: kept, balance: new_balance };
            }
            let result_best = pruned_from(
                i + 1,
                new_balance,
                new_earnings,
                &new_actions,
                data,
                Ghost(budget),
            );
            if result_best.earnings > current_best.earnings {
                current_best = result_best;
            } else {
                stopped = true;
            }
            i += 1;
        }
    }
    current_best
}

/// Pruned recursive search, for items sorted by decreasing profit
/// percentage. Each frame tries the affordable items after the current
/// position and stops at the first affordable one after an extension that
/// failed to improve its best; the result is a consistent selection, not
/// necessarily an optimal one.
pub fn optimized_recursive(data: Vec<Row>, balance: u64) -> (best: Best)
    requires
        rows_wf(data@),
    ensures
        best.consistent(data@, balance as int),
        best.actions@ == pruned_walk(data@, balance as int, seq![], 0, seq![], false),
{
    let actions: Vec<usize> = Vec::new();
    let r = pruned_from(0, balance, 0, &actions, &data, Ghost(balance as int));
    assert(actions@ =~= seq![]);
    r
}

/// What a frame of the stack-cursor search adds to the purchase so far,
/// given the balance `bal` left, the cursor `k`, the frame's running choice
/// `current` and whether an extension already failed to improve it.
///
/// Each affordable candidate bought on its own replaces the running choice
/// when it earns more; the choice that continues it from the next position
/// replaces the running choice only when strictly better, and one that is
/// not marks the frame as stopped.
pub open spec fn stack_walk(
    data: Seq<Row>,
    bal: int,
    k: int,
    current: Seq<usize>,
    stopped: bool,
) -> Seq<usize>
    decreases data.len() - k,
{
    if k < 0 || k >= data.len() {
        current
    } else if bal < data[k].price {
        stack_walk(data, bal, k + 1, current, stopped)
    } else if stopped {
        current
    } else {
        let tentative = seq![k as usize];
        let cur1 = if benefit_sum(data, tentative) > benefit_sum(data, current) {
            tentative
        } else {
            current
        };
        let rec = seq![k as usize] + stack_walk(data, bal - data[k].price, k + 1, seq![], false);
        if benefit_sum(data, rec) > benefit_sum(data, cur1) {
            stack_walk(data, bal, k + 1, rec, false)
        } else {
            stack_walk(data, bal, k + 1, cur1, true)
        }
    }
}

/// Putting an index in front of an ordered tail of larger indices keeps
/// the listing ordered.
pub proof fn lemma_prepend_ordered(k: usize, rest: Seq<usize>, hi: int)
    requires
        increasing(rest),
        within(rest, k + 1, hi),
        k < hi,
    ensures
        increasing(seq![k] + rest),
        within(seq![k] + rest, k as int, hi),
{
    let d = seq![k] + rest;
    assert forall|i: int, j: int| 0 <= i < j < d.len() implies d[i] < d[j] by {
        assert(d[j] == rest[j - 1]);
        if i > 0 {
            assert(d[i] == rest[i - 1]);
        }
    }
    assert forall|i: int| 0 <= i < d.len() implies k <= #[trigger] d[i] < hi by {
        if i > 0 {
            assert(d[i] == rest[i - 1]);
        }
    }
}

fn stack_from(stack: usize, balance: u64, earnings: u128, data: &Vec<Row>) -> (r: Best)
    requires
        rows_wf(data@),
        stack <= data.len(),
        earnings <= (u64::MAX - balance) * MAX_PROFIT,
    ensures
        increasing(r.actions@),
        within(r.actions@, stack as int, data.len() as int),
        r.balance == balance - price_sum(data@, r.actions@),
        r.earnings == earnings + benefit_sum(data@, r.actions@),
        r.actions@ == stack_walk(data@, balance as int, stack as int, seq![], false),
    decreases data.len() - stack,
{
    let mut current_best = Best { earnings, actions: Vec::new(), balance };
    assert(current_best.actions@ =~= seq![]);
    let mut stopped = false;
    let mut i: usize = stack;
    while i < data.len()
        invariant
            stack <= i <= data.len(),
            rows_wf(data@),
            earnings <= (u64::MAX - balance) * MAX_PROFIT,
            increasing(current_best.actions@),
            within(current_best.actions@, stack as int, data.len() as int),
            current_best.balance == balance - price_sum(data@, current_best.actions@),
            current_best.earnings == earnings + benefit_sum(data@, current_best.actions@),
            stack_walk(data@, balance as int, stack as int, seq![], false) == stack_walk(
                data@,
                balance as int,
                i as int,
                current_best.actions@,
                stopped,
            ),
        ensures
            increasing(current_best.actions@),
            within(current_best.actions@, stack as int, data.len() as int),
            current_best.balance == balance - price_sum(data@, current_best.actions@),
            current_best.earnings == earnings + benefit_sum(data@, current_best.actions@),
            current_best.actions@ == stack_walk(data@, balance as int, stack as int, seq![], false),
        decreases data.len() - i,
    {
        let row = &data[i];
        if balance < row.price {
            i += 1;
        } else if stopped {
            break;
        } else {
            let ghost p = row.price as int;
            let ghost b = row.benefits as int;
            proof {
                assert(row.wf());
                assert(b <= p * MAX_PROFIT) by (nonlinear_arith)
                    requires b == p * row.profit, 0 <= row.profit <= MAX_PROFIT, p >= 0;
                assert(earnings + b <= (u64::MAX - (balance - p)) * MAX_PROFIT) by (nonlinear_arith)
                    requires earnings <= (u64::MAX - balance) * MAX_PROFIT, b <= p * MAX_PROFIT;
                assert(earnings + b <= u64::MAX * MAX_PROFIT) by (nonlinear_arith)
                    requires earnings + b <= (u64::MAX - (balance - p)) * MAX_PROFIT, 0 <= balance - p;
            }
            let new_balance = balance - row.price;
            let new_earnings = earnings + row.benefits;
            let mut actions: Vec<usize> = Vec::new();
            actions.push(i);
            proof {
                lemma_sums_prepend(data@, i, seq![]);
                assert(seq![i] + Seq::<usize>::empty() =~= seq![i]);
                assert(actions@ =~= seq![i]);
            }
            if new_earnings > current_best.earnings {
                let tentative = Best {
                    earnings: new_earnings,
                    actions: actions.clone(),
                    balance: new_balance,
                };
                assert(tentative.actions@ =~= seq![i]);
                current_best = tentative;
            }
            let result_best = stack_from(i + 1, new_balance, new_earnings, data);
            if result_best.earnings > current_best.earnings {
                let ghost tail = result_best.actions@;
                let mut rest = result_best.actions;
                actions.append(&mut rest);
                proof {
                    assert(actions@ =~= seq![i] + tail);
                    lemma_sums_prepend(data@, i, tail);
                    lemma_prepend_ordered(i, tail, data.len() as int);
                }
                current_best = Best {
                    earnings: result_best.earnings,
                    actions,
                    balance: result_best.balance,
                };
            } else {
                stopped = true;
            }
            proof {
                lemma_sums_prepend(data@, i, result_best.actions@);
            }
            i += 1;
        }
    }
    current_best
}

/// The pruned search driven by a cursor over the list instead of a carried
/// purchase, for items sorted by decreasing profit percentage. The result is
/// a consistent selection, not necessarily an optimal one.
pub fn optimized_recursive_stack(data: Vec<Row>, balance: u64) -> (best: Best)
    requires
        rows_wf(data@),
    ensures
        best.consistent(data@, balance as int),
        best.actions@ == stack_walk(data@, balance as int, 0, seq![], false),
{
    stack_from(0, balance, 0, &data)
}

} // verus!
