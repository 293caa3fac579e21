use vstd::prelude::*;
use crate::greedy::lemma_push_selection;
use crate::model::{
    Best, Row, benefit_sum, fits, increasing, is_selection, lemma_earnings_fit, lemma_sums_concat,
    lemma_sums_prepend, lemma_sums_push, price_sum, rows_wf, within,
};

verus! {

/// The best choice among the items `i..` with `bal` left to spend: at each
/// item, buying it (when affordable) is kept only when it earns strictly
/// more than skipping it.
pub open spec fn best_from(data: Seq<Row>, i: int, bal: int) -> Seq<usize>
    decreases data.len() - i,
{
    if i < 0 || i >= data.len() {
        seq![]
    } else {
        let skipped = best_from(data, i + 1, bal);
        if data[i].price <= bal {
            let added = seq![i as usize] + best_from(data, i + 1, bal - data[i].price);
            if benefit_sum(data, added) > benefit_sum(data, skipped) {
                added
            } else {
                skipped
            }
        } else {
            skipped
        }
    }
}

/// The largest total benefit of a selection affordable within `budget`.
pub open spec fn max_earnings(data: Seq<Row>, budget: int) -> nat {
    benefit_sum(data, best_from(data, 0, budget))
}

/// No ordered selection of the items `i..` within `bal` earns more than
/// `best_from(data, i, bal)`.
pub proof fn lemma_best_from_optimal(data: Seq<Row>, i: int, bal: int, d: Seq<usize>)
    requires
        0 <= i <= data.len(),
        increasing(d),
        within(d, i, data.len() as int),
        price_sum(data, d) <= bal,
    ensures
        benefit_sum(data, d) <= benefit_sum(data, best_from(data, i, bal)),
    decreases data.len() - i,
{
    if d.len() > 0 {
        assert(i <= d[0] < data.len());
        let rest = d.drop_first();
        assert(increasing(rest)) by {
            assert forall|a: int, b: int| 0 <= a < b < rest.len() implies rest[a] < rest[b] by {
                assert(d[a + 1] < d[b + 1]);
            }
        }
        if d[0] == i {
            assert(within(rest, i + 1, data.len() as int)) by {
                assert forall|a: int| 0 <= a < rest.len() implies i + 1 <= #[trigger] rest[a] < data.len() by {
                    assert(d[0] < d[a + 1]);
                    assert(i <= d[a + 1] < data.len());
                }
            }
            lemma_best_from_optimal(data, i + 1, bal - data[i].price, rest);
            lemma_sums_prepend(data, i as usize, best_from(data, i + 1, bal - data[i].price));
        } else {
            assert(within(d, i + 1, data.len() as int)) by {
                assert forall|a: int| 0 <= a < d.len() implies i + 1 <= #[trigger] d[a] < data.len() by {
                    if a > 0 {
                        assert(d[0] < d[a]);
                    }
                }
            }
            lemma_best_from_optimal(data, i + 1, bal, d);
        }
    }
}

/// No selection affordable within `budget` earns more than `max_earnings`.
pub proof fn lemma_max_earnings_is_maximal(data: Seq<Row>, budget: int, d: Seq<usize>)
    requires
        fits(data, budget, d),
    ensures
        benefit_sum(data, d) <= max_earnings(data, budget),
{
    lemma_best_from_optimal(data, 0, budget, d);
}

fn redundant_from(best: Best, index: usize, data: &Vec<Row>, Ghost(budget): Ghost<int>) -> (r: Best)
    requires
        rows_wf(data@),
        budget <= u64::MAX,
        index <= data.len(),
        best.consistent(data@, budget),
        within(best.actions@, 0, index as int),
    ensures
        r.consistent(data@, budget),
        r.actions@ == best.actions@ + best_from(data@, index as int, best.balance as int),
    decreases data.len() - index,
{
    if index >= data.len() {
        assert(best.actions@ + seq![] =~= best.actions@);
        return best;
    }
    let ghost a = best.actions@;
    let skipped = redundant_from(best.copy(), index + 1, data, Ghost(budget));
    let row = &data[index];
    if best.balance >= row.price {
        let mut new_actions = best.actions.clone();
        assert(new_actions@ =~= a);
        new_actions.push(index);
        proof {
            lemma_sums_push(data@, a, index);
            lemma_push_selection(data@, a, index);
            lemma_earnings_fit(data@, a.push(index));
        }
        let new_best = Best {
            balance: best.balance - row.price,
            actions: new_actions,
            earnings: best.earnings + row.benefits,
        };
        let added = redundant_from(new_best, index + 1, data, Ghost(budget));
        proof {
            let tail = best_from(data@, index + 1, best.balance - row.price);
            let skip_tail = best_from(data@, index + 1, best.balance as int);
            assert(a.push(index) + tail =~= a + (seq![index] + tail));
            lemma_sums_concat(data@, a, seq![index] + tail);
            lemma_sums_concat(data@, a, skip_tail);
        }
        if added.earnings > skipped.earnings {
            added
        } else {
            skipped
        }
    } else {
        skipped
    }
}

/// Exhaustive search that, for every item, compares the best completion that
/// buys it with the best completion that skips it. The result earns the
/// maximum over all affordable selections, whatever the order of the items.
pub fn brut_force_recursive_redondant(data: Vec<Row>, balance: u64) -> (best: Best)
    requires
        rows_wf(data@),
    ensures
        best.consistent(data@, balance as int),
        best.actions@ == best_from(data@, 0, balance as int),
        best.earnings == max_earnings(data@, balance as int),
{
    let best = Best { earnings: 0, actions: Vec::new(), balance };
    let r = redundant_from(best, 0, &data, Ghost(balance as int));
    assert(r.actions@ =~= best_from(data@, 0, balance as int));
    r
}

/// The selection that the include/exclude search ends with, starting at item
/// `i` with `cur` bought so far and `best` as the best seen: the branch that
/// skips item `i` is explored first, and a purchase replaces the best only
/// when it earns strictly more.
pub open spec fn binary_walk(
    data: Seq<Row>,
    budget: int,
    i: int,
    cur: Seq<usize>,
    best: Seq<usize>,
) -> Seq<usize>
    decreases data.len() - i,
{
    if i < 0 || i >= data.len() {
        best
    } else {
        let b1 = binary_walk(data, budget, i + 1, cur, best);
        if data[i].price <= budget - price_sum(data, cur) {
            let cur2 = cur.push(i as usize);
            let b2 = if benefit_sum(data, cur2) > benefit_sum(data, b1) {
                cur2
            } else {
                b1
            };
            binary_walk(data, budget, i + 1, cur2, b2)
        } else {
            b1
        }
    }
}

/// The running purchase of the include/exclude search, undone on backtrack.
struct SearchState {
    balance: u64,
    earnings: u128,
    actions: Vec<usize>,
}

impl SearchState {
    spec fn tracks(&self, data: Seq<Row>, budget: int) -> bool {
        &&& is_selection(data, self.actions@)
        &&& self.balance == budget - price_sum(data, self.actions@)
        &&& self.earnings == benefit_sum(data, self.actions@)
    }
}

fn buy_action_and_check_best(
    index: usize,
    data: &Vec<Row>,
    state: &mut SearchState,
    best: &mut Best,
    Ghost(budget): Ghost<int>,
)
    requires
        rows_wf(data@),
        budget <= u64::MAX,
        index < data.len(),
        old(state).tracks(data@, budget),
        within(old(state).actions@, 0, index as int),
        old(state).balance >= data@[index as int].price,
        old(best).consistent(data@, budget),
    ensures
        final(state).tracks(data@, budget),
        within(final(state).actions@, 0, index + 1),
        final(state).actions@ == old(state).actions@.push(index),
        final(state).balance == old(state).balance - data@[index as int].price,
        final(state).earnings == old(state).earnings + data@[index as int].benefits,
        final(best).consistent(data@, budget),
        final(best).actions@ == (if final(state).earnings > old(best).earnings {
            final(state).actions@
        } else {
            old(best).actions@
        }),
{
    let row = &data[index];
    proof {
        lemma_sums_push(data@, state.actions@, index);
        lemma_push_selection(data@, state.actions@, index);
        lemma_earnings_fit(data@, state.actions@.push(index));
    }
    state.balance = state.balance - row.price;
    state.earnings = state.earnings + row.benefits;
    state.actions.push(index);
    if state.earnings > best.earnings {
        best.earnings = state.earnings;
        best.actions = state.actions.clone();
        assert(best.actions@ =~= state.actions@);
        best.balance = state.balance;
    }
}

fn remove_action(index: usize, data: &Vec<Row>, state: &mut SearchState, Ghost(budget): Ghost<int>)
    requires
        rows_wf(data@),
        budget <= u64::MAX,
        index < data.len(),
        old(state).tracks(data@, budget),
        old(state).actions@.len() > 0,
        old(state).actions@.last() == index,
    ensures
        final(state).tracks(data@, budget),
        final(state).actions@ == old(state).actions@.drop_last(),
        final(state).balance == old(state).balance + data@[index as int].price,
        final(state).earnings == old(state).earnings - data@[index as int].benefits,
{
    let ghost a = state.actions@;
    proof {
        assert(a.drop_last().push(index) =~= a);
        lemma_sums_push(data@, a.drop_last(), index);
    }
    let row = &data[index];
    state.balance = state.balance + row.price;
    state.earnings = state.earnings - row.benefits;
    let _ = state.actions.pop();
    assert(state.actions@ =~= a.drop_last());
}

fn explore(
    index: usize,
    data: &Vec<Row>,
    state: &mut SearchState,
    best: &mut Best,
    Ghost(budget): Ghost<int>,
)
    requires
        rows_wf(data@),
        budget <= u64::MAX,
        index <= data.len(),
        old(state).tracks(data@, budget),
        within(old(state).actions@, 0, index as int),
        old(best).consistent(data@, budget),
        old(state).earnings <= old(best).earnings,
    ensures
        final(state).balance == old(state).balance,
        final(state).earnings == old(state).earnings,
        final(state).actions@ == old(state).actions@,
        final(best).consistent(data@, budget),
        final(best).actions@ == binary_walk(
            data@,
            budget,
            index as int,
            old(state).actions@,
            old(best).actions@,
        ),
        final(best).earnings >= old(best).earnings,
        final(best).earnings >= old(state).earnings + benefit_sum(
            data@,
            best_from(data@, index as int, old(state).balance as int),
        ),
    decreases data.len() - index,
{
    if index < data.len() {
        let ghost a = state.actions@;
        let ghost bal = state.balance as int;
        explore(index + 1, data, state, best, Ghost(budget));
        if state.balance >= data[index].price {
            buy_action_and_check_best(index, data, state, best, Ghost(budget));
            explore(index + 1, data, state, best, Ghost(budget));
            remove_action(index, data, state, Ghost(budget));
            assert(state.actions@ =~= a);
            proof {
                lemma_sums_prepend(
                    data@,
                    index,
                    best_from(data@, index + 1, bal - data@[index as int].price),
                );
            }
        }
    }
}

/// Exhaustive include/exclude search with backtracking: every subset is
/// visited, and the first one found with the largest benefit is kept. The
/// result earns the maximum over all affordable selections, whatever the
/// order of the items.
pub fn brut_force_recursive_binary(data: Vec<Row>, balance: u64) -> (best: Best)
    requires
        rows_wf(data@),
    ensures
        best.consistent(data@, balance as int),
        best.actions@ == binary_walk(data@, balance as int, 0, seq![], seq![]),
        best.earnings == max_earnings(data@, balance as int),
{
    let mut best = Best { earnings: 0, actions: Vec::new(), balance };
    let mut state = SearchState { balance, earnings: 0, actions: Vec::new() };
    assert(best.actions@ =~= seq![]);
    explore(0, &data, &mut state, &mut best, Ghost(balance as int));
    proof {
        lemma_best_from_optimal(data@, 0, balance as int, best.actions@);
    }
    best
}

} // verus!
