use vstd::prelude::*;
use crate::exhaustive::{
    best_from, binary_walk, brut_force_recursive_binary, brut_force_recursive_redondant,
    lemma_best_from_optimal, max_earnings,
};
use crate::greedy::{greedy_choice, greedy_prefix, lemma_push_selection, optimized_one_loop};
use crate::model::{
    Best, Row, benefit_sum, fits, increasing, is_selection, lemma_sums_prepend, lemma_sums_push,
    price_sum, rows_wf, within,
};
use crate::pruned::{
    lemma_prepend_ordered, optimized_recursive, optimized_recursive_stack, pruned_walk, stack_walk,
};

verus! {

/// The number of search strategies that `run_algorithme` dispatches to.
pub const ALGORITHM_COUNT: usize = 5;

/// The selection that strategy `algorithme` makes: 0 is the exhaustive
/// include/exclude search, 1 the exhaustive search that compares buying
/// with skipping, 2 the pruned recursive search, 3 the single greedy pass
/// and 4 the pruned search driven by a cursor.
pub open spec fn selection_of(algorithme: int, data: Seq<Row>, budget: int) -> Seq<usize> {
    if algorithme == 0 {
        binary_walk(data, budget, 0, seq![], seq![])
    } else if algorithme == 1 {
        best_from(data, 0, budget)
    } else if algorithme == 2 {
        pruned_walk(data, budget, seq![], 0, seq![], false)
    } else if algorithme == 3 {
        greedy_choice(data, budget)
    } else {
        stack_walk(data, budget, 0, seq![], false)
    }
}

/// Runs the strategy numbered `algorithme` on the items and the budget.
pub fn run_algorithme(algorithme: usize, data: Vec<Row>, balance: u64) -> (best: Best)
    requires
        algorithme < ALGORITHM_COUNT,
        rows_wf(data@),
    ensures
        best.consistent(data@, balance as int),
        best.actions@ == selection_of(algorithme as int, data@, balance as int),
{
    match algorithme {
        0 => brut_force_recursive_binary(data, balance),
        1 => brut_force_recursive_redondant(data, balance),
        2 => optimized_recursive(data, balance),
        3 => optimized_one_loop(data, balance),
        _ => optimized_recursive_stack(data, balance),
    }
}

proof fn lemma_greedy_fits(data: Seq<Row>, budget: int, k: int)
    requires
        0 <= k <= data.len() <= usize::MAX,
    ensures
        is_selection(data, greedy_prefix(data, budget, k)),
        within(greedy_prefix(data, budget, k), 0, k),
        budget >= 0 ==> price_sum(data, greedy_prefix(data, budget, k)) <= budget,
    decreases k,
{
    if k > 0 {
        let prev = greedy_prefix(data, budget, k - 1);
        lemma_greedy_fits(data, budget, k - 1);
        lemma_sums_push(data, prev, (k - 1) as usize);
        lemma_push_selection(data, prev, (k - 1) as usize);
    }
}

proof fn lemma_pruned_fits(
    data: Seq<Row>,
    budget: int,
    actions: Seq<usize>,
    k: int,
    current: Seq<usize>,
    stopped: bool,
)
    requires
        0 <= k <= data.len() <= usize::MAX,
        is_selection(data, actions),
        within(actions, 0, k),
        price_sum(data, actions) <= budget,
        fits(data, budget, current),
    ensures
        fits(data, budget, pruned_walk(data, budget, actions, k, current, stopped)),
    decreases data.len() - k,
{
    if k < data.len() {
        if budget - price_sum(data, actions) < data[k].price {
            lemma_pruned_fits(data, budget, actions, k + 1, current, stopped);
        } else if !stopped {
            let bought = actions.push(k as usize);
            lemma_sums_push(data, actions, k as usize);
            lemma_push_selection(data, actions, k as usize);
            let cur1 = if benefit_sum(data, bought) > benefit_sum(data, current) {
                bought
            } else {
                current
            };
            lemma_pruned_fits(data, budget, bought, k + 1, bought, false);
            let rec = pruned_walk(data, budget, bought, k + 1, bought, false);
            lemma_pruned_fits(data, budget, actions, k + 1, rec, false);
            lemma_pruned_fits(data, budget, actions, k + 1, cur1, true);
        }
    }
}

proof fn lemma_stack_fits(
    data: Seq<Row>,
    bal: int,
    lo: int,
    k: int,
    current: Seq<usize>,
    stopped: bool,
)
    requires
        0 <= lo <= k <= data.len() <= usize::MAX,
        increasing(current),
        within(current, lo, data.len() as int),
        price_sum(data, current) <= bal,
    ensures
        increasing(stack_walk(data, bal, k, current, stopped)),
        within(stack_walk(data, bal, k, current, stopped), lo, data.len() as int),
        price_sum(data, stack_walk(data, bal, k, current, stopped)) <= bal,
    decreases data.len() - k,
{
    if k < data.len() {
        let p = data[k].price as int;
        if bal < p {
            lemma_stack_fits(data, bal, lo, k + 1, current, stopped);
        } else if !stopped {
            let ku = k as usize;
            let tail = stack_walk(data, bal - p, k + 1, seq![], false);
            lemma_stack_fits(data, bal - p, k + 1, k + 1, seq![], false);
            lemma_prepend_ordered(ku, tail, data.len() as int);
            lemma_sums_prepend(data, ku, tail);
            lemma_prepend_ordered(ku, seq![], data.len() as int);
            lemma_sums_prepend(data, ku, seq![]);
            assert(seq![ku] + Seq::<usize>::empty() =~= seq![ku]);
            let rec = seq![ku] + tail;
            assert(within(rec, lo, data.len() as int));
            assert(within(seq![ku], lo, data.len() as int));
            lemma_stack_fits(data, bal, lo, k + 1, rec, false);
            lemma_stack_fits(data, bal, lo, k + 1, seq![ku], true);
            lemma_stack_fits(data, bal, lo, k + 1, current, true);
        }
    }
}

proof fn lemma_binary_walk(
    data: Seq<Row>,
    budget: int,
    i: int,
    cur: Seq<usize>,
    best: Seq<usize>,
)
    requires
        0 <= i <= data.len() <= usize::MAX,
        is_selection(data, cur),
        within(cur, 0, i),
        price_sum(data, cur) <= budget,
        fits(data, budget, best),
        benefit_sum(data, cur) <= benefit_sum(data, best),
    ensures
        fits(data, budget, binary_walk(data, budget, i, cur, best)),
        benefit_sum(data, binary_walk(data, budget, i, cur, best)) >= benefit_sum(data, best),
        benefit_sum(data, binary_walk(data, budget, i, cur, best)) >= benefit_sum(data, cur)
            + benefit_sum(data, best_from(data, i, budget - price_sum(data, cur))),
    decreases data.len() - i,
{
    if i < data.len() {
        let bal = budget - price_sum(data, cur);
        lemma_binary_walk(data, budget, i + 1, cur, best);
        let b1 = binary_walk(data, budget, i + 1, cur, best);
        if data[i].price <= bal {
            let iu = i as usize;
            let cur2 = cur.push(iu);
            lemma_sums_push(data, cur, iu);
            lemma_push_selection(data, cur, iu);
            let b2 = if benefit_sum(data, cur2) > benefit_sum(data, b1) {
                cur2
            } else {
                b1
            };
            lemma_binary_walk(data, budget, i + 1, cur2, b2);
            lemma_sums_prepend(data, iu, best_from(data, i + 1, bal - data[i].price));
        }
    }
}

/// Both exhaustive searches earn the largest total benefit of any affordable
/// selection, hence the same amount, and the pruned searches and the greedy
/// pass never earn more than they do.
pub proof fn lemma_exhaustive_searches_dominate(data: Seq<Row>, budget: u64)
    requires
        data.len() <= usize::MAX,
    ensures
        benefit_sum(data, selection_of(0, data, budget as int)) == max_earnings(data, budget as int),
        benefit_sum(data, selection_of(1, data, budget as int)) == max_earnings(data, budget as int),
        benefit_sum(data, selection_of(2, data, budget as int)) <= max_earnings(data, budget as int),
        benefit_sum(data, selection_of(3, data, budget as int)) <= max_earnings(data, budget as int),
        benefit_sum(data, selection_of(4, data, budget as int)) <= max_earnings(data, budget as int),
{
    let b = budget as int;
    let e = Seq::<usize>::empty();
    lemma_every_search_fits(data, budget);
    lemma_binary_walk(data, b, 0, e, e);
    assert(b - price_sum(data, e) == b);
    lemma_best_from_optimal(data, 0, b, selection_of(0, data, b));
    lemma_best_from_optimal(data, 0, b, selection_of(2, data, b));
    lemma_best_from_optimal(data, 0, b, selection_of(3, data, b));
    lemma_best_from_optimal(data, 0, b, selection_of(4, data, b));
}

/// Every strategy chooses an ordered set of distinct items whose total price
/// stays within the budget.
pub proof fn lemma_every_search_fits(data: Seq<Row>, budget: u64)
    requires
        data.len() <= usize::MAX,
    ensures
        forall|a: int| 0 <= a < ALGORITHM_COUNT ==> fits(data, budget as int, #[trigger] selection_of(a, data, budget as int)),
{
    let b = budget as int;
    let e = Seq::<usize>::empty();
    lemma_binary_walk(data, b, 0, e, e);
    lemma_stack_fits(data, b, 0, 0, e, false);
    lemma_pruned_fits(data, b, e, 0, e, false);
    lemma_greedy_fits(data, b, data.len() as int);
    lemma_every_selection_fits_best_from(data, 0, b);
}

/// With no items, every strategy buys nothing: it earns nothing and keeps
/// the whole budget.
pub proof fn lemma_empty_list(data: Seq<Row>, budget: u64)
    requires
        data.len() == 0,
    ensures
        forall|a: int| 0 <= a < ALGORITHM_COUNT ==> #[trigger] selection_of(a, data, budget as int) == Seq::<usize>::empty(),
        benefit_sum(data, Seq::<usize>::empty()) == 0,
        price_sum(data, Seq::<usize>::empty()) == 0,
{
}

/// With a single item whose price the budget covers, every strategy buys it;
/// when the budget falls short of its price, the exhaustive searches buy
/// nothing.
pub proof fn lemma_single_item(data: Seq<Row>, budget: u64)
    requires
        data.len() == 1,
        rows_wf(data),
    ensures
        data[0].price <= budget ==> forall|a: int| 0 <= a < ALGORITHM_COUNT ==> #[trigger] selection_of(a, data, budget as int) == seq![0usize],
        data[0].price > budget ==> selection_of(0, data, budget as int) == Seq::<usize>::empty(),
        data[0].price > budget ==> selection_of(1, data, budget as int) == Seq::<usize>::empty(),
{
    let b = budget as int;
    let e = Seq::<usize>::empty();
    let one = seq![0usize];
    assert(data[0].wf());
    let (p0, q0) = (data[0].price as int, data[0].profit as int);
    assert(p0 * q0 > 0) by (nonlinear_arith)
        requires p0 > 0, q0 > 0;
    lemma_sums_prepend(data, 0, e);
    assert(seq![0usize] + e =~= one);
    assert(e.push(0usize) =~= one);
    assert(benefit_sum(data, one) == data[0].benefits);
    assert(price_sum(data, one) == data[0].price);
    assert(binary_walk(data, b, 1, e, e) == e);
    assert(best_from(data, 1, b) == e);
    assert(best_from(data, 1, b - data[0].price) == e);
    assert(stack_walk(data, b - data[0].price, 1, e, false) == e);
    assert(greedy_prefix(data, b, 0) == e);
    if data[0].price <= budget {
        assert(binary_walk(data, b, 1, one, one) == one);
        assert(pruned_walk(data, b, one, 1, one, false) == one);
        assert(pruned_walk(data, b, e, 1, one, true) == one);
        assert(stack_walk(data, b, 1, one, true) == one);
        assert(selection_of(0, data, b) == one);
        assert(selection_of(1, data, b) == one);
        assert(selection_of(2, data, b) == one);
        assert(selection_of(3, data, b) == one);
        assert(selection_of(4, data, b) == one);
    }
}

/// Running the same strategy twice on the same items and budget gives the
/// same result: the chosen indices are a function of the input, and a
/// consistent result is fixed by its chosen indices.
pub proof fn lemma_result_determined(
    algorithme: int,
    data: Seq<Row>,
    budget: u64,
    r1: Best,
    r2: Best,
)
    requires
        0 <= algorithme < ALGORITHM_COUNT,
        r1.consistent(data, budget as int),
        r1.actions@ == selection_of(algorithme, data, budget as int),
        r2.consistent(data, budget as int),
        r2.actions@ == selection_of(algorithme, data, budget as int),
    ensures
        r1.earnings == r2.earnings,
        r1.actions@ == r2.actions@,
        r1.balance == r2.balance,
{
}

proof fn lemma_every_selection_fits_best_from(data: Seq<Row>, i: int, bal: int)
    requires
        0 <= i <= data.len() <= usize::MAX,
        bal >= 0,
    ensures
        increasing(best_from(data, i, bal)),
        within(best_from(data, i, bal), i, data.len() as int),
        price_sum(data, best_from(data, i, bal)) <= bal,
    decreases data.len() - i,
{
    if i < data.len() {
        let iu = i as usize;
        let skipped = best_from(data, i + 1, bal);
        lemma_every_selection_fits_best_from(data, i + 1, bal);
        assert(within(skipped, i, data.len() as int));
        if data[i].price <= bal {
            let tail = best_from(data, i + 1, bal - data[i].price);
            lemma_every_selection_fits_best_from(data, i + 1, bal - data[i].price);
            lemma_prepend_ordered(iu, tail, data.len() as int);
            lemma_sums_prepend(data, iu, tail);
        }
    }
}

} // verus!
