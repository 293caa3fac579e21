use portfolio_select::algorithms::run_algorithme;
use portfolio_select::checker::check_data;
use portfolio_select::exhaustive::{brut_force_recursive_binary, brut_force_recursive_redondant};
use portfolio_select::greedy::optimized_one_loop;
use portfolio_select::model::{Best, Row};
use portfolio_select::pruned::{optimized_recursive, optimized_recursive_stack};
use portfolio_select::units::{row_from_decimals, to_hundredths};

/// One currency unit, in the millionths that benefits are counted in.
const UNIT: u128 = 1_000_000;

fn row(name: &str, price_units: u64, profit_percent: u32) -> Row {
    Row::new(name.to_string(), price_units * 100, profit_percent * 100)
}

/// The three-item example sorted by decreasing profit percentage:
/// 50 at 20%, 100 at 10%, 200 at 8%.
fn sorted_example() -> Vec<Row> {
    vec![row("c", 50, 20), row("a", 100, 10), row("b", 200, 8)]
}

fn sample() -> Vec<Row> {
    vec![
        row("s0", 30, 25),
        row("s1", 45, 22),
        row("s2", 20, 19),
        row("s3", 60, 17),
        row("s4", 75, 15),
        row("s5", 15, 12),
        row("s6", 90, 11),
        row("s7", 40, 9),
        row("s8", 55, 6),
    ]
}

fn same(a: &Best, b: &Best) -> bool {
    a.earnings == b.earnings && a.actions == b.actions && a.balance == b.balance
}

#[test]
fn row_benefit_is_price_times_profit() {
    let r = Row::new("x".to_string(), 10_000, 1_000);
    assert_eq!(r.benefits, 10 * UNIT);
    let r = Row::new("y".to_string(), 1_999, 1_234);
    // 19.99 at 12.34% earns 2.466766
    assert_eq!(r.benefits, 2_466_766);
}

#[test]
fn binary_search_beats_greedy_on_example() {
    let budget = 25_000;
    let best = brut_force_recursive_binary(sorted_example(), budget);
    assert_eq!(best.actions, vec![0, 2]);
    assert_eq!(best.earnings, 26 * UNIT);
    assert_eq!(best.balance, 0);
    assert!(check_data(&best, sorted_example(), budget));

    let greedy = optimized_one_loop(sorted_example(), budget);
    assert_eq!(greedy.actions, vec![0, 1]);
    assert_eq!(greedy.earnings, 20 * UNIT);
    assert_eq!(greedy.balance, 10_000);
    assert!(check_data(&greedy, sorted_example(), budget));
    assert!(best.earnings > greedy.earnings);
}

#[test]
fn binary_search_needs_no_order() {
    let listed = vec![row("a", 100, 10), row("b", 200, 8), row("c", 50, 20)];
    let best = brut_force_recursive_binary(listed, 25_000);
    assert_eq!(best.actions, vec![1, 2]);
    assert_eq!(best.earnings, 26 * UNIT);
    assert_eq!(best.balance, 0);
}

#[test]
fn redundant_search_on_example() {
    let best = brut_force_recursive_redondant(sorted_example(), 25_000);
    assert_eq!(best.actions, vec![0, 2]);
    assert_eq!(best.earnings, 26 * UNIT);
    assert_eq!(best.balance, 0);
}

#[test]
fn pruned_searches_on_example() {
    let a = optimized_recursive(sorted_example(), 25_000);
    assert_eq!(a.actions, vec![0, 1]);
    assert_eq!(a.earnings, 20 * UNIT);
    assert_eq!(a.balance, 10_000);
    let b = optimized_recursive_stack(sorted_example(), 25_000);
    assert_eq!(b.actions, vec![0, 1]);
    assert_eq!(b.earnings, 20 * UNIT);
    assert_eq!(b.balance, 10_000);
}

#[test]
fn every_result_passes_the_checker() {
    for budget in [0u64, 1_000, 5_000, 12_345, 20_000, 50_000] {
        for algorithme in 0..5 {
            let best = run_algorithme(algorithme, sample(), budget);
            assert!(check_data(&best, sample(), budget));
            let spent: u64 = best.actions.iter().map(|&i| sample()[i].price).sum();
            assert!(spent <= budget);
            assert_eq!(best.balance, budget - spent);
        }
    }
}

#[test]
fn exhaustive_searches_agree_and_dominate() {
    for budget in [0u64, 2_500, 7_000, 12_000, 18_000, 30_000, 100_000] {
        let binary = run_algorithme(0, sample(), budget);
        let redundant = run_algorithme(1, sample(), budget);
        assert_eq!(binary.earnings, redundant.earnings);
        for algorithme in 2..5 {
            let other = run_algorithme(algorithme, sample(), budget);
            assert!(other.earnings <= binary.earnings);
        }
    }
}

#[test]
fn empty_list_buys_nothing() {
    for algorithme in 0..5 {
        let best = run_algorithme(algorithme, Vec::new(), 777);
        assert_eq!(best.earnings, 0);
        assert!(best.actions.is_empty());
        assert_eq!(best.balance, 777);
    }
}

#[test]
fn single_affordable_item_is_bought() {
    for budget in [5_000u64, 5_001, 90_000] {
        for algorithme in 0..5 {
            let best = run_algorithme(algorithme, vec![row("only", 50, 20)], budget);
            assert_eq!(best.actions, vec![0]);
            assert_eq!(best.earnings, 10 * UNIT);
            assert_eq!(best.balance, budget - 5_000);
        }
    }
}

#[test]
fn single_unaffordable_item_is_not_bought() {
    for algorithme in 0..2 {
        let best = run_algorithme(algorithme, vec![row("only", 50, 20)], 4_999);
        assert!(best.actions.is_empty());
        assert_eq!(best.earnings, 0);
        assert_eq!(best.balance, 4_999);
    }
}

#[test]
fn running_twice_gives_the_same_result() {
    for algorithme in 0..5 {
        let first = run_algorithme(algorithme, sample(), 16_000);
        let second = run_algorithme(algorithme, sample(), 16_000);
        assert!(same(&first, &second));
    }
}

#[test]
fn checker_rejects_wrong_totals() {
    let budget = 25_000;
    let good = brut_force_recursive_binary(sorted_example(), budget);
    assert!(check_data(&good, sorted_example(), budget));

    let wrong_earnings = Best { earnings: good.earnings + 1, actions: good.actions.clone(), balance: good.balance };
    assert!(!check_data(&wrong_earnings, sorted_example(), budget));

    let wrong_balance = Best { earnings: good.earnings, actions: good.actions.clone(), balance: 1 };
    assert!(!check_data(&wrong_balance, sorted_example(), budget));

    let out_of_range = Best { earnings: 0, actions: vec![3], balance: budget };
    assert!(!check_data(&out_of_range, sorted_example(), budget));

    let repeated = Best { earnings: 20 * UNIT, actions: vec![0, 0], balance: 15_000 };
    assert!(!check_data(&repeated, sorted_example(), budget));

    let overspent = Best { earnings: 36 * UNIT, actions: vec![0, 1, 2], balance: 0 };
    assert!(!check_data(&overspent, sorted_example(), budget));

    let nothing = Best { earnings: 0, actions: Vec::new(), balance: budget };
    assert!(check_data(&nothing, sorted_example(), budget));
}

#[test]
fn decimals_become_hundredths() {
    assert_eq!(to_hundredths(125, 1), Some(1_250));
    assert_eq!(to_hundredths(7, 0), Some(700));
    assert_eq!(to_hundredths(1999, 2), Some(1_999));
    assert_eq!(to_hundredths(120, 3), Some(12));
    assert_eq!(to_hundredths(1234, 3), None);
    assert_eq!(to_hundredths(0, 0), None);
    assert_eq!(to_hundredths(-5, 0), None);
    assert_eq!(to_hundredths(1, 40), None);
}

#[test]
fn rows_from_decimals() {
    let r = row_from_decimals("a".to_string(), 10000, 2, 10, 0).unwrap();
    assert_eq!(r.price, 10_000);
    assert_eq!(r.profit, 1_000);
    assert_eq!(r.benefits, 10 * UNIT);
    assert_eq!(r.name, "a");
    assert!(row_from_decimals("b".to_string(), -100, 0, 10, 0).is_none());
    assert!(row_from_decimals("c".to_string(), 100, 0, 0, 0).is_none());
    assert!(row_from_decimals("d".to_string(), 100, 0, 50_000_000, 0).is_none());
    assert!(row_from_decimals("e".to_string(), 1_000_000_000_000_000_000, 0, 10, 0).is_none());
}
