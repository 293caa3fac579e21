use vstd::prelude::*;
use crate::model::{
    Best, Row, benefit_sum, is_selection, lemma_earnings_fit, lemma_sums_concat, lemma_sums_push,
    price_sum, rows_wf, within,
};

verus! {

/// The total price of a listing is at least that of any of its prefixes.
pub proof fn lemma_prefix_price(data: Seq<Row>, a: Seq<usize>, j: int)
    requires
        0 <= j <= a.len(),
    ensures
        price_sum(data, a.subrange(0, j)) <= price_sum(data, a),
{
    assert(a =~= a.subrange(0, j) + a.subrange(j, a.len() as int));
    lemma_sums_concat(data, a.subrange(0, j), a.subrange(j, a.len() as int));
}

/// Recomputes the totals of `best` from its chosen indices and tells whether
/// the result is consistent with `data` and the starting `balance`: the
/// indices are distinct, in increasing order and in range, the reported
/// balance is what is left after paying for them (never negative), and the
/// reported earnings are the sum of their benefits.
pub fn check_data(best: &Best, data: Vec<Row>, balance: u64) -> (ok: bool)
    requires
        rows_wf(data@),
    ensures
        ok == best.consistent(data@, balance as int),
{
    let ghost a = best.actions@;
    let mut total_price: u64 = 0;
    let mut total_earnings: u128 = 0;
    let mut j: usize = 0;
    while j < best.actions.len()
        invariant
            0 <= j <= a.len(),
            a == best.actions@,
            rows_wf(data@),
            is_selection(data@, a.subrange(0, j as int)),
            j > 0 ==> a[j - 1] < data.len(),
            total_price == price_sum(data@, a.subrange(0, j as int)),
            total_price <= balance,
            total_earnings == benefit_sum(data@, a.subrange(0, j as int)),
        decreases a.len() - j,
    {
        let index_row = best.actions[j];
        if index_row >= data.len() {
            return false;
        }
        if j > 0 && index_row <= best.actions[j - 1] {
            return false;
        }
        let row = &data[index_row];
        let ghost prefix = a.subrange(0, j as int);
        proof {
            assert(a.subrange(0, j + 1) =~= prefix.push(index_row));
            lemma_sums_push(data@, prefix, index_row);
            lemma_prefix_price(data@, a, j + 1);
        }
        if row.price > balance - total_price {
            return false;
        }
        proof {
            let next = prefix.push(index_row);
            assert(is_selection(data@, next)) by {
                assert forall|x: int, y: int| 0 <= x < y < next.len() implies next[x] < next[y] by {
                    if y < prefix.len() {
                        assert(prefix[x] < prefix[y]);
                    } else if x < j - 1 {
                        assert(prefix[x] < prefix[j - 1]);
                    }
                }
                assert forall|x: int| 0 <= x < next.len() implies 0 <= #[trigger] next[x] < data.len() by {
                    if x < prefix.len() {
                        assert(next[x] == prefix[x]);
                    }
                }
            }
            lemma_earnings_fit(data@, next);
        }
        total_price = total_price + row.price;
        total_earnings = total_earnings + row.benefits;
        j += 1;
    }
    assert(a.subrange(0, j as int) =~= a);
    best.balance == balance - total_price && best.earnings == total_earnings
}

} // verus!
