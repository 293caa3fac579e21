use vstd::prelude::*;

verus! {

/// The largest profit an item can carry, in hundredths of a percent.
pub const MAX_PROFIT: u32 = 0xFFFF_FFFF;

/// One purchasable item.
///
/// Amounts are exact fixed-point integers: `price` counts hundredths of the
/// currency unit, `profit` counts hundredths of a percent, and `benefits`
/// counts millionths of the currency unit, so that
/// `benefits = price * profit / 100` holds exactly as `price * profit`.
#[derive(Clone, Debug)]
pub struct Row {
    pub name: String,
    pub price: u64,
    pub profit: u32,
    pub benefits: u128,
}

impl Row {
    /// Prices and profits are positive, and the benefit is derived from them.
    pub open spec fn wf(&self) -> bool {
        &&& self.price > 0
        &&& self.profit > 0
        &&& self.benefits == self.price as int * self.profit as int
    }

    /// Builds an item and computes its benefit once.
    pub fn new(name: String, price: u64, profit: u32) -> (r: Row)
        requires
            price > 0,
            profit > 0,
        ensures
            r.wf(),
            r.name@ == name@,
            r.price == price,
            r.profit == profit,
    {
        assert(price as int * profit as int <= u64::MAX as int * u32::MAX as int) by (nonlinear_arith)
            requires price <= u64::MAX, profit <= u32::MAX;
        let benefits = price as u128 * profit as u128;
        Row { name, price, profit, benefits }
    }
}

/// Every item of the list is well formed.
pub open spec fn rows_wf(data: Seq<Row>) -> bool {
    forall|i: int| 0 <= i < data.len() ==> #[trigger] data[i].wf()
}

/// Total price of the items at the indices `c`.
pub open spec fn price_sum(data: Seq<Row>, c: Seq<usize>) -> nat
    decreases c.len(),
{
    if c.len() == 0 {
        0
    } else {
        (data[c[0] as int].price + price_sum(data, c.drop_first())) as nat
    }
}

/// Total benefit of the items at the indices `c`.
pub open spec fn benefit_sum(data: Seq<Row>, c: Seq<usize>) -> nat
    decreases c.len(),
{
    if c.len() == 0 {
        0
    } else {
        (data[c[0] as int].benefits + benefit_sum(data, c.drop_first())) as nat
    }
}

/// The indices are listed in strictly increasing order, hence distinct.
pub open spec fn increasing(c: Seq<usize>) -> bool {
    forall|i: int, j: int| 0 <= i < j < c.len() ==> c[i] < c[j]
}

/// Every index lies in `lo..hi`.
pub open spec fn within(c: Seq<usize>, lo: int, hi: int) -> bool {
    forall|i: int| 0 <= i < c.len() ==> lo <= #[trigger] c[i] < hi
}

/// An ordered set of distinct indices into `data`.
pub open spec fn is_selection(data: Seq<Row>, c: Seq<usize>) -> bool {
    increasing(c) && within(c, 0, data.len() as int)
}

/// A selection whose total price stays within `budget`.
pub open spec fn fits(data: Seq<Row>, budget: int, c: Seq<usize>) -> bool {
    is_selection(data, c) && price_sum(data, c) <= budget
}

/// The outcome of a search: the total benefit earned, the chosen indices in
/// increasing order, and what is left of the budget.
#[derive(Clone, Debug)]
pub struct Best {
    pub earnings: u128,
    pub actions: Vec<usize>,
    pub balance: u64,
}

impl Best {
    /// A copy with the same totals and the same indices.
    pub fn copy(&self) -> (r: Best)
        ensures
            r.earnings == self.earnings,
            r.actions@ == self.actions@,
            r.balance == self.balance,
    {
        let actions = self.actions.clone();
        assert(actions@ =~= self.actions@);
        Best { earnings: self.earnings, actions, balance: self.balance }
    }

    /// The totals agree with the chosen indices, which form a selection of
    /// `data` affordable within `budget`.
    pub open spec fn consistent(&self, data: Seq<Row>, budget: int) -> bool {
        &&& is_selection(data, self.actions@)
        &&& self.balance == budget - price_sum(data, self.actions@)
        &&& self.earnings == benefit_sum(data, self.actions@)
    }
}

/// Appending an index adds its price and benefit to the totals.
pub proof fn lemma_sums_push(data: Seq<Row>, c: Seq<usize>, x: usize)
    ensures
        price_sum(data, c.push(x)) == price_sum(data, c) + data[x as int].price,
        benefit_sum(data, c.push(x)) == benefit_sum(data, c) + data[x as int].benefits,
    decreases c.len(),
{
    if c.len() > 0 {
        assert(c.push(x).drop_first() =~= c.drop_first().push(x));
        lemma_sums_push(data, c.drop_first(), x);
    } else {
        assert(c.push(x).drop_first() =~= c);
    }
}

/// Prepending an index adds its price and benefit to the totals.
pub proof fn lemma_sums_prepend(data: Seq<Row>, x: usize, c: Seq<usize>)
    ensures
        price_sum(data, seq![x] + c) == data[x as int].price + price_sum(data, c),
        benefit_sum(data, seq![x] + c) == data[x as int].benefits + benefit_sum(data, c),
{
    assert((seq![x] + c).drop_first() =~= c);
}

/// The totals of two listings joined are the sums of their totals.
pub proof fn lemma_sums_concat(data: Seq<Row>, a: Seq<usize>, b: Seq<usize>)
    ensures
        price_sum(data, a + b) == price_sum(data, a) + price_sum(data, b),
        benefit_sum(data, a + b) == benefit_sum(data, a) + benefit_sum(data, b),
    decreases a.len(),
{
    if a.len() > 0 {
        assert((a + b).drop_first() =~= a.drop_first() + b);
        lemma_sums_concat(data, a.drop_first(), b);
    } else {
        assert(a + b =~= b);
    }
}

/// Benefits never exceed the price times the largest profit.
pub proof fn lemma_benefit_bound(data: Seq<Row>, c: Seq<usize>)
    requires
        rows_wf(data),
        within(c, 0, data.len() as int),
    ensures
        benefit_sum(data, c) <= price_sum(data, c) * MAX_PROFIT,
    decreases c.len(),
{
    if c.len() > 0 {
        let rest = c.drop_first();
        assert(within(rest, 0, data.len() as int)) by {
            assert forall|i: int| 0 <= i < rest.len() implies 0 <= #[trigger] rest[i] < data.len() by {
                assert(rest[i] == c[i + 1]);
            }
        }
        lemma_benefit_bound(data, rest);
        let r = data[c[0] as int];
        assert(r.wf());
        let b = r.benefits as int;
        let p = r.price as int;
        let q = r.profit as int;
        assert(b <= p * MAX_PROFIT) by (nonlinear_arith)
            requires b == p * q, 0 <= q <= MAX_PROFIT, p >= 0;
        assert((p + price_sum(data, rest)) * MAX_PROFIT == p * MAX_PROFIT + price_sum(data, rest) * MAX_PROFIT)
            by (nonlinear_arith);
    }
}

/// A selection affordable within a `u64` budget has earnings that fit in `u128`.
pub proof fn lemma_earnings_fit(data: Seq<Row>, c: Seq<usize>)
    requires
        rows_wf(data),
        within(c, 0, data.len() as int),
        price_sum(data, c) <= u64::MAX,
    ensures
        benefit_sum(data, c) < u128::MAX,
{
    lemma_benefit_bound(data, c);
    let p = price_sum(data, c) as int;
    assert(p * MAX_PROFIT <= u64::MAX as int * MAX_PROFIT) by (nonlinear_arith)
        requires 0 <= p <= u64::MAX;
}

} // verus!
