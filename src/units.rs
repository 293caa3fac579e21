use vstd::prelude::*;
use vstd::arithmetic::div_mod::lemma_mod_multiples_basic;
use crate::model::Row;

verus! {

/// Ten to the power `e`.
pub open spec fn pow10(e: nat) -> nat
    decreases e,
{
    if e == 0 {
        1
    } else {
        10 * pow10((e - 1) as nat)
    }
}

/// Powers of ten grow with the exponent and split over a sum of exponents.
pub proof fn lemma_pow10_add(a: nat, b: nat)
    ensures
        pow10(a + b) == pow10(a) * pow10(b),
        pow10(a) >= 1,
        pow10(a + b) >= pow10(a),
    decreases a,
{
    if a > 0 {
        lemma_pow10_add((a - 1) as nat, b);
        assert(pow10(a + b) == 10 * pow10((a - 1 + b) as nat));
        assert(10 * (pow10((a - 1) as nat) * pow10(b)) == (10 * pow10((a - 1) as nat)) * pow10(b))
            by (nonlinear_arith);
    } else {
        assert(pow10(0) == 1);
        assert(a + b == b);
        lemma_pow10_add_zero(b);
    }
}

proof fn lemma_pow10_add_zero(b: nat)
    ensures
        pow10(b) >= 1,
    decreases b,
{
    if b > 0 {
        lemma_pow10_add_zero((b - 1) as nat);
    }
}

/// The decimal `mantissa / 10^scale` counted in hundredths, when it is a
/// positive whole number of hundredths that fits in a `u128`; `None` when it
/// is zero or negative, has a finer fractional part, or is too large.
pub fn to_hundredths(mantissa: i128, scale: u32) -> (r: Option<u128>)
    ensures
        r matches Some(h) ==> h > 0 && h * pow10(scale as nat) == mantissa * 100,
        r is None ==> forall|h: int|
            0 < h <= u128::MAX ==> #[trigger] (h * pow10(scale as nat)) != mantissa * 100,
{
    if mantissa <= 0 {
        assert forall|h: int| 0 < h <= u128::MAX implies #[trigger] (h * pow10(scale as nat)) != mantissa * 100 by {
            lemma_pow10_add(scale as nat, 0);
            let p = pow10(scale as nat) as int;
            assert(h * p > 0) by (nonlinear_arith)
                requires h > 0, p >= 1;
        }
        return None;
    }
    let m = mantissa as u128;
    if scale <= 2 {
        let f: u128 = if scale == 0 {
            100
        } else if scale == 1 {
            10
        } else {
            1
        };
        assert(pow10(scale as nat) * f == 100) by {
            reveal_with_fuel(pow10, 3);
        }
        match m.checked_mul(f) {
            Some(h) => {
                assert(h * pow10(scale as nat) == m * 100) by (nonlinear_arith)
                    requires h == m * f, pow10(scale as nat) * f == 100;
                Some(h)
            },
            None => {
                assert forall|h: int| 0 < h <= u128::MAX implies #[trigger] (h * pow10(scale as nat)) != mantissa * 100 by {
                    let p = pow10(scale as nat) as int;
                    if h * p == mantissa * 100 {
                        assert(h * 100 == (m * f) * 100) by (nonlinear_arith)
                            requires h * p == m * 100, p * f == 100;
                        assert(h == m * f) by (nonlinear_arith)
                            requires h * 100 == (m * f) * 100;
                    }
                }
                None
            },
        }
    } else {
        let target: u32 = scale - 2;
        let mut d: u128 = 1;
        let mut e: u32 = 0;
        while e < target
            invariant
                e <= target,
                target == scale - 2,
                d == pow10(e as nat),
                mantissa > 0,
                m == mantissa,
            decreases target - e,
        {
            match d.checked_mul(10) {
                Some(x) => {
                    d = x;
                    e = e + 1;
                },
                None => {
                    proof {
                        lemma_pow10_add((e + 1) as nat, (target - e - 1) as nat);
                        lemma_pow10_add(2, target as nat);
                        assert(pow10(2) == 100) by {
                            reveal_with_fuel(pow10, 3);
                        }
                        assert(pow10((e + 1) as nat) == 10 * d);
                    }
                    let ghost big_d = pow10(target as nat) as int;
                    assert forall|h: int| 0 < h <= u128::MAX implies #[trigger] (h * pow10(scale as nat)) != mantissa * 100 by {
                        if h * pow10(scale as nat) == mantissa * 100 {
                            assert(h * big_d == m) by (nonlinear_arith)
                                requires h * pow10(scale as nat) == m * 100, pow10(scale as nat) == 100 * big_d;
                            assert(h * big_d >= big_d) by (nonlinear_arith)
                                requires h >= 1, big_d >= 0;
                        }
                    }
                    return None;
                },
            }
        }
        proof {
            lemma_pow10_add(2, target as nat);
            assert(pow10(2) == 100) by {
                reveal_with_fuel(pow10, 3);
            }
        }
        let rem = m % d;
        if rem == 0 {
            let h = m / d;
            assert(h * d == m) by (nonlinear_arith)
                requires h == m / d, m % d == 0, d >= 1;
            assert(h > 0) by (nonlinear_arith)
                requires h * d == m, m > 0;
            assert(h * pow10(scale as nat) == m * 100) by (nonlinear_arith)
                requires h * d == m, pow10(scale as nat) == 100 * d;
            Some(h)
        } else {
            assert forall|h: int| 0 < h <= u128::MAX implies #[trigger] (h * pow10(scale as nat)) != mantissa * 100 by {
                if h * pow10(scale as nat) == mantissa * 100 {
                    assert(h * d == m) by (nonlinear_arith)
                        requires h * pow10(scale as nat) == m * 100, pow10(scale as nat) == 100 * d;
                    lemma_mod_multiples_basic(h, d as int);
                }
            }
            None
        }
    }
}

/// Builds an item from a price and a profit percentage given as decimals
/// `mantissa / 10^scale`. The price is kept in hundredths of the currency
/// unit and the profit in hundredths of a percent; the item is refused
/// (`None`) when either is not positive, is not a whole number of
/// hundredths, or does not fit (`u64` for the price, `u32` for the profit).
pub fn row_from_decimals(
    name: String,
    price_mantissa: i128,
    price_scale: u32,
    profit_mantissa: i128,
    profit_scale: u32,
) -> (r: Option<Row>)
    ensures
        r matches Some(row) ==> {
            &&& row.wf()
            &&& row.name@ == name@
            &&& row.price * pow10(price_scale as nat) == price_mantissa * 100
            &&& row.profit * pow10(profit_scale as nat) == profit_mantissa * 100
        },
        r is None ==> forall|p: int, q: int|
            0 < p <= u64::MAX && 0 < q <= u32::MAX ==> #[trigger] (p * pow10(price_scale as nat))
                != price_mantissa * 100 || #[trigger] (q * pow10(profit_scale as nat))
                != profit_mantissa * 100,
{
    let price = to_hundredths(price_mantissa, price_scale);
    let profit = to_hundredths(profit_mantissa, profit_scale);
    match (price, profit) {
        (Some(p), Some(q)) => {
            if p > u64::MAX as u128 || q > u32::MAX as u128 {
                assert forall|p2: int, q2: int|
                    0 < p2 <= u64::MAX && 0 < q2 <= u32::MAX implies #[trigger] (p2 * pow10(price_scale as nat))
                        != price_mantissa * 100 || #[trigger] (q2 * pow10(profit_scale as nat))
                        != profit_mantissa * 100 by {
                    lemma_pow10_add(price_scale as nat, 0);
                    lemma_pow10_add(profit_scale as nat, 0);
                    let a = pow10(price_scale as nat) as int;
                    let b = pow10(profit_scale as nat) as int;
                    if p2 * a == price_mantissa * 100 && q2 * b == profit_mantissa * 100 {
                        assert(p2 == p) by (nonlinear_arith)
                            requires p2 * a == p * a, a >= 1;
                        assert(q2 == q) by (nonlinear_arith)
                            requires q2 * b == q * b, b >= 1;
                    }
                }
                None
            } else {
                Some(Row::new(name, p as u64, q as u32))
            }
        },
        _ => None,
    }
}

} // verus!
