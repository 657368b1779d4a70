//! The decisions of an order-matching round that works on encrypted totals.
//!
//! The party that holds the secret key decrypts only the 0/1 outcome of a
//! comparison; what follows from an outcome is decided here.

use vstd::prelude::*;

verus! {

/// What to do with an order once its comparison with the remaining total of
/// the other side has been decrypted.
#[derive(Clone, Copy, Debug, PartialEq, Eq, Structural)]
pub enum Decision {
    /// The order fits: it is filled and taken off the remaining total.
    Fill,
    /// The order does not fit: it is recorded as unfilled.
    Skip,
}

/// The decision that belongs to a decrypted outcome, if it is 0 or 1.
pub open spec fn decision_of(outcome: int) -> Option<Decision> {
    if outcome == 1 {
        Some(Decision::Fill)
    } else if outcome == 0 {
        Some(Decision::Skip)
    } else {
        None
    }
}

/// Decides on an order from the decrypted outcome of "order < remaining
/// total". An outcome other than 0 or 1 cannot come from a comparison and
/// gives no decision.
pub fn decide(outcome: u64) -> (decision: Option<Decision>)
    ensures
        decision == decision_of(outcome as int),
{
    if outcome == 1 {
        Some(Decision::Fill)
    } else if outcome == 0 {
        Some(Decision::Skip)
    } else {
        None
    }
}

/// The volume that a round can trade: the smaller of the two totals.
pub open spec fn smaller(buy_sum: int, sell_sum: int) -> int {
    if buy_sum < sell_sum {
        buy_sum
    } else {
        sell_sum
    }
}

/// The volume of a round, from the decrypted outcome of "buy total < sell
/// total" and the two decrypted totals: the buy total if it is the smaller
/// one, and the sell total otherwise.
pub fn transaction_volume(buy_is_less: u64, buy_sum: u64, sell_sum: u64) -> (volume: Option<u64>)
    ensures
        buy_is_less == 1 ==> volume == Some(buy_sum),
        buy_is_less == 0 ==> volume == Some(sell_sum),
        buy_is_less > 1 ==> volume is None,
        buy_is_less == (if buy_sum < sell_sum {
            1int
        } else {
            0int
        }) ==> volume == Some(smaller(buy_sum as int, sell_sum as int) as u64),
{
    match decide(buy_is_less) {
        Some(Decision::Fill) => Some(buy_sum),
        Some(Decision::Skip) => Some(sell_sum),
        None => None,
    }
}

/// What is left of `total` after the first `k` orders were offered to it in
/// turn, each one taken off if it is smaller than what was left.
pub open spec fn remaining(orders: Seq<u64>, total: int, k: int) -> int
    decreases k,
{
    if k <= 0 {
        total
    } else {
        let left = remaining(orders, total, k - 1);
        if orders[k - 1] < left {
            left - orders[k - 1]
        } else {
            left
        }
    }
}

/// The amount filled of order `k`: all of it if it is smaller than what is
/// left when its turn comes, and nothing otherwise.
pub open spec fn filled_amount(orders: Seq<u64>, total: int, k: int) -> int {
    if orders[k] < remaining(orders, total, k) {
        orders[k] as int
    } else {
        0
    }
}

/// The filled amounts of `orders`, offered in turn to the total of the other
/// side, on plaintexts.
pub fn fill_orders(orders: &[u64], opposite_total: u64) -> (filled: Vec<u64>)
    ensures
        filled@.len() == orders@.len(),
        forall|k: int|
            0 <= k < orders@.len() ==> #[trigger] filled@[k] as int == filled_amount(
                orders@,
                opposite_total as int,
                k,
            ),
{
    let mut filled: Vec<u64> = Vec::new();
    let mut left: u64 = opposite_total;
    let mut k: usize = 0;
    while k < orders.len()
        invariant
            k <= orders@.len(),
            filled@.len() == k,
            left as int == remaining(orders@, opposite_total as int, k as int),
            forall|j: int|
                0 <= j < k ==> #[trigger] filled@[j] as int == filled_amount(
                    orders@,
                    opposite_total as int,
                    j,
                ),
        decreases orders@.len() - k,
    {
        let order: u64 = orders[k];
        match decide(if order < left {
            1
        } else {
            0
        }) {
            Some(Decision::Fill) => {
                left = left - order;
                filled.push(order);
            },
            _ => {
                filled.push(0);
            },
        }
        k += 1;
    }
    filled
}

} // verus!
