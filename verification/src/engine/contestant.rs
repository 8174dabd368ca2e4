use crate::generation::math;
use vstd::prelude::*;

verus! {

#[derive(Debug, Clone, Copy, PartialEq, Eq, Structural)]
pub struct Contestant {
    /// Id handed out at registration.
    pub _id: u64,
    /// Available balance, in atomic-USD.
    pub balance: i64,
}

impl Contestant {
    /// A contestant that starts with a whole number of USD.
    pub fn new_with_decimals(id: u64, initial_balance_usd: i64, usd_decimals: i64) -> (r: Self)
        requires
            0 <= usd_decimals <= 18,
            i64::MIN <= initial_balance_usd * math::ten_to(usd_decimals as int) <= i64::MAX,
        ensures
            r._id == id,
            r.balance == initial_balance_usd * math::ten_to(usd_decimals as int),
    {
        proof {
            math::lemma_ten_to_step(18);
            math::lemma_ten_to_fits(19);
            math::lemma_ten_to_monotonic(usd_decimals as int, 18);
        }
        let scale: i64 = math::pow10(usd_decimals as u64) as i64;
        Contestant { _id: id, balance: initial_balance_usd * scale }
    }

    /// A contestant that starts with `initial_balance_usd_atomic` atomic-USD.
    pub fn new(id: u64, initial_balance_usd_atomic: i64) -> (r: Self)
        ensures
            r._id == id,
            r.balance == initial_balance_usd_atomic,
    {
        Contestant { _id: id, balance: initial_balance_usd_atomic }
    }
}

} // verus!
