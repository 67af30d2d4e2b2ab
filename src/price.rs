use vstd::prelude::*;

verus! {

/// A candidate transaction as the builder sees it in the pool.
///
/// `max_priority_fee_per_gas` is `None` for a legacy transaction, whose
/// single gas price is `max_fee_per_gas`.
#[derive(Clone, Copy, Debug, PartialEq, Eq, Structural)]
pub struct Transaction {
    pub max_fee_per_gas: u128,
    pub max_priority_fee_per_gas: Option<u128>,
    pub gas_used: u64,
}

/// The tip per unit of gas that a transaction pays on top of `base_fee`:
/// undefined when the base fee exceeds what it is willing to pay, otherwise
/// the surplus over the base fee, capped by its priority fee if it has one.
pub open spec fn effective_tip(max_fee: u128, priority: Option<u128>, base_fee: u64) -> Option<u128> {
    if max_fee < base_fee as u128 {
        None
    } else {
        let surplus = (max_fee - base_fee as u128) as u128;
        match priority {
            Some(p) => Some(if p < surplus { p } else { surplus }),
            None => Some(surplus),
        }
    }
}

/// `floor(max_fee * percent / 100)`.
pub open spec fn cutoff_of(max_fee: u128, percent: u128) -> int {
    (max_fee as int * percent as int) / 100
}

/// Scoring of an order against the current fee market.
pub trait Helper {
    /// The price the order offers per unit of gas.
    spec fn order_price(&self) -> u128;

    /// What the order pays per unit of gas beyond `base_fee`, if anything.
    spec fn tip_at(&self, base_fee: u64) -> Option<u128>;

    /// The effective tip per unit of gas at `base_fee`; `None` when the order
    /// cannot pay the base fee.
    fn profit(&self, base_fee: u64, gas_used: u64) -> (r: Option<u128>)
        ensures
            r == self.tip_at(base_fee),
    ;

    /// The cutoff price for the order: `percent` per cent of its price,
    /// rounded down.
    fn cut_off_price(&self, cutt_off_percent: u128) -> (r: u128)
        requires
            cutt_off_percent <= 100,
        ensures
            r as int == cutoff_of(self.order_price(), cutt_off_percent),
    ;

    /// Whether the order's price is at least `min_price`.
    fn is_order_in_price_range(&self, min_price: u128) -> (r: bool)
        ensures
            r == (self.order_price() >= min_price),
    ;
}

impl Helper for Transaction {
    open spec fn order_price(&self) -> u128 {
        self.max_fee_per_gas
    }

    open spec fn tip_at(&self, base_fee: u64) -> Option<u128> {
        effective_tip(self.max_fee_per_gas, self.max_priority_fee_per_gas, base_fee)
    }

    fn profit(&self, base_fee: u64, gas_used: u64) -> (r: Option<u128>) {
        let base = base_fee as u128;
        if self.max_fee_per_gas < base {
            return None;
        }
        let surplus = self.max_fee_per_gas - base;
        match self.max_priority_fee_per_gas {
            Some(p) => Some(if p < surplus { p } else { surplus }),
            None => Some(surplus),
        }
    }

    fn cut_off_price(&self, cutt_off_percent: u128) -> (r: u128) {
        let m = self.max_fee_per_gas;
        let p = cutt_off_percent;
        let q = m / 100;
        let rem = m % 100;
        proof {
            lemma_cutoff_split(m as int, p as int);
        }
        q * p + rem * p / 100
    }

    fn is_order_in_price_range(&self, min_price: u128) -> (r: bool) {
        self.max_fee_per_gas >= min_price
    }
}

proof fn lemma_cutoff_split(m: int, p: int)
    requires
        0 <= m,
        0 <= p <= 100,
    ensures
        (m / 100) * p <= m,
        (m % 100) * p / 100 <= p,
        (m % 100) * p < 10000,
        (m * p) / 100 <= m,
        (m / 100) * p + (m % 100) * p / 100 == (m * p) / 100,
{
    let q = m / 100;
    let r = m % 100;
    assert(m == 100 * q + r && 0 <= r < 100 && q >= 0) by (nonlinear_arith)
        requires 0 <= m, q == m / 100, r == m % 100;
    assert(q * p <= q * 100) by (nonlinear_arith)
        requires q >= 0, p <= 100;
    assert(r * p / 100 <= p) by (nonlinear_arith)
        requires 0 <= r < 100, 0 <= p;
    assert(r * p < 10000) by (nonlinear_arith)
        requires 0 <= r < 100, 0 <= p <= 100;
    assert((m * p) / 100 <= m) by (nonlinear_arith)
        requires 0 <= m, 0 <= p <= 100;
    assert(m * p == 100 * (q * p) + r * p) by (nonlinear_arith)
        requires m == 100 * q + r;
    assert((100 * (q * p) + r * p) / 100 == q * p + r * p / 100) by (nonlinear_arith)
        requires q * p >= 0, r * p >= 0;
}

/// The cutoff price never decreases as the percentage grows, and at one
/// hundred per cent it is the order's full price.
pub proof fn lemma_cutoff_monotone(max_fee: u128, lo: u128, hi: u128)
    requires
        lo <= hi,
    ensures
        cutoff_of(max_fee, lo) <= cutoff_of(max_fee, hi),
        cutoff_of(max_fee, 100) == max_fee as int,
{
    assert((max_fee as int * lo as int) / 100 <= (max_fee as int * hi as int) / 100)
        by (nonlinear_arith)
        requires lo <= hi, max_fee >= 0, lo >= 0;
    assert((max_fee as int * 100) / 100 == max_fee as int) by (nonlinear_arith);
}

} // verus!
