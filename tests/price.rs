use mev_auction::price::{Helper, Transaction};

fn tx(max_fee: u128, priority: Option<u128>, gas: u64) -> Transaction {
    Transaction { max_fee_per_gas: max_fee, max_priority_fee_per_gas: priority, gas_used: gas }
}

#[test]
fn cutoff_rounds_down() {
    let t = tx(199, None, 21000);
    assert_eq!(t.cut_off_price(90), 179);
    assert_eq!(t.cut_off_price(50), 99);
    assert_eq!(t.cut_off_price(0), 0);
}

#[test]
fn cutoff_at_full_percent_is_price() {
    let t = tx(123_456_789, None, 1);
    assert_eq!(t.cut_off_price(100), 123_456_789);
    let big = tx(u128::MAX, None, 1);
    assert_eq!(big.cut_off_price(100), u128::MAX);
    assert_eq!(big.cut_off_price(50), u128::MAX / 2);
}

#[test]
fn cutoff_is_monotone_in_percent() {
    let t = tx(1_000_003, Some(7), 1);
    let mut last = 0u128;
    for p in 0..=100u128 {
        let c = t.cut_off_price(p);
        assert!(c >= last);
        last = c;
    }
    assert_eq!(last, 1_000_003);
}

#[test]
fn price_range_is_inclusive() {
    let t = tx(100, None, 1);
    assert!(t.is_order_in_price_range(100));
    assert!(t.is_order_in_price_range(99));
    assert!(!t.is_order_in_price_range(101));
}

#[test]
fn profit_is_effective_tip() {
    assert_eq!(tx(100, None, 1).profit(40, 1), Some(60));
    assert_eq!(tx(100, Some(10), 1).profit(40, 1), Some(10));
    assert_eq!(tx(100, Some(90), 1).profit(40, 1), Some(60));
    assert_eq!(tx(100, Some(10), 1).profit(100, 1), Some(0));
}

#[test]
fn profit_undefined_when_base_fee_too_high() {
    assert_eq!(tx(100, Some(10), 1).profit(101, 1), None);
    assert_eq!(tx(0, None, 1).profit(1, 1), None);
}
