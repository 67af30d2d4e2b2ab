use mev_auction::greedy::select_orders;
use mev_auction::price::Transaction;

fn tx(max_fee: u128, gas: u64) -> Transaction {
    Transaction { max_fee_per_gas: max_fee, max_priority_fee_per_gas: None, gas_used: gas }
}

#[test]
fn greedy_admits_by_profit_within_budget() {
    // base fee 0: the profit of each is its fee
    let txs = vec![tx(5, 10), tx(3, 10), tx(8, 10)];
    assert_eq!(select_orders(&txs, 0, 0, 20), vec![2, 0]);
}

#[test]
fn greedy_skips_and_continues_with_smaller_gas() {
    let txs = vec![tx(9, 15), tx(7, 10), tx(6, 5), tx(5, 5)];
    // 9 (15 gas) fits, 7 (10 gas) does not, 6 (5 gas) fills the rest, 5 does not fit
    assert_eq!(select_orders(&txs, 0, 0, 20), vec![0, 2]);
}

#[test]
fn greedy_ties_keep_arrival_order() {
    let txs = vec![tx(4, 1), tx(6, 1), tx(4, 1), tx(6, 1)];
    assert_eq!(select_orders(&txs, 0, 0, 100), vec![1, 3, 0, 2]);
}

#[test]
fn greedy_filters_price_and_base_fee() {
    let txs = vec![tx(50, 1), tx(9, 1), tx(20, 1), tx(30, 1)];
    // min price 15 drops the second; base fee 25 drops the third
    assert_eq!(select_orders(&txs, 25, 15, 100), vec![0, 3]);
}

#[test]
fn greedy_empty_and_zero_budget() {
    let none: Vec<Transaction> = Vec::new();
    assert_eq!(select_orders(&none, 0, 0, 100), Vec::<usize>::new());
    let txs = vec![tx(5, 1), tx(3, 0)];
    assert_eq!(select_orders(&txs, 0, 0, 0), vec![1]);
}

#[test]
fn greedy_is_deterministic() {
    let txs = vec![tx(5, 7), tx(3, 2), tx(8, 9), tx(8, 4), tx(1, 1)];
    let a = select_orders(&txs, 1, 2, 15);
    let b = select_orders(&txs, 1, 2, 15);
    assert_eq!(a, b);
    assert_eq!(a, vec![2, 3, 1]);
}
