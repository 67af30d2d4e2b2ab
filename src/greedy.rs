use crate::price::{effective_tip, Helper, Transaction};
use vstd::prelude::*;

verus! {

/// Whether transaction `i` of `txs` may be selected at all: its price reaches
/// `min_price` and it can pay `base_fee`.
pub open spec fn eligible(txs: Seq<Transaction>, i: int, base_fee: u64, min_price: u128) -> bool {
    &&& 0 <= i < txs.len()
    &&& txs[i].max_fee_per_gas >= min_price
    &&& effective_tip(txs[i].max_fee_per_gas, txs[i].max_priority_fee_per_gas, base_fee) is Some
}

/// The profit of transaction `i` at `base_fee` (meaningful when eligible).
pub open spec fn profit_of(txs: Seq<Transaction>, i: int, base_fee: u64) -> u128 {
    effective_tip(txs[i].max_fee_per_gas, txs[i].max_priority_fee_per_gas, base_fee)->0
}

/// The selection order: higher profit first, and among equal profits the
/// transaction that arrived first.
pub open spec fn ranks_before(txs: Seq<Transaction>, base_fee: u64, a: int, b: int) -> bool {
    profit_of(txs, a, base_fee) > profit_of(txs, b, base_fee)
        || (profit_of(txs, a, base_fee) == profit_of(txs, b, base_fee) && a < b)
}

/// The gas of all the transactions that `sel` lists.
pub open spec fn gas_total(txs: Seq<Transaction>, sel: Seq<usize>) -> int
    decreases sel.len(),
{
    if sel.len() == 0 {
        0
    } else {
        gas_total(txs, sel.drop_last()) + txs[sel.last() as int].gas_used
    }
}

/// The gas of those transactions of `sel` that rank before transaction `j`.
pub open spec fn gas_ranked_before(txs: Seq<Transaction>, base_fee: u64, sel: Seq<usize>, j: int) -> int
    decreases sel.len(),
{
    if sel.len() == 0 {
        0
    } else {
        gas_ranked_before(txs, base_fee, sel.drop_last(), j) + if ranks_before(
            txs,
            base_fee,
            sel.last() as int,
            j,
        ) {
            txs[sel.last() as int].gas_used as int
        } else {
            0
        }
    }
}

/// `sel` is the greedy fill of `budget`: it lists eligible transactions in
/// rank order, each admitted while the gas so far leaves room for it, and
/// every eligible transaction left out would have overflowed the budget when
/// its turn came.
pub open spec fn is_greedy_selection(
    txs: Seq<Transaction>,
    base_fee: u64,
    min_price: u128,
    budget: u64,
    sel: Seq<usize>,
) -> bool {
    &&& forall|k: int| 0 <= k < sel.len() ==> eligible(txs, sel[k] as int, base_fee, min_price)
    &&& forall|k: int, l: int|
        0 <= k < l < sel.len() ==> ranks_before(txs, base_fee, sel[k] as int, sel[l] as int)
    &&& forall|k: int|
        0 <= k <= sel.len() ==> #[trigger] gas_total(txs, sel.take(k)) <= budget
    &&& forall|j: int|
        eligible(txs, j, base_fee, min_price) && !sel.contains(j as usize) ==> budget
            < txs[j].gas_used + gas_ranked_before(txs, base_fee, sel, j)
}


proof fn lemma_push_sums(txs: Seq<Transaction>, base_fee: u64, sel: Seq<usize>, x: usize)
    ensures
        gas_total(txs, sel.push(x)) == gas_total(txs, sel) + txs[x as int].gas_used,
        forall|j: int|
            #[trigger] gas_ranked_before(txs, base_fee, sel.push(x), j) == gas_ranked_before(
                txs,
                base_fee,
                sel,
                j,
            ) + if ranks_before(txs, base_fee, x as int, j) {
                txs[x as int].gas_used as int
            } else {
                0
            },
{
    assert(sel.push(x).drop_last() =~= sel);
}

proof fn lemma_all_ranked_before(txs: Seq<Transaction>, base_fee: u64, sel: Seq<usize>, j: int)
    requires
        forall|m: int| 0 <= m < sel.len() ==> ranks_before(txs, base_fee, #[trigger] sel[m] as int, j),
    ensures
        gas_ranked_before(txs, base_fee, sel, j) == gas_total(txs, sel),
    decreases sel.len(),
{
    if sel.len() > 0 {
        lemma_all_ranked_before(txs, base_fee, sel.drop_last(), j);
    }
}

proof fn lemma_ranked_split(txs: Seq<Transaction>, base_fee: u64, sel: Seq<usize>, j: int, m: int)
    requires
        0 <= m <= sel.len(),
        forall|k: int| 0 <= k < m ==> ranks_before(txs, base_fee, #[trigger] sel[k] as int, j),
        forall|k: int| m <= k < sel.len() ==> !ranks_before(txs, base_fee, #[trigger] sel[k] as int, j),
    ensures
        gas_ranked_before(txs, base_fee, sel, j) == gas_total(txs, sel.take(m)),
    decreases sel.len(),
{
    if sel.len() == m {
        lemma_all_ranked_before(txs, base_fee, sel, j);
        assert(sel.take(m) =~= sel);
    } else {
        lemma_ranked_split(txs, base_fee, sel.drop_last(), j, m);
        assert(sel.drop_last().take(m) =~= sel.take(m));
    }
}

proof fn lemma_no_earlier_skip(
    txs: Seq<Transaction>,
    base_fee: u64,
    min_price: u128,
    budget: u64,
    x: Seq<usize>,
    y: Seq<usize>,
    m: int,
)
    requires
        is_greedy_selection(txs, base_fee, min_price, budget, x),
        is_greedy_selection(txs, base_fee, min_price, budget, y),
        0 <= m < x.len(),
        m <= y.len(),
        x.take(m) == y.take(m),
    ensures
        m < y.len() && !ranks_before(txs, base_fee, x[m] as int, y[m] as int),
{
    if !(m < y.len() && !ranks_before(txs, base_fee, x[m] as int, y[m] as int)) {
        let j = x[m] as int;
        assert forall|k: int| 0 <= k < m implies #[trigger] y[k] == x[k] by {
            assert(x.take(m)[k] == y.take(m)[k]);
            assert(x.take(m)[k] == x[k] && y.take(m)[k] == y[k]);
        }
        assert forall|k: int| 0 <= k < m implies ranks_before(txs, base_fee, #[trigger] y[k] as int, j) by {
            assert(ranks_before(txs, base_fee, x[k] as int, x[m] as int));
        }
        assert forall|k: int| m <= k < y.len() implies ranks_before(txs, base_fee, j, #[trigger] y[k] as int) by {
            if k > m {
                assert(ranks_before(txs, base_fee, y[m] as int, y[k] as int));
            }
        }
        assert(!y.contains(j as usize)) by {
            if y.contains(j as usize) {
                let k = choose|k: int| 0 <= k < y.len() && y[k] == j as usize;
                if k < m {
                    assert(ranks_before(txs, base_fee, y[k] as int, j));
                } else {
                    assert(ranks_before(txs, base_fee, j, y[k] as int));
                }
            }
        }
        lemma_ranked_split(txs, base_fee, y, j, m);
        assert(x.take(m + 1).drop_last() =~= x.take(m));
        assert(gas_total(txs, x.take(m + 1)) <= budget);
    }
}

proof fn lemma_prefix_agree(
    txs: Seq<Transaction>,
    base_fee: u64,
    min_price: u128,
    budget: u64,
    a: Seq<usize>,
    b: Seq<usize>,
    m: int,
)
    requires
        is_greedy_selection(txs, base_fee, min_price, budget, a),
        is_greedy_selection(txs, base_fee, min_price, budget, b),
        0 <= m <= a.len(),
        m <= b.len(),
    ensures
        a.take(m) == b.take(m),
    decreases m,
{
    if m == 0 {
        assert(a.take(0) =~= b.take(0));
    } else {
        lemma_prefix_agree(txs, base_fee, min_price, budget, a, b, m - 1);
        let k = m - 1;
        if a[k] != b[k] {
            if ranks_before(txs, base_fee, a[k] as int, b[k] as int) {
                lemma_no_earlier_skip(txs, base_fee, min_price, budget, a, b, k);
            } else {
                lemma_no_earlier_skip(txs, base_fee, min_price, budget, b, a, k);
            }
        }
        assert forall|i: int| 0 <= i < m implies a.take(m)[i] == b.take(m)[i] by {
            if i < k {
                assert(a.take(k)[i] == b.take(k)[i]);
            }
        }
        assert(a.take(m) =~= b.take(m));
    }
}

/// The greedy fill is unique: two selections that both meet its description
/// for the same transactions, base fee, minimum price and budget are the same
/// selection, so equal inputs always select alike.
pub proof fn lemma_selection_unique(
    txs: Seq<Transaction>,
    base_fee: u64,
    min_price: u128,
    budget: u64,
    a: Seq<usize>,
    b: Seq<usize>,
)
    requires
        is_greedy_selection(txs, base_fee, min_price, budget, a),
        is_greedy_selection(txs, base_fee, min_price, budget, b),
    ensures
        a == b,
{
    if a.len() <= b.len() {
        lemma_prefix_agree(txs, base_fee, min_price, budget, a, b, a.len() as int);
        if a.len() < b.len() {
            lemma_no_earlier_skip(txs, base_fee, min_price, budget, b, a, a.len() as int);
        }
    } else {
        lemma_prefix_agree(txs, base_fee, min_price, budget, a, b, b.len() as int);
        lemma_no_earlier_skip(txs, base_fee, min_price, budget, a, b, b.len() as int);
    }
    assert(a.take(a.len() as int) =~= a);
    assert(b.take(b.len() as int) =~= b);
}

/// Picks the transactions a block of `gas_budget` gas includes, in order:
/// those priced at least `min_price` that can pay `base_fee`, by profit from
/// the highest (equal profits in arrival order), each admitted while it still
/// fits the remaining gas and skipped otherwise. Returns their positions in
/// `txs`.
pub fn select_orders(txs: &Vec<Transaction>, base_fee: u64, min_price: u128, gas_budget: u64) -> (sel: Vec<usize>)
    ensures
        is_greedy_selection(txs@, base_fee, min_price, gas_budget, sel@),
{
    let ghost t = txs@;
    let n = txs.len();
    // eligible positions, in rank order
    let mut order: Vec<usize> = Vec::new();
    let mut i: usize = 0;
    while i < n
        invariant
            t == txs@,
            n == t.len(),
            i <= n,
            forall|k: int| 0 <= k < order.len() ==> #[trigger] order[k] < i && eligible(t, order[k] as int, base_fee, min_price),
            forall|j: int| 0 <= j < i && eligible(t, j, base_fee, min_price) ==> order@.contains(j as usize),
            forall|k: int, l: int| 0 <= k < l < order.len() ==> ranks_before(t, base_fee, order[k] as int, order[l] as int),
        decreases n - i,
    {
        let tx = &txs[i];
        let tip = tx.profit(base_fee, tx.gas_used);
        if tx.is_order_in_price_range(min_price) && tip.is_some() {
            let p = tip.unwrap();
            let mut pos: usize = 0;
            while pos < order.len() && txs[order[pos]].profit(base_fee, 0).unwrap_or(0) >= p
                invariant
                    t == txs@,
                    n == t.len(),
                    i < n,
                    p == profit_of(t, i as int, base_fee),
                    pos <= order.len(),
                    forall|k: int| 0 <= k < order.len() ==> #[trigger] order[k] < i && eligible(t, order[k] as int, base_fee, min_price),
                    forall|k: int| 0 <= k < pos ==> ranks_before(t, base_fee, #[trigger] order[k] as int, i as int),
                decreases order.len() - pos,
            {
                pos = pos + 1;
            }
            proof {
                if pos < order.len() {
                    assert(ranks_before(t, base_fee, i as int, order[pos as int] as int));
                }
            }
            let ghost before = order@;
            order.insert(pos, i);
            proof {
                assert forall|k: int, l: int| 0 <= k < l < order.len() implies ranks_before(t, base_fee, order[k] as int, order[l] as int) by {
                    if l < pos {
                        assert(order[k] == before[k] && order[l] == before[l]);
                    } else if l == pos {
                        assert(order[k] == before[k]);
                    } else if k < pos {
                        assert(order[k] == before[k] && order[l] == before[l - 1]);
                        assert(ranks_before(t, base_fee, before[k] as int, i as int));
                        assert(ranks_before(t, base_fee, i as int, before[pos as int] as int));
                    } else if k == pos {
                        assert(order[l] == before[l - 1]);
                        assert(ranks_before(t, base_fee, i as int, before[pos as int] as int));
                        if l - 1 > pos {
                            assert(ranks_before(t, base_fee, before[pos as int] as int, before[l - 1] as int));
                        }
                    } else {
                        assert(order[k] == before[k - 1] && order[l] == before[l - 1]);
                    }
                }
                assert forall|j: int| 0 <= j < i + 1 && eligible(t, j, base_fee, min_price) implies order@.contains(j as usize) by {
                    if j == i {
                        assert(order@[pos as int] == i);
                    } else {
                        let k = choose|k: int| 0 <= k < before.len() && before[k] == j as usize;
                        if k < pos {
                            assert(order@[k] == j as usize);
                        } else {
                            assert(order@[k + 1] == j as usize);
                        }
                    }
                }
            }
        } else {
            proof {
                assert(!eligible(t, i as int, base_fee, min_price));
            }
        }
        i = i + 1;
    }
    // greedy fill
    let mut sel: Vec<usize> = Vec::new();
    let mut used: u64 = 0;
    let mut k: usize = 0;
    while k < order.len()
        invariant
            t == txs@,
            n == t.len(),
            forall|a: int| 0 <= a < order.len() ==> #[trigger] order[a] < n && eligible(t, order[a] as int, base_fee, min_price),
            forall|j: int| 0 <= j < n && eligible(t, j, base_fee, min_price) ==> order@.contains(j as usize),
            forall|a: int, b: int| 0 <= a < b < order.len() ==> ranks_before(t, base_fee, order[a] as int, order[b] as int),
            k <= order.len(),
            used == gas_total(t, sel@),
            used <= gas_budget,
            forall|a: int| 0 <= a < sel.len() ==> eligible(t, #[trigger] sel[a] as int, base_fee, min_price),
            forall|a: int, b: int| 0 <= a < b < sel.len() ==> ranks_before(t, base_fee, sel[a] as int, sel[b] as int),
            forall|a: int, b: int| 0 <= a < sel.len() && k <= b < order.len() ==> ranks_before(t, base_fee, sel[a] as int, order[b] as int),
            forall|a: int| 0 <= a <= sel.len() ==> #[trigger] gas_total(t, sel@.take(a)) <= gas_budget,
            forall|b: int| 0 <= b < k ==> sel@.contains(#[trigger] order[b]) || gas_budget < t[order[b] as int].gas_used + gas_ranked_before(t, base_fee, sel@, order[b] as int),
        decreases order.len() - k,
    {
        let x = order[k];
        let gas = txs[x].gas_used;
        proof {
            lemma_all_ranked_before(t, base_fee, sel@, x as int);
        }
        if (used as u128) + (gas as u128) <= gas_budget as u128 {
            let ghost old_sel = sel@;
            proof {
                lemma_push_sums(t, base_fee, old_sel, x);
            }
            sel.push(x);
            used = used + gas;
            proof {
                assert forall|a: int| 0 <= a <= sel.len() implies #[trigger] gas_total(t, sel@.take(a)) <= gas_budget by {
                    if a < sel.len() {
                        assert(sel@.take(a) =~= old_sel.take(a));
                    } else {
                        assert(sel@.take(a) =~= sel@);
                    }
                }
                assert forall|b: int| 0 <= b < k + 1 implies sel@.contains(#[trigger] order[b]) || gas_budget < t[order[b] as int].gas_used + gas_ranked_before(t, base_fee, sel@, order[b] as int) by {
                    if b == k {
                        assert(sel@[sel.len() - 1] == x);
                    } else {
                        if old_sel.contains(order[b]) {
                            let a = choose|a: int| 0 <= a < old_sel.len() && old_sel[a] == order[b];
                            assert(sel@[a] == order[b]);
                        }
                    }
                }
            }
        }
        k = k + 1;
    }
    proof {
        assert forall|j: int| eligible(t, j, base_fee, min_price) && !sel@.contains(j as usize) implies gas_budget
            < t[j].gas_used + gas_ranked_before(t, base_fee, sel@, j) by {
            assert(order@.contains(j as usize));
            let b = choose|b: int| 0 <= b < order.len() && order@[b] == j as usize;
            assert(order[b] == j as usize);
        }
    }
    sel
}

} // verus!
