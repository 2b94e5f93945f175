//! Random bulk order generation for load testing: rand draws the
//! numbers, the verified book accepts every order.

use crate::book::{
    insert_side, lemma_insert_side_membership, match_spec, order_reduced, price_positive,
    qty_positive, remnant_of, total_quantity, total_traded, Order, OrderBook, Trade,
};
use crate::laws::{
    lemma_insert_side_total, lemma_match_conservation, lemma_match_trades_positive,
    lemma_traded_concat,
};
use rand::Rng;
use vstd::prelude::*;

verus! {

/// Declares rand's handle to the thread-local generator so that wrappers
/// can carry one; the library never looks inside it.
#[verifier::external_type_specification]
#[verifier::external_body]
pub struct ExThreadRng(rand::rngs::ThreadRng);

/// Relies on rand::thread_rng: a handle to the thread-local generator.
#[verifier::external_body]
fn fresh_rng() -> rand::rngs::ThreadRng {
    rand::thread_rng()
}

/// Relies on Rng::gen_range on `lo..hi`: a value inside the range; the
/// call panics only on an empty range, which the bound rules out.
#[verifier::external_body]
fn rng_range_i64(rng: &mut rand::rngs::ThreadRng, lo: i64, hi: i64) -> (r: i64)
    requires
        lo < hi,
    ensures
        lo <= r < hi,
{
    rng.gen_range(lo..hi)
}

/// Relies on Rng::gen at bool: a fair coin; nothing is promised of the
/// outcome.
#[verifier::external_body]
fn rng_coin(rng: &mut rand::rngs::ThreadRng) -> bool {
    rng.gen::<bool>()
}

/// What holds of every order the bulk generator placed, whatever the
/// draws were, once `count` orders have been generated from `first_id`
/// on: id among the allocated ones, price within one hundred whole units
/// of the default reference price, remaining quantity positive and below
/// the drawn bound, timestamp the generation index.
pub open spec fn generated_order(o: Order, first_id: u64, count: int) -> bool {
    &&& first_id <= o.id < first_id + count
    &&& crate::DEFAULT_REFERENCE_PRICE - 100 * crate::PRICE_SCALE <= o.price
        <= crate::DEFAULT_REFERENCE_PRICE + 99 * crate::PRICE_SCALE
    &&& 0 < o.quantity < 50_000
    &&& o.timestamp < count
}

/// Every order the side holds that was generated is still within the
/// generated bounds.
pub open spec fn side_generated(s: Seq<Order>, first_id: u64, count: int) -> bool {
    forall|k: int|
        0 <= k < s.len() && (#[trigger] s[k]).id >= first_id ==> generated_order(
            s[k],
            first_id,
            count,
        )
}

/// Each trade of the sequence has a positive quantity and price.
pub open spec fn trades_positive(ts: Seq<Trade>) -> bool {
    forall|k: int| 0 <= k < ts.len() ==> (#[trigger] ts[k]).quantity > 0 && ts[k].price > 0
}

/// One generation step keeps the generated bounds: after inserting the
/// placed order into its side and running the matching pass, every
/// resting order that traces to a generated one still meets them, and
/// every reported trade is positive.
proof fn lemma_generated_after_submit(
    pre_buys: Seq<Order>,
    pre_sells: Seq<Order>,
    placed: Order,
    is_buy: bool,
    first_id: u64,
    i: int,
)
    requires
        qty_positive(pre_buys),
        qty_positive(pre_sells),
        price_positive(pre_buys),
        price_positive(pre_sells),
        generated_order(placed, first_id, i + 1),
        side_generated(pre_buys, first_id, i),
        side_generated(pre_sells, first_id, i),
    ensures
        ({
            let nb = if is_buy {
                insert_side(true, pre_buys, placed)
            } else {
                pre_buys
            };
            let ns = if is_buy {
                pre_sells
            } else {
                insert_side(false, pre_sells, placed)
            };
            &&& side_generated(match_spec(nb, ns).buys, first_id, i + 1)
            &&& side_generated(match_spec(nb, ns).sells, first_id, i + 1)
            &&& trades_positive(match_spec(nb, ns).trades)
        }),
{
    let nb = if is_buy {
        insert_side(true, pre_buys, placed)
    } else {
        pre_buys
    };
    let ns = if is_buy {
        pre_sells
    } else {
        insert_side(false, pre_sells, placed)
    };
    let pre_inserted = if is_buy {
        pre_buys
    } else {
        pre_sells
    };
    let inserted = if is_buy {
        nb
    } else {
        ns
    };
    lemma_insert_side_membership(is_buy, pre_inserted, placed);
    assert forall|k: int| 0 <= k < inserted.len() implies (#[trigger] inserted[k]).quantity > 0
        && inserted[k].price > 0 && (inserted[k].id >= first_id ==> generated_order(
        inserted[k],
        first_id,
        i + 1,
    )) by {
        if inserted[k] != placed {
            let j = choose|j: int|
                0 <= j < pre_inserted.len() && pre_inserted[j] == inserted[k];
            assert(pre_inserted[j].quantity > 0);
            assert(pre_inserted[j].price > 0);
        }
    }
    lemma_match_trades_positive(nb, ns);
    crate::book::lemma_match_remnant(nb, ns);
    let post_buys = match_spec(nb, ns).buys;
    let post_sells = match_spec(nb, ns).sells;
    let db = nb.len() - post_buys.len();
    assert forall|k: int|
        0 <= k < post_buys.len() && (#[trigger] post_buys[k]).id >= first_id implies generated_order(
        post_buys[k],
        first_id,
        i + 1,
    ) by {
        assert(order_reduced(nb[db + k], post_buys[k]));
    }
    let ds = ns.len() - post_sells.len();
    assert forall|k: int|
        0 <= k < post_sells.len() && (#[trigger] post_sells[k]).id
            >= first_id implies generated_order(post_sells[k], first_id, i + 1) by {
        assert(order_reduced(ns[ds + k], post_sells[k]));
    }
}

/// Submit `num_orders` randomly generated orders and collect every trade
/// they set off: price within one hundred whole units of the default
/// reference price, quantity between 0.1 and 5.0 in fixed-point steps,
/// side by a fair coin, timestamp the generation index. Whatever the
/// draws were, every order the pass leaves resting under a fresh id
/// meets the generated bounds, every reported trade is positive, and
/// quantity is conserved: the resting totals plus twice the traded total
/// grow by exactly the submitted quantities, each drawn from
/// [1000, 50000), so by between 1000 and 49999 per generated order.
pub fn create_bulk_orders(book: &mut OrderBook, num_orders: usize) -> (trades: Vec<Trade>)
    requires
        old(book).well_formed(),
        old(book).settled(),
        old(book).next_order_id + num_orders <= u64::MAX,
    ensures
        final(book).well_formed(),
        final(book).settled(),
        final(book).next_order_id == old(book).next_order_id + num_orders,
        final(book).current_price == old(book).current_price,
        side_generated(final(book).buys(), old(book).next_order_id, num_orders as int),
        side_generated(final(book).sells(), old(book).next_order_id, num_orders as int),
        trades_positive(trades@),
        total_quantity(final(book).buys()) + total_quantity(final(book).sells()) + 2
            * total_traded(trades@) >= total_quantity(old(book).buys()) + total_quantity(
            old(book).sells(),
        ) + 1000 * num_orders,
        total_quantity(final(book).buys()) + total_quantity(final(book).sells()) + 2
            * total_traded(trades@) <= total_quantity(old(book).buys()) + total_quantity(
            old(book).sells(),
        ) + 49_999 * num_orders,
{
    let ghost first_id: u64 = book.next_order_id;
    let ghost base: int = total_quantity(book.buys()) + total_quantity(book.sells());
    let mut rng = fresh_rng();
    let mut trades: Vec<Trade> = Vec::new();
    let mut i: usize = 0;
    proof {
        assert(side_generated(book.buys(), first_id, 0));
        assert(side_generated(book.sells(), first_id, 0));
        assert(total_traded(trades@) == 0);
    }
    while i < num_orders
        invariant
            i <= num_orders,
            book.well_formed(),
            book.settled(),
            book.next_order_id == first_id + i,
            first_id == old(book).next_order_id,
            book.current_price == old(book).current_price,
            old(book).next_order_id + num_orders <= u64::MAX,
            side_generated(book.buys(), first_id, i as int),
            side_generated(book.sells(), first_id, i as int),
            trades_positive(trades@),
            base == total_quantity(old(book).buys()) + total_quantity(old(book).sells()),
            total_quantity(book.buys()) + total_quantity(book.sells()) + 2 * total_traded(trades@)
                >= base + 1000 * i,
            total_quantity(book.buys()) + total_quantity(book.sells()) + 2 * total_traded(trades@)
                <= base + 49_999 * i,
        decreases num_orders - i,
    {
        let offset = rng_range_i64(&mut rng, -100, 100);
        let price: u64 = if offset >= 0 {
            crate::DEFAULT_REFERENCE_PRICE + (offset as u64) * crate::PRICE_SCALE
        } else {
            crate::DEFAULT_REFERENCE_PRICE - ((-offset) as u64) * crate::PRICE_SCALE
        };
        let quantity = rng_range_i64(&mut rng, 1000, 50000) as u64;
        let is_buy = rng_coin(&mut rng);
        let ghost pre_buys: Seq<Order> = book.buy_orders@;
        let ghost pre_sells: Seq<Order> = book.sell_orders@;
        let ghost placed = Order { id: book.next_order_id, price, quantity, timestamp: i as u64 };
        proof {
            lemma_generated_after_submit(
                pre_buys,
                pre_sells,
                placed,
                is_buy,
                first_id,
                i as int,
            );
        }
        let ghost pre_trades: Seq<Trade> = trades@;
        let submitted = book.submit(price, quantity, is_buy, i as u64);
        if let Ok(mut new_trades) = submitted {
            proof {
                let nb = if is_buy {
                    insert_side(true, pre_buys, placed)
                } else {
                    pre_buys
                };
                let ns = if is_buy {
                    pre_sells
                } else {
                    insert_side(false, pre_sells, placed)
                };
                if is_buy {
                    lemma_insert_side_total(true, pre_buys, placed);
                } else {
                    lemma_insert_side_total(false, pre_sells, placed);
                }
                lemma_match_conservation(nb, ns);
                lemma_traded_concat(pre_trades, new_trades@);
                assert(trades_positive(new_trades@));
            }
            trades.append(&mut new_trades);
            proof {
                assert forall|k: int| 0 <= k < trades@.len() implies (#[trigger] trades@[k]).quantity
                    > 0 && trades@[k].price > 0 by {
                    if k < pre_trades.len() {
                        assert(trades@[k] == pre_trades[k]);
                    }
                }
            }
        }
        i = i + 1;
    }
    trades
}

} // verus!
