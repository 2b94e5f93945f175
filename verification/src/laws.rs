//! Properties of the matching pass, stated and proved once for every
//! book: conservation of traded quantity, positivity of every reported
//! trade, inertness of non-crossing submissions, and the
//! full-versus-partial fill rule, with the totals arithmetic they rest
//! on. Ordering and no-crossing after each submission are stated on
//! `OrderBook::submit` itself, as its `well_formed` and `settled`
//! postconditions.

use crate::book::{
    crossing, fill_head, insert_side, match_spec, order_reduced, price_positive, qty_positive,
    side_ordered, total_quantity, total_traded, trade_quantity, Order, Trade,
};
use vstd::prelude::*;

verus! {

/// Filling the head by a quantity it can give removes exactly that much
/// from the side's total.
proof fn lemma_fill_head_total(side: Seq<Order>, q: u64)
    requires
        side.len() > 0,
        q <= side[0].quantity,
    ensures
        total_quantity(fill_head(side, q)) == total_quantity(side) - q,
{
    if side[0].quantity == q {
    } else {
        let t = fill_head(side, q);
        assert(t.drop_first() =~= side.drop_first());
    }
}

/// Unfolding the total of a trade sequence at its head.
proof fn lemma_traded_cons(t: Trade, ts: Seq<Trade>)
    ensures
        total_traded(seq![t] + ts) == t.quantity + total_traded(ts),
{
    assert((seq![t] + ts).drop_first() =~= ts);
    assert((seq![t] + ts)[0] == t);
}

/// Conservation: one matching pass removes the same total quantity from
/// the buy side as from the sell side, and both equal the sum of the
/// reported trade quantities.
pub proof fn lemma_match_conservation(buys: Seq<Order>, sells: Seq<Order>)
    ensures
        total_quantity(buys) - total_quantity(match_spec(buys, sells).buys) == total_traded(
            match_spec(buys, sells).trades,
        ),
        total_quantity(sells) - total_quantity(match_spec(buys, sells).sells) == total_traded(
            match_spec(buys, sells).trades,
        ),
    decreases buys.len() + sells.len(),
{
    if crossing(buys, sells) {
        let q = trade_quantity(buys[0], sells[0]);
        let t = Trade {
            buy_id: buys[0].id,
            sell_id: sells[0].id,
            price: sells[0].price,
            quantity: q,
        };
        lemma_fill_head_total(buys, q);
        lemma_fill_head_total(sells, q);
        lemma_match_conservation(fill_head(buys, q), fill_head(sells, q));
        lemma_traded_cons(t, match_spec(fill_head(buys, q), fill_head(sells, q)).trades);
    }
}

/// Unfolding the total of a side at its head.
proof fn lemma_quantity_cons(o: Order, s: Seq<Order>)
    ensures
        total_quantity(seq![o] + s) == o.quantity + total_quantity(s),
{
    assert((seq![o] + s).drop_first() =~= s);
    assert((seq![o] + s)[0] == o);
}

/// Inserting an order adds exactly its quantity to the side's total.
pub proof fn lemma_insert_side_total(is_buy: bool, s: Seq<Order>, o: Order)
    ensures
        total_quantity(insert_side(is_buy, s, o)) == total_quantity(s) + o.quantity,
    decreases s.len(),
{
    if s.len() == 0 {
        lemma_quantity_cons(o, s);
        assert(seq![o] + s =~= seq![o]);
    } else if side_ordered(is_buy, s[0], o) {
        lemma_insert_side_total(is_buy, s.drop_first(), o);
        lemma_quantity_cons(s[0], insert_side(is_buy, s.drop_first(), o));
    } else {
        lemma_quantity_cons(o, s);
    }
}

/// The total of concatenated trade sequences is the sum of the totals.
pub proof fn lemma_traded_concat(a: Seq<Trade>, b: Seq<Trade>)
    ensures
        total_traded(a + b) == total_traded(a) + total_traded(b),
    decreases a.len(),
{
    if a.len() == 0 {
        assert(a + b =~= b);
    } else {
        lemma_traded_concat(a.drop_first(), b);
        assert((a + b).drop_first() =~= a.drop_first() + b);
        assert((a + b)[0] == a[0]);
    }
}

/// Every trade a matching pass reports carries a positive quantity and
/// the positive price of a resting sell order.
pub proof fn lemma_match_trades_positive(buys: Seq<Order>, sells: Seq<Order>)
    requires
        qty_positive(buys),
        qty_positive(sells),
        price_positive(sells),
    ensures
        forall|k: int|
            0 <= k < match_spec(buys, sells).trades.len() ==> (#[trigger] match_spec(
                buys,
                sells,
            ).trades[k]).quantity > 0 && match_spec(buys, sells).trades[k].price > 0,
    decreases buys.len() + sells.len(),
{
    if crossing(buys, sells) {
        let q = trade_quantity(buys[0], sells[0]);
        let fb = fill_head(buys, q);
        let fs = fill_head(sells, q);
        crate::book::lemma_fill_head_remnant(buys, q);
        crate::book::lemma_fill_head_remnant(sells, q);
        assert forall|i: int| 0 <= i < fs.len() implies (#[trigger] fs[i]).price > 0 by {
            assert(order_reduced(sells[sells.len() - fs.len() + i], fs[i]));
        }
        lemma_match_trades_positive(fb, fs);
        let t = match_spec(buys, sells).trades;
        let rest = match_spec(fb, fs).trades;
        assert forall|k: int| 0 <= k < t.len() implies (#[trigger] t[k]).quantity > 0
            && t[k].price > 0 by {
            if k > 0 {
                assert(t[k] == rest[k - 1]);
            }
        }
    }
}

/// A submission that does not cross the opposite side is inert: the
/// matching pass that follows it reports no trade and returns both sides
/// exactly as they stood after the insertion — in particular the opposite
/// side is completely unchanged.
pub proof fn lemma_non_crossing_submission_is_inert(
    buys: Seq<Order>,
    sells: Seq<Order>,
    o: Order,
    is_buy: bool,
)
    requires
        !crossing(buys, sells),
        is_buy && sells.len() > 0 ==> o.price < sells[0].price,
        !is_buy && buys.len() > 0 ==> buys[0].price < o.price,
    ensures
        is_buy ==> ({
            let nb = insert_side(true, buys, o);
            &&& match_spec(nb, sells).buys == nb
            &&& match_spec(nb, sells).sells == sells
            &&& match_spec(nb, sells).trades == Seq::<Trade>::empty()
        }),
        !is_buy ==> ({
            let ns = insert_side(false, sells, o);
            &&& match_spec(buys, ns).buys == buys
            &&& match_spec(buys, ns).sells == ns
            &&& match_spec(buys, ns).trades == Seq::<Trade>::empty()
        }),
{
    if is_buy {
        let nb = insert_side(true, buys, o);
        assert(nb.len() > 0 && (nb[0] == o || (buys.len() > 0 && nb[0] == buys[0])));
        assert(!crossing(nb, sells));
    } else {
        let ns = insert_side(false, sells, o);
        assert(ns.len() > 0 && (ns[0] == o || (sells.len() > 0 && ns[0] == sells[0])));
        assert(!crossing(buys, ns));
    }
}

/// Full versus partial fill: when the head gives up exactly its remaining
/// quantity it leaves the side; when it gives up less it stays at the
/// head with its quantity reduced by exactly that amount, and no other
/// order moves or changes.
pub proof fn lemma_fill_full_vs_partial(side: Seq<Order>, q: u64)
    requires
        side.len() > 0,
        0 < q <= side[0].quantity,
    ensures
        side[0].quantity == q ==> fill_head(side, q) == side.drop_first(),
        side[0].quantity > q ==> ({
            &&& fill_head(side, q).len() == side.len()
            &&& fill_head(side, q)[0].id == side[0].id
            &&& fill_head(side, q)[0].price == side[0].price
            &&& fill_head(side, q)[0].timestamp == side[0].timestamp
            &&& fill_head(side, q)[0].quantity == side[0].quantity - q
            &&& forall|i: int| 1 <= i < side.len() ==> #[trigger] fill_head(side, q)[i] == side[i]
        }),
{
}

} // verus!
