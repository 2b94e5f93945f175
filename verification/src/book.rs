//! The order book: resting orders in price-time priority and the greedy
//! continuous matching pass that clears crossing orders.

use vstd::prelude::*;

verus! {

/// A resting limit order. `price` and `quantity` are fixed-point values
/// (see the crate root); both are strictly positive for every order that
/// rests in a book.
#[derive(Clone, Copy, PartialEq, Eq, Structural, Debug)]
pub struct Order {
    /// Unique over the lifetime of one book; assigned from 1 upward.
    pub id: u64,
    /// Limit price, fixed-point, strictly positive.
    pub price: u64,
    /// Remaining quantity, fixed-point, strictly positive.
    pub quantity: u64,
    /// Caller-supplied tie-breaker; earlier wins among equal prices.
    pub timestamp: u64,
}

/// One completed trade reported by a matching pass.
#[derive(Clone, Copy, PartialEq, Eq, Structural, Debug)]
pub struct Trade {
    pub buy_id: u64,
    pub sell_id: u64,
    /// The resting sell order's price, fixed-point.
    pub price: u64,
    /// Fixed-point quantity exchanged, strictly positive.
    pub quantity: u64,
}

/// What a book operation can reject.
#[derive(Clone, Copy, PartialEq, Eq, Structural, Debug)]
pub enum OrderError {
    /// A submitted price or quantity was zero.
    InvalidOrder,
    /// `modify` was called with an id that rests on neither side.
    UnknownOrderId,
}

/// `a` may stand at or before `b` on the given side: better price first,
/// earlier timestamp first among equal prices. For buys the higher price is
/// better; for sells the lower.
pub open spec fn side_ordered(is_buy: bool, a: Order, b: Order) -> bool {
    if is_buy {
        a.price > b.price || (a.price == b.price && a.timestamp <= b.timestamp)
    } else {
        a.price < b.price || (a.price == b.price && a.timestamp <= b.timestamp)
    }
}

/// Every pair of the sequence stands in priority order.
pub open spec fn sorted_side(is_buy: bool, s: Seq<Order>) -> bool {
    forall|i: int, j: int| 0 <= i < j < s.len() ==> side_ordered(is_buy, s[i], s[j])
}

/// Every resting order has strictly positive quantity.
pub open spec fn qty_positive(s: Seq<Order>) -> bool {
    forall|i: int| 0 <= i < s.len() ==> (#[trigger] s[i]).quantity > 0
}

/// Every resting order has strictly positive price.
pub open spec fn price_positive(s: Seq<Order>) -> bool {
    forall|i: int| 0 <= i < s.len() ==> (#[trigger] s[i]).price > 0
}

/// Every id lies in `1 ..= bound - 1`, i.e. was allocated before `bound`.
pub open spec fn ids_below(s: Seq<Order>, bound: u64) -> bool {
    forall|i: int| 0 <= i < s.len() ==> 1 <= (#[trigger] s[i]).id < bound
}

/// No id occurs twice within one side.
pub open spec fn ids_unique(s: Seq<Order>) -> bool {
    forall|i: int, j: int| 0 <= i < j < s.len() ==> (#[trigger] s[i]).id != (#[trigger] s[j]).id
}

/// No id occurs on both sides.
pub open spec fn ids_disjoint(a: Seq<Order>, b: Seq<Order>) -> bool {
    forall|i: int, j: int| 0 <= i < a.len() && 0 <= j < b.len() ==> (#[trigger] a[i]).id != (#[trigger] b[j]).id
}

/// Some resting order carries this id.
pub open spec fn has_order(s: Seq<Order>, id: u64) -> bool {
    exists|i: int| 0 <= i < s.len() && s[i].id == id
}

/// The heads of the two sides can trade: both present and the best buy
/// price is at or above the best sell price.
pub open spec fn crossing(buys: Seq<Order>, sells: Seq<Order>) -> bool {
    buys.len() > 0 && sells.len() > 0 && buys[0].price >= sells[0].price
}

/// Where a stable resort would put `o`: after every resting order that
/// stands at or before it, before the rest.
pub open spec fn insert_side(is_buy: bool, s: Seq<Order>, o: Order) -> Seq<Order>
    decreases s.len(),
{
    if s.len() == 0 {
        seq![o]
    } else if side_ordered(is_buy, s[0], o) {
        seq![s[0]] + insert_side(is_buy, s.drop_first(), o)
    } else {
        seq![o] + s
    }
}

/// Total resting quantity of a side, as a mathematical integer.
pub open spec fn total_quantity(s: Seq<Order>) -> int
    decreases s.len(),
{
    if s.len() == 0 {
        0
    } else {
        s[0].quantity + total_quantity(s.drop_first())
    }
}

/// Sum of the quantities of a sequence of trades.
pub open spec fn total_traded(ts: Seq<Trade>) -> int
    decreases ts.len(),
{
    if ts.len() == 0 {
        0
    } else {
        ts[0].quantity + total_traded(ts.drop_first())
    }
}

/// `b` is `a` after zero or more fills: same identity, price and
/// timestamp, quantity no larger but still positive.
pub open spec fn order_reduced(a: Order, b: Order) -> bool {
    &&& b.id == a.id
    &&& b.price == a.price
    &&& b.timestamp == a.timestamp
    &&& 0 < b.quantity <= a.quantity
}

/// `res` is what is left of `orig` after fills from the head: the last
/// `res.len()` orders of `orig` in order, each with its identity kept and
/// its quantity possibly reduced but still positive.
pub open spec fn remnant_of(orig: Seq<Order>, res: Seq<Order>) -> bool {
    &&& res.len() <= orig.len()
    &&& forall|i: int|
        0 <= i < res.len() ==> order_reduced(
            orig[orig.len() - res.len() + i],
            #[trigger] res[i],
        )
}

/// The three results of a matching pass.
pub struct MatchOutcome {
    pub buys: Seq<Order>,
    pub sells: Seq<Order>,
    pub trades: Seq<Trade>,
}

/// Quantity exchanged when these two heads trade.
pub open spec fn trade_quantity(b: Order, s: Order) -> u64 {
    if b.quantity <= s.quantity {
        b.quantity
    } else {
        s.quantity
    }
}

/// The side after its head gives up quantity `q`: removed when fully
/// consumed, left in place with the remainder otherwise.
pub open spec fn fill_head(side: Seq<Order>, q: u64) -> Seq<Order>
    recommends
        side.len() > 0,
        q <= side[0].quantity,
{
    if side[0].quantity == q {
        side.drop_first()
    } else {
        side.update(0, Order { quantity: (side[0].quantity - q) as u64, ..side[0] })
    }
}

/// The matching pass: while the heads cross, trade the two most aggressive
/// opposing orders at the resting sell order's price for the smaller of the
/// two remaining quantities, then continue on what is left.
pub open spec fn match_spec(buys: Seq<Order>, sells: Seq<Order>) -> MatchOutcome
    decreases buys.len() + sells.len(),
{
    if !crossing(buys, sells) {
        MatchOutcome { buys, sells, trades: Seq::empty() }
    } else {
        let b = buys[0];
        let s = sells[0];
        let q = trade_quantity(b, s);
        let t = Trade { buy_id: b.id, sell_id: s.id, price: s.price, quantity: q };
        let rest = match_spec(fill_head(buys, q), fill_head(sells, q));
        MatchOutcome { buys: rest.buys, sells: rest.sells, trades: seq![t] + rest.trades }
    }
}

/// The reference price a fresh book starts with: the fetched quote when one
/// arrived and is positive, the default otherwise.
pub open spec fn initial_price(fetched: Option<u64>) -> u64 {
    match fetched {
        Some(p) => if p > 0 {
            p
        } else {
            crate::DEFAULT_REFERENCE_PRICE
        },
        None => crate::DEFAULT_REFERENCE_PRICE,
    }
}

/// The two books hold the same orders, counter and reference price.
pub open spec fn same_book(a: OrderBook, b: OrderBook) -> bool {
    &&& a.buy_orders@ == b.buy_orders@
    &&& a.sell_orders@ == b.sell_orders@
    &&& a.next_order_id == b.next_order_id
    &&& a.current_price == b.current_price
}

/// The two orientations of `ids_disjoint` say the same thing.
proof fn lemma_ids_disjoint_sym(a: Seq<Order>, b: Seq<Order>)
    requires
        ids_disjoint(a, b),
    ensures
        ids_disjoint(b, a),
{
    assert forall|i: int, j: int| 0 <= i < b.len() && 0 <= j < a.len() implies (#[trigger] b[i]).id
        != (#[trigger] a[j]).id by {
        assert(a[j].id != b[i].id);  // ids_disjoint(a, b) at (j, i)
    }
}

/// Inserting at the position the scan found is exactly the stable resort
/// position that `insert_side` describes.
proof fn lemma_insert_side_at(is_buy: bool, s: Seq<Order>, o: Order, i: int)
    requires
        0 <= i <= s.len(),
        forall|k: int| 0 <= k < i ==> side_ordered(is_buy, s[k], o),
        i < s.len() ==> !side_ordered(is_buy, s[i], o),
    ensures
        s.insert(i, o) == insert_side(is_buy, s, o),
    decreases s.len(),
{
    if s.len() == 0 {
        assert(s.insert(0, o) =~= seq![o]);
    } else if i == 0 {
        assert(s.insert(0, o) =~= seq![o] + s);
    } else {
        let rest = s.drop_first();
        assert forall|k: int| 0 <= k < i - 1 implies side_ordered(is_buy, rest[k], o) by {
            assert(rest[k] == s[k + 1]);
        }
        assert(i - 1 < rest.len() ==> !side_ordered(is_buy, rest[i - 1], o));
        lemma_insert_side_at(is_buy, rest, o, i - 1);
        assert(s.insert(i, o) =~= seq![s[0]] + rest.insert(i - 1, o));
    }
}

/// Inserting a fresh order at its scan position keeps every structural
/// invariant of the side, against a bound one larger than the order's id.
proof fn lemma_inserted_side_wf(
    is_buy: bool,
    s: Seq<Order>,
    o: Order,
    i: int,
    other: Seq<Order>,
    bound: u64,
)
    requires
        0 <= i <= s.len(),
        sorted_side(is_buy, s),
        forall|k: int| 0 <= k < i ==> side_ordered(is_buy, s[k], o),
        i < s.len() ==> !side_ordered(is_buy, s[i], o),
        qty_positive(s),
        price_positive(s),
        ids_unique(s),
        ids_below(s, bound),
        ids_below(other, bound),
        ids_disjoint(s, other),
        o.id == bound,
        1 <= bound < u64::MAX,
        o.quantity > 0,
        o.price > 0,
    ensures
        sorted_side(is_buy, s.insert(i, o)),
        qty_positive(s.insert(i, o)),
        price_positive(s.insert(i, o)),
        ids_unique(s.insert(i, o)),
        ids_below(s.insert(i, o), (bound + 1) as u64),
        ids_below(other, (bound + 1) as u64),
        ids_disjoint(s.insert(i, o), other),
        ids_disjoint(other, s.insert(i, o)),
{
    let t = s.insert(i, o);
    assert(t.len() == s.len() + 1);
    assert(forall|k: int| 0 <= k < i ==> #[trigger] t[k] == s[k]);
    assert(t[i] == o);
    assert(forall|k: int| i < k < t.len() ==> #[trigger] t[k] == s[k - 1]);
    assert forall|p: int, q: int| 0 <= p < q < t.len() implies side_ordered(is_buy, t[p], t[q]) by {
        if q < i {
            assert(side_ordered(is_buy, s[p], s[q]));
        } else if q == i {
            assert(side_ordered(is_buy, s[p], o));
        } else if p < i {
            assert(side_ordered(is_buy, s[p], s[q - 1]));
        } else if p == i {
            // t[p] is o and t[q] is s[q - 1] with i <= q - 1 < s.len():
            // o stands strictly before s[i], and s[i] at or before s[q - 1].
            assert(!side_ordered(is_buy, s[i], o));
            if q - 1 > i {
                assert(side_ordered(is_buy, s[i], s[q - 1]));
            }
        } else {
            assert(side_ordered(is_buy, s[p - 1], s[q - 1]));
        }
    }
    assert forall|k: int| 0 <= k < t.len() implies (#[trigger] t[k]).quantity > 0 && t[k].price > 0
        && 1 <= t[k].id < bound + 1 by {
        if k < i {
            assert(t[k] == s[k]);
        } else if k > i {
            assert(t[k] == s[k - 1]);
        }
    }
    assert forall|p: int, q: int| 0 <= p < q < t.len() implies (#[trigger] t[p]).id != (
    #[trigger] t[q]).id by {
        if q == i {
            assert(s[p].id < bound);
        } else if p == i {
            assert(s[q - 1].id < bound);
        } else if q < i {
            assert(s[p].id != s[q].id);
        } else if p > i {
            assert(s[p - 1].id != s[q - 1].id);
        } else {
            assert(s[p].id != s[q - 1].id);
        }
    }
    assert forall|p: int, q: int| 0 <= p < t.len() && 0 <= q < other.len() implies (
    #[trigger] t[p]).id != (#[trigger] other[q]).id by {
        if p == i {
            assert(other[q].id < bound);
        } else if p < i {
            assert(s[p].id != other[q].id);
        } else {
            assert(s[p - 1].id != other[q].id);
        }
    }
    lemma_ids_disjoint_sym(t, other);
}

/// Scan a sorted side for the stable resort position of `o` and insert it
/// there.
fn insert_into_side(side: &mut Vec<Order>, is_buy: bool, o: Order) -> (pos: usize)
    requires
        sorted_side(is_buy, old(side)@),
    ensures
        pos <= old(side)@.len(),
        final(side)@ == old(side)@.insert(pos as int, o),
        final(side)@ == insert_side(is_buy, old(side)@, o),
        forall|k: int| 0 <= k < pos ==> side_ordered(is_buy, old(side)@[k], o),
        pos < old(side)@.len() ==> !side_ordered(is_buy, old(side)@[pos as int], o),
{
    let mut i: usize = 0;
    while i < side.len()
        invariant_except_break
            i <= side.len(),
            side@ == old(side)@,
            forall|k: int| 0 <= k < i ==> side_ordered(is_buy, side@[k], o),
        ensures
            i <= side.len(),
            side@ == old(side)@,
            forall|k: int| 0 <= k < i ==> side_ordered(is_buy, side@[k], o),
            i < side.len() ==> !side_ordered(is_buy, side@[i as int], o),
        decreases side.len() - i,
    {
        let x = side[i];
        let at_or_before = if is_buy {
            x.price > o.price || (x.price == o.price && x.timestamp <= o.timestamp)
        } else {
            x.price < o.price || (x.price == o.price && x.timestamp <= o.timestamp)
        };
        if !at_or_before {
            break ;
        }
        i = i + 1;
    }
    proof {
        lemma_insert_side_at(is_buy, side@, o, i as int);
    }
    side.insert(i, o);
    i
}

/// Every order of a side after an insertion is the inserted one or one
/// that already rested there.
pub proof fn lemma_insert_side_membership(is_buy: bool, s: Seq<Order>, o: Order)
    ensures
        insert_side(is_buy, s, o).len() == s.len() + 1,
        forall|k: int|
            0 <= k < insert_side(is_buy, s, o).len() ==> #[trigger] insert_side(is_buy, s, o)[k]
                == o || exists|j: int| 0 <= j < s.len() && s[j] == insert_side(is_buy, s, o)[k],
    decreases s.len(),
{
    let t = insert_side(is_buy, s, o);
    if s.len() == 0 {
    } else if side_ordered(is_buy, s[0], o) {
        let rest = s.drop_first();
        let tr = insert_side(is_buy, rest, o);
        lemma_insert_side_membership(is_buy, rest, o);
        assert forall|k: int| 0 <= k < t.len() implies #[trigger] t[k] == o || exists|j: int|
            0 <= j < s.len() && s[j] == t[k] by {
            if k == 0 {
                assert(s[0] == t[0]);
            } else {
                assert(t[k] == tr[k - 1]);
                if tr[k - 1] != o {
                    let j = choose|j: int| 0 <= j < rest.len() && rest[j] == tr[k - 1];
                    assert(s[j + 1] == t[k]);
                }
            }
        }
    } else {
        assert forall|k: int| 0 <= k < t.len() implies #[trigger] t[k] == o || exists|j: int|
            0 <= j < s.len() && s[j] == t[k] by {
            if k > 0 {
                assert(s[k - 1] == t[k]);
            }
        }
    }
}

/// Filling the head by a quantity it can give leaves a remnant of the
/// side, with every quantity still positive.
pub(crate) proof fn lemma_fill_head_remnant(side: Seq<Order>, q: u64)
    requires
        side.len() > 0,
        qty_positive(side),
        0 < q <= side[0].quantity,
    ensures
        remnant_of(side, fill_head(side, q)),
        qty_positive(fill_head(side, q)),
{
    let res = fill_head(side, q);
    if side[0].quantity == q {
        assert forall|i: int| 0 <= i < res.len() implies order_reduced(
            side[side.len() - res.len() + i],
            #[trigger] res[i],
        ) by {
            assert(res[i] == side[i + 1]);
        }
    } else {
        assert forall|i: int| 0 <= i < res.len() implies order_reduced(
            side[side.len() - res.len() + i],
            #[trigger] res[i],
        ) by {
            if i > 0 {
                assert(res[i] == side[i]);
            }
        }
    }
    assert forall|i: int| 0 <= i < res.len() implies (#[trigger] res[i]).quantity > 0 by {
        assert(order_reduced(side[side.len() - res.len() + i], res[i]));
    }
}

/// Being a remnant is transitive.
proof fn lemma_remnant_trans(a: Seq<Order>, b: Seq<Order>, c: Seq<Order>)
    requires
        remnant_of(a, b),
        remnant_of(b, c),
    ensures
        remnant_of(a, c),
{
    assert forall|i: int| 0 <= i < c.len() implies order_reduced(
        a[a.len() - c.len() + i],
        #[trigger] c[i],
    ) by {
        assert(order_reduced(b[b.len() - c.len() + i], c[i]));
        assert(order_reduced(a[a.len() - b.len() + (b.len() - c.len() + i)], b[b.len() - c.len()
            + i]));
    }
}

/// A matching pass only consumes orders from the head of each side: what
/// remains is a remnant of what was there, and the heads that remain no
/// longer cross.
pub proof fn lemma_match_remnant(buys: Seq<Order>, sells: Seq<Order>)
    requires
        qty_positive(buys),
        qty_positive(sells),
    ensures
        remnant_of(buys, match_spec(buys, sells).buys),
        remnant_of(sells, match_spec(buys, sells).sells),
        !crossing(match_spec(buys, sells).buys, match_spec(buys, sells).sells),
    decreases buys.len() + sells.len(),
{
    if !crossing(buys, sells) {
        assert forall|i: int| 0 <= i < buys.len() implies order_reduced(
            buys[i],
            #[trigger] buys[i],
        ) by {}
        assert forall|i: int| 0 <= i < sells.len() implies order_reduced(
            sells[i],
            #[trigger] sells[i],
        ) by {}
    } else {
        let q = trade_quantity(buys[0], sells[0]);
        lemma_fill_head_remnant(buys, q);
        lemma_fill_head_remnant(sells, q);
        lemma_match_remnant(fill_head(buys, q), fill_head(sells, q));
        lemma_remnant_trans(buys, fill_head(buys, q), match_spec(buys, sells).buys);
        lemma_remnant_trans(sells, fill_head(sells, q), match_spec(buys, sells).sells);
    }
}

/// A remnant keeps every per-side structural invariant of its origin.
proof fn lemma_remnant_wf(is_buy: bool, orig: Seq<Order>, res: Seq<Order>, bound: u64)
    requires
        remnant_of(orig, res),
        sorted_side(is_buy, orig),
        price_positive(orig),
        ids_unique(orig),
        ids_below(orig, bound),
    ensures
        sorted_side(is_buy, res),
        qty_positive(res),
        price_positive(res),
        ids_unique(res),
        ids_below(res, bound),
{
    let d = orig.len() - res.len();
    assert forall|p: int, q: int| 0 <= p < q < res.len() implies side_ordered(
        is_buy,
        res[p],
        res[q],
    ) by {
        assert(order_reduced(orig[d + p], res[p]));
        assert(order_reduced(orig[d + q], res[q]));
        assert(side_ordered(is_buy, orig[d + p], orig[d + q]));
    }
    assert forall|i: int| 0 <= i < res.len() implies (#[trigger] res[i]).quantity > 0 && res[i].price
        > 0 && 1 <= res[i].id < bound by {
        assert(order_reduced(orig[d + i], res[i]));
        assert(orig[d + i].price > 0);
        assert(1 <= orig[d + i].id < bound);
    }
    assert forall|p: int, q: int| 0 <= p < q < res.len() implies (#[trigger] res[p]).id != (
    #[trigger] res[q]).id by {
        assert(order_reduced(orig[d + p], res[p]));
        assert(order_reduced(orig[d + q], res[q]));
        assert(orig[d + p].id != orig[d + q].id);
    }
}

/// Remnants of disjoint sides stay disjoint.
proof fn lemma_remnant_disjoint(
    orig_a: Seq<Order>,
    res_a: Seq<Order>,
    orig_b: Seq<Order>,
    res_b: Seq<Order>,
)
    requires
        remnant_of(orig_a, res_a),
        remnant_of(orig_b, res_b),
        ids_disjoint(orig_a, orig_b),
    ensures
        ids_disjoint(res_a, res_b),
{
    let da = orig_a.len() - res_a.len();
    let db = orig_b.len() - res_b.len();
    assert forall|i: int, j: int| 0 <= i < res_a.len() && 0 <= j < res_b.len() implies (
    #[trigger] res_a[i]).id != (#[trigger] res_b[j]).id by {
        assert(order_reduced(orig_a[da + i], res_a[i]));
        assert(order_reduced(orig_b[db + j], res_b[j]));
        assert(orig_a[da + i].id != orig_b[db + j].id);
    }
}

/// A single-instrument order book.
pub struct OrderBook {
    /// Resting buy orders, most aggressive first.
    pub buy_orders: Vec<Order>,
    /// Resting sell orders, most aggressive first.
    pub sell_orders: Vec<Order>,
    /// The next id to allocate; starts at 1 and grows by one per accepted
    /// submission.
    pub next_order_id: u64,
    /// Last known reference price, fixed-point; informational only.
    pub current_price: u64,
}

impl OrderBook {
    /// The buy side as a sequence.
    pub open spec fn buys(self) -> Seq<Order> {
        self.buy_orders@
    }

    /// The sell side as a sequence.
    pub open spec fn sells(self) -> Seq<Order> {
        self.sell_orders@
    }

    /// Structural invariant of a book: both sides in priority order, all
    /// prices and quantities strictly positive, ids unique across both
    /// sides and all allocated below the counter.
    pub open spec fn well_formed(self) -> bool {
        &&& sorted_side(true, self.buys())
        &&& sorted_side(false, self.sells())
        &&& qty_positive(self.buys())
        &&& qty_positive(self.sells())
        &&& price_positive(self.buys())
        &&& price_positive(self.sells())
        &&& ids_unique(self.buys())
        &&& ids_unique(self.sells())
        &&& ids_disjoint(self.buys(), self.sells())
        &&& ids_below(self.buys(), self.next_order_id)
        &&& ids_below(self.sells(), self.next_order_id)
        &&& self.next_order_id >= 1
        &&& self.current_price > 0
    }

    /// No crossing orders rest: the best buy is strictly below the best
    /// sell whenever both sides are non-empty.
    pub open spec fn settled(self) -> bool {
        !crossing(self.buys(), self.sells())
    }

    /// An empty book. The reference price is the fetched quote when one is
    /// present and positive, the default otherwise; a failed fetch is
    /// handed in as `None` and never fails construction.
    pub fn new(fetched_price: Option<u64>) -> (book: OrderBook)
        ensures
            book.well_formed(),
            book.settled(),
            book.buys() == Seq::<Order>::empty(),
            book.sells() == Seq::<Order>::empty(),
            book.next_order_id == 1,
            book.current_price == initial_price(fetched_price),
    {
        let current_price = match fetched_price {
            Some(p) => if p > 0 {
                p
            } else {
                crate::DEFAULT_REFERENCE_PRICE
            },
            None => crate::DEFAULT_REFERENCE_PRICE,
        };
        let book = OrderBook {
            buy_orders: Vec::new(),
            sell_orders: Vec::new(),
            next_order_id: 1,
            current_price,
        };
        proof {
            assert(book.buys() =~= Seq::<Order>::empty());
            assert(book.sells() =~= Seq::<Order>::empty());
        }
        book
    }

    /// Run the matching pass: repeatedly trade the best buy against the
    /// best sell while they cross, each trade at the resting sell order's
    /// price for the smaller remaining quantity, and report the trades in
    /// the order they happened.
    pub fn match_orders(&mut self) -> (trades: Vec<Trade>)
        requires
            old(self).well_formed(),
        ensures
            final(self).well_formed(),
            final(self).settled(),
            final(self).buys() == match_spec(old(self).buys(), old(self).sells()).buys,
            final(self).sells() == match_spec(old(self).buys(), old(self).sells()).sells,
            trades@ == match_spec(old(self).buys(), old(self).sells()).trades,
            final(self).next_order_id == old(self).next_order_id,
            final(self).current_price == old(self).current_price,
    {
        let ghost gb: Seq<Order> = self.buy_orders@;
        let ghost gs: Seq<Order> = self.sell_orders@;
        let ghost gnext: u64 = self.next_order_id;
        let ghost gprice: u64 = self.current_price;
        let mut trades: Vec<Trade> = Vec::new();
        proof {
            assert(match_spec(gb, gs).trades =~= trades@ + match_spec(gb, gs).trades);
        }
        loop
            invariant
                self.next_order_id == gnext,
                self.current_price == gprice,
                match_spec(gb, gs).buys == match_spec(self.buy_orders@, self.sell_orders@).buys,
                match_spec(gb, gs).sells == match_spec(self.buy_orders@, self.sell_orders@).sells,
                match_spec(gb, gs).trades == trades@ + match_spec(
                    self.buy_orders@,
                    self.sell_orders@,
                ).trades,
            ensures
                !crossing(self.buy_orders@, self.sell_orders@),
                self.next_order_id == gnext,
                self.current_price == gprice,
                match_spec(gb, gs).buys == match_spec(self.buy_orders@, self.sell_orders@).buys,
                match_spec(gb, gs).sells == match_spec(self.buy_orders@, self.sell_orders@).sells,
                match_spec(gb, gs).trades == trades@ + match_spec(
                    self.buy_orders@,
                    self.sell_orders@,
                ).trades,
            decreases self.buy_orders.len() + self.sell_orders.len(),
        {
            if self.buy_orders.len() == 0 || self.sell_orders.len() == 0 {
                break ;
            }
            let b = self.buy_orders[0];
            let s = self.sell_orders[0];
            if b.price < s.price {
                break ;
            }
            let q = if b.quantity <= s.quantity {
                b.quantity
            } else {
                s.quantity
            };
            let ghost pre_b: Seq<Order> = self.buy_orders@;
            let ghost pre_s: Seq<Order> = self.sell_orders@;
            let ghost pre_trades: Seq<Trade> = trades@;
            let t = Trade { buy_id: b.id, sell_id: s.id, price: s.price, quantity: q };
            trades.push(t);
            if b.quantity == q {
                self.buy_orders.remove(0);
            } else {
                self.buy_orders[0] = Order {
                    id: b.id,
                    price: b.price,
                    quantity: b.quantity - q,
                    timestamp: b.timestamp,
                };
            }
            if s.quantity == q {
                self.sell_orders.remove(0);
            } else {
                self.sell_orders[0] = Order {
                    id: s.id,
                    price: s.price,
                    quantity: s.quantity - q,
                    timestamp: s.timestamp,
                };
            }
            proof {
                assert(crossing(pre_b, pre_s));
                assert(q == trade_quantity(pre_b[0], pre_s[0]));
                assert(self.buy_orders@ =~= fill_head(pre_b, q));
                assert(self.sell_orders@ =~= fill_head(pre_s, q));
                assert(match_spec(pre_b, pre_s).trades == seq![t] + match_spec(
                    self.buy_orders@,
                    self.sell_orders@,
                ).trades);
                assert(trades@ =~= pre_trades + seq![t]);
                assert(pre_trades + (seq![t] + match_spec(self.buy_orders@, self.sell_orders@).trades)
                    =~= (pre_trades + seq![t]) + match_spec(
                    self.buy_orders@,
                    self.sell_orders@,
                ).trades);
            }
        }
        proof {
            assert(match_spec(self.buy_orders@, self.sell_orders@).buys == self.buy_orders@);
            assert(match_spec(self.buy_orders@, self.sell_orders@).sells == self.sell_orders@);
            assert(trades@ =~= trades@ + Seq::<Trade>::empty());
            lemma_match_remnant(gb, gs);
            lemma_remnant_wf(true, gb, match_spec(gb, gs).buys, gnext);
            lemma_remnant_wf(false, gs, match_spec(gb, gs).sells, gnext);
            lemma_remnant_disjoint(gb, match_spec(gb, gs).buys, gs, match_spec(gb, gs).sells);
        }
        trades
    }

    /// Accept a new order: allocate the next id, rest the order at its
    /// price-time position, then run the matching pass and return its
    /// trades. A zero price or quantity is rejected and leaves the book
    /// untouched.
    pub fn submit(
        &mut self,
        price: u64,
        quantity: u64,
        is_buy: bool,
        timestamp: u64,
    ) -> (result: Result<Vec<Trade>, OrderError>)
        requires
            old(self).well_formed(),
            old(self).next_order_id < u64::MAX,
        ensures
            final(self).well_formed(),
            final(self).current_price == old(self).current_price,
            old(self).settled() ==> final(self).settled(),
            (price == 0 || quantity == 0) ==> (result matches Err(e) && e
                == OrderError::InvalidOrder && same_book(*old(self), *final(self))),
            (price > 0 && quantity > 0) ==> ({
                let placed = Order { id: old(self).next_order_id, price, quantity, timestamp };
                let new_buys = if is_buy {
                    insert_side(true, old(self).buys(), placed)
                } else {
                    old(self).buys()
                };
                let new_sells = if is_buy {
                    old(self).sells()
                } else {
                    insert_side(false, old(self).sells(), placed)
                };
                &&& result matches Ok(trades) && trades@ == match_spec(new_buys, new_sells).trades
                &&& final(self).buys() == match_spec(new_buys, new_sells).buys
                &&& final(self).sells() == match_spec(new_buys, new_sells).sells
                &&& final(self).next_order_id == old(self).next_order_id + 1
                &&& final(self).settled()
            }),
            (price > 0 && quantity > 0 && old(self).settled() && is_buy && (old(self).sells().len()
                == 0 || price < old(self).sells()[0].price)) ==> ({
                let placed = Order { id: old(self).next_order_id, price, quantity, timestamp };
                &&& final(self).sells() == old(self).sells()
                &&& final(self).buys() == insert_side(true, old(self).buys(), placed)
                &&& result matches Ok(trades) && trades@ == Seq::<Trade>::empty()
            }),
            (price > 0 && quantity > 0 && old(self).settled() && !is_buy && (old(
                self,
            ).buys().len() == 0 || old(self).buys()[0].price < price)) ==> ({
                let placed = Order { id: old(self).next_order_id, price, quantity, timestamp };
                &&& final(self).buys() == old(self).buys()
                &&& final(self).sells() == insert_side(false, old(self).sells(), placed)
                &&& result matches Ok(trades) && trades@ == Seq::<Trade>::empty()
            }),
    {
        if price == 0 || quantity == 0 {
            return Err(OrderError::InvalidOrder);
        }
        let placed = Order { id: self.next_order_id, price, quantity, timestamp };
        let ghost ob: Seq<Order> = self.buy_orders@;
        let ghost os: Seq<Order> = self.sell_orders@;
        let ghost obound: u64 = self.next_order_id;
        self.next_order_id = self.next_order_id + 1;
        if is_buy {
            let pos = insert_into_side(&mut self.buy_orders, true, placed);
            proof {
                lemma_inserted_side_wf(true, ob, placed, pos as int, os, obound);
            }
        } else {
            let pos = insert_into_side(&mut self.sell_orders, false, placed);
            proof {
                lemma_inserted_side_wf(false, os, placed, pos as int, ob, obound);
            }
        }
        let trades = self.match_orders();
        proof {
            if !crossing(ob, os) {
                if is_buy && (os.len() == 0 || price < os[0].price) {
                    crate::laws::lemma_non_crossing_submission_is_inert(ob, os, placed, true);
                }
                if !is_buy && (ob.len() == 0 || ob[0].price < price) {
                    crate::laws::lemma_non_crossing_submission_is_inert(ob, os, placed, false);
                }
            }
        }
        Ok(trades)
    }

    /// Overwrite the remaining quantity of the resting order with this id.
    /// The order keeps its place: quantity does not affect priority, and no
    /// matching pass runs until the next submission — a documented
    /// limitation, not repaired here. A zero quantity is rejected, an
    /// unknown id reported, and either leaves the book untouched.
    pub fn modify(&mut self, order_id: u64, new_quantity: u64) -> (result: Result<
        (),
        OrderError,
    >)
        requires
            old(self).well_formed(),
        ensures
            final(self).well_formed(),
            final(self).next_order_id == old(self).next_order_id,
            final(self).current_price == old(self).current_price,
            old(self).settled() ==> final(self).settled(),
            new_quantity == 0 ==> (result matches Err(e) && e == OrderError::InvalidOrder
                && same_book(*old(self), *final(self))),
            (new_quantity > 0 && has_order(old(self).buys(), order_id)) ==> ({
                &&& result matches Ok(u) && u == ()
                &&& final(self).sells() == old(self).sells()
                &&& exists|i: int|
                    0 <= i < old(self).buys().len() && (#[trigger] old(self).buys()[i]).id
                        == order_id && final(self).buys() == old(self).buys().update(
                        i,
                        (Order { quantity: new_quantity, ..old(self).buys()[i] }),
                    )
            }),
            (new_quantity > 0 && !has_order(old(self).buys(), order_id) && has_order(
                old(self).sells(),
                order_id,
            )) ==> ({
                &&& result matches Ok(u) && u == ()
                &&& final(self).buys() == old(self).buys()
                &&& exists|i: int|
                    0 <= i < old(self).sells().len() && (#[trigger] old(self).sells()[i]).id
                        == order_id && final(self).sells() == old(self).sells().update(
                        i,
                        (Order { quantity: new_quantity, ..old(self).sells()[i] }),
                    )
            }),
            (new_quantity > 0 && !has_order(old(self).buys(), order_id) && !has_order(
                old(self).sells(),
                order_id,
            )) ==> (result matches Err(e) && e == OrderError::UnknownOrderId && same_book(
                *old(self),
                *final(self),
            )),
    {
        if new_quantity == 0 {
            return Err(OrderError::InvalidOrder);
        }
        let ghost ob: Seq<Order> = self.buy_orders@;
        let ghost os: Seq<Order> = self.sell_orders@;
        if let Some(i) = find_in_side(&self.buy_orders, order_id) {
            let o = self.buy_orders[i];
            self.buy_orders[i] = Order {
                id: o.id,
                price: o.price,
                quantity: new_quantity,
                timestamp: o.timestamp,
            };
            proof {
                lemma_updated_quantity_wf(
                    true,
                    ob,
                    i as int,
                    new_quantity,
                    os,
                    self.next_order_id,
                );
            }
            return Ok(());
        }
        if let Some(i) = find_in_side(&self.sell_orders, order_id) {
            let o = self.sell_orders[i];
            self.sell_orders[i] = Order {
                id: o.id,
                price: o.price,
                quantity: new_quantity,
                timestamp: o.timestamp,
            };
            proof {
                lemma_updated_quantity_wf(
                    false,
                    os,
                    i as int,
                    new_quantity,
                    ob,
                    self.next_order_id,
                );
                lemma_ids_disjoint_sym(os.update(i as int, (Order { quantity: new_quantity, ..os[i as int] })), ob);
            }
            return Ok(());
        }
        Err(OrderError::UnknownOrderId)
    }
}

/// Find the index of the resting order with this id, if any rests here.
fn find_in_side(side: &Vec<Order>, order_id: u64) -> (found: Option<usize>)
    ensures
        match found {
            Some(i) => i < side@.len() && side@[i as int].id == order_id,
            None => !has_order(side@, order_id),
        },
{
    let mut i: usize = 0;
    while i < side.len()
        invariant
            i <= side.len(),
            forall|k: int| 0 <= k < i ==> (#[trigger] side@[k]).id != order_id,
        decreases side.len() - i,
    {
        if side[i].id == order_id {
            return Some(i);
        }
        i = i + 1;
    }
    None
}

/// Overwriting one resting order's quantity with a positive value keeps
/// every structural invariant, the side's length, and its head price.
proof fn lemma_updated_quantity_wf(
    is_buy: bool,
    s: Seq<Order>,
    i: int,
    nq: u64,
    other: Seq<Order>,
    bound: u64,
)
    requires
        0 <= i < s.len(),
        nq > 0,
        sorted_side(is_buy, s),
        qty_positive(s),
        price_positive(s),
        ids_unique(s),
        ids_below(s, bound),
        ids_disjoint(s, other),
    ensures
        ({
            let t = s.update(i, (Order { quantity: nq, ..s[i] }));
            &&& sorted_side(is_buy, t)
            &&& qty_positive(t)
            &&& price_positive(t)
            &&& ids_unique(t)
            &&& ids_below(t, bound)
            &&& ids_disjoint(t, other)
            &&& ids_disjoint(other, t)
            &&& t.len() == s.len()
            &&& t[0].price == s[0].price
        }),
{
    let t = s.update(i, (Order { quantity: nq, ..s[i] }));
    assert forall|p: int, q: int| 0 <= p < q < t.len() implies side_ordered(
        is_buy,
        t[p],
        t[q],
    ) by {
        assert(side_ordered(is_buy, s[p], s[q]));
    }
    assert forall|k: int| 0 <= k < t.len() implies (#[trigger] t[k]).quantity > 0 && t[k].price > 0
        && 1 <= t[k].id < bound by {
        assert(s[k].quantity > 0);
        assert(s[k].price > 0);
        assert(1 <= s[k].id < bound);
    }
    assert forall|p: int, q: int| 0 <= p < q < t.len() implies (#[trigger] t[p]).id != (
    #[trigger] t[q]).id by {
        assert(s[p].id != s[q].id);
    }
    assert forall|p: int, q: int| 0 <= p < t.len() && 0 <= q < other.len() implies (
    #[trigger] t[p]).id != (#[trigger] other[q]).id by {
        assert(s[p].id != other[q].id);
    }
    lemma_ids_disjoint_sym(t, other);
}

} // verus!
