//! The mathematical model of a book and the matching rule stated over it.

use vstd::prelude::*;
use crate::order::{Address, Fill, Order, OrderId, OrderStatus, Side};

verus! {

/// Where a resting order stands: what the book's index holds for it.
#[derive(Clone, Copy, PartialEq, Eq, Structural, Debug)]
pub struct IndexEntry {
    pub side: Side,
    pub price: u64,
}

/// A book as a value: each ladder is the sequence of its resting orders,
/// best first.
pub struct BookModel {
    pub market: Address,
    pub bids: Seq<Order>,
    pub asks: Seq<Order>,
    pub index: Map<OrderId, IndexEntry>,
    pub seq: u64,
    pub next_id: u64,
}

/// The state of one matching run: the opposite ladder, the index, the fills
/// produced so far and what the taker still wants.
pub struct MatchState {
    pub opp: Seq<Order>,
    pub index: Map<OrderId, IndexEntry>,
    pub fills: Seq<Fill>,
    pub rem: u64,
}

/// What a placement reports.
pub struct PlacementModel {
    pub fills: Seq<Fill>,
    pub resting: Option<OrderId>,
}

impl PlacementModel {
    /// The state in which the placement left the taker: resting untouched,
    /// resting in part, or filled.
    pub open spec fn taker_status(self) -> OrderStatus {
        if self.resting.is_none() {
            OrderStatus::Filled
        } else if self.fills.len() == 0 {
            OrderStatus::Open
        } else {
            OrderStatus::Partial
        }
    }
}

/// A taker on `side` at `price` trades with a maker at `maker_price`.
pub open spec fn crosses(side: Side, price: u64, maker_price: u64) -> bool {
    match side {
        Side::Bid => price >= maker_price,
        Side::Ask => price <= maker_price,
    }
}

/// On a ladder of `side`, price `p` is strictly better than price `q`.
pub open spec fn better(side: Side, p: u64, q: u64) -> bool {
    match side {
        Side::Bid => p > q,
        Side::Ask => p < q,
    }
}

/// Price-time priority: `a` is served before `b`.
pub open spec fn outranks(side: Side, a: Order, b: Order) -> bool {
    better(side, a.price, b.price) || (a.price == b.price && a.created_at < b.created_at)
}

pub open spec fn fill_between(taker: Order, maker: Order, qty: u64) -> Fill {
    Fill {
        maker_id: maker.id,
        taker_id: taker.id,
        price: maker.price,
        qty,
        maker_user: maker.user,
        taker_user: taker.user,
        market: maker.market,
    }
}

pub open spec fn can_match(taker: Order, st: MatchState) -> bool {
    st.rem > 0 && st.opp.len() > 0 && crosses(taker.side, taker.price, st.opp[0].price)
}

/// The quantity traded with the best maker.
pub open spec fn match_qty(st: MatchState) -> u64 {
    if st.rem <= st.opp[0].remaining {
        st.rem
    } else {
        st.opp[0].remaining
    }
}

/// One trade with the best maker, at the maker's price. A maker that is
/// used up leaves the ladder and the index.
pub open spec fn match_step(taker: Order, st: MatchState) -> MatchState {
    let maker = st.opp[0];
    let q = match_qty(st);
    MatchState {
        opp: if q == maker.remaining {
            st.opp.drop_first()
        } else {
            st.opp.update(0, maker.filled_by(q))
        },
        index: if q == maker.remaining {
            st.index.remove(maker.id)
        } else {
            st.index
        },
        fills: st.fills.push(fill_between(taker, maker, q)),
        rem: (st.rem - q) as u64,
    }
}

/// Trades with the best maker for as long as the taker wants more and
/// crosses it.
pub open spec fn match_all(taker: Order, st: MatchState) -> MatchState
    decreases st.opp.len(),
{
    if can_match(taker, st) {
        if match_qty(st) == st.opp[0].remaining {
            match_all(taker, match_step(taker, st))
        } else {
            match_step(taker, st)
        }
    } else {
        st
    }
}

/// The first position from `i` on whose price is strictly worse than
/// `price`: where a new order at `price` joins the ladder, behind all that
/// are at its price already.
pub open spec fn rest_pos_from(side: Side, price: u64, s: Seq<Order>, i: nat) -> nat
    decreases s.len() - i,
{
    if i >= s.len() {
        s.len()
    } else if better(side, price, s[i as int].price) {
        i
    } else {
        rest_pos_from(side, price, s, i + 1)
    }
}

pub open spec fn has_id(s: Seq<Order>, id: OrderId) -> bool {
    exists|i: int| 0 <= i < s.len() && (#[trigger] s[i]).id == id
}

/// The position of the order `id` in `s`.
pub open spec fn pos_of(s: Seq<Order>, id: OrderId) -> int {
    choose|i: int| 0 <= i < s.len() && (#[trigger] s[i]).id == id
}

pub open spec fn total_qty(fills: Seq<Fill>) -> nat
    decreases fills.len(),
{
    if fills.len() == 0 {
        0
    } else {
        total_qty(fills.drop_last()) + fills.last().qty as nat
    }
}

/// One price level of a ladder: the price and the quantity that rests at it.
pub struct LevelModel {
    pub price: u64,
    pub qty: nat,
}

/// The price levels of a ladder, best first: each run of orders at one
/// price, with the sum of what remains of them.
pub open spec fn levels(s: Seq<Order>) -> Seq<LevelModel>
    decreases s.len(),
{
    if s.len() == 0 {
        Seq::empty()
    } else {
        let before = levels(s.drop_last());
        let o = s.last();
        if before.len() > 0 && before.last().price == o.price {
            before.update(
                before.len() - 1,
                LevelModel { price: o.price, qty: before.last().qty + o.remaining as nat },
            )
        } else {
            before.push(LevelModel { price: o.price, qty: o.remaining as nat })
        }
    }
}

/// The best `n` levels of a ladder, or all of them where it has fewer.
pub open spec fn top_levels(s: Seq<Order>, n: nat) -> Seq<LevelModel> {
    let all = levels(s);
    if n < all.len() {
        all.take(n as int)
    } else {
        all
    }
}

/// The orders of a ladder carry pairwise different identifiers.
pub open spec fn distinct_ids(s: Seq<Order>) -> bool {
    forall|i: int, j: int| 0 <= i < j < s.len() ==> (#[trigger] s[i]).id != (#[trigger] s[j]).id
}

/// The price of the best order of a ladder.
pub open spec fn best_price(s: Seq<Order>) -> Option<u64> {
    if s.len() > 0 {
        Some(s[0].price)
    } else {
        None
    }
}

/// A book as it is written out: the ladders and the counters. The index is
/// no part of it, since it follows from the ladders.
pub struct SnapshotModel {
    pub market: Address,
    pub bids: Seq<Order>,
    pub asks: Seq<Order>,
    pub seq: u64,
    pub next_id: u64,
}

/// What the index holds for the order `id` of the ladders.
pub open spec fn entry_for(bids: Seq<Order>, asks: Seq<Order>, id: OrderId) -> IndexEntry {
    if has_id(bids, id) {
        IndexEntry { side: Side::Bid, price: bids[pos_of(bids, id)].price }
    } else {
        IndexEntry { side: Side::Ask, price: asks[pos_of(asks, id)].price }
    }
}

/// The index that belongs to the ladders.
pub open spec fn index_of(bids: Seq<Order>, asks: Seq<Order>) -> Map<OrderId, IndexEntry> {
    Map::new(
        |id: OrderId| has_id(bids, id) || has_id(asks, id),
        |id: OrderId| entry_for(bids, asks, id),
    )
}

/// What an order on a ladder of `side` must meet by itself.
pub open spec fn order_sound(side: Side, o: Order, market: Address, seq: u64, next_id: u64) -> bool {
    &&& o.side == side
    &&& o.market == market
    &&& o.price > 0
    &&& 0 < o.remaining <= o.amount
    &&& (o.status == OrderStatus::Open && o.remaining == o.amount || o.status
        == OrderStatus::Partial && o.remaining < o.amount)
    &&& o.created_at < seq
    &&& o.id < next_id
}

/// A ladder of sound orders in price-time order, each identifier once.
pub open spec fn ladder_sound(
    side: Side,
    s: Seq<Order>,
    market: Address,
    seq: u64,
    next_id: u64,
) -> bool {
    &&& forall|i: int| 0 <= i < s.len() ==> order_sound(side, #[trigger] s[i], market, seq, next_id)
    &&& forall|i: int, j: int|
        0 <= i < j < s.len() ==> outranks(side, #[trigger] s[i], #[trigger] s[j])
    &&& distinct_ids(s)
}

impl SnapshotModel {
    /// The book that the snapshot describes.
    pub open spec fn book(self) -> BookModel {
        BookModel {
            market: self.market,
            bids: self.bids,
            asks: self.asks,
            index: index_of(self.bids, self.asks),
            seq: self.seq,
            next_id: self.next_id,
        }
    }

    /// The book that `restore` gives: the one that the snapshot describes,
    /// where that book keeps the invariant.
    pub open spec fn restored(self) -> Option<BookModel> {
        if self.book().wf() {
            Some(self.book())
        } else {
            None
        }
    }
}

/// A call that changes a book.
pub enum BookOp {
    Place(Order),
    Cancel(OrderId),
    Update(OrderId, u64, u64),
}

/// The book after the call `op`.
pub open spec fn applied(b: BookModel, op: BookOp) -> BookModel {
    match op {
        BookOp::Place(order) => b.placed(order),
        BookOp::Cancel(id) => b.cancelled(id),
        BookOp::Update(id, price, amount) => b.updated(id, price, amount),
    }
}

/// The book after the calls `ops`, made in turn.
pub open spec fn applied_all(b: BookModel, ops: Seq<BookOp>) -> BookModel
    decreases ops.len(),
{
    if ops.len() == 0 {
        b
    } else {
        applied(applied_all(b, ops.drop_last()), ops.last())
    }
}

/// The book after `place` was called with each of `orders` in turn.
pub open spec fn placed_all(b: BookModel, orders: Seq<Order>) -> BookModel
    decreases orders.len(),
{
    if orders.len() == 0 {
        b
    } else {
        placed_all(b, orders.drop_last()).placed(orders.last())
    }
}

impl BookModel {
    pub open spec fn empty(market: Address) -> BookModel {
        BookModel {
            market,
            bids: Seq::empty(),
            asks: Seq::empty(),
            index: Map::empty(),
            seq: 0,
            next_id: 0,
        }
    }

    pub open spec fn ladder(self, side: Side) -> Seq<Order> {
        match side {
            Side::Bid => self.bids,
            Side::Ask => self.asks,
        }
    }

    pub open spec fn with_ladder(self, side: Side, s: Seq<Order>) -> BookModel {
        match side {
            Side::Bid => BookModel { bids: s, ..self },
            Side::Ask => BookModel { asks: s, ..self },
        }
    }

    /// An order that rests on `side` of this book is live, belongs here and
    /// was stamped by this book.
    pub open spec fn rests_well(self, side: Side, o: Order) -> bool {
        &&& o.side == side
        &&& o.market == self.market
        &&& o.price > 0
        &&& 0 < o.remaining <= o.amount
        &&& (o.status == OrderStatus::Open && o.remaining == o.amount
            || o.status == OrderStatus::Partial && o.remaining < o.amount)
        &&& o.created_at < self.seq
        &&& o.id < self.next_id
        &&& self.index.contains_key(o.id)
        &&& self.index[o.id] == (IndexEntry { side, price: o.price })
    }

    pub open spec fn ladder_wf(self, side: Side) -> bool {
        let s = self.ladder(side);
        &&& forall|i: int| 0 <= i < s.len() ==> self.rests_well(side, #[trigger] s[i])
        &&& forall|i: int, j: int|
            0 <= i < j < s.len() ==> outranks(side, #[trigger] s[i], #[trigger] s[j])
        &&& forall|i: int, j: int|
            0 <= i < j < s.len() ==> (#[trigger] s[i]).id != (#[trigger] s[j]).id
    }

    /// No bid is at or above an ask.
    pub open spec fn uncrossed(self) -> bool {
        self.bids.len() > 0 && self.asks.len() > 0 ==> self.bids[0].price < self.asks[0].price
    }

    /// The book's invariant: both ladders hold live orders in price-time
    /// order, each once; the book is not crossed; and the index holds
    /// exactly the resting orders, each with its side and price.
    pub open spec fn wf(self) -> bool {
        &&& self.ladder_wf(Side::Bid)
        &&& self.ladder_wf(Side::Ask)
        &&& self.uncrossed()
        &&& self.seq <= self.next_id
        &&& forall|id: OrderId| #[trigger]
            self.index.contains_key(id) ==> has_id(self.bids, id) || has_id(self.asks, id)
    }

    /// The orders that `place` takes: fresh, for this market, with a
    /// positive price and amount.
    pub open spec fn accepts(self, order: Order) -> bool {
        &&& order.price > 0
        &&& order.amount > 0
        &&& order.is_fresh()
        &&& order.market == self.market
    }

    /// The book has an identifier left for one more order.
    pub open spec fn has_room(self) -> bool {
        self.next_id < u64::MAX
    }

    /// The order with the identifier that this book gives it.
    pub open spec fn stamped(self, order: Order) -> Order {
        Order { id: self.next_id, ..order }
    }

    /// The outcome of matching `order` against the opposite ladder.
    pub open spec fn matched(self, order: Order) -> MatchState {
        match_all(
            self.stamped(order),
            MatchState {
                opp: self.ladder(order.side.spec_opposite()),
                index: self.index,
                fills: Seq::empty(),
                rem: order.amount,
            },
        )
    }

    /// The order as it rests after matching left `rem` of it.
    pub open spec fn resting_order(self, order: Order, rem: u64) -> Order {
        Order {
            id: self.next_id,
            remaining: rem,
            status: if rem == order.amount {
                OrderStatus::Open
            } else {
                OrderStatus::Partial
            },
            created_at: self.seq,
            ..order
        }
    }

    /// The book with `o` resting on its side: behind the orders at its
    /// price, stamped with the book's clock, and entered in the index.
    pub open spec fn with_resting(self, o: Order) -> BookModel {
        let own = self.ladder(o.side);
        let at = rest_pos_from(o.side, o.price, own, 0) as int;
        BookModel {
            index: self.index.insert(o.id, IndexEntry { side: o.side, price: o.price }),
            seq: (self.seq + 1) as u64,
            ..self.with_ladder(o.side, own.insert(at, o))
        }
    }

    /// The book after matching `order`, before what is left of it rests.
    pub open spec fn after_matching(self, order: Order) -> BookModel {
        let m = self.matched(order);
        BookModel {
            index: m.index,
            next_id: (self.next_id + 1) as u64,
            ..self.with_ladder(order.side.spec_opposite(), m.opp)
        }
    }

    /// The book after `place(order)` on an accepted order.
    pub open spec fn after_place(self, order: Order) -> BookModel {
        let m = self.matched(order);
        if m.rem > 0 {
            self.after_matching(order).with_resting(self.resting_order(order, m.rem))
        } else {
            self.after_matching(order)
        }
    }

    /// The book after a call of `place(order)`: an order that is not
    /// accepted leaves it as it was.
    pub open spec fn placed(self, order: Order) -> BookModel {
        if self.accepts(order) {
            self.after_place(order)
        } else {
            self
        }
    }

    /// The book after a call of `cancel(id)`: an order that does not rest
    /// leaves it as it was.
    pub open spec fn cancelled(self, id: OrderId) -> BookModel {
        if self.is_resting(id) {
            self.after_cancel(id)
        } else {
            self
        }
    }

    /// The book as it is written out.
    pub open spec fn snapshot(self) -> SnapshotModel {
        SnapshotModel {
            market: self.market,
            bids: self.bids,
            asks: self.asks,
            seq: self.seq,
            next_id: self.next_id,
        }
    }

    /// The book after a call of `update(id, price, amount)`: an order that
    /// does not rest, or a zero price or amount, leaves it as it was.
    pub open spec fn updated(self, id: OrderId, price: u64, amount: u64) -> BookModel {
        if self.is_resting(id) && price > 0 && amount > 0 {
            self.after_cancel(id).after_place(self.replacement(id, price, amount))
        } else {
            self
        }
    }

    /// What `place(order)` reports on an accepted order.
    pub open spec fn place_outcome(self, order: Order) -> PlacementModel {
        let m = self.matched(order);
        PlacementModel {
            fills: m.fills,
            resting: if m.rem > 0 {
                Some(self.next_id)
            } else {
                None
            },
        }
    }

    /// The order that takes the place of the resting order `id` on an
    /// update: the same user, side and signature, fresh at the new price
    /// and amount.
    pub open spec fn replacement(self, id: OrderId, price: u64, amount: u64) -> Order {
        Order {
            id: 0,
            price,
            amount,
            remaining: amount,
            status: OrderStatus::Open,
            created_at: 0,
            ..self.resting(id)
        }
    }

    pub open spec fn is_resting(self, id: OrderId) -> bool {
        self.index.contains_key(id)
    }

    /// The resting order `id`, as the ladders hold it.
    pub open spec fn resting(self, id: OrderId) -> Order {
        let s = self.ladder(self.index[id].side);
        s[pos_of(s, id)]
    }

    /// The book after `cancel(id)` on a resting order.
    pub open spec fn after_cancel(self, id: OrderId) -> BookModel {
        let side = self.index[id].side;
        let s = self.ladder(side);
        BookModel { index: self.index.remove(id), ..self.with_ladder(side, s.remove(pos_of(s, id))) }
    }
}

} // verus!
