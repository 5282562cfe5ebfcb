//! A single market's order book.

use std::collections::HashMap;
use vstd::prelude::*;
use crate::order::{Address, EngineError, Fill, Order, OrderId, OrderStatus, Side};
use crate::model::{
    best_price, better, can_match, crosses, distinct_ids, has_id, index_of, ladder_sound, levels,
    match_all, match_step, order_sound, outranks, pos_of, rest_pos_from, top_levels, BookModel,
    IndexEntry, LevelModel, MatchState, PlacementModel, SnapshotModel,
};
use crate::laws::{lemma_cancel_keeps_wf, lemma_place_keeps_wf};

verus! {

broadcast use vstd::std_specs::hash::group_hash_axioms;

/// The order book of one market. Each ladder holds its resting orders best
/// first: bids from the highest price down, asks from the lowest price up,
/// and within a price the oldest first.
#[derive(Clone, PartialEq, Eq, Debug)]
pub struct Book {
    pub market: Address,
    pub bids: Vec<Order>,
    pub asks: Vec<Order>,
    pub index: HashMap<OrderId, IndexEntry>,
    pub seq: u64,
    pub next_id: u64,
}

/// What `place` hands back: the fills in the order in which they were
/// made, and the identifier under which the rest of the order rests.
#[derive(Clone, PartialEq, Eq, Debug)]
pub struct PlacementOutcome {
    pub fills: Vec<Fill>,
    pub resting: Option<OrderId>,
}

impl View for PlacementOutcome {
    type V = PlacementModel;

    open spec fn view(&self) -> PlacementModel {
        PlacementModel { fills: self.fills@, resting: self.resting }
    }
}

/// One price level as `depth` reports it.
#[derive(Clone, Copy, PartialEq, Eq, Structural, Debug)]
pub struct Level {
    pub price: u64,
    pub qty: u128,
}

impl View for Level {
    type V = LevelModel;

    open spec fn view(&self) -> LevelModel {
        LevelModel { price: self.price, qty: self.qty as nat }
    }
}

pub open spec fn level_views(s: Seq<Level>) -> Seq<LevelModel> {
    s.map_values(|l: Level| l@)
}

impl PlacementOutcome {
    /// The state in which the placement left the order.
    pub fn taker_status(&self) -> (st: OrderStatus)
        ensures
            st == self@.taker_status(),
    {
        if self.resting.is_none() {
            OrderStatus::Filled
        } else if self.fills.len() == 0 {
            OrderStatus::Open
        } else {
            OrderStatus::Partial
        }
    }
}

impl View for Book {
    type V = BookModel;

    open spec fn view(&self) -> BookModel {
        BookModel {
            market: self.market,
            bids: self.bids@,
            asks: self.asks@,
            index: self.index@,
            seq: self.seq,
            next_id: self.next_id,
        }
    }
}

fn side_crosses(side: Side, price: u64, maker_price: u64) -> (r: bool)
    ensures
        r == crosses(side, price, maker_price),
{
    match side {
        Side::Bid => price >= maker_price,
        Side::Ask => price <= maker_price,
    }
}

fn side_better(side: Side, p: u64, q: u64) -> (r: bool)
    ensures
        r == better(side, p, q),
{
    match side {
        Side::Bid => p > q,
        Side::Ask => p < q,
    }
}

/// Every order of the ladder can take a fill.
pub open spec fn all_live(s: Seq<Order>) -> bool {
    forall|i: int| 0 <= i < s.len() ==> (#[trigger] s[i]).can_fill(s[i].remaining)
}

/// Matches `taker`, who wants `amount`, against the ladder `opp`, best
/// maker first. Returns the fills and what the taker still wants.
fn run_matching(
    opp: &mut Vec<Order>,
    index: &mut HashMap<OrderId, IndexEntry>,
    taker: &Order,
    amount: u64,
) -> (r: (Vec<Fill>, u64))
    requires
        all_live(old(opp)@),
    ensures
        (MatchState { opp: final(opp)@, index: final(index)@, fills: r.0@, rem: r.1 })
            == match_all(
            *taker,
            MatchState { opp: old(opp)@, index: old(index)@, fills: Seq::empty(), rem: amount },
        ),
{
    let mut fills: Vec<Fill> = Vec::new();
    let mut rem: u64 = amount;
    let ghost goal = match_all(
        *taker,
        MatchState { opp: opp@, index: index@, fills: Seq::empty(), rem: amount },
    );
    loop
        invariant
            all_live(opp@),
            match_all(*taker, MatchState { opp: opp@, index: index@, fills: fills@, rem })
                == goal,
        ensures
            (MatchState { opp: opp@, index: index@, fills: fills@, rem }) == goal,
        decreases opp.len(),
    {
        let ghost st = MatchState { opp: opp@, index: index@, fills: fills@, rem };
        if rem == 0 || opp.len() == 0 {
            break;
        }
        if !side_crosses(taker.side, taker.price, opp[0].price) {
            break;
        }
        assert(can_match(*taker, st));
        assert(st.opp[0].can_fill(st.opp[0].remaining));
        let mut maker = opp.remove(0);
        assert(forall|i: int| 0 <= i < opp@.len() ==> #[trigger] opp@[i] == st.opp[i + 1]);
        let qty: u64 = if rem <= maker.remaining {
            rem
        } else {
            maker.remaining
        };
        fills.push(
            Fill {
                maker_id: maker.id,
                taker_id: taker.id,
                price: maker.price,
                qty,
                maker_user: maker.user,
                taker_user: taker.user,
                market: maker.market,
            },
        );
        rem = rem - qty;
        if qty == maker.remaining {
            index.remove(&maker.id);
            proof {
                assert(opp@ =~= st.opp.drop_first());
                assert((MatchState { opp: opp@, index: index@, fills: fills@, rem })
                    == match_step(*taker, st));
            }
        } else {
            let ghost before = maker;
            let applied = maker.apply_fill(qty);
            assert(applied.is_ok() && maker == before.filled_by(qty));
            opp.insert(0, maker);
            proof {
                assert(opp@ =~= st.opp.update(0, before.filled_by(qty)));
                assert((MatchState { opp: opp@, index: index@, fills: fills@, rem })
                    == match_step(*taker, st));
            }
            break;
        }
    }
    (fills, rem)
}

/// Finds where a new order at `price` joins the ladder `s` of `side`.
fn find_rest_pos(side: Side, price: u64, s: &Vec<Order>) -> (at: usize)
    ensures
        at == rest_pos_from(side, price, s@, 0),
        at <= s.len(),
{
    let mut i: usize = 0;
    while i < s.len() && !side_better(side, price, s[i].price)
        invariant
            i <= s.len(),
            rest_pos_from(side, price, s@, 0) == rest_pos_from(side, price, s@, i as nat),
        decreases s.len() - i,
    {
        i = i + 1;
    }
    i
}

/// A book as it is written out and read back: its ladders, best order
/// first, and its counters.
#[derive(Clone, PartialEq, Eq, Debug)]
pub struct BookSnapshot {
    pub market: Address,
    pub bids: Vec<Order>,
    pub asks: Vec<Order>,
    pub seq: u64,
    pub next_id: u64,
}

impl View for BookSnapshot {
    type V = SnapshotModel;

    open spec fn view(&self) -> SnapshotModel {
        SnapshotModel {
            market: self.market,
            bids: self.bids@,
            asks: self.asks@,
            seq: self.seq,
            next_id: self.next_id,
        }
    }
}

fn is_order_sound(side: Side, o: &Order, market: Address, seq: u64, next_id: u64) -> (r: bool)
    ensures
        r == order_sound(side, *o, market, seq, next_id),
{
    let live = match o.status {
        OrderStatus::Open => o.remaining == o.amount,
        OrderStatus::Partial => o.remaining < o.amount,
        _ => false,
    };
    o.side == side && o.market == market && o.price > 0 && o.remaining > 0 && o.remaining
        <= o.amount && live && o.created_at < seq && o.id < next_id
}

/// Checks a ladder that was read back and enters its orders in the index.
/// It fails where the ladder is not sound or where an order's identifier
/// is in the index already.
fn enter_ladder(
    s: &Vec<Order>,
    side: Side,
    market: Address,
    seq: u64,
    next_id: u64,
    index: &mut HashMap<OrderId, IndexEntry>,
) -> (ok: bool)
    ensures
        ok ==> ladder_sound(side, s@, market, seq, next_id),
        ok ==> forall|k: int| 0 <= k < s@.len() ==> !old(index)@.contains_key((#[trigger] s@[k]).id),
        ok ==> forall|id: OrderId| #[trigger]
            final(index)@.contains_key(id) <==> old(index)@.contains_key(id) || has_id(s@, id),
        ok ==> forall|k: int|
            0 <= k < s@.len() ==> final(index)@[(#[trigger] s@[k]).id] == (IndexEntry {
                side,
                price: s@[k].price,
            }),
        ok ==> forall|id: OrderId| #[trigger]
            old(index)@.contains_key(id) ==> final(index)@[id] == old(index)@[id],
        !ok ==> !ladder_sound(side, s@, market, seq, next_id) || exists|k: int|
            0 <= k < s@.len() && old(index)@.contains_key((#[trigger] s@[k]).id),
{
    let ghost start = index@;
    let mut i: usize = 0;
    while i < s.len()
        invariant
            i <= s.len(),
            start == old(index)@,
            forall|k: int| 0 <= k < i ==> order_sound(side, #[trigger] s@[k], market, seq, next_id),
            forall|j: int, k: int|
                0 <= j < k < i ==> outranks(side, #[trigger] s@[j], #[trigger] s@[k]),
            forall|j: int, k: int| 0 <= j < k < i ==> (#[trigger] s@[j]).id != (#[trigger] s@[k]).id,
            forall|k: int| 0 <= k < i ==> !start.contains_key((#[trigger] s@[k]).id),
            forall|id: OrderId| #[trigger]
                index@.contains_key(id) <==> start.contains_key(id) || has_id(
                    s@.take(i as int),
                    id,
                ),
            forall|k: int|
                0 <= k < i ==> index@[(#[trigger] s@[k]).id] == (IndexEntry {
                    side,
                    price: s@[k].price,
                }),
            forall|id: OrderId| #[trigger] start.contains_key(id) ==> index@[id] == start[id],
        decreases s.len() - i,
    {
        let o = &s[i];
        if !is_order_sound(side, o, market, seq, next_id) {
            assert(!order_sound(side, s@[i as int], market, seq, next_id));
            return false;
        }
        if i > 0 {
            let p = &s[i - 1];
            let ahead = side_better(side, p.price, o.price) || (p.price == o.price && p.created_at
                < o.created_at);
            if !ahead {
                assert(!outranks(side, s@[i - 1], s@[i as int]));
                return false;
            }
        }
        if index.contains_key(&o.id) {
            proof {
                if start.contains_key(o.id) {
                    assert(start.contains_key(s@[i as int].id));
                } else {
                    let t = s@.take(i as int);
                    let k = choose|k: int| 0 <= k < t.len() && (#[trigger] t[k]).id == o.id;
                    assert(t[k] == s@[k]);
                    assert(s@[k].id == s@[i as int].id);
                    assert(!distinct_ids(s@));
                }
            }
            return false;
        }
        index.insert(o.id, IndexEntry { side, price: o.price });
        proof {
            let t0 = s@.take(i as int);
            let t1 = s@.take(i + 1);
            assert forall|j: int| 0 <= j < i implies outranks(
                side,
                #[trigger] s@[j],
                s@[i as int],
            ) && s@[j].id != s@[i as int].id by {
                if j < i - 1 {
                    assert(outranks(side, s@[j], s@[i - 1]));
                }
                assert(t0[j] == s@[j]);
                assert(has_id(t0, s@[j].id));
            }
            assert forall|id: OrderId| #[trigger]
                index@.contains_key(id) <==> start.contains_key(id) || has_id(t1, id) by {
                if has_id(t1, id) {
                    let k = choose|k: int| 0 <= k < t1.len() && (#[trigger] t1[k]).id == id;
                    if k < i {
                        assert(t0[k].id == id);
                        assert(has_id(t0, id));
                    }
                }
                if has_id(t0, id) {
                    let k = choose|k: int| 0 <= k < t0.len() && (#[trigger] t0[k]).id == id;
                    assert(t1[k].id == id);
                }
                if id == o.id {
                    assert(t1[i as int].id == id);
                }
            }
        }
        i = i + 1;
    }
    assert(s@.take(s.len() as int) =~= s@);
    true
}

/// Finds the order `id` in a ladder that holds it.
fn find_by_id(s: &Vec<Order>, id: OrderId) -> (at: usize)
    requires
        has_id(s@, id),
        distinct_ids(s@),
    ensures
        at == pos_of(s@, id),
        at < s.len(),
        s@[at as int].id == id,
{
    let ghost p = pos_of(s@, id);
    let mut i: usize = 0;
    while i < s.len() && s[i].id != id
        invariant
            i <= p < s.len(),
            s@[p].id == id,
        decreases s.len() - i,
    {
        i = i + 1;
    }
    i
}

/// The best `n` price levels of a ladder.
fn ladder_depth(s: &Vec<Order>, n: usize) -> (out: Vec<Level>)
    ensures
        level_views(out@) == top_levels(s@, n as nat),
{
    let mut out: Vec<Level> = Vec::new();
    let mut i: usize = 0;
    assert(s@.take(0) =~= Seq::empty());
    while i < s.len()
        invariant
            i <= s.len(),
            level_views(out@) =~= levels(s@.take(i as int)),
            out.len() > 0 ==> out@[out.len() - 1].qty <= i * 0xFFFF_FFFF_FFFF_FFFF,
        decreases s.len() - i,
    {
        let ghost before = out@;
        let price = s[i].price;
        let remaining = s[i].remaining;
        proof {
            assert(s@.take(i + 1).drop_last() =~= s@.take(i as int));
            assert(s@.take(i + 1).last() == s@[i as int]);
            assert((i + 1) * 0xFFFF_FFFF_FFFF_FFFF <= u128::MAX) by (nonlinear_arith)
                requires
                    0 <= i < 0xFFFF_FFFF_FFFF_FFFF,
            ;
            assert((i + 1) * 0xFFFF_FFFF_FFFF_FFFF == i * 0xFFFF_FFFF_FFFF_FFFF
                + 0xFFFF_FFFF_FFFF_FFFF) by (nonlinear_arith);
            if before.len() > 0 {
                assert(level_views(before).last() == before.last()@);
            }
        }
        let n_out = out.len();
        if n_out > 0 && out[n_out - 1].price == price {
            let top = out.pop().unwrap();
            out.push(Level { price, qty: top.qty + remaining as u128 });
        } else {
            out.push(Level { price, qty: remaining as u128 });
        }
        i = i + 1;
    }
    assert(s@.take(s.len() as int) =~= s@);
    if n < out.len() {
        out.truncate(n);
    }
    assert(level_views(out@) =~= top_levels(s@, n as nat));
    out
}

impl Book {
    /// An empty book for `market`.
    pub fn new(market: Address) -> (b: Book)
        ensures
            b@ == BookModel::empty(market),
            b@.wf(),
    {
        let b = Book {
            market,
            bids: Vec::new(),
            asks: Vec::new(),
            index: HashMap::new(),
            seq: 0,
            next_id: 0,
        };
        assert(b@.index =~= Map::empty());
        b
    }

    /// The book as it is written out. The index stays behind: `restore`
    /// builds it again.
    pub fn into_snapshot(self) -> (s: BookSnapshot)
        ensures
            s@ == self@.snapshot(),
    {
        BookSnapshot {
            market: self.market,
            bids: self.bids,
            asks: self.asks,
            seq: self.seq,
            next_id: self.next_id,
        }
    }

    /// Reads a book back from a snapshot. It checks all that a book must
    /// keep and builds the index from the ladders; a snapshot that does not
    /// describe a sound book gives `None`.
    pub fn restore(snap: BookSnapshot) -> (r: Option<Book>)
        ensures
            (match r {
                Some(b) => snap@.restored() == Some(b@) && b@.wf(),
                None => snap@.restored().is_none(),
            }),
    {
        let ghost model = snap@.book();
        if snap.seq > snap.next_id {
            return None;
        }
        let mut index: HashMap<OrderId, IndexEntry> = HashMap::new();
        if !enter_ladder(&snap.bids, Side::Bid, snap.market, snap.seq, snap.next_id, &mut index) {
            proof {
                if model.wf() {
                    assert(model.ladder_wf(Side::Bid));
                    assert forall|i: int| 0 <= i < snap.bids@.len() implies order_sound(
                        Side::Bid,
                        #[trigger] snap.bids@[i],
                        snap.market,
                        snap.seq,
                        snap.next_id,
                    ) by {
                        assert(model.rests_well(Side::Bid, snap.bids@[i]));
                    }
                }
            }
            return None;
        }
        let ghost first = index@;
        if !enter_ladder(&snap.asks, Side::Ask, snap.market, snap.seq, snap.next_id, &mut index) {
            proof {
                if model.wf() {
                    assert(model.ladder_wf(Side::Ask));
                    assert forall|i: int| 0 <= i < snap.asks@.len() implies order_sound(
                        Side::Ask,
                        #[trigger] snap.asks@[i],
                        snap.market,
                        snap.seq,
                        snap.next_id,
                    ) by {
                        assert(model.rests_well(Side::Ask, snap.asks@[i]));
                    }
                    let k = choose|k: int|
                        0 <= k < snap.asks@.len() && first.contains_key(
                            (#[trigger] snap.asks@[k]).id,
                        );
                    assert(has_id(snap.bids@, snap.asks@[k].id));
                    assert(model.rests_well(Side::Ask, snap.asks@[k]));
                }
            }
            return None;
        }
        if snap.bids.len() > 0 && snap.asks.len() > 0 && snap.bids[0].price >= snap.asks[0].price {
            return None;
        }
        proof {
            let bids = snap.bids@;
            let asks = snap.asks@;
            let built = index_of(bids, asks);
            assert forall|id: OrderId| built.contains_key(id) implies #[trigger] index@[id]
                == built[id] by {
                if has_id(bids, id) {
                    let p = pos_of(bids, id);
                    assert(first[bids[p].id] == (IndexEntry { side: Side::Bid, price: bids[p].price }));
                    assert(first.contains_key(id));
                } else {
                    let p = pos_of(asks, id);
                    assert(index@[asks[p].id] == (IndexEntry {
                        side: Side::Ask,
                        price: asks[p].price,
                    }));
                }
            }
            assert(index@ =~= built);
            assert forall|i: int| 0 <= i < bids.len() implies model.rests_well(
                Side::Bid,
                #[trigger] bids[i],
            ) by {
                assert(order_sound(Side::Bid, bids[i], snap.market, snap.seq, snap.next_id));
                assert(has_id(bids, bids[i].id));
            }
            assert forall|i: int| 0 <= i < asks.len() implies model.rests_well(
                Side::Ask,
                #[trigger] asks[i],
            ) by {
                assert(order_sound(Side::Ask, asks[i], snap.market, snap.seq, snap.next_id));
                assert(has_id(asks, asks[i].id));
                assert(!first.contains_key(asks[i].id));
            }
            assert(model.ladder_wf(Side::Bid));
            assert(model.ladder_wf(Side::Ask));
            assert(model.wf());
        }
        Some(
            Book {
                market: snap.market,
                bids: snap.bids,
                asks: snap.asks,
                index,
                seq: snap.seq,
                next_id: snap.next_id,
            },
        )
    }

    /// Whether `place` and `update` may be called: the book has an
    /// identifier left to give.
    pub fn has_room(&self) -> (r: bool)
        ensures
            r == self@.has_room(),
    {
        self.next_id < u64::MAX
    }

    pub fn market(&self) -> (m: &Address)
        ensures
            *m == self@.market,
    {
        &self.market
    }

    /// Matches `order` against the opposite ladder by price-time priority,
    /// each trade at the maker's price, and rests what is left of it.
    ///
    /// An order with a zero price or amount, one that is not fresh, or one
    /// for another market is refused with `InvalidOrder` and changes
    /// nothing.
    pub fn place(&mut self, order: Order) -> (r: Result<PlacementOutcome, EngineError>)
        requires
            old(self)@.wf(),
            old(self)@.has_room(),
        ensures
            !old(self)@.accepts(order) ==> (r matches Err(e) && e == EngineError::InvalidOrder
                && final(self)@ == old(self)@),
            old(self)@.accepts(order) ==> (r matches Ok(out) && out@ == old(self)@.place_outcome(
                order,
            ) && final(self)@ == old(self)@.after_place(order)),
            final(self)@ == old(self)@.placed(order),
            final(self)@.wf(),
    {
        if order.price == 0 || order.amount == 0 || order.remaining != order.amount
            || order.status != OrderStatus::Open || order.market != self.market {
            return Err(EngineError::InvalidOrder);
        }
        let ghost before = self@;
        proof {
            lemma_place_keeps_wf(before, order);
        }
        let mut taker = order;
        taker.id = self.next_id;
        self.next_id = self.next_id + 1;
        let side = taker.side;
        let amount = taker.amount;
        proof {
            let opp = before.ladder(side.spec_opposite());
            assert(before.ladder_wf(side.spec_opposite()));
            assert forall|i: int| 0 <= i < opp.len() implies (#[trigger] opp[i]).can_fill(
                opp[i].remaining,
            ) by {
                assert(before.rests_well(side.spec_opposite(), opp[i]));
            }
        }
        let (fills, rem) = match side {
            Side::Bid => run_matching(&mut self.asks, &mut self.index, &taker, amount),
            Side::Ask => run_matching(&mut self.bids, &mut self.index, &taker, amount),
        };
        let resting = if rem > 0 {
            let id = taker.id;
            let entry = IndexEntry { side, price: taker.price };
            taker.remaining = rem;
            taker.status = if rem == amount {
                OrderStatus::Open
            } else {
                OrderStatus::Partial
            };
            taker.created_at = self.seq;
            self.seq = self.seq + 1;
            assert(taker == before.resting_order(order, rem));
            match side {
                Side::Bid => {
                    let at = find_rest_pos(side, taker.price, &self.bids);
                    self.bids.insert(at, taker);
                },
                Side::Ask => {
                    let at = find_rest_pos(side, taker.price, &self.asks);
                    self.asks.insert(at, taker);
                },
            }
            self.index.insert(id, entry);
            Some(id)
        } else {
            None
        };
        Ok(PlacementOutcome { fills, resting })
    }

    /// Takes the resting order `id` off the book and returns it, marked
    /// cancelled. An order that does not rest here (unknown, filled or
    /// cancelled before) gives `NotFound` and changes nothing.
    pub fn cancel(&mut self, id: OrderId) -> (r: Result<Order, EngineError>)
        requires
            old(self)@.wf(),
        ensures
            !old(self)@.is_resting(id) ==> (r matches Err(e) && e == EngineError::NotFound
                && final(self)@ == old(self)@),
            old(self)@.is_resting(id) ==> (r matches Ok(o) && o == old(self)@.resting(
                id,
            ).cancelled() && final(self)@ == old(self)@.after_cancel(id)),
            final(self)@ == old(self)@.cancelled(id),
            final(self)@.wf(),
    {
        let side = match self.index.get(&id) {
            Some(entry) => entry.side,
            None => {
                return Err(EngineError::NotFound);
            },
        };
        proof {
            lemma_cancel_keeps_wf(self@, id);
            assert(self@.ladder_wf(side));
        }
        let mut o = match side {
            Side::Bid => {
                let at = find_by_id(&self.bids, id);
                self.bids.remove(at)
            },
            Side::Ask => {
                let at = find_by_id(&self.asks, id);
                self.asks.remove(at)
            },
        };
        self.index.remove(&id);
        o.status = OrderStatus::Cancelled;
        Ok(o)
    }

    /// Replaces the resting order `id` by a fresh one of the same user and
    /// side at `price` for `amount`: the old order is cancelled, the new one
    /// is placed and loses the old one's place in the queue.
    ///
    /// An order that does not rest here gives `NotFound`; otherwise a zero
    /// price or amount gives `InvalidOrder`. Either way nothing changes.
    pub fn update(&mut self, id: OrderId, price: u64, amount: u64) -> (r: Result<
        PlacementOutcome,
        EngineError,
    >)
        requires
            old(self)@.wf(),
            old(self)@.has_room(),
        ensures
            !old(self)@.is_resting(id) ==> (r matches Err(e) && e == EngineError::NotFound
                && final(self)@ == old(self)@),
            old(self)@.is_resting(id) && (price == 0 || amount == 0) ==> (r matches Err(e) && e
                == EngineError::InvalidOrder && final(self)@ == old(self)@),
            old(self)@.is_resting(id) && price > 0 && amount > 0 ==> (r matches Ok(out) && out@
                == old(self)@.after_cancel(id).place_outcome(
                old(self)@.replacement(id, price, amount),
            ) && final(self)@ == old(self)@.after_cancel(id).after_place(
                old(self)@.replacement(id, price, amount),
            )),
            final(self)@ == old(self)@.updated(id, price, amount),
            final(self)@.wf(),
    {
        if !self.index.contains_key(&id) {
            return Err(EngineError::NotFound);
        }
        if price == 0 || amount == 0 {
            return Err(EngineError::InvalidOrder);
        }
        proof {
            lemma_cancel_keeps_wf(self@, id);
            let side = self@.index[id].side;
            assert(self@.ladder_wf(side));
            assert(self@.rests_well(side, self@.resting(id)));
        }
        match self.cancel(id) {
            Ok(gone) => {
                let fresh = Order::new(
                    gone.user,
                    gone.market,
                    gone.side,
                    price,
                    amount,
                    gone.signature,
                );
                self.place(fresh)
            },
            Err(e) => Err(e),
        }
    }

    /// The resting order `id`, if it rests here.
    pub fn order(&self, id: OrderId) -> (r: Option<&Order>)
        requires
            self@.wf(),
        ensures
            self@.is_resting(id) ==> r == Some(&self@.resting(id)),
            !self@.is_resting(id) ==> r.is_none(),
    {
        let side = match self.index.get(&id) {
            Some(entry) => entry.side,
            None => {
                return None;
            },
        };
        proof {
            lemma_cancel_keeps_wf(self@, id);
            assert(self@.ladder_wf(side));
        }
        match side {
            Side::Bid => {
                let at = find_by_id(&self.bids, id);
                Some(&self.bids[at])
            },
            Side::Ask => {
                let at = find_by_id(&self.asks, id);
                Some(&self.asks[at])
            },
        }
    }

    /// The best bid and the best ask, each if its side holds an order.
    pub fn top_of_book(&self) -> (r: (Option<u64>, Option<u64>))
        ensures
            r.0 == best_price(self@.bids),
            r.1 == best_price(self@.asks),
    {
        let bid = if self.bids.len() > 0 {
            Some(self.bids[0].price)
        } else {
            None
        };
        let ask = if self.asks.len() > 0 {
            Some(self.asks[0].price)
        } else {
            None
        };
        (bid, ask)
    }

    /// The best `n` price levels of the bids and of the asks, each with the
    /// quantity that rests at it.
    pub fn depth(&self, n: usize) -> (r: (Vec<Level>, Vec<Level>))
        ensures
            level_views(r.0@) == top_levels(self@.bids, n as nat),
            level_views(r.1@) == top_levels(self@.asks, n as nat),
    {
        (ladder_depth(&self.bids, n), ladder_depth(&self.asks, n))
    }
}

} // verus!
