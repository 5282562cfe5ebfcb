//! What holds of every book: the invariant is kept by matching, resting and
//! cancelling, and the laws that follow from it.

use vstd::prelude::*;
use crate::order::{Address, Order, OrderId, OrderStatus, Side};
use crate::model::{
    better, can_match, crosses, fill_between, has_id, match_all, match_qty, match_step, outranks,
    applied, applied_all, index_of, levels, placed_all, pos_of, rest_pos_from, total_qty,
    BookModel, BookOp, IndexEntry, MatchState,
};

verus! {

/// The book `b` with the ladder opposite to the taker and the index taken
/// from a matching state.
pub open spec fn with_match(b: BookModel, taker_side: Side, m: MatchState) -> BookModel {
    BookModel { index: m.index, ..b.with_ladder(taker_side.spec_opposite(), m.opp) }
}

/// The matching state that `b` offers a taker on `taker_side`.
pub open spec fn offered(b: BookModel, taker_side: Side, st: MatchState) -> bool {
    st.opp == b.ladder(taker_side.spec_opposite()) && st.index == b.index
}

/// One trade keeps the book's invariant.
pub proof fn lemma_step_keeps_wf(b: BookModel, taker: Order, st: MatchState)
    requires
        b.wf(),
        offered(b, taker.side, st),
        can_match(taker, st),
    ensures
        with_match(b, taker.side, match_step(taker, st)).wf(),
{
    let os = taker.side.spec_opposite();
    let s = st.opp;
    let maker = s[0];
    let q = match_qty(st);
    let st2 = match_step(taker, st);
    let b2 = with_match(b, taker.side, st2);
    let own = b.ladder(taker.side);
    assert(b.ladder_wf(os));
    assert(b.ladder_wf(taker.side));
    assert(b2.ladder(taker.side) == own);
    assert(b.rests_well(os, maker));
    if q == maker.remaining {
        let t = s.drop_first();
        assert(forall|i: int| 0 <= i < t.len() ==> #[trigger] t[i] == s[i + 1]);
        assert forall|i: int| 0 <= i < t.len() implies b2.rests_well(os, #[trigger] t[i]) by {
            assert(b.rests_well(os, s[i + 1]));
            assert(s[0].id != s[i + 1].id);
        }
        assert forall|i: int| 0 <= i < own.len() implies b2.rests_well(
            taker.side,
            #[trigger] own[i],
        ) by {
            assert(b.rests_well(taker.side, own[i]));
        }
        assert forall|i: int, j: int| 0 <= i < j < t.len() implies outranks(
            os,
            #[trigger] t[i],
            #[trigger] t[j],
        ) by {
            assert(outranks(os, s[i + 1], s[j + 1]));
        }
        assert forall|i: int, j: int| 0 <= i < j < t.len() implies (#[trigger] t[i]).id != (
        #[trigger] t[j]).id by {
            assert(s[i + 1].id != s[j + 1].id);
        }
        if t.len() > 0 && own.len() > 0 {
            assert(outranks(os, s[0], s[1]));
            assert(t[0] == s[1]);
        }
        assert forall|id: OrderId| #[trigger] b2.index.contains_key(id) implies has_id(b2.bids, id)
            || has_id(b2.asks, id) by {
            assert(b.index.contains_key(id));
            if has_id(own, id) {
            } else {
                assert(has_id(s, id));
                let i = choose|i: int| 0 <= i < s.len() && (#[trigger] s[i]).id == id;
                assert(i != 0);
                assert(t[i - 1].id == id);
                assert(has_id(t, id));
            }
        }
        assert(b2.ladder_wf(os));
        assert(b2.ladder_wf(taker.side));
    } else {
        let t = s.update(0, maker.filled_by(q));
        assert forall|i: int| 0 <= i < t.len() implies b2.rests_well(os, #[trigger] t[i]) by {
            assert(b.rests_well(os, s[i]));
        }
        assert forall|i: int, j: int| 0 <= i < j < t.len() implies outranks(
            os,
            #[trigger] t[i],
            #[trigger] t[j],
        ) by {
            assert(outranks(os, s[i], s[j]));
        }
        assert forall|i: int, j: int| 0 <= i < j < t.len() implies (#[trigger] t[i]).id != (
        #[trigger] t[j]).id by {
            assert(s[i].id != s[j].id);
        }
        assert forall|id: OrderId| #[trigger] b2.index.contains_key(id) implies has_id(b2.bids, id)
            || has_id(b2.asks, id) by {
            if has_id(own, id) {
            } else {
                assert(has_id(s, id));
                let i = choose|i: int| 0 <= i < s.len() && (#[trigger] s[i]).id == id;
                assert(t[i].id == id);
                assert(has_id(t, id));
            }
        }
        assert forall|i: int| 0 <= i < own.len() implies b2.rests_well(
            taker.side,
            #[trigger] own[i],
        ) by {
            assert(b.rests_well(taker.side, own[i]));
        }
        assert(b2.ladder_wf(os));
        assert(b2.ladder_wf(taker.side));
    }
}

/// A matching run keeps the book's invariant and its own ladder, stops only
/// when the taker is served or no longer crosses, hands out exactly what
/// the taker gives up, and serves the makers in the order of the ladder,
/// each at its own price and each but the last in full.
pub proof fn lemma_match_all(b: BookModel, taker: Order, st: MatchState)
    requires
        b.wf(),
        offered(b, taker.side, st),
    ensures
        with_match(b, taker.side, match_all(taker, st)).wf(),
        match_all(taker, st).rem > 0 ==> match_all(taker, st).opp.len() == 0 || !crosses(
            taker.side,
            taker.price,
            match_all(taker, st).opp[0].price,
        ),
        match_all(taker, st).rem <= st.rem,
        total_qty(match_all(taker, st).fills) + match_all(taker, st).rem == total_qty(st.fills)
            + st.rem,
        st.fills.len() <= match_all(taker, st).fills.len() <= st.fills.len() + st.opp.len(),
        forall|k: int|
            0 <= k < st.fills.len() ==> (#[trigger] match_all(taker, st).fills[k]) == st.fills[k],
        forall|k: int|
            #![trigger st.opp[k]]
            0 <= k < match_all(taker, st).fills.len() - st.fills.len() ==> {
                let f = match_all(taker, st).fills[st.fills.len() + k];
                &&& f.maker_id == st.opp[k].id
                &&& f.price == st.opp[k].price
                &&& f.taker_id == taker.id
                &&& 0 < f.qty <= st.opp[k].remaining
                &&& (k + 1 < match_all(taker, st).fills.len() - st.fills.len() ==> f.qty
                    == st.opp[k].remaining)
                &&& (f.qty == st.opp[k].remaining ==> !match_all(taker, st).index.contains_key(
                    f.maker_id,
                ))
            },
        forall|id: OrderId| #[trigger]
            match_all(taker, st).index.contains_key(id) ==> st.index.contains_key(id),
    decreases st.opp.len(),
{
    let m = match_all(taker, st);
    if can_match(taker, st) {
        let st2 = match_step(taker, st);
        let maker = st.opp[0];
        let q = match_qty(st);
        lemma_step_keeps_wf(b, taker, st);
        assert(b.ladder_wf(taker.side.spec_opposite()));
        assert(b.rests_well(taker.side.spec_opposite(), maker));
        assert(st2.fills.drop_last() =~= st.fills);
        assert(total_qty(st2.fills) == total_qty(st.fills) + q);
        if q == maker.remaining {
            let b2 = with_match(b, taker.side, st2);
            lemma_match_all(b2, taker, st2);
            assert(with_match(b2, taker.side, m) == with_match(b, taker.side, m));
            assert(m.fills[st.fills.len() as int] == st2.fills[st.fills.len() as int]);
            assert forall|k: int|
                #![trigger st.opp[k]]
                0 <= k < m.fills.len() - st.fills.len() implies {
                let f = m.fills[st.fills.len() + k];
                &&& f.maker_id == st.opp[k].id
                &&& f.price == st.opp[k].price
                &&& f.taker_id == taker.id
                &&& 0 < f.qty <= st.opp[k].remaining
                &&& (k + 1 < m.fills.len() - st.fills.len() ==> f.qty == st.opp[k].remaining)
                &&& (f.qty == st.opp[k].remaining ==> !m.index.contains_key(f.maker_id))
            } by {
                if k > 0 {
                    assert(st2.opp[k - 1] == st.opp[k]);
                    assert(st2.fills.len() + (k - 1) == st.fills.len() + k);
                } else {
                    assert(!st2.index.contains_key(maker.id));
                }
            }
        } else {
            assert(m == st2);
        }
    } else {
    }
}

/// Where a new order joins a ladder: behind every order at its price or
/// better, before the first that is worse.
pub proof fn lemma_rest_pos(side: Side, price: u64, s: Seq<Order>, i: nat)
    requires
        i <= s.len(),
    ensures
        i <= rest_pos_from(side, price, s, i) <= s.len(),
        forall|j: int|
            i <= j < rest_pos_from(side, price, s, i) ==> !better(
                side,
                price,
                (#[trigger] s[j]).price,
            ),
        rest_pos_from(side, price, s, i) < s.len() ==> better(
            side,
            price,
            s[rest_pos_from(side, price, s, i) as int].price,
        ),
    decreases s.len() - i,
{
    if i < s.len() && !better(side, price, s[i as int].price) {
        lemma_rest_pos(side, price, s, i + 1);
    }
}

/// An order that crosses nothing may rest: the invariant is kept.
pub proof fn lemma_rest_keeps_wf(b: BookModel, o: Order)
    requires
        b.wf(),
        b.seq < b.next_id,
        o.market == b.market,
        o.price > 0,
        0 < o.remaining <= o.amount,
        o.status == OrderStatus::Open && o.remaining == o.amount || o.status
            == OrderStatus::Partial && o.remaining < o.amount,
        o.created_at == b.seq,
        o.id < b.next_id,
        !b.index.contains_key(o.id),
        b.ladder(o.side.spec_opposite()).len() == 0 || !crosses(
            o.side,
            o.price,
            b.ladder(o.side.spec_opposite())[0].price,
        ),
    ensures
        b.with_resting(o).wf(),
{
    let side = o.side;
    let os = side.spec_opposite();
    let own = b.ladder(side);
    let opp = b.ladder(os);
    let at = rest_pos_from(side, o.price, own, 0) as int;
    lemma_rest_pos(side, o.price, own, 0);
    let t = own.insert(at, o);
    let after = b.with_resting(o);
    assert(after.ladder(side) == t);
    assert(after.ladder(os) == opp);
    assert(b.ladder_wf(side));
    assert(b.ladder_wf(os));
    assert forall|i: int| 0 <= i < t.len() implies after.rests_well(side, #[trigger] t[i]) by {
        if i < at {
            assert(t[i] == own[i]);
            assert(b.rests_well(side, own[i]));
        } else if i > at {
            assert(t[i] == own[i - 1]);
            assert(b.rests_well(side, own[i - 1]));
        } else {
            assert(t[i] == o);
        }
    }
    assert forall|i: int| 0 <= i < opp.len() implies after.rests_well(os, #[trigger] opp[i]) by {
        assert(b.rests_well(os, opp[i]));
    }
    assert forall|i: int, j: int| 0 <= i < j < t.len() implies outranks(
        side,
        #[trigger] t[i],
        #[trigger] t[j],
    ) && t[i].id != t[j].id by {
        let oi = if i < at { i } else { i - 1 };
        let oj = if j < at { j } else { j - 1 };
        if i != at {
            assert(t[i] == own[oi]);
            assert(b.rests_well(side, own[oi]));
        }
        if j != at {
            assert(t[j] == own[oj]);
            assert(b.rests_well(side, own[oj]));
        }
        if i != at && j != at {
            assert(outranks(side, own[oi], own[oj]));
            assert(own[oi].id != own[oj].id);
        } else if i == at {
            assert(t[i] == o);
            if oj > at {
                assert(outranks(side, own[at], own[oj]));
            }
        } else {
            assert(t[j] == o);
        }
    }
    assert(after.ladder_wf(side));
    assert(after.ladder_wf(os));
    assert forall|id: OrderId| #[trigger] after.index.contains_key(id) implies has_id(
        after.bids,
        id,
    ) || has_id(after.asks, id) by {
        if id == o.id {
            assert(t[at].id == id);
            assert(has_id(t, id));
        } else {
            assert(b.index.contains_key(id));
            if has_id(opp, id) {
            } else {
                assert(has_id(own, id));
                let i = choose|i: int| 0 <= i < own.len() && (#[trigger] own[i]).id == id;
                if i < at {
                    assert(t[i].id == id);
                } else {
                    assert(t[i + 1].id == id);
                }
                assert(has_id(t, id));
            }
        }
    }
    if t.len() > 0 && opp.len() > 0 {
        if at == 0 {
            assert(t[0] == o);
        } else {
            assert(t[0] == own[0]);
        }
    }
    assert(after.uncrossed());
}

/// No resting order carries an identifier that the book has yet to give.
pub proof fn lemma_ids_below_next(b: BookModel, id: OrderId)
    requires
        b.wf(),
        b.index.contains_key(id),
    ensures
        id < b.next_id,
{
    if has_id(b.bids, id) {
        let i = choose|i: int| 0 <= i < b.bids.len() && (#[trigger] b.bids[i]).id == id;
        assert(b.rests_well(Side::Bid, b.bids[i]));
    } else {
        let i = choose|i: int| 0 <= i < b.asks.len() && (#[trigger] b.asks[i]).id == id;
        assert(b.rests_well(Side::Ask, b.asks[i]));
    }
}

/// Matching keeps the book's invariant, and what is left of the taker
/// crosses nothing.
pub proof fn lemma_matching_keeps_wf(b: BookModel, order: Order)
    requires
        b.wf(),
        b.has_room(),
    ensures
        b.after_matching(order).wf(),
        !b.after_matching(order).index.contains_key(b.next_id),
        b.matched(order).rem <= order.amount,
        b.matched(order).rem > 0 ==> b.matched(order).opp.len() == 0 || !crosses(
            order.side,
            order.price,
            b.matched(order).opp[0].price,
        ),
{
    let side = order.side;
    let os = side.spec_opposite();
    let taker = b.stamped(order);
    let st = MatchState {
        opp: b.ladder(os),
        index: b.index,
        fills: Seq::empty(),
        rem: order.amount,
    };
    let m = b.matched(order);
    lemma_match_all(b, taker, st);
    let b1 = with_match(b, side, m);
    let met = b.after_matching(order);
    assert(met == (BookModel { next_id: (b.next_id + 1) as u64, ..b1 }));
    let own = b.ladder(side);
    assert(b1.ladder(side) == own);
    assert(b1.ladder_wf(side));
    assert(b1.ladder_wf(os));
    assert forall|i: int| 0 <= i < own.len() implies met.rests_well(side, #[trigger] own[i]) by {
        assert(b1.rests_well(side, own[i]));
    }
    assert forall|i: int| 0 <= i < m.opp.len() implies met.rests_well(os, #[trigger] m.opp[i]) by {
        assert(b1.rests_well(os, m.opp[i]));
    }
    assert(met.ladder_wf(side));
    assert(met.ladder_wf(os));
    if m.index.contains_key(b.next_id) {
        lemma_ids_below_next(b, b.next_id);
    }
}

/// `place` keeps the book's invariant.
pub proof fn lemma_place_keeps_wf(b: BookModel, order: Order)
    requires
        b.wf(),
        b.has_room(),
        b.accepts(order),
    ensures
        b.after_place(order).wf(),
{
    lemma_matching_keeps_wf(b, order);
    let m = b.matched(order);
    if m.rem > 0 {
        let met = b.after_matching(order);
        assert(met.ladder(order.side.spec_opposite()) == m.opp);
        lemma_rest_keeps_wf(met, b.resting_order(order, m.rem));
    }
}

/// `cancel` of a resting order keeps the book's invariant, takes that
/// order out of the index, and leaves every other order where it was.
pub proof fn lemma_cancel_keeps_wf(b: BookModel, id: OrderId)
    requires
        b.wf(),
        b.is_resting(id),
    ensures
        b.after_cancel(id).wf(),
        !b.after_cancel(id).is_resting(id),
        has_id(b.ladder(b.index[id].side), id),
        b.resting(id).id == id,
        b.resting(id).side == b.index[id].side,
        b.resting(id).price == b.index[id].price,
        b.resting(id).market == b.market,
        forall|other: OrderId|
            other != id ==> (#[trigger] b.after_cancel(id).is_resting(other)) == b.is_resting(
                other,
            ),
{
    let side = b.index[id].side;
    let os = side.spec_opposite();
    let s = b.ladder(side);
    let other = b.ladder(os);
    assert(has_id(s, id)) by {
        if has_id(other, id) {
            let i = choose|i: int| 0 <= i < other.len() && (#[trigger] other[i]).id == id;
            assert(b.rests_well(os, other[i]));
        }
    }
    let p = pos_of(s, id);
    let t = s.remove(p);
    let a = b.after_cancel(id);
    assert(b.ladder_wf(side));
    assert(b.ladder_wf(os));
    assert(b.rests_well(side, s[p]));
    assert(a.ladder(side) == t);
    assert(a.ladder(os) == other);
    assert forall|i: int| 0 <= i < t.len() implies a.rests_well(side, #[trigger] t[i]) by {
        let oi = if i < p { i } else { i + 1 };
        assert(t[i] == s[oi]);
        assert(b.rests_well(side, s[oi]));
        assert(s[oi].id != s[p].id);
    }
    assert forall|i: int| 0 <= i < other.len() implies a.rests_well(os, #[trigger] other[i]) by {
        assert(b.rests_well(os, other[i]));
    }
    assert forall|i: int, j: int| 0 <= i < j < t.len() implies outranks(
        side,
        #[trigger] t[i],
        #[trigger] t[j],
    ) && t[i].id != t[j].id by {
        let oi = if i < p { i } else { i + 1 };
        let oj = if j < p { j } else { j + 1 };
        assert(t[i] == s[oi]);
        assert(t[j] == s[oj]);
        assert(outranks(side, s[oi], s[oj]));
        assert(s[oi].id != s[oj].id);
    }
    assert forall|x: OrderId| #[trigger] a.index.contains_key(x) implies has_id(a.bids, x)
        || has_id(a.asks, x) by {
        assert(b.index.contains_key(x));
        if has_id(other, x) {
        } else {
            assert(has_id(s, x));
            let i = choose|i: int| 0 <= i < s.len() && (#[trigger] s[i]).id == x;
            assert(i != p);
            if i < p {
                assert(t[i].id == x);
            } else {
                assert(t[i - 1].id == x);
            }
            assert(has_id(t, x));
        }
    }
    if t.len() > 0 && other.len() > 0 {
        if p == 0 {
            assert(t[0] == s[1]);
            assert(outranks(side, s[0], s[1]));
        } else {
            assert(t[0] == s[0]);
        }
    }
    assert(a.ladder_wf(side));
    assert(a.ladder_wf(os));
    assert(a.uncrossed());
}

/// In a book that keeps its invariant every bid is below every ask.
pub proof fn lemma_uncrossed_throughout(b: BookModel, i: int, j: int)
    requires
        b.wf(),
        0 <= i < b.bids.len(),
        0 <= j < b.asks.len(),
    ensures
        b.bids[i].price < b.asks[j].price,
{
    assert(b.ladder_wf(Side::Bid));
    assert(b.ladder_wf(Side::Ask));
    if i > 0 {
        assert(outranks(Side::Bid, b.bids[0], b.bids[i]));
    }
    if j > 0 {
        assert(outranks(Side::Ask, b.asks[0], b.asks[j]));
    }
}

/// Never crossed at rest: after any sequence of placements on a fresh book
/// the book keeps its invariant, so the best bid is below the best ask
/// unless a side is empty. The sequence is no longer than the book has
/// identifiers to give.
pub proof fn lemma_never_crossed(market: Address, orders: Seq<Order>)
    requires
        orders.len() <= u64::MAX,
    ensures
        placed_all(BookModel::empty(market), orders).wf(),
        placed_all(BookModel::empty(market), orders).next_id <= orders.len(),
        placed_all(BookModel::empty(market), orders).bids.len() == 0 || placed_all(
            BookModel::empty(market),
            orders,
        ).asks.len() == 0 || placed_all(BookModel::empty(market), orders).bids[0].price
            < placed_all(BookModel::empty(market), orders).asks[0].price,
    decreases orders.len(),
{
    if orders.len() > 0 {
        lemma_never_crossed(market, orders.drop_last());
        let b = placed_all(BookModel::empty(market), orders.drop_last());
        if b.accepts(orders.last()) {
            lemma_place_keeps_wf(b, orders.last());
        }
    }
}

/// Every call keeps the book's invariant and uses up at most one
/// identifier.
pub proof fn lemma_call_keeps_wf(b: BookModel, op: BookOp)
    requires
        b.wf(),
        b.has_room(),
    ensures
        applied(b, op).wf(),
        applied(b, op).next_id <= b.next_id + 1,
        applied(b, op).market == b.market,
{
    match op {
        BookOp::Place(order) => {
            if b.accepts(order) {
                lemma_place_keeps_wf(b, order);
            }
        },
        BookOp::Cancel(id) => {
            if b.is_resting(id) {
                lemma_cancel_keeps_wf(b, id);
            }
        },
        BookOp::Update(id, price, amount) => {
            if b.is_resting(id) && price > 0 && amount > 0 {
                lemma_cancel_keeps_wf(b, id);
                lemma_place_keeps_wf(b.after_cancel(id), b.replacement(id, price, amount));
            }
        },
    }
}

/// Every state that a fresh book reaches by placing, cancelling and
/// updating keeps the invariant: it is never crossed at rest, and its index
/// holds exactly the resting orders. The calls are no more than the book
/// has identifiers to give.
pub proof fn lemma_reachable_wf(market: Address, ops: Seq<BookOp>)
    requires
        ops.len() <= u64::MAX,
    ensures
        applied_all(BookModel::empty(market), ops).wf(),
        applied_all(BookModel::empty(market), ops).next_id <= ops.len(),
    decreases ops.len(),
{
    if ops.len() > 0 {
        lemma_reachable_wf(market, ops.drop_last());
        lemma_call_keeps_wf(applied_all(BookModel::empty(market), ops.drop_last()), ops.last());
    }
}

/// FIFO within a level: of two makers at one price on the ladder that a
/// taker meets, the older stands first; the fills follow the ladder, so
/// where the younger is matched the older was matched before it, and in
/// full.
pub proof fn lemma_fifo(b: BookModel, order: Order, i: int, j: int)
    requires
        b.wf(),
        b.has_room(),
        b.accepts(order),
        0 <= i < b.ladder(order.side.spec_opposite()).len(),
        0 <= j < b.ladder(order.side.spec_opposite()).len(),
        b.ladder(order.side.spec_opposite())[i].price == b.ladder(
            order.side.spec_opposite(),
        )[j].price,
        b.ladder(order.side.spec_opposite())[i].created_at < b.ladder(
            order.side.spec_opposite(),
        )[j].created_at,
    ensures
        i < j,
        forall|k: int|
            0 <= k < b.place_outcome(order).fills.len() && (#[trigger] b.place_outcome(
                order,
            ).fills[k]).maker_id == b.ladder(order.side.spec_opposite())[j].id ==> k == j
                && b.place_outcome(order).fills[i].maker_id == b.ladder(
                order.side.spec_opposite(),
            )[i].id && b.place_outcome(order).fills[i].qty == b.ladder(
                order.side.spec_opposite(),
            )[i].remaining,
{
    let os = order.side.spec_opposite();
    let opp = b.ladder(os);
    let st = MatchState { opp, index: b.index, fills: Seq::empty(), rem: order.amount };
    lemma_match_all(b, b.stamped(order), st);
    assert(b.ladder_wf(os));
    let fills = b.place_outcome(order).fills;
    if j < i {
        assert(outranks(os, opp[j], opp[i]));
    }
    assert forall|k: int| 0 <= k < fills.len() && (#[trigger] fills[k]).maker_id
        == opp[j].id implies k == j && fills[i].maker_id == opp[i].id && fills[i].qty
        == opp[i].remaining by {
        assert(fills[k].maker_id == opp[k].id);
        if k < j {
            assert(opp[k].id != opp[j].id);
        }
        if j < k {
            assert(opp[j].id != opp[k].id);
        }
        assert(fills[i].maker_id == opp[i].id);
    }
}

/// The fills of a placement follow the opposite ladder from its best
/// order on: each fill is with the maker at its position, at that maker's
/// price, and every maker but the last is used up.
pub proof fn lemma_fills_follow_ladder(b: BookModel, order: Order, k: int)
    requires
        b.wf(),
        b.accepts(order),
        0 <= k < b.place_outcome(order).fills.len(),
    ensures
        k < b.ladder(order.side.spec_opposite()).len(),
        b.place_outcome(order).fills[k] == fill_between(
            b.stamped(order),
            b.ladder(order.side.spec_opposite())[k],
            b.place_outcome(order).fills[k].qty,
        ),
        0 < b.place_outcome(order).fills[k].qty <= b.ladder(
            order.side.spec_opposite(),
        )[k].remaining,
        k + 1 < b.place_outcome(order).fills.len() ==> b.place_outcome(order).fills[k].qty
            == b.ladder(order.side.spec_opposite())[k].remaining,
        crosses(order.side, order.price, b.place_outcome(order).fills[k].price),
{
    let os = order.side.spec_opposite();
    let opp = b.ladder(os);
    let st = MatchState { opp, index: b.index, fills: Seq::empty(), rem: order.amount };
    lemma_match_all(b, b.stamped(order), st);
    lemma_fill_shape(b.stamped(order), st, k);
}

/// Each fill of a matching run is a trade between the taker and the maker
/// at its position, at a price that the taker crosses.
pub proof fn lemma_fill_shape(taker: Order, st: MatchState, k: int)
    requires
        st.fills.len() <= k < match_all(taker, st).fills.len(),
    ensures
        k - st.fills.len() < st.opp.len(),
        match_all(taker, st).fills[k] == fill_between(
            taker,
            st.opp[k - st.fills.len()],
            match_all(taker, st).fills[k].qty,
        ),
        crosses(taker.side, taker.price, match_all(taker, st).fills[k].price),
    decreases st.opp.len(),
{
    if can_match(taker, st) {
        let st2 = match_step(taker, st);
        if match_qty(st) == st.opp[0].remaining {
            lemma_fills_kept(taker, st2);
            if k > st.fills.len() {
                lemma_fill_shape(taker, st2, k);
                assert(st2.opp[k - st2.fills.len()] == st.opp[k - st.fills.len()]);
            }
        }
    }
}

/// A matching run only adds to the fills.
pub proof fn lemma_fills_kept(taker: Order, st: MatchState)
    ensures
        st.fills.len() <= match_all(taker, st).fills.len(),
        forall|k: int|
            0 <= k < st.fills.len() ==> (#[trigger] match_all(taker, st).fills[k]) == st.fills[k],
    decreases st.opp.len(),
{
    if can_match(taker, st) && match_qty(st) == st.opp[0].remaining {
        lemma_fills_kept(taker, match_step(taker, st));
    }
}

/// Conservation of quantity: the amount of a placed order is the sum of
/// its fills and of what rests of it.
pub proof fn lemma_conservation(b: BookModel, order: Order)
    requires
        b.wf(),
        b.has_room(),
        b.accepts(order),
    ensures
        order.amount == total_qty(b.place_outcome(order).fills) + (match b.place_outcome(
            order,
        ).resting {
            Some(id) => b.after_place(order).resting(id).remaining as nat,
            None => 0,
        }),
        b.place_outcome(order).resting matches Some(id) ==> b.after_place(order).is_resting(id)
            && b.after_place(order).resting(id) == b.resting_order(
            order,
            b.matched(order).rem,
        ),
{
    let os = order.side.spec_opposite();
    let st = MatchState {
        opp: b.ladder(os),
        index: b.index,
        fills: Seq::empty(),
        rem: order.amount,
    };
    lemma_match_all(b, b.stamped(order), st);
    assert(total_qty(st.fills) == 0);
    let m = b.matched(order);
    if m.rem > 0 {
        lemma_place_keeps_wf(b, order);
        let after = b.after_place(order);
        let id = b.next_id;
        let own = b.ladder(order.side);
        let at = rest_pos_from(order.side, order.price, own, 0) as int;
        lemma_rest_pos(order.side, order.price, own, 0);
        let t = after.ladder(order.side);
        assert(t == own.insert(at, b.resting_order(order, m.rem)));
        assert(t[at] == b.resting_order(order, m.rem));
        assert(after.ladder_wf(order.side));
        let p = pos_of(t, id);
        assert(t[at].id == id);
        if p < at {
            assert(t[p].id != t[at].id);
        }
        if at < p {
            assert(t[at].id != t[p].id);
        }
    }
}

/// What a placement reports of the taker is how the taker ends: filled
/// exactly when nothing is left of it, and else resting in the state that
/// the book holds for it.
pub proof fn lemma_taker_status(b: BookModel, order: Order)
    requires
        b.wf(),
        b.has_room(),
        b.accepts(order),
    ensures
        b.place_outcome(order).taker_status() == OrderStatus::Filled <==> b.matched(order).rem
            == 0,
        b.place_outcome(order).resting matches Some(id) ==> b.after_place(order).resting(
            id,
        ).status == b.place_outcome(order).taker_status(),
{
    let os = order.side.spec_opposite();
    let st = MatchState {
        opp: b.ladder(os),
        index: b.index,
        fills: Seq::empty(),
        rem: order.amount,
    };
    lemma_match_all(b, b.stamped(order), st);
    lemma_conservation(b, order);
    let m = b.matched(order);
    assert(total_qty(st.fills) == 0);
    if m.fills.len() == 0 {
        assert(total_qty(m.fills) == 0);
    } else {
        lemma_fills_follow_ladder(b, order, m.fills.len() - 1);
        lemma_total_positive(m.fills);
    }
}

/// Fills of positive quantity add up to a positive total.
pub proof fn lemma_total_positive(fills: Seq<crate::order::Fill>)
    requires
        fills.len() > 0,
        fills.last().qty > 0,
    ensures
        total_qty(fills) > 0,
{
}

/// No orphan index entries: the index holds exactly the identifiers of the
/// orders that rest in the ladders, each with its side and price.
pub proof fn lemma_index_exact(b: BookModel, id: OrderId)
    requires
        b.wf(),
    ensures
        b.index.contains_key(id) <==> has_id(b.bids, id) || has_id(b.asks, id),
        has_id(b.bids, id) ==> b.index[id] == (IndexEntry {
            side: Side::Bid,
            price: b.bids[pos_of(b.bids, id)].price,
        }),
        has_id(b.asks, id) ==> b.index[id] == (IndexEntry {
            side: Side::Ask,
            price: b.asks[pos_of(b.asks, id)].price,
        }),
        !(has_id(b.bids, id) && has_id(b.asks, id)),
{
    if has_id(b.bids, id) {
        assert(b.rests_well(Side::Bid, b.bids[pos_of(b.bids, id)]));
    }
    if has_id(b.asks, id) {
        assert(b.rests_well(Side::Ask, b.asks[pos_of(b.asks, id)]));
    }
}

/// Cancelling at the boundary: once an order was cancelled, a second
/// cancel finds nothing and changes nothing.
pub proof fn lemma_cancel_once(b: BookModel, id: OrderId)
    requires
        b.wf(),
    ensures
        !b.cancelled(id).is_resting(id),
        b.cancelled(id).cancelled(id) == b.cancelled(id),
        b.cancelled(id).wf(),
{
    if b.is_resting(id) {
        lemma_cancel_keeps_wf(b, id);
    }
}

/// A maker that a placement used up rests no longer: a cancel of it finds
/// nothing and changes nothing.
pub proof fn lemma_filled_maker_gone(b: BookModel, order: Order, k: int)
    requires
        b.wf(),
        b.has_room(),
        b.accepts(order),
        0 <= k < b.place_outcome(order).fills.len(),
        k < b.ladder(order.side.spec_opposite()).len(),
        b.place_outcome(order).fills[k].qty == b.ladder(order.side.spec_opposite())[k].remaining,
    ensures
        !b.after_place(order).is_resting(b.place_outcome(order).fills[k].maker_id),
        b.after_place(order).cancelled(b.place_outcome(order).fills[k].maker_id)
            == b.after_place(order),
{
    let os = order.side.spec_opposite();
    let opp = b.ladder(os);
    let st = MatchState { opp, index: b.index, fills: Seq::empty(), rem: order.amount };
    lemma_match_all(b, b.stamped(order), st);
    assert(b.ladder_wf(os));
    assert(b.rests_well(os, opp[k]));
}

/// Snapshot round trip: a book that keeps its invariant comes back from
/// its snapshot as it was, index included.
pub proof fn lemma_snapshot_round_trip(b: BookModel)
    requires
        b.wf(),
    ensures
        b.snapshot().restored() == Some(b),
{
    let built = index_of(b.bids, b.asks);
    assert forall|id: OrderId| built.contains_key(id) == b.index.contains_key(id) && (
    built.contains_key(id) ==> built[id] == b.index[id]) by {
        lemma_index_exact(b, id);
    }
    assert(built =~= b.index);
}

/// No empty level: a ladder of live orders has no more levels than orders,
/// and each of its levels holds a positive quantity.
pub proof fn lemma_no_empty_level(s: Seq<Order>, k: int)
    requires
        forall|i: int| 0 <= i < s.len() ==> (#[trigger] s[i]).remaining > 0,
        0 <= k < levels(s).len(),
    ensures
        levels(s).len() <= s.len(),
        levels(s)[k].qty > 0,
    decreases s.len(),
{
    if s.len() > 0 {
        let front = s.drop_last();
        let before = levels(front);
        lemma_levels_len(front);
        if k < before.len() {
            lemma_no_empty_level(front, k);
        }
    }
}

/// A ladder has no more levels than orders.
pub proof fn lemma_levels_len(s: Seq<Order>)
    ensures
        levels(s).len() <= s.len(),
    decreases s.len(),
{
    if s.len() > 0 {
        lemma_levels_len(s.drop_last());
    }
}

} // verus!
