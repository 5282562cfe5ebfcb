use ome::book::{Book, Level, PlacementOutcome};
use ome::order::{Address, EngineError, Fill, Order, OrderStatus, Side};

fn market() -> Address {
    Address { hi: 7, lo: 42 }
}

fn alice() -> Address {
    Address { hi: 0, lo: 1 }
}

fn bob() -> Address {
    Address { hi: 0, lo: 2 }
}

fn order(user: Address, side: Side, price: u64, amount: u64) -> Order {
    Order::new(user, market(), side, price, amount, vec![0xab, 0xcd])
}

fn place(book: &mut Book, user: Address, side: Side, price: u64, amount: u64) -> PlacementOutcome {
    book.place(order(user, side, price, amount)).unwrap()
}

fn total(fills: &[Fill]) -> u64 {
    fills.iter().map(|f| f.qty).sum()
}

fn index_matches_ladders(book: &Book) -> bool {
    let resting = book.bids.len() + book.asks.len();
    book.index.len() == resting
        && book.bids.iter().all(|o| {
            book.index.get(&o.id).map(|e| (e.side, e.price)) == Some((Side::Bid, o.price))
        })
        && book.asks.iter().all(|o| {
            book.index.get(&o.id).map(|e| (e.side, e.price)) == Some((Side::Ask, o.price))
        })
}

#[test]
fn new_order_is_open_and_unfilled() {
    let o = order(alice(), Side::Bid, 10, 4);
    assert_eq!(o.id(), 0);
    assert_eq!(o.status(), OrderStatus::Open);
    assert_eq!(o.remaining, 4);
    assert_eq!(o.amount, 4);
    assert_eq!(o.price, 10);
    assert_eq!(o.user, alice());
    assert_eq!(o.market, market());
    assert_eq!(o.signature, vec![0xab, 0xcd]);
}

#[test]
fn apply_fill_partial_then_full() {
    let mut o = order(alice(), Side::Bid, 10, 4);
    assert_eq!(o.apply_fill(1), Ok(()));
    assert_eq!(o.remaining, 3);
    assert_eq!(o.status(), OrderStatus::Partial);
    assert_eq!(o.apply_fill(3), Ok(()));
    assert_eq!(o.remaining, 0);
    assert_eq!(o.status(), OrderStatus::Filled);
}

#[test]
fn apply_fill_rejects_zero_excess_and_terminal() {
    let mut o = order(alice(), Side::Bid, 10, 4);
    assert_eq!(o.apply_fill(0), Err(EngineError::InvalidFill));
    assert_eq!(o.apply_fill(5), Err(EngineError::InvalidFill));
    assert_eq!(o.remaining, 4);
    assert_eq!(o.status(), OrderStatus::Open);
    assert_eq!(o.apply_fill(4), Ok(()));
    assert_eq!(o.apply_fill(1), Err(EngineError::InvalidFill));
    assert_eq!(o.status(), OrderStatus::Filled);
}

#[test]
fn side_opposite() {
    assert_eq!(Side::Bid.opposite(), Side::Ask);
    assert_eq!(Side::Ask.opposite(), Side::Bid);
}

#[test]
fn empty_book_has_no_top() {
    let book = Book::new(market());
    assert_eq!(*book.market(), market());
    assert_eq!(book.top_of_book(), (None, None));
    assert_eq!(book.depth(5), (vec![], vec![]));
    assert!(book.has_room());
}

#[test]
fn simple_cross_full_fill() {
    let mut book = Book::new(market());
    let a = place(&mut book, alice(), Side::Ask, 100, 5);
    assert!(a.fills.is_empty());
    let a_id = a.resting.unwrap();
    let b = place(&mut book, bob(), Side::Bid, 101, 5);
    assert_eq!(b.fills.len(), 1);
    assert_eq!(b.fills[0].price, 100);
    assert_eq!(b.fills[0].qty, 5);
    assert_eq!(b.fills[0].maker_id, a_id);
    assert_eq!(b.fills[0].maker_user, alice());
    assert_eq!(b.fills[0].taker_user, bob());
    assert_eq!(b.fills[0].market, market());
    assert_eq!(b.resting, None);
    assert!(book.bids.is_empty());
    assert!(book.asks.is_empty());
    assert!(book.index.is_empty());
    assert_eq!(book.top_of_book(), (None, None));
    assert!(book.order(a_id).is_none());
}

#[test]
fn partial_fill_taker_rests() {
    let mut book = Book::new(market());
    let a = place(&mut book, alice(), Side::Ask, 100, 3);
    let a_id = a.resting.unwrap();
    let b = place(&mut book, bob(), Side::Bid, 100, 5);
    assert_eq!(b.fills.len(), 1);
    assert_eq!((b.fills[0].price, b.fills[0].qty), (100, 3));
    let b_id = b.resting.unwrap();
    assert_eq!(b.fills[0].taker_id, b_id);
    assert!(book.order(a_id).is_none());
    let rest = book.order(b_id).unwrap();
    assert_eq!(rest.status(), OrderStatus::Partial);
    assert_eq!(rest.remaining, 2);
    assert_eq!(rest.side, Side::Bid);
    assert_eq!(rest.price, 100);
    assert_eq!(book.top_of_book(), (Some(100), None));
}

#[test]
fn partial_fill_maker_rests() {
    let mut book = Book::new(market());
    let a = place(&mut book, alice(), Side::Bid, 100, 10);
    let a_id = a.resting.unwrap();
    let b = place(&mut book, bob(), Side::Ask, 100, 4);
    assert_eq!(b.fills.len(), 1);
    assert_eq!((b.fills[0].price, b.fills[0].qty), (100, 4));
    assert_eq!(b.resting, None);
    let rest = book.order(a_id).unwrap();
    assert_eq!(rest.status(), OrderStatus::Partial);
    assert_eq!(rest.remaining, 6);
    assert_eq!(rest.price, 100);
    assert_eq!(book.top_of_book(), (Some(100), None));
}

#[test]
fn price_time_priority() {
    let mut book = Book::new(market());
    let a_id = place(&mut book, alice(), Side::Ask, 100, 2).resting.unwrap();
    let b_id = place(&mut book, bob(), Side::Ask, 100, 2).resting.unwrap();
    let c = place(&mut book, alice(), Side::Bid, 100, 3);
    assert_eq!(c.fills.len(), 2);
    assert_eq!((c.fills[0].maker_id, c.fills[0].qty), (a_id, 2));
    assert_eq!((c.fills[1].maker_id, c.fills[1].qty), (b_id, 1));
    assert_eq!(c.resting, None);
    assert!(book.order(a_id).is_none());
    let b = book.order(b_id).unwrap();
    assert_eq!(b.status(), OrderStatus::Partial);
    assert_eq!(b.remaining, 1);
}

#[test]
fn price_improvement_uses_maker_price() {
    let mut book = Book::new(market());
    place(&mut book, alice(), Side::Ask, 100, 5);
    let b = place(&mut book, bob(), Side::Bid, 110, 5);
    assert_eq!(b.fills.len(), 1);
    assert_eq!(b.fills[0].price, 100);
    assert_eq!(b.fills[0].qty, 5);
}

#[test]
fn update_forfeits_priority() {
    let mut book = Book::new(market());
    let a_id = place(&mut book, alice(), Side::Bid, 100, 5).resting.unwrap();
    let b_id = place(&mut book, bob(), Side::Bid, 100, 5).resting.unwrap();
    let a2 = book.update(a_id, 100, 5).unwrap();
    let a2_id = a2.resting.unwrap();
    assert!(a2.fills.is_empty());
    assert_ne!(a2_id, a_id);
    assert!(book.order(a_id).is_none());
    let c = place(&mut book, alice(), Side::Ask, 100, 10);
    assert_eq!(c.fills.len(), 2);
    assert_eq!(c.fills[0].maker_id, b_id);
    assert_eq!(c.fills[1].maker_id, a2_id);
    assert_eq!(c.fills[0].maker_user, bob());
    assert_eq!(c.fills[1].maker_user, alice());
}

#[test]
fn update_first_match_is_older_order() {
    let mut book = Book::new(market());
    let a_id = place(&mut book, alice(), Side::Bid, 100, 5).resting.unwrap();
    let b_id = place(&mut book, bob(), Side::Bid, 100, 5).resting.unwrap();
    book.update(a_id, 100, 5).unwrap();
    let c = place(&mut book, alice(), Side::Ask, 100, 5);
    assert_eq!(c.fills.len(), 1);
    assert_eq!(c.fills[0].maker_id, b_id);
    assert_eq!(c.fills[0].qty, 5);
}

#[test]
fn update_keeps_user_side_and_signature() {
    let mut book = Book::new(market());
    let a_id = place(&mut book, alice(), Side::Ask, 100, 5).resting.unwrap();
    let id = book.update(a_id, 90, 7).unwrap().resting.unwrap();
    let o = book.order(id).unwrap();
    assert_eq!(o.user, alice());
    assert_eq!(o.side, Side::Ask);
    assert_eq!(o.price, 90);
    assert_eq!(o.amount, 7);
    assert_eq!(o.remaining, 7);
    assert_eq!(o.status(), OrderStatus::Open);
    assert_eq!(o.signature, vec![0xab, 0xcd]);
}

#[test]
fn update_can_cross() {
    let mut book = Book::new(market());
    let ask = place(&mut book, alice(), Side::Ask, 100, 5).resting.unwrap();
    let bid = place(&mut book, bob(), Side::Bid, 90, 5).resting.unwrap();
    let out = book.update(bid, 100, 3).unwrap();
    assert_eq!(out.fills.len(), 1);
    assert_eq!((out.fills[0].maker_id, out.fills[0].price, out.fills[0].qty), (ask, 100, 3));
    assert_eq!(out.resting, None);
    assert_eq!(book.top_of_book(), (None, Some(100)));
}

#[test]
fn update_errors_change_nothing() {
    let mut book = Book::new(market());
    let a_id = place(&mut book, alice(), Side::Ask, 100, 5).resting.unwrap();
    assert_eq!(book.update(a_id + 1, 100, 5).unwrap_err(), EngineError::NotFound);
    assert_eq!(book.update(a_id, 0, 5).unwrap_err(), EngineError::InvalidOrder);
    assert_eq!(book.update(a_id, 100, 0).unwrap_err(), EngineError::InvalidOrder);
    let o = book.order(a_id).unwrap();
    assert_eq!((o.price, o.remaining, o.status()), (100, 5, OrderStatus::Open));
    assert_eq!(book.asks.len(), 1);
}

#[test]
fn place_rejects_invalid_orders() {
    let mut book = Book::new(market());
    assert_eq!(
        book.place(order(alice(), Side::Bid, 0, 5)).unwrap_err(),
        EngineError::InvalidOrder
    );
    assert_eq!(
        book.place(order(alice(), Side::Bid, 5, 0)).unwrap_err(),
        EngineError::InvalidOrder
    );
    let elsewhere = Order::new(alice(), Address { hi: 1, lo: 1 }, Side::Bid, 5, 5, vec![]);
    assert_eq!(book.place(elsewhere).unwrap_err(), EngineError::InvalidOrder);
    let mut used = order(alice(), Side::Bid, 5, 5);
    used.apply_fill(1).unwrap();
    assert_eq!(book.place(used).unwrap_err(), EngineError::InvalidOrder);
    assert!(book.bids.is_empty());
    assert!(book.index.is_empty());
    assert_eq!(book.next_id, 0);
    assert_eq!(book.seq, 0);
}

#[test]
fn self_match_is_allowed() {
    let mut book = Book::new(market());
    place(&mut book, alice(), Side::Ask, 100, 5);
    let out = place(&mut book, alice(), Side::Bid, 100, 5);
    assert_eq!(out.fills.len(), 1);
    assert_eq!(out.fills[0].maker_user, alice());
    assert_eq!(out.fills[0].taker_user, alice());
}

#[test]
fn taker_sweeps_levels_best_first() {
    let mut book = Book::new(market());
    let far = place(&mut book, alice(), Side::Ask, 103, 2).resting.unwrap();
    let near = place(&mut book, alice(), Side::Ask, 101, 2).resting.unwrap();
    let mid = place(&mut book, alice(), Side::Ask, 102, 2).resting.unwrap();
    let out = place(&mut book, bob(), Side::Bid, 102, 10);
    assert_eq!(out.fills.len(), 2);
    assert_eq!((out.fills[0].maker_id, out.fills[0].price, out.fills[0].qty), (near, 101, 2));
    assert_eq!((out.fills[1].maker_id, out.fills[1].price, out.fills[1].qty), (mid, 102, 2));
    let rest = book.order(out.resting.unwrap()).unwrap();
    assert_eq!(rest.remaining, 6);
    assert_eq!(rest.status(), OrderStatus::Partial);
    assert_eq!(book.top_of_book(), (Some(102), Some(103)));
    assert!(book.order(far).is_some());
}

#[test]
fn asks_sweep_bids_from_highest() {
    let mut book = Book::new(market());
    let low = place(&mut book, alice(), Side::Bid, 98, 1).resting.unwrap();
    let high = place(&mut book, alice(), Side::Bid, 100, 1).resting.unwrap();
    let out = place(&mut book, bob(), Side::Ask, 98, 2);
    assert_eq!(out.fills.len(), 2);
    assert_eq!((out.fills[0].maker_id, out.fills[0].price), (high, 100));
    assert_eq!((out.fills[1].maker_id, out.fills[1].price), (low, 98));
    assert_eq!(out.resting, None);
}

#[test]
fn never_crossed_after_placements() {
    let mut book = Book::new(market());
    let script: [(Side, u64, u64); 10] = [
        (Side::Bid, 100, 5),
        (Side::Ask, 105, 5),
        (Side::Bid, 104, 2),
        (Side::Ask, 101, 9),
        (Side::Bid, 103, 3),
        (Side::Ask, 99, 1),
        (Side::Bid, 110, 20),
        (Side::Ask, 110, 4),
        (Side::Ask, 108, 30),
        (Side::Bid, 108, 1),
    ];
    for (side, price, amount) in script {
        place(&mut book, alice(), side, price, amount);
        if let (Some(bid), Some(ask)) = book.top_of_book() {
            assert!(bid < ask);
        }
        assert!(index_matches_ladders(&book));
    }
    assert_eq!(book.top_of_book(), (Some(100), Some(108)));
    assert_eq!(book.bids[0].remaining, 4);
    assert_eq!(book.asks[0].remaining, 22);
}

#[test]
fn quantity_is_conserved() {
    let mut book = Book::new(market());
    place(&mut book, alice(), Side::Ask, 100, 3);
    place(&mut book, alice(), Side::Ask, 101, 4);
    let out = place(&mut book, bob(), Side::Bid, 101, 10);
    let rest = book.order(out.resting.unwrap()).unwrap().remaining;
    assert_eq!(total(&out.fills), 7);
    assert_eq!(rest, 3);
    assert_eq!(total(&out.fills) + rest, 10);
    let out = place(&mut book, alice(), Side::Ask, 101, 2);
    assert_eq!(out.resting, None);
    assert_eq!(total(&out.fills), 2);
}

#[test]
fn index_holds_exactly_the_resting_orders() {
    let mut book = Book::new(market());
    let a = place(&mut book, alice(), Side::Ask, 100, 3).resting.unwrap();
    let b = place(&mut book, alice(), Side::Bid, 90, 3).resting.unwrap();
    assert!(index_matches_ladders(&book));
    assert_eq!(book.index.len(), 2);
    place(&mut book, bob(), Side::Bid, 100, 3);
    assert!(index_matches_ladders(&book));
    assert!(!book.index.contains_key(&a));
    assert!(book.index.contains_key(&b));
    book.cancel(b).unwrap();
    assert!(index_matches_ladders(&book));
    assert!(book.index.is_empty());
}

#[test]
fn cancel_returns_the_order_cancelled() {
    let mut book = Book::new(market());
    let first = place(&mut book, alice(), Side::Bid, 100, 5).resting.unwrap();
    let second = place(&mut book, bob(), Side::Bid, 100, 7).resting.unwrap();
    let gone = book.cancel(first).unwrap();
    assert_eq!(gone.id(), first);
    assert_eq!(gone.status(), OrderStatus::Cancelled);
    assert_eq!(gone.remaining, 5);
    assert_eq!(gone.user, alice());
    assert_eq!(book.bids.len(), 1);
    assert_eq!(book.bids[0].id, second);
    assert_eq!(book.top_of_book(), (Some(100), None));
    book.cancel(second).unwrap();
    assert_eq!(book.top_of_book(), (None, None));
}

#[test]
fn cancel_twice_is_not_found() {
    let mut book = Book::new(market());
    let a = place(&mut book, alice(), Side::Bid, 100, 5).resting.unwrap();
    place(&mut book, bob(), Side::Ask, 120, 5);
    book.cancel(a).unwrap();
    assert_eq!(book.cancel(a).unwrap_err(), EngineError::NotFound);
    assert_eq!(book.cancel(a).unwrap_err(), EngineError::NotFound);
    assert_eq!(book.asks.len(), 1);
    assert_eq!(book.bids.len(), 0);
    assert_eq!(book.index.len(), 1);
}

#[test]
fn cancel_of_filled_or_unknown_is_not_found() {
    let mut book = Book::new(market());
    let a = place(&mut book, alice(), Side::Ask, 100, 5).resting.unwrap();
    place(&mut book, bob(), Side::Bid, 100, 5);
    assert_eq!(book.cancel(a).unwrap_err(), EngineError::NotFound);
    assert_eq!(book.cancel(999).unwrap_err(), EngineError::NotFound);
    assert_eq!(book.top_of_book(), (None, None));
}

#[test]
fn depth_aggregates_levels() {
    let mut book = Book::new(market());
    place(&mut book, alice(), Side::Bid, 100, 5);
    place(&mut book, bob(), Side::Bid, 100, 7);
    place(&mut book, alice(), Side::Bid, 99, 1);
    place(&mut book, alice(), Side::Bid, 101, 2);
    place(&mut book, alice(), Side::Ask, 105, 4);
    place(&mut book, alice(), Side::Ask, 103, 6);
    place(&mut book, bob(), Side::Ask, 105, 1);
    let (bids, asks) = book.depth(10);
    assert_eq!(
        bids,
        vec![
            Level { price: 101, qty: 2 },
            Level { price: 100, qty: 12 },
            Level { price: 99, qty: 1 }
        ]
    );
    assert_eq!(asks, vec![Level { price: 103, qty: 6 }, Level { price: 105, qty: 5 }]);
    let (bids, asks) = book.depth(2);
    assert_eq!(bids, vec![Level { price: 101, qty: 2 }, Level { price: 100, qty: 12 }]);
    assert_eq!(asks.len(), 2);
    let (bids, asks) = book.depth(1);
    assert_eq!(bids, vec![Level { price: 101, qty: 2 }]);
    assert_eq!(asks, vec![Level { price: 103, qty: 6 }]);
    assert_eq!(book.depth(0), (vec![], vec![]));
}

#[test]
fn depth_does_not_overflow_on_large_quantities() {
    let mut book = Book::new(market());
    place(&mut book, alice(), Side::Bid, 100, u64::MAX);
    place(&mut book, bob(), Side::Bid, 100, u64::MAX);
    let (bids, _) = book.depth(1);
    assert_eq!(bids, vec![Level { price: 100, qty: 2 * (u64::MAX as u128) }]);
}

#[test]
fn identifiers_and_stamps_grow() {
    let mut book = Book::new(market());
    let a = place(&mut book, alice(), Side::Ask, 100, 5).resting.unwrap();
    let b = place(&mut book, bob(), Side::Bid, 100, 5);
    let c = place(&mut book, bob(), Side::Bid, 90, 5).resting.unwrap();
    assert_eq!(a, 0);
    assert_eq!(b.fills[0].taker_id, 1);
    assert_eq!(c, 2);
    assert_eq!(book.order(c).unwrap().created_at, 1);
    assert_eq!(book.next_id, 3);
    assert_eq!(book.seq, 2);
}

fn sample_book() -> Book {
    let mut book = Book::new(market());
    place(&mut book, alice(), Side::Bid, 100, 5);
    place(&mut book, bob(), Side::Bid, 100, 7);
    place(&mut book, alice(), Side::Bid, 99, 1);
    place(&mut book, alice(), Side::Ask, 105, 4);
    place(&mut book, bob(), Side::Ask, 103, 6);
    place(&mut book, bob(), Side::Bid, 103, 2);
    book
}

#[test]
fn book_snapshot_round_trip_is_exact() {
    let book = sample_book();
    assert_eq!(Book::restore(book.clone().into_snapshot()), Some(book));
    let empty = Book::new(market());
    assert_eq!(Book::restore(empty.clone().into_snapshot()), Some(empty));
}

#[test]
fn book_snapshot_round_trip() {
    let book = sample_book();
    let ids: Vec<u64> = book.bids.iter().chain(book.asks.iter()).map(|o| o.id).collect();
    let depth = book.depth(10);
    let index = book.index.clone();
    let back = Book::restore(book.into_snapshot()).unwrap();
    assert_eq!(back.index, index);
    assert_eq!(back.depth(10), depth);
    assert_eq!((back.seq, back.next_id), (5, 6));
    assert_eq!(*back.market(), market());
    let ids_back: Vec<u64> = back.bids.iter().chain(back.asks.iter()).map(|o| o.id).collect();
    assert_eq!(ids_back, ids);
    assert_eq!(back.order(4).unwrap().remaining, 4);
    assert_eq!(back.order(4).unwrap().status(), OrderStatus::Partial);
}

#[test]
fn restored_book_matches_on() {
    let mut back = Book::restore(sample_book().into_snapshot()).unwrap();
    let out = place(&mut back, alice(), Side::Ask, 100, 6);
    assert_eq!(out.fills.len(), 2);
    assert_eq!((out.fills[0].maker_id, out.fills[0].qty), (0, 5));
    assert_eq!((out.fills[1].maker_id, out.fills[1].qty), (1, 1));
    assert_eq!(out.fills[0].taker_id, 6);
}

#[test]
fn restore_refuses_unsound_snapshots() {
    let mut s = sample_book().into_snapshot();
    s.bids.swap(0, 1);
    assert!(Book::restore(s).is_none());
    let mut s = sample_book().into_snapshot();
    s.bids.swap(1, 2);
    assert!(Book::restore(s).is_none());
    let mut s = sample_book().into_snapshot();
    s.asks[0].id = s.bids[0].id;
    assert!(Book::restore(s).is_none());
    let mut s = sample_book().into_snapshot();
    s.bids[1].id = s.bids[0].id;
    assert!(Book::restore(s).is_none());
    let mut s = sample_book().into_snapshot();
    s.asks[0].price = 100;
    assert!(Book::restore(s).is_none());
    let mut s = sample_book().into_snapshot();
    s.bids[0].remaining = 0;
    assert!(Book::restore(s).is_none());
    let mut s = sample_book().into_snapshot();
    s.bids[0].status = OrderStatus::Cancelled;
    assert!(Book::restore(s).is_none());
    let mut s = sample_book().into_snapshot();
    s.bids[0].side = Side::Ask;
    assert!(Book::restore(s).is_none());
    let mut s = sample_book().into_snapshot();
    s.bids[0].market = alice();
    assert!(Book::restore(s).is_none());
    let mut s = sample_book().into_snapshot();
    s.next_id = 4;
    assert!(Book::restore(s).is_none());
    let mut s = sample_book().into_snapshot();
    s.seq = 4;
    assert!(Book::restore(s).is_none());
    assert!(Book::restore(sample_book().into_snapshot()).is_some());
}

#[test]
fn taker_status_follows_the_outcome() {
    let mut book = Book::new(market());
    let a = place(&mut book, alice(), Side::Ask, 100, 5);
    assert_eq!(a.taker_status(), OrderStatus::Open);
    let b = place(&mut book, bob(), Side::Bid, 100, 2);
    assert_eq!(b.taker_status(), OrderStatus::Filled);
    let c = place(&mut book, bob(), Side::Bid, 100, 9);
    assert_eq!(c.taker_status(), OrderStatus::Partial);
    assert_eq!(book.order(c.resting.unwrap()).unwrap().status(), OrderStatus::Partial);
}

#[test]
fn errors_map_to_http_statuses() {
    assert_eq!(EngineError::InvalidOrder.http_status(), 400);
    assert_eq!(EngineError::NotFound.http_status(), 404);
    assert_eq!(EngineError::Conflict.http_status(), 409);
    assert_eq!(EngineError::InvalidFill.http_status(), 500);
}
