//! The engine state: the books of all markets, one per market.

use vstd::prelude::*;
use crate::book::{Book, BookSnapshot};
use crate::model::BookModel;
use crate::order::{Address, EngineError};

verus! {

/// The whole state of the engine. The books stand in the order in which
/// they were added; no market has two.
#[derive(Clone, PartialEq, Eq, Debug)]
pub struct OmeState {
    pub books: Vec<Book>,
}

impl View for OmeState {
    type V = Map<Address, BookModel>;

    /// The state as a map from each market to its book.
    open spec fn view(&self) -> Map<Address, BookModel> {
        Map::new(|m: Address| self.has_book(m), |m: Address| self.books@[self.slot_of(m)]@)
    }
}

/// The snapshots describe sound books of pairwise different markets.
pub open spec fn snapshots_sound(snaps: Seq<BookSnapshot>) -> bool {
    &&& forall|i: int| 0 <= i < snaps.len() ==> (#[trigger] snaps[i])@.restored().is_some()
    &&& forall|i: int, j: int|
        0 <= i < j < snaps.len() ==> (#[trigger] snaps[i]).market != (#[trigger] snaps[j]).market
}

impl OmeState {
    /// Every book keeps its invariant, and no two are for one market.
    pub open spec fn wf(self) -> bool {
        &&& forall|i: int| 0 <= i < self.books@.len() ==> (#[trigger] self.books@[i])@.wf()
        &&& forall|i: int, j: int|
            0 <= i < j < self.books@.len() ==> (#[trigger] self.books@[i]).market != (
            #[trigger] self.books@[j]).market
    }

    pub open spec fn has_book(self, market: Address) -> bool {
        exists|i: int| 0 <= i < self.books@.len() && (#[trigger] self.books@[i]).market == market
    }

    /// The position of the book for `market`.
    pub open spec fn slot_of(self, market: Address) -> int {
        choose|i: int| 0 <= i < self.books@.len() && (#[trigger] self.books@[i]).market == market
    }

    /// The markets, in the order of their books.
    pub open spec fn markets(self) -> Seq<Address> {
        Seq::new(self.books@.len(), |i: int| self.books@[i].market)
    }

    /// An engine without books.
    pub fn new() -> (s: OmeState)
        ensures
            s.books@.len() == 0,
            s.wf(),
    {
        OmeState { books: Vec::new() }
    }

    /// The position of the book for `market`, if there is one.
    fn find(&self, market: Address) -> (r: Option<usize>)
        requires
            self.wf(),
        ensures
            (match r {
                Some(i) => self.has_book(market) && i == self.slot_of(market) && i
                    < self.books@.len() && self.books@[i as int].market == market,
                None => !self.has_book(market),
            }),
    {
        let mut i: usize = 0;
        while i < self.books.len()
            invariant
                i <= self.books.len(),
                self.wf(),
                forall|j: int| 0 <= j < i ==> (#[trigger] self.books@[j]).market != market,
            decreases self.books.len() - i,
        {
            if self.books[i].market == market {
                assert(self.has_book(market));
                return Some(i);
            }
            i = i + 1;
        }
        None
    }

    /// All books, in the order in which they were added.
    pub fn books(&self) -> (r: &Vec<Book>)
        ensures
            r@ == self.books@,
    {
        &self.books
    }

    /// The markets that have a book, in the order in which they were added.
    pub fn list_books(&self) -> (r: Vec<Address>)
        ensures
            r@ == self.markets(),
    {
        let mut out: Vec<Address> = Vec::new();
        let mut i: usize = 0;
        while i < self.books.len()
            invariant
                i <= self.books.len(),
                out@.len() == i,
                forall|j: int| 0 <= j < i ==> out@[j] == (#[trigger] self.books@[j]).market,
            decreases self.books.len() - i,
        {
            out.push(self.books[i].market);
            i = i + 1;
        }
        assert(out@ =~= self.markets());
        out
    }

    /// The book for `market`; `NotFound` where there is none.
    pub fn book(&self, market: Address) -> (r: Result<&Book, EngineError>)
        requires
            self.wf(),
        ensures
            self.has_book(market) ==> (r matches Ok(b) && *b == self.books@[self.slot_of(market)]
                && b.market == market && b@.wf() && b@ == self@[market]),
            !self.has_book(market) ==> (r matches Err(e) && e == EngineError::NotFound),
            self.has_book(market) == self@.contains_key(market),
    {
        match self.find(market) {
            Some(i) => Ok(&self.books[i]),
            None => Err(EngineError::NotFound),
        }
    }

    /// The book for `market`, to be changed in place; `NotFound` where there
    /// is none. The state is what it was, but for that book.
    pub fn book_mut(&mut self, market: Address) -> (r: Result<&mut Book, EngineError>)
        requires
            old(self).wf(),
        ensures
            old(self).has_book(market) ==> (r matches Ok(b) && *b == old(self).books@[old(
                self,
            ).slot_of(market)] && b.market == market && b@.wf() && final(self).books@ == old(
                self,
            ).books@.update(old(self).slot_of(market), *final(b))),
            !old(self).has_book(market) ==> (r matches Err(e) && e == EngineError::NotFound
                && final(self).books@ == old(self).books@),
    {
        match self.find(market) {
            Some(i) => Ok(&mut self.books[i]),
            None => Err(EngineError::NotFound),
        }
    }

    /// Adds `book` under its market. Where that market has a book already,
    /// fails with `Conflict` and changes nothing.
    pub fn add_book(&mut self, book: Book) -> (r: Result<(), EngineError>)
        requires
            old(self).wf(),
            book@.wf(),
        ensures
            old(self).has_book(book.market) ==> (r matches Err(e) && e == EngineError::Conflict
                && final(self).books@ == old(self).books@),
            !old(self).has_book(book.market) ==> (r.is_ok() && final(self).books@ == old(
                self,
            ).books@.push(book) && final(self)@ == old(self)@.insert(book.market, book@)),
            final(self).has_book(book.market),
            final(self).wf(),
    {
        match self.find(book.market) {
            Some(_) => Err(EngineError::Conflict),
            None => {
                self.books.push(book);
                proof {
                    let before = *old(self);
                    let after = *self;
                    let last = before.books@.len() as int;
                    assert(after.books@[last] == book);
                    let got = after@;
                    let want = before@.insert(book.market, book@);
                    assert forall|m: Address|
                        (#[trigger] got.dom().contains(m)) == want.dom().contains(m) && (
                        got.dom().contains(m) ==> got[m] == want[m]) by {
                        if before.has_book(m) {
                            let k = before.slot_of(m);
                            assert(after.books@[k] == before.books@[k]);
                            after.lemma_slot(k);
                        }
                        if m == book.market {
                            after.lemma_slot(last);
                        }
                        if after.has_book(m) && m != book.market {
                            let j = after.slot_of(m);
                            assert(after.books@[j] == before.books@[j]);
                        }
                    }
                    assert(got =~= want);
                }
                Ok(())
            },
        }
    }

    /// The book at position `i` is the book of its market.
    pub proof fn lemma_slot(self, i: int)
        requires
            self.wf(),
            0 <= i < self.books@.len(),
        ensures
            self.has_book(self.books@[i].market),
            self.slot_of(self.books@[i].market) == i,
            self@.contains_key(self.books@[i].market),
            self@[self.books@[i].market] == self.books@[i]@,
    {
        let m = self.books@[i].market;
        assert(self.has_book(m));
        let k = self.slot_of(m);
        if k < i {
            assert(self.books@[k].market != self.books@[i].market);
        }
        if i < k {
            assert(self.books@[i].market != self.books@[k].market);
        }
    }

    /// The state as it is written out: the snapshot of each book, in the
    /// order of the books.
    pub fn into_snapshots(self) -> (out: Vec<BookSnapshot>)
        ensures
            out@.len() == self.books@.len(),
            forall|i: int|
                0 <= i < out@.len() ==> (#[trigger] out@[i])@ == self.books@[i]@.snapshot(),
    {
        let ghost all = self.books@;
        let mut books = self.books;
        let mut out: Vec<BookSnapshot> = Vec::new();
        while books.len() > 0
            invariant
                out@.len() + books@.len() == all.len(),
                forall|i: int| 0 <= i < out@.len() ==> (#[trigger] out@[i])@ == all[i]@.snapshot(),
                forall|i: int|
                    0 <= i < books@.len() ==> (#[trigger] books@[i]) == all[out@.len() + i],
            decreases books.len(),
        {
            let b = books.remove(0);
            out.push(b.into_snapshot());
        }
        out
    }

    /// Reads the state back from the snapshots of its books. Where one of
    /// them does not describe a sound book, or two are for one market,
    /// there is no state to restore.
    pub fn restore(snaps: Vec<BookSnapshot>) -> (r: Option<OmeState>)
        ensures
            r.is_some() == snapshots_sound(snaps@),
            r matches Some(s) ==> s.wf() && s.books@.len() == snaps@.len() && forall|i: int|
                0 <= i < snaps@.len() ==> (#[trigger] snaps@[i])@.restored() == Some(
                    s.books@[i]@,
                ),
    {
        let ghost all = snaps@;
        let mut rest = snaps;
        let mut state = OmeState::new();
        while rest.len() > 0
            invariant
                all == snaps@,
                state.wf(),
                state.books@.len() + rest@.len() == all.len(),
                forall|i: int|
                    0 <= i < rest@.len() ==> (#[trigger] rest@[i]) == all[state.books@.len() + i],
                forall|i: int|
                    0 <= i < state.books@.len() ==> (#[trigger] all[i])@.restored() == Some(
                        state.books@[i]@,
                    ),
            decreases rest.len(),
        {
            let ghost done = state.books@.len() as int;
            let snap = rest.remove(0);
            assert(snap == all[done]);
            let book = match Book::restore(snap) {
                Some(b) => b,
                None => {
                    assert(all[done]@.restored().is_none());
                    return None;
                },
            };
            assert(all[done]@.restored() == Some(book@));
            assert(book.market == all[done].market);
            let ghost before = state;
            if state.add_book(book).is_err() {
                proof {
                    assert(before.has_book(book.market));
                    let k = before.slot_of(book.market);
                    assert(0 <= k < done);
                    assert(before.books@[k].market == book.market);
                    assert(all[k]@.restored() == Some(before.books@[k]@));
                    assert(all[k]@.book().market == all[k].market);
                    assert(all[k].market == all[done].market);
                }
                return None;
            }
            proof {
                assert forall|i: int| 0 <= i < state.books@.len() implies (#[trigger] all[i])@.restored()
                    == Some(state.books@[i]@) by {
                    if i < done {
                        assert(state.books@[i] == before.books@[i]);
                    }
                }
            }
        }
        proof {
            assert forall|i: int, j: int| 0 <= i < j < all.len() implies (#[trigger] all[i]).market
                != (#[trigger] all[j]).market by {
                assert(all[i]@.restored() == Some(state.books@[i]@));
                assert(all[j]@.restored() == Some(state.books@[j]@));
            }
        }
        Some(state)
    }

    /// Takes the book for `market` out of the engine and returns it.
    pub fn remove_book(&mut self, market: Address) -> (r: Option<Book>)
        requires
            old(self).wf(),
        ensures
            old(self).has_book(market) ==> (r == Some(old(self).books@[old(self).slot_of(market)])
                && final(self).books@ == old(self).books@.remove(old(self).slot_of(market))),
            final(self)@ == old(self)@.remove(market),
            !old(self).has_book(market) ==> (r.is_none() && final(self).books@ == old(
                self,
            ).books@),
            final(self).wf(),
            !final(self).has_book(market),
    {
        match self.find(market) {
            Some(i) => {
                let gone = self.books.remove(i);
                proof {
                    let s = old(self).books@;
                    let t = self.books@;
                    assert forall|j: int| 0 <= j < t.len() implies (#[trigger] t[j])@.wf()
                        && t[j].market != market by {
                        let oj = if j < i { j } else { j + 1 };
                        assert(t[j] == s[oj]);
                        assert(s[oj]@.wf());
                    }
                    assert forall|j: int, k: int| 0 <= j < k < t.len() implies (#[trigger] t[j]).market
                        != (#[trigger] t[k]).market by {
                        let oj = if j < i { j } else { j + 1 };
                        let ok = if k < i { k } else { k + 1 };
                        assert(t[j] == s[oj]);
                        assert(t[k] == s[ok]);
                    }
                    let before = *old(self);
                    let after = *self;
                    let got = after@;
                    let want = before@.remove(market);
                    assert forall|m: Address|
                        (#[trigger] got.dom().contains(m)) == want.dom().contains(m) && (
                        got.dom().contains(m) ==> got[m] == want[m]) by {
                        if after.has_book(m) {
                            let j = after.slot_of(m);
                            let oj = if j < i { j } else { j + 1 };
                            assert(t[j] == s[oj]);
                            before.lemma_slot(oj);
                        }
                        if before.has_book(m) && m != market {
                            let k = before.slot_of(m);
                            let nk = if k < i { k } else { k - 1 };
                            assert(t[nk] == s[k]);
                            after.lemma_slot(nk);
                        }
                    }
                    assert(got =~= want);
                }
                Some(gone)
            },
            None => {
                assert(self@ =~= old(self)@.remove(market));
                None
            },
        }
    }
}

impl Default for OmeState {
    fn default() -> (s: OmeState)
        ensures
            s.books@.len() == 0,
            s.wf(),
    {
        OmeState::new()
    }
}

/// Snapshot round trip of the whole state: the snapshots of a state that
/// keeps its invariant are sound, and each gives back the book it was
/// taken from.
pub proof fn lemma_state_round_trip(s: OmeState, snaps: Seq<BookSnapshot>)
    requires
        s.wf(),
        snaps.len() == s.books@.len(),
        forall|i: int| 0 <= i < snaps.len() ==> (#[trigger] snaps[i])@ == s.books@[i]@.snapshot(),
    ensures
        snapshots_sound(snaps),
        forall|i: int|
            0 <= i < snaps.len() ==> (#[trigger] snaps[i])@.restored() == Some(s.books@[i]@),
{
    assert forall|i: int| 0 <= i < snaps.len() implies (#[trigger] snaps[i])@.restored() == Some(
        s.books@[i]@,
    ) by {
        crate::laws::lemma_snapshot_round_trip(s.books@[i]@);
    }
    assert forall|i: int, j: int| 0 <= i < j < snaps.len() implies (#[trigger] snaps[i]).market != (
    #[trigger] snaps[j]).market by {
        assert(snaps[i]@.market == s.books@[i].market);
        assert(snaps[j]@.market == s.books@[j].market);
    }
}

} // verus!
