//! Orders, fills and the identifiers they carry.

use vstd::prelude::*;

verus! {

/// A 20-byte on-chain address, held as its upper 4 and lower 16 bytes.
#[derive(Clone, Copy, PartialEq, Eq, Structural, Debug, Hash)]
pub struct Address {
    pub hi: u32,
    pub lo: u128,
}

/// Identifier that a book gives to an order when it accepts it.
pub type OrderId = u64;

#[derive(Clone, Copy, PartialEq, Eq, Structural, Debug, Hash)]
pub enum Side {
    Bid,
    Ask,
}

#[derive(Clone, Copy, PartialEq, Eq, Structural, Debug, Hash)]
pub enum OrderStatus {
    Open,
    Partial,
    Filled,
    Cancelled,
}

/// The errors that the matching core reports.
#[derive(Clone, Copy, PartialEq, Eq, Structural, Debug, Hash)]
pub enum EngineError {
    /// Zero price or amount, or an order that is not fresh or names another market.
    InvalidOrder,
    /// Unknown book or order.
    NotFound,
    /// A book for the market exists already.
    Conflict,
    /// A fill that the order cannot take.
    InvalidFill,
}

/// A trading intent. Prices and quantities are fixed-point numbers held as
/// scaled integers.
#[derive(Clone, PartialEq, Eq, Debug)]
pub struct Order {
    pub id: OrderId,
    pub user: Address,
    pub market: Address,
    pub side: Side,
    pub price: u64,
    pub amount: u64,
    pub remaining: u64,
    pub status: OrderStatus,
    pub created_at: u64,
    pub signature: Vec<u8>,
}

/// One pairing of a taker with a maker.
#[derive(Clone, Copy, PartialEq, Eq, Structural, Debug)]
pub struct Fill {
    pub maker_id: OrderId,
    pub taker_id: OrderId,
    pub price: u64,
    pub qty: u64,
    pub maker_user: Address,
    pub taker_user: Address,
    pub market: Address,
}

impl EngineError {
    /// The HTTP status under which the error is reported: 400 for an
    /// invalid order, 404 for what is not found, 409 for a conflict, and
    /// 500 for a fill that the matching should never make.
    pub open spec fn spec_http_status(self) -> u16 {
        match self {
            EngineError::InvalidOrder => 400,
            EngineError::NotFound => 404,
            EngineError::Conflict => 409,
            EngineError::InvalidFill => 500,
        }
    }

    #[verifier::when_used_as_spec(spec_http_status)]
    pub fn http_status(self) -> (code: u16)
        ensures
            code == self.spec_http_status(),
    {
        match self {
            EngineError::InvalidOrder => 400,
            EngineError::NotFound => 404,
            EngineError::Conflict => 409,
            EngineError::InvalidFill => 500,
        }
    }
}

impl Side {
    pub open spec fn spec_opposite(self) -> Side {
        match self {
            Side::Bid => Side::Ask,
            Side::Ask => Side::Bid,
        }
    }

    #[verifier::when_used_as_spec(spec_opposite)]
    pub fn opposite(self) -> (r: Side)
        ensures
            r == self.spec_opposite(),
    {
        match self {
            Side::Bid => Side::Ask,
            Side::Ask => Side::Bid,
        }
    }
}

impl Order {
    /// The order may take a fill of `qty`.
    pub open spec fn can_fill(self, qty: u64) -> bool {
        &&& 0 < qty <= self.remaining
        &&& (self.status == OrderStatus::Open || self.status == OrderStatus::Partial)
    }

    /// The order after a fill of `qty`.
    pub open spec fn filled_by(self, qty: u64) -> Order {
        let left = (self.remaining - qty) as u64;
        Order {
            remaining: left,
            status: if left == 0 {
                OrderStatus::Filled
            } else {
                OrderStatus::Partial
            },
            ..self
        }
    }

    /// The order as it leaves a book on cancellation.
    pub open spec fn cancelled(self) -> Order {
        Order { status: OrderStatus::Cancelled, ..self }
    }

    /// A fresh order: nothing filled, no identifier and no time stamp yet.
    pub open spec fn is_fresh(self) -> bool {
        &&& self.remaining == self.amount
        &&& self.status == OrderStatus::Open
    }

    /// `0 <= remaining <= amount`, and the order is filled exactly when
    /// nothing remains.
    pub open spec fn wf(self) -> bool {
        &&& self.remaining <= self.amount
        &&& (self.status == OrderStatus::Filled <==> self.remaining == 0)
    }

    pub fn new(
        user: Address,
        market: Address,
        side: Side,
        price: u64,
        amount: u64,
        signature: Vec<u8>,
    ) -> (o: Order)
        ensures
            o == (Order {
                id: 0,
                user,
                market,
                side,
                price,
                amount,
                remaining: amount,
                status: OrderStatus::Open,
                created_at: 0,
                signature,
            }),
            o.is_fresh(),
            amount > 0 ==> o.wf(),
    {
        Order {
            id: 0,
            user,
            market,
            side,
            price,
            amount,
            remaining: amount,
            status: OrderStatus::Open,
            created_at: 0,
            signature,
        }
    }

    pub fn id(&self) -> (r: OrderId)
        ensures
            r == self.id,
    {
        self.id
    }

    pub fn status(&self) -> (r: OrderStatus)
        ensures
            r == self.status,
    {
        self.status
    }

    /// Takes `qty` off the outstanding quantity. Fails with `InvalidFill`,
    /// leaving the order as it was, unless `0 < qty <= remaining` and the
    /// order is open or partially filled.
    pub fn apply_fill(&mut self, qty: u64) -> (r: Result<(), EngineError>)
        ensures
            old(self).can_fill(qty) ==> r.is_ok() && *final(self) == old(self).filled_by(qty),
            !old(self).can_fill(qty) ==> r == Err::<(), EngineError>(EngineError::InvalidFill)
                && *final(self) == *old(self),
            old(self).wf() ==> final(self).wf(),
    {
        let live = match self.status {
            OrderStatus::Open => true,
            OrderStatus::Partial => true,
            _ => false,
        };
        if qty == 0 || qty > self.remaining || !live {
            return Err(EngineError::InvalidFill);
        }
        self.remaining = self.remaining - qty;
        if self.remaining == 0 {
            self.status = OrderStatus::Filled;
        } else {
            self.status = OrderStatus::Partial;
        }
        Ok(())
    }
}

} // verus!
