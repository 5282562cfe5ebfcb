//! An order matching engine: per-market order books with price-time
//! priority, and the engine state that owns them.

pub mod order;
pub mod model;
pub mod book;
pub mod laws;
pub mod state;
pub mod executioner;
