//! Purchase-order record keeping: a recursive pricing data model
//! (dates, add-ons, products, orders) and a deterministic binary codec
//! that persists an ordered sequence of orders losslessly.

pub mod codec;
pub mod model;
pub mod store;
