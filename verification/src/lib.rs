//! A shopping workflow library: per-user carts that accumulate items and
//! addresses, orders with a small gated lifecycle, and tiered pricing records
//! that are resolved and merged deterministically.
//!
//! Carts and orders keep their total equal to the sum of price times quantity
//! after every operation; order mutations are gated by the order's lifecycle
//! status; price resolution observes the sale-over-list-over-msrp precedence;
//! and merging pricing tiers keeps one entry per key with incoming entries
//! winning. Each of these is stated in the contracts of the respective
//! modules and proved.

pub mod assistant;
pub mod cart;
pub mod common;
pub mod order;
pub mod pricing;
pub mod product;
pub mod search;
