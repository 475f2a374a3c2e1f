//! A monthly budget planner: named line items that are either fixed or
//! expandable, a text encoding for them, and the distribution of an income
//! over them (fixed items first, in order; then a water-filling pass over the
//! expandable items). Amounts are whole cents.

pub mod allocation;
pub mod text;
pub mod budget;
pub mod codec;
pub mod input;
pub mod session;
