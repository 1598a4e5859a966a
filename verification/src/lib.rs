//! Crafting helper: expands a recipe graph into the total amount of every
//! item needed to build a requested quantity of a target item, together with
//! the accumulated crafting time, and renders a human-readable summary.
//!
//! Amounts are exact non-negative rationals, recipes live in a catalog keyed
//! by identifier, and the expansion folds every path of the requirement tree
//! into an aggregate ledger.

pub mod amount;
pub mod catalog;
pub mod expand;
pub mod ledger;
pub mod render;
pub mod search;
pub mod strutil;
pub mod summary;
pub mod time;
