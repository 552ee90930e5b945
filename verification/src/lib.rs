//! A single-instrument order matching engine.
//!
//! Buy and sell orders carry a quantity and a limit price. A submission that
//! crosses the best resting order of the opposite side trades against it,
//! oldest order first; any other submission comes to rest in the book.

pub mod api;
pub mod laws;
pub mod listing;
pub mod model;
pub mod positive;
pub mod price_level_b_tree_order_book;
pub mod test_suite;
pub mod util;
