//! Limit order books and the matching of market orders.

pub mod book_spec;
pub mod exchange;
pub mod order_book;
