//! A price-time priority order matcher with a machine-checked specification.
//!
//! - [`order`], [`book`] and [`snapshot`] hold the order book, [`levels`] its price
//!   levels, and [`priority`] the mathematical model that its contracts speak of.
//! - [`laws`] states what holds of every submission and of every history of them.
//! - [`rules`] states it in prices, quantities and places, of submissions and of
//!   snapshots.
//! - [`engine`] is the one owner of a book.
//! - [`endpoints`], [`feed`], [`proxy`], [`relay_url`] and [`config`] hold what the
//!   servers around the engine decide; [`text`] helps them.

pub mod book;
pub mod config;
pub mod endpoints;
pub mod engine;
pub mod feed;
pub mod laws;
pub mod levels;
pub mod order;
pub mod priority;
pub mod proxy;
pub mod relay_url;
pub mod rules;
pub mod snapshot;
pub mod text;

pub use book::OrderBook;
pub use engine::{Accepted, MatchingEngine, OrderRequest, SubmitError};
pub use order::{Fill, Order, Side};
pub use snapshot::{BookLevel, OrderBookSnapshot, PublicOrder};
