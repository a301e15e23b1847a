//! Volatility-skew analytics.
//!
//! What the library decides about option chains, index prices and the strategies on
//! them: which quotes count, which contracts a measure looks at, where a series stands,
//! when a hedge is bought and sold, and how the files and documents that carry all this
//! are read and written.
//!
//! - text, numbers and dates: [`text`], [`numeral`], [`num`], [`dates`];
//! - collections and order: [`table`], [`group`], [`pick`], [`order`], [`series`],
//!   [`align`];
//! - files and documents: [`csv`], [`json`], [`fetch`], [`fred`], [`cboe`], [`snapshot`],
//!   [`price`];
//! - measures and strategies: [`skew`], [`svi`], [`backtest`], [`hedge`];
//! - the server and its charts: [`route`], [`candles`], [`chart`].
//!
//! Numbers are held as the bit patterns of doubles, see [`num`]: the library compares
//! and selects them, and calculations are made by its callers.

pub mod align;
pub mod backtest;
pub mod candles;
pub mod cboe;
pub mod chart;
pub mod csv;
pub mod dates;
pub mod fetch;
pub mod fred;
pub mod group;
pub mod hedge;
pub mod json;
pub mod num;
pub mod numeral;
pub mod order;
pub mod pick;
pub mod price;
pub mod route;
pub mod series;
pub mod skew;
pub mod snapshot;
pub mod svi;
pub mod table;
pub mod text;
