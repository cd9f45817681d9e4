//! A deterministic limit order matching engine for one symbol.
//!
//! Prices are integer ticks and quantities integer lots, so that every result is a function of
//! the ordered command stream alone.
pub mod accounting;
pub mod audit;
pub mod book;
pub mod capacity;
pub mod completion;
pub mod crossing;
pub mod feed;
pub mod fifo;
pub mod flow;
pub mod gateway;
pub mod laws;
pub mod liquidity;
pub mod matcher;
pub mod model;
pub mod outcome;
pub mod patience;
pub mod precedence;
pub mod priority;
pub mod quantities;
pub mod ranking;
pub mod replay;
pub mod report;
pub mod snapshot;
pub mod standing;
pub mod trial;
pub mod types;
pub mod validity;
pub mod volume;
pub mod wal;
