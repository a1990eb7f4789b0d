//! Triangular arbitrage on fixed-point prices: the price arithmetic, the
//! ticker parsing rules, the triangle bookkeeping and the decisions of the
//! streaming loop, each with its contract.

pub mod config;
pub mod market_analyzer;
pub mod scaled_decimals;
pub mod triangle_calculator;
pub mod websocket;
