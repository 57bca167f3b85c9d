//! Core of a simulated equities exchange: per-symbol order books with a
//! price-time matching engine, and the market-data generator that derives
//! new stock prices from book depth, realized trades and sector movement.
//!
//! Prices are fixed-point: one unit is a tick of 0.0001.

pub mod models;
pub mod book;
pub mod manager;
pub mod pricing;
pub mod sector;
pub mod generator;
pub mod text;
