pub mod accuracy;
pub mod arbitrage;
pub mod balances;
pub mod binance;
pub mod clock;
pub mod codec;
pub mod config;
pub mod decimal;
pub mod domain;
pub mod double;
pub mod engine;
pub mod names;
pub mod orders;
pub mod perf;
pub mod perf_test;
pub mod rounding;
pub mod store;
pub mod telegram;
pub mod text;
