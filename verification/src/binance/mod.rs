pub mod rest;
pub mod sign;
pub mod trade_ws;
pub mod ws;
