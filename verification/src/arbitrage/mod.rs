pub mod assessed;
pub mod fills;
pub mod graph;
pub mod profit;
pub mod risk;
pub mod simulate;
pub mod spfa;
pub mod spread;
