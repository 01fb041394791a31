pub mod bench;
pub mod command;
pub mod replay;
pub mod report;
pub mod trace;
