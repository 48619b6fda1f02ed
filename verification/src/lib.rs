//! The verified core of a terminal system monitor: telemetry history, drive discovery and
//! temperature decoding, network adapter tracking, sensor bookkeeping and dashboard texts.
pub mod control;
pub mod display;
pub mod gpu;
pub mod history;
pub mod network;
pub mod sensors;
pub mod storage;
pub mod text;
