//! Core of a live viewer for a stream of `(identifier, payload)` records:
//! line parsing, aggregation per identifier, change highlighting, display
//! ordering and the browse/filter interaction machine.
pub mod canbus;
pub mod diff;
pub mod order;
pub mod session;
pub mod store;
pub mod text;
