//! Core of a status-aggregation system: an in-process publish/subscribe
//! event bus, a text-delimited event codec, the socket-payload parser, and
//! the time-windowed aggregator that turns event streams into a displayable
//! set of active status messages.

pub mod models;
pub mod services;
pub mod controllers;
pub mod utils;
