pub mod datetime;
pub mod event_bus;
pub mod hw_usage;
pub mod process_watcher;
pub mod socket;
