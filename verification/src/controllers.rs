pub mod current_status;
pub mod datetime;
