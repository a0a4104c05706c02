pub mod event_bus_field_type;
pub mod event_bus_message;
pub mod event_type;
pub mod socket_message;
pub mod wire_format;
