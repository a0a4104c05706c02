pub mod bytes_helper;
pub mod clock;
pub mod strings;
