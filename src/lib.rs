pub mod bytes;
pub mod error;
pub mod fields;
pub mod record;
pub mod frame;
pub mod exchange;
pub mod command;
pub mod bench;
