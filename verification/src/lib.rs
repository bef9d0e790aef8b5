//! Text wire format for the block network: a self-describing,
//! delimiter-terminated encoding with a verified reader and writer,
//! and the message types that travel over it.

pub mod comm;
pub mod message;
