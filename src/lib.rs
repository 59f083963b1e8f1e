//! Wake-on-LAN library: MAC address parsing, magic packet construction,
//! and the named host store with the command decisions built on it.

pub mod command;
pub mod mac;
pub mod packet;
pub mod store;
