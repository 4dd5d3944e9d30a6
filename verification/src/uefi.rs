//! The parts of the UEFI interface that the boot loader relies on: status codes, UCS-2 strings,
//! memory maps, and the data that protocols hand back.
//!
//! Calls into the firmware itself go through function pointers and stay with the boot loader;
//! what is here decides on and decodes what those calls return.
pub mod status;
pub mod cstr;
pub mod types;
pub mod table;
pub mod proto;
