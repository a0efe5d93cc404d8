//! Verified core of a HID device lister: usage-table lookups, instance-ID
//! parsing, command-line parsing, device ordering, grouping and naming, and
//! the text of every line the lister prints.
#![allow(non_snake_case, non_camel_case_types)]

pub mod win32;
pub mod text;
pub mod usage;
pub mod hid;
pub mod cli;
pub mod order;
pub mod report;
