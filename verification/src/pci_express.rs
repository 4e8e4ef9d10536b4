//! PCI Express configuration-space register layout.
//!
//! The configuration-space header of a device is read as 32-bit words;
//! each named register occupies a bit range within the word at its
//! byte offset.  The table here gives each register's location, and
//! the extraction function cuts a register's value out of the word a
//! caller has read from the device.

pub mod registers;
