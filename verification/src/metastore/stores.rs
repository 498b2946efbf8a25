//! Store backends.

pub mod ack;
pub mod memory;
