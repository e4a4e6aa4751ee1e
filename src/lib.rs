//! Driver for W25Qxx serial NOR flash chips.
//!
//! The driver owns a byte transceiver and a chip-select line and talks to the
//! chip one transaction at a time. It keeps a log of the bytes it hands to the
//! transceiver in each transaction, and its contracts are stated over that
//! log: reads are one fast-read transaction, programs are split so that no
//! page-program crosses a page boundary, erases use the largest aligned units
//! that fit, every program or erase follows a busy wait and a verified
//! write-enable handshake, the select line is released after every
//! transaction, and each failure leaves its cause at the end of the log. What
//! the transceiver and the select line do with the bytes is theirs.
use vstd::prelude::*;

pub mod board;
pub mod bus;
pub mod driver;
pub mod layout;

pub use board::gpio_get_pin;
pub use bus::{SelectLine, Transceiver};
pub use driver::{check_identification, Error, W25qxx, DEFAULT_POLL_LIMIT};

verus! {

} // verus!
