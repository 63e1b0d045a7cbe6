//! Parser and sequencer for the VGM register-log format (1.50 to 1.71).
//!
//! The parser knows nothing about hardware: it turns a buffer into a
//! [`Header`] and a stream of [`Event`]s, and the player decides which
//! device each write goes to.
//!
//! Every function that reads a file is total: a damaged file is answered
//! with an error value and never with a crash.

pub mod bytes;
pub mod command;
pub mod event;
pub mod gd3;
pub mod gzip;
pub mod header;
pub mod reader;
pub mod scan;
pub mod stream;
pub mod volume;

pub use event::{Chip, Error, Event};
pub use gd3::Gd3;
pub use gzip::{decompress, decompress_zlib, GZIP_MAGIC};
pub use header::{Clocks, Header, TICK_RATE, VGM_MAGIC};
pub use reader::Reader;
pub use volume::{ChipVolume, MAX_CHIP_VOLUMES};
