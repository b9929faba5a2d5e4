//! Two-server private heavy-hitter discovery.
//!
//! Clients share their input between two servers as the two halves of a
//! distributed point function. The servers walk the binary prefix tree of the
//! input domain together, reconstruct only the aggregate count of every
//! prefix they still follow, and drop the prefixes whose count is below a
//! threshold.
//!
//! Everything here is plain computation on values. The transport between the
//! servers, and the reading of files and of the command line, live outside
//! this library.

pub mod bits;
pub mod group;
pub mod field;
pub mod prg;
pub mod dpf;
pub mod vidpf;
pub mod collect;
pub mod config;
pub mod protocol;

pub use crate::bits::{bits_to_string, string_to_bits, u32_to_bits};
pub use crate::field::FieldElm;
pub use crate::group::Group;
pub use crate::prg::HASH_SIZE;
