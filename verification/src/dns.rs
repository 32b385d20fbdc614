//! DNS wire format: a fixed 512 byte packet buffer and the records read from
//! and written to it.

pub mod buffer;
pub mod header;
pub mod index_loop;
pub mod packet;
pub mod resolve;
