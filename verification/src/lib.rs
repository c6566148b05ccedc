//! Entries of a tar archive: their names, their extension records, and the
//! decisions made while they are unpacked.

pub mod action;
pub mod bytes;
pub mod entry;
pub mod error;
pub mod header;
pub mod host;
pub mod host_path;
pub mod messages;
pub mod path;
pub mod path_laws;
pub mod pax;
pub mod pax_laws;
pub mod reading;
pub mod script_in_laws;
pub mod script_laws;
pub mod text;
pub mod text_laws;
pub mod unpack;
pub mod unpack_in;
pub mod unpack_in_laws;
pub mod unpack_laws;
pub mod view_laws;
