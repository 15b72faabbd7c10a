//! A verified core for an interactive Linux process inspector.
//!
//! The library covers the logic of the inspector: hexadecimal address
//! encoding and decoding, memory-map normalisation and classification,
//! indexing of executable regions, the paged hex-viewer state machine,
//! and command parsing.  Reading another process's address space and the
//! `/proc` map source are reached through small trusted wrappers; every
//! decision taken on what they return is verified.

pub mod strutil;
pub mod codec;
pub mod region;
pub mod exec_index;
pub mod classify;
pub mod maps;
pub mod memread;
pub mod viewer;
pub mod command;
