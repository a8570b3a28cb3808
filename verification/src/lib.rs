//! A single-process, file-backed record store for contact records keyed by
//! email address.
//!
//! The store pairs an open-addressing hash index (`tabla_hash`), which maps a
//! key to a byte range, with record-store logic (`gestor_personas`) that keeps
//! that index consistent with append, random-access read, and in-place update
//! operations on variable-length serialized records (`serializacion`). The
//! byte container itself is an in-memory byte sequence; reading it from and
//! writing it back to its backing location is the caller's concern.

pub mod errores;
pub mod gestor_personas;
pub mod persona;
pub mod serializacion;
pub mod tabla_hash;
