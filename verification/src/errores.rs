//! The failure kinds of the store.

use vstd::prelude::*;

verus! {

/// The two failure kinds the store distinguishes: an input/output failure of
/// the backing location, and a format failure (bytes that cannot be decoded
/// as a record). Neither is retried internally.
#[derive(Debug, PartialEq, Eq, Structural, Clone, Copy)]
pub enum GestorError {
    Io,
    Formato,
}

impl GestorError {
    /// A short description of the failure, for callers that report it.
    pub fn descripcion(&self) -> (r: &'static str)
        ensures
            r@ == (match self {
                GestorError::Io => "error de E/S"@,
                GestorError::Formato => "error de formato de registro"@,
            }),
    {
        match self {
            GestorError::Io => "error de E/S",
            GestorError::Formato => "error de formato de registro",
        }
    }
}

} // verus!
