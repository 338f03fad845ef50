//! The library's error type.

use vstd::prelude::*;

verus! {

/// `rusqlite::Error`, carried opaquely.
#[verifier::external_type_specification]
#[verifier::external_body]
pub struct ExSqliteError(rusqlite::Error);

/// `r2d2::Error`, carried opaquely.
#[verifier::external_type_specification]
#[verifier::external_body]
pub struct ExPoolError(r2d2::Error);

/// `std::io::Error`, carried opaquely.
#[verifier::external_type_specification]
#[verifier::external_body]
pub struct ExIoError(std::io::Error);

/// What can go wrong in the store, the connection pool, the filesystem, or
/// elsewhere (with a message).
#[derive(Debug)]
pub enum CoreError {
    Database(rusqlite::Error),
    Pool(r2d2::Error),
    Io(std::io::Error),
    Other(String),
}

} // verus!
