//! Records exchanged with the external credential store.

use vstd::prelude::*;

verus! {

/// One row of the credential store: an identity and its base64-encoded
/// 16-byte symmetric key.
#[derive(PartialEq, Debug, Clone)]
pub struct User {
    pub id: i32,
    pub name: String,
    pub key: String,
}

/// The fields of a user to be inserted; the id is assigned by the store.
pub struct UserAdd<'a> {
    pub name: &'a str,
    pub key: &'a str,
}

} // verus!
