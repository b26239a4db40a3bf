//! Fresh random ids, drawn from the operating system's random source.
use crate::external::{os_random_bytes, uuid_v4_string, uuid_v4_text};
use vstd::prelude::*;

verus! {

/// The operating system's random source gave no bytes.
#[derive(Clone, Copy, Debug, PartialEq, Eq, Structural)]
pub enum RandomError {
    Unavailable,
}

/// Whether a text is the version 4 UUID of some sixteen random bytes.
pub open spec fn is_uuid_v4_text(t: Seq<char>) -> bool {
    exists|b: Seq<u8>| b.len() == 16 && #[trigger] uuid_v4_text(b) == t
}

/// A fresh version 4 UUID in its hyphenated form, or the error when the
/// random source fails. Which UUID comes out is chance.
pub fn new_uuid_v4() -> (r: Result<String, RandomError>)
    ensures
        r matches Ok(s) ==> is_uuid_v4_text(s@),
        r matches Err(e) ==> e == RandomError::Unavailable,
{
    match os_random_bytes(16) {
        Ok(bytes) => {
            let s = uuid_v4_string(bytes.as_slice());
            proof {
                assert(uuid_v4_text(bytes@) == s@);
            }
            Ok(s)
        },
        Err(_) => Err(RandomError::Unavailable),
    }
}

} // verus!
