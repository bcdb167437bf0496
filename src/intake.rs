//! What happens to a submission body before it is decoded, and how each
//! failure of a submission is reported.
//!
//! The encrypted and the plain upload differ only in this first stage; both
//! feed the same decoder and the same store.

use vstd::prelude::*;
use crate::cipher::{decrypt, decrypt_spec, KEY_LEN};

verus! {

/// Why a submission or a read was refused.
#[derive(Debug, Clone, Copy, PartialEq, Eq, Structural)]
pub enum SubmitError {
    /// The body did not decrypt: too short, not whole blocks, or bad padding.
    Decrypt,
    /// The plaintext is not a well-formed submission record.
    Decode,
    /// The store could not be read or written.
    Store,
}

impl SubmitError {
    /// The HTTP status that reports this failure: a client error for a body
    /// that could not be read, a server error for the store.
    pub fn status(&self) -> (r: u16)
        ensures
            *self == SubmitError::Store ==> r == 500,
            *self != SubmitError::Store ==> r == 400,
    {
        match self {
            SubmitError::Decrypt => 400,
            SubmitError::Decode => 400,
            SubmitError::Store => 500,
        }
    }
}

/// The first stage of a submission.
pub enum Intake {
    /// The body is an initialization vector and CBC ciphertext under this key.
    Encrypted(Vec<u8>),
    /// The body is the record itself.
    Plain,
}

impl Intake {
    /// A usable stage: an encrypted one holds a key of the cipher's length.
    pub open spec fn wf(&self) -> bool {
        match self {
            Intake::Encrypted(k) => k@.len() == KEY_LEN,
            Intake::Plain => true,
        }
    }

    /// The bytes to decode from `body`.
    pub fn open_body(&self, body: &[u8]) -> (r: Result<Vec<u8>, SubmitError>)
        requires
            self.wf(),
        ensures
            *self is Plain ==> (r matches Ok(m) && m@ == body@),
            self matches Intake::Encrypted(k) ==> match decrypt_spec(k@, body@) {
                Some(m) => (r matches Ok(v) && v@ == m),
                None => r == Err::<Vec<u8>, SubmitError>(SubmitError::Decrypt),
            },
    {
        match self {
            Intake::Plain => Ok(vstd::slice::slice_to_vec(body)),
            Intake::Encrypted(k) => match decrypt(k.as_slice(), body) {
                Ok(m) => Ok(m),
                Err(_) => Err(SubmitError::Decrypt),
            },
        }
    }
}

} // verus!
