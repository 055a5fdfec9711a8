//! Reading the credential that opens a handshake.

use vstd::prelude::*;
use arrow_format::flight::data::BasicAuth;
use prost::Message;

verus! {

/// The error with which prost refuses bytes that are no message.
#[verifier::external_type_specification]
#[verifier::external_body]
pub struct ExDecodeError(prost::DecodeError);

/// The user name and password that a handshake presents.
#[derive(Debug, PartialEq, Eq)]
pub struct Credential {
    pub username: String,
    pub password: String,
}

/// What a `Credential` is, as plain values.
pub struct CredentialView {
    pub username: Seq<char>,
    pub password: Seq<char>,
}

impl View for Credential {
    type V = CredentialView;

    open spec fn view(&self) -> CredentialView {
        CredentialView { username: self.username@, password: self.password@ }
    }
}

/// The credential that `payload` encodes as a basic-auth message of the Arrow Flight
/// protocol; `None` where the bytes are no such message.
pub uninterp spec fn basic_auth_of(payload: Seq<u8>) -> Option<CredentialView>;

/// Calls `BasicAuth::decode`, which prost derives for the message. The contract gives
/// the outcome a name: it depends on the bytes alone.
#[verifier::external_body]
pub(crate) fn decode_basic_auth(payload: &[u8]) -> (r: Result<Credential, prost::DecodeError>)
    ensures
        r.is_ok() == basic_auth_of(payload@).is_some(),
        r matches Ok(c) ==> basic_auth_of(payload@) == Some(c@),
{
    match BasicAuth::decode(payload) {
        Ok(auth) => Ok(Credential { username: auth.username, password: auth.password }),
        Err(e) => Err(e),
    }
}

/// Reads the credential from the first frame of a handshake.
pub fn read_credential(payload: &[u8]) -> (r: Option<Credential>)
    ensures
        r.is_some() == basic_auth_of(payload@).is_some(),
        r matches Some(c) ==> basic_auth_of(payload@) == Some(c@),
{
    match decode_basic_auth(payload) {
        Ok(c) => Some(c),
        Err(_) => None,
    }
}

} // verus!
