//! Bearer tokens: a claim's user name behind a message authentication code under the
//! service's signing key. Any holder of the key can verify a token; nothing is kept
//! per token.

use vstd::prelude::*;
use vstd::slice::slice_subrange;
use vstd::utf8::{decode_utf8, encode_utf8, encode_utf8_decode_utf8, encode_utf8_valid_utf8, valid_utf8};

verus! {

/// Length in bytes of a token's authentication code.
pub const TAG_LEN: usize = 32;

/// The identity that a token attests to.
#[derive(Debug, PartialEq, Eq)]
pub struct Claim {
    pub username: String,
}

/// Why a token was not accepted.
#[derive(Clone, Copy, Debug, PartialEq, Eq, Structural)]
pub enum AuthError {
    /// The request carried no token.
    Missing,
    /// The token is too short, or what it says is no text.
    Invalid,
    /// The token's authentication code is not the one that the key gives.
    Unverified,
}

/// What `hmac_sha256::HMAC::mac` returns for `message` under `key`: the HMAC-SHA256
/// code of the message.
pub uninterp spec fn hmac_sha256_of(message: Seq<u8>, key: Seq<u8>) -> Seq<u8>;

/// Calls `hmac_sha256::HMAC::mac`. The contract gives its result a name and states
/// the one fact that the source shows at the signature: the code has 32 bytes.
#[verifier::external_body]
fn mac(message: &[u8], key: &[u8]) -> (tag: Vec<u8>)
    ensures
        tag@ == hmac_sha256_of(message@, key@),
        tag@.len() == TAG_LEN,
{
    hmac_sha256::HMAC::mac(message, key).to_vec()
}

/// Calls `core::str::from_utf8`: the text that the bytes encode, where they are
/// well-formed UTF-8.
#[verifier::external_body]
fn text_of(bytes: &[u8]) -> (r: Option<&str>)
    ensures
        r.is_some() == valid_utf8(bytes@),
        r matches Some(s) ==> s@ == decode_utf8(bytes@),
{
    core::str::from_utf8(bytes).ok()
}

/// What a token says: the bytes after its authentication code.
pub open spec fn token_body(token: Seq<u8>) -> Seq<u8>
    recommends
        token.len() >= TAG_LEN,
{
    token.subrange(TAG_LEN as int, token.len() as int)
}

/// A token's authentication code: its first bytes.
pub open spec fn token_tag(token: Seq<u8>) -> Seq<u8>
    recommends
        token.len() >= TAG_LEN,
{
    token.subrange(0, TAG_LEN as int)
}

/// The token for `username` under `key`: the authentication code of the name's UTF-8
/// bytes, then those bytes.
pub open spec fn issued(key: Seq<u8>, username: Seq<char>) -> Seq<u8> {
    hmac_sha256_of(encode_utf8(username), key) + encode_utf8(username)
}

/// What a token that says `body` behind the code `tag` is judged to be, where
/// `expected` is the code that the key gives for `body`: the user name it attests
/// to, or why it is not accepted.
pub open spec fn judged(tag: Seq<u8>, body: Seq<u8>, expected: Seq<u8>) -> Result<
    Seq<char>,
    AuthError,
> {
    if !valid_utf8(body) {
        Err(AuthError::Invalid)
    } else if tag != expected {
        Err(AuthError::Unverified)
    } else {
        Ok(decode_utf8(body))
    }
}

/// What verifying `token` under `key` gives: the user name it attests to, or why it
/// is not accepted.
pub open spec fn verified(key: Seq<u8>, token: Seq<u8>) -> Result<Seq<char>, AuthError> {
    if token.len() < TAG_LEN {
        Err(AuthError::Invalid)
    } else {
        judged(token_tag(token), token_body(token), hmac_sha256_of(token_body(token), key))
    }
}

/// A token from its authentication code and what it says.
pub fn seal(tag: Vec<u8>, body: &[u8]) -> (token: Vec<u8>)
    ensures
        token@ == tag@ + body@,
{
    let mut token = tag;
    let ghost tag_bytes = token@;
    let mut i: usize = 0;
    while i < body.len()
        invariant
            i <= body.len(),
            token@ == tag_bytes + body@.subrange(0, i as int),
        decreases body.len() - i,
    {
        token.push(body[i]);
        assert(token@ =~= tag_bytes + body@.subrange(0, i + 1));
        i += 1;
    }
    assert(body@.subrange(0, body@.len() as int) =~= body@);
    token
}

/// Judges a token that says `body` behind the code `tag`, where `expected` is the
/// code that the key gives for `body`: `Invalid` where the body is no text,
/// `Unverified` where the codes differ, else the claim.
pub fn judge(tag: &[u8], body: &[u8], expected: &[u8]) -> (r: Result<Claim, AuthError>)
    ensures
        match r {
            Ok(claim) => judged(tag@, body@, expected@) == Ok::<Seq<char>, AuthError>(
                claim.username@,
            ),
            Err(e) => judged(tag@, body@, expected@) == Err::<Seq<char>, AuthError>(e),
        },
{
    let username = match text_of(body) {
        Some(s) => s,
        None => {
            return Err(AuthError::Invalid);
        },
    };
    if !bytes_equal(tag, expected) {
        return Err(AuthError::Unverified);
    }
    Ok(Claim { username: username.to_owned() })
}

/// Whether two byte strings are equal.
pub fn bytes_equal(a: &[u8], b: &[u8]) -> (r: bool)
    ensures
        r == (a@ == b@),
{
    if a.len() != b.len() {
        return false;
    }
    let mut i: usize = 0;
    while i < a.len()
        invariant
            i <= a.len(),
            a@.len() == b@.len(),
            forall|j: int| 0 <= j < i ==> a@[j] == b@[j],
        decreases a.len() - i,
    {
        if a[i] != b[i] {
            return false;
        }
        i += 1;
    }
    assert(a@ =~= b@);
    true
}

/// Issues and verifies tokens under one signing key.
pub struct TokenService {
    key: Vec<u8>,
}

impl TokenService {
    /// The signing key.
    pub closed spec fn key(&self) -> Seq<u8> {
        self.key@
    }

    /// A service that signs with `key`.
    pub fn new(key: Vec<u8>) -> (r: TokenService)
        ensures
            r.key() == key@,
    {
        TokenService { key }
    }

    /// Issues the token for `claim`. Verifying it under the same key gives the claim
    /// back.
    pub fn issue(&self, claim: &Claim) -> (token: Vec<u8>)
        ensures
            token@ == issued(self.key(), claim.username@),
            verified(self.key(), token@) == Ok::<Seq<char>, AuthError>(claim.username@),
    {
        let body = claim.username.as_str().as_bytes();
        let token = seal(mac(body, self.key.as_slice()), body);
        proof {
            assert(token_body(token@) =~= body@);
            assert(token_tag(token@) =~= hmac_sha256_of(body@, self.key@));
            encode_utf8_valid_utf8(claim.username@);
            encode_utf8_decode_utf8(claim.username@);
        }
        token
    }

    /// Verifies `token`: the claim it attests to, `Invalid` where it is too short or
    /// what it says is no text, `Unverified` where its authentication code is not the
    /// one that the key gives.
    pub fn verify(&self, token: &[u8]) -> (r: Result<Claim, AuthError>)
        ensures
            match r {
                Ok(claim) => verified(self.key(), token@) == Ok::<Seq<char>, AuthError>(
                    claim.username@,
                ),
                Err(e) => verified(self.key(), token@) == Err::<Seq<char>, AuthError>(e),
            },
    {
        if token.len() < TAG_LEN {
            return Err(AuthError::Invalid);
        }
        let tag = slice_subrange(token, 0, TAG_LEN);
        let body = slice_subrange(token, TAG_LEN, token.len());
        let expected = mac(body, self.key.as_slice());
        judge(tag, body, expected.as_slice())
    }
}

} // verus!
