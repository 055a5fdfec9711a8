use metasrv::token::{bytes_equal, judge, seal, AuthError, Claim, TokenService, TAG_LEN};

fn claim(name: &str) -> Claim {
    Claim { username: name.to_string() }
}

fn hex(bytes: &[u8]) -> String {
    let mut s = String::new();
    for b in bytes {
        s.push_str(&format!("{:02x}", b));
    }
    s
}

#[test]
fn issued_token_verifies_to_the_claim() {
    let service = TokenService::new(b"signing key".to_vec());
    let token = service.issue(&claim("root"));
    assert_eq!(token.len(), TAG_LEN + 4);
    assert_eq!(&token[TAG_LEN..], b"root");
    assert_eq!(service.verify(&token), Ok(claim("root")));
}

#[test]
fn token_carries_the_hmac_sha256_of_the_name() {
    let service = TokenService::new(b"key".to_vec());
    let token = service.issue(&claim("The quick brown fox jumps over the lazy dog"));
    assert_eq!(
        hex(&token[..TAG_LEN]),
        "f7bc83f430538424b13298e6aa6fb143ef4d59a14946175997479dbc2d1a3cd8"
    );
}

#[test]
fn token_is_the_same_on_every_issue() {
    let service = TokenService::new(vec![1, 2, 3]);
    assert_eq!(service.issue(&claim("ann")), service.issue(&claim("ann")));
    assert_ne!(service.issue(&claim("ann")), service.issue(&claim("bob")));
}

#[test]
fn any_holder_of_the_key_verifies() {
    let one = TokenService::new(b"shared".to_vec());
    let two = TokenService::new(b"shared".to_vec());
    let token = one.issue(&claim("n\u{e9}e \u{4e16}\u{754c}"));
    assert_eq!(two.verify(&token), Ok(claim("n\u{e9}e \u{4e16}\u{754c}")));
}

#[test]
fn tampered_token_is_unverified() {
    let service = TokenService::new(b"signing key".to_vec());
    let token = service.issue(&claim("root"));
    let mut name_changed = token.clone();
    name_changed[TAG_LEN] = b'b';
    assert_eq!(service.verify(&name_changed), Err(AuthError::Unverified));
    let mut tag_changed = token.clone();
    tag_changed[0] ^= 1;
    assert_eq!(service.verify(&tag_changed), Err(AuthError::Unverified));
    let mut longer = token.clone();
    longer.push(b'!');
    assert_eq!(service.verify(&longer), Err(AuthError::Unverified));
    let other = TokenService::new(b"another key".to_vec());
    assert_eq!(other.verify(&token), Err(AuthError::Unverified));
}

#[test]
fn malformed_token_is_invalid() {
    let service = TokenService::new(b"signing key".to_vec());
    assert_eq!(service.verify(&[]), Err(AuthError::Invalid));
    assert_eq!(service.verify(&[0u8; 31]), Err(AuthError::Invalid));
    let mut not_text = vec![0u8; 32];
    not_text.push(0xff);
    assert_eq!(service.verify(&not_text), Err(AuthError::Invalid));
    // A tag alone says nothing; what it says is empty text, so it is judged by its tag.
    assert_eq!(service.verify(&[0u8; 32]), Err(AuthError::Unverified));
}

#[test]
fn empty_name_has_a_token_too() {
    let service = TokenService::new(vec![]);
    let token = service.issue(&claim(""));
    assert_eq!(token.len(), TAG_LEN);
    assert_eq!(service.verify(&token), Ok(claim("")));
}

#[test]
fn byte_strings_compare_by_content() {
    assert!(bytes_equal(b"", b""));
    assert!(bytes_equal(b"abc", b"abc"));
    assert!(!bytes_equal(b"abc", b"abd"));
    assert!(!bytes_equal(b"abc", b"ab"));
}

#[test]
fn token_is_judged_against_the_expected_code() {
    let expected = [7u8; 32];
    assert_eq!(judge(&expected, b"ann", &expected), Ok(claim("ann")));
    let mut other = expected;
    other[31] = 8;
    assert_eq!(judge(&other, b"ann", &expected), Err(AuthError::Unverified));
    assert_eq!(judge(&expected, &[0xc3, 0x28], &expected), Err(AuthError::Invalid));
    assert_eq!(judge(&other, &[0xc3, 0x28], &expected), Err(AuthError::Invalid));
}

#[test]
fn token_is_its_code_and_then_what_it_says() {
    assert_eq!(seal(vec![1, 2], b"xy"), vec![1, 2, b'x', b'y']);
    assert_eq!(seal(vec![], b""), Vec::<u8>::new());
}
