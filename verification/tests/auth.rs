//! The authenticator against the real cryptography: a correctly derived
//! credential is accepted, and every mangled variant is refused.

use base64::Engine;
use hmac::Mac;
use md5::Digest;
use relay::auth::{authenticate, parse_username_expiry, bytes_eq};
use relay::message::Credentials;

fn derive_credentials(secret: &[u8], expiry: u64, salt: &str, realm: &str, covered: &[u8]) -> Credentials {
    let username = format!("{expiry}:{salt}").into_bytes();
    let mut prf = <hmac::Hmac<sha2::Sha256> as hmac::Mac>::new_from_slice(secret).unwrap();
    prf.update(&username);
    let digest = prf.finalize().into_bytes();
    let password = base64::engine::general_purpose::STANDARD
        .encode(&digest[..16])
        .into_bytes();
    let mut key_input = Vec::new();
    key_input.extend_from_slice(&username);
    key_input.push(b':');
    key_input.extend_from_slice(realm.as_bytes());
    key_input.push(b':');
    key_input.extend_from_slice(&password);
    let mut md5 = md5::Md5::new();
    md5.update(&key_input);
    let key = md5.finalize().to_vec();
    let mut mac = <hmac::Hmac<sha1::Sha1> as hmac::Mac>::new_from_slice(&key).unwrap();
    mac.update(covered);
    let mac = mac.finalize().into_bytes().to_vec();
    Credentials {
        username,
        realm: realm.as_bytes().to_vec(),
        nonce: 1,
        mac,
        covered: covered.to_vec(),
    }
}

#[test]
fn valid_credentials_pass() {
    let secret = b"0123456789abcdef0123456789abcdef".to_vec();
    let credentials = derive_credentials(&secret, 2000, "abc", "firezone", b"covered-bytes");
    assert_eq!(authenticate(&secret, &credentials, 1500), Ok(()));
}

#[test]
fn expired_username_fails() {
    let secret = b"0123456789abcdef0123456789abcdef".to_vec();
    let credentials = derive_credentials(&secret, 2000, "abc", "firezone", b"covered-bytes");
    assert_eq!(authenticate(&secret, &credentials, 2000), Err(401));
}

#[test]
fn wrong_mac_fails() {
    let secret = b"0123456789abcdef0123456789abcdef".to_vec();
    let mut credentials = derive_credentials(&secret, 2000, "abc", "firezone", b"covered-bytes");
    credentials.mac[0] ^= 0xFF;
    assert_eq!(authenticate(&secret, &credentials, 1500), Err(401));
}

#[test]
fn wrong_secret_fails() {
    let secret = b"0123456789abcdef0123456789abcdef".to_vec();
    let other = b"fedcba9876543210fedcba9876543210".to_vec();
    let credentials = derive_credentials(&secret, 2000, "abc", "firezone", b"covered-bytes");
    assert_eq!(authenticate(&other, &credentials, 1500), Err(401));
}

#[test]
fn malformed_username_fails() {
    let secret = b"0123456789abcdef0123456789abcdef".to_vec();
    let mut credentials = derive_credentials(&secret, 2000, "abc", "firezone", b"covered-bytes");
    credentials.username = b"no-expiry-here".to_vec();
    assert_eq!(authenticate(&secret, &credentials, 1500), Err(401));
}

#[test]
fn parse_expiry_reads_the_digit_prefix() {
    assert_eq!(parse_username_expiry(&b"1234:salt".to_vec()), Some(1234));
    assert_eq!(parse_username_expiry(&b"0:x".to_vec()), Some(0));
    assert_eq!(
        parse_username_expiry(&b"18446744073709551615:x".to_vec()),
        Some(u64::MAX)
    );
}

#[test]
fn parse_expiry_rejects_bad_shapes() {
    assert_eq!(parse_username_expiry(&b"".to_vec()), None);
    assert_eq!(parse_username_expiry(&b":salt".to_vec()), None);
    assert_eq!(parse_username_expiry(&b"12x4:salt".to_vec()), None);
    assert_eq!(parse_username_expiry(&b"1234".to_vec()), None);
    // one past u64::MAX
    assert_eq!(parse_username_expiry(&b"18446744073709551616:x".to_vec()), None);
}

#[test]
fn bytes_eq_compares_contents() {
    assert!(bytes_eq(&b"abc".to_vec(), &b"abc".to_vec()));
    assert!(!bytes_eq(&b"abc".to_vec(), &b"abd".to_vec()));
    assert!(!bytes_eq(&b"abc".to_vec(), &b"ab".to_vec()));
    assert!(bytes_eq(&Vec::new(), &Vec::new()));
}
