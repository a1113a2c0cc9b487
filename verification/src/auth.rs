//! The authenticator for ephemeral credentials.
//!
//! A username has the shape `<expiry_unix>:<salt>`.  A request is
//! authentic iff the expiry has not passed and its `MESSAGE-INTEGRITY`
//! tag equals HMAC-SHA1 over the covered request bytes, keyed with
//! `MD5(username:realm:password)`, where the password is the base64
//! encoding of the first 16 bytes of HMAC-SHA256 over the username keyed
//! with the shared stamp secret.
//!
//! The authenticator is pure: it mutates nothing.

use vstd::prelude::*;
use crate::crypto::{hmac_sha1, hmac_sha1_of, hmac_sha256, hmac_sha256_of, md5, md5_of,
    base64_encode, base64_of};
use crate::message::{Credentials, UNAUTHORIZED};

verus! {

/// The byte value of the ASCII colon that splits a username.
pub const USERNAME_SEPARATOR: u8 = 58;

/// `b` is an ASCII decimal digit.
pub open spec fn is_digit(b: u8) -> bool {
    48 <= b <= 57
}

/// The number an ASCII digit string denotes.
pub open spec fn dec_value(s: Seq<u8>) -> int
    decreases s.len(),
{
    if s.len() == 0 {
        0
    } else {
        dec_value(s.drop_last()) * 10 + (s.last() - 48)
    }
}

/// `k` marks the colon ending the digit prefix of a username: everything
/// before `k` is a digit, and there is at least one.
pub open spec fn username_split_at(u: Seq<u8>, k: int) -> bool {
    &&& 1 <= k < u.len()
    &&& u[k] == USERNAME_SEPARATOR
    &&& forall|j: int| 0 <= j < k ==> is_digit(#[trigger] u[j])
}

/// The username carries a machine-representable expiry: digits, a colon,
/// and a value that fits in a `u64`.
pub open spec fn username_well_formed(u: Seq<u8>) -> bool {
    exists|k: int| username_split_at(u, k) && dec_value(u.subrange(0, k)) <= u64::MAX as int
}

/// The username's stated expiry lies strictly after `now`.
pub open spec fn username_fresh(u: Seq<u8>, now: u64) -> bool {
    exists|k: int|
        username_split_at(u, k) && dec_value(u.subrange(0, k)) <= u64::MAX as int && dec_value(
            u.subrange(0, k),
        ) > now
}

/// The password the portal derives for a username from the stamp secret.
pub open spec fn password_for(secret: Seq<u8>, username: Seq<u8>) -> Seq<u8> {
    base64_of(hmac_sha256_of(secret, username).take(16))
}

/// The long-term-credential key of RFC 8489 for the derived password.
pub open spec fn auth_key(username: Seq<u8>, realm: Seq<u8>, password: Seq<u8>) -> Seq<u8> {
    md5_of(username + seq![USERNAME_SEPARATOR] + realm + seq![USERNAME_SEPARATOR] + password)
}

/// The request's integrity tag is the one the derived key produces.
pub open spec fn mac_matches(secret: Seq<u8>, c: Credentials) -> bool {
    c.mac@ == hmac_sha1_of(
        auth_key(c.username@, c.realm@, password_for(secret, c.username@)),
        c.covered@,
    )
}

/// The whole authentication judgement.
pub open spec fn credentials_valid(secret: Seq<u8>, c: Credentials, now: u64) -> bool {
    username_fresh(c.username@, now) && mac_matches(secret, c)
}

/// At most one index can split a username: everything before the split is
/// a digit and a digit is never the separator.
pub proof fn lemma_split_unique(u: Seq<u8>, k1: int, k2: int)
    requires
        username_split_at(u, k1),
        username_split_at(u, k2),
    ensures
        k1 == k2,
{
    if k1 < k2 {
        assert(is_digit(u[k1]));
    }
    if k2 < k1 {
        assert(is_digit(u[k2]));
    }
}

/// Appending digits never shrinks the denoted value.
proof fn lemma_dec_value_monotone(u: Seq<u8>, a: int, b: int)
    requires
        0 <= a <= b <= u.len(),
        forall|j: int| 0 <= j < b ==> is_digit(#[trigger] u[j]),
    ensures
        dec_value(u.subrange(0, a)) <= dec_value(u.subrange(0, b)),
        dec_value(u.subrange(0, a)) >= 0,
    decreases b - a,
{
    if a == b {
        lemma_dec_value_nonneg(u.subrange(0, a));
    } else {
        lemma_dec_value_monotone(u, a, b - 1);
        let s = u.subrange(0, b);
        assert(s.drop_last() =~= u.subrange(0, b - 1));
        lemma_dec_value_nonneg(u.subrange(0, b - 1));
        assert(dec_value(s) == dec_value(u.subrange(0, b - 1)) * 10 + (s.last() - 48));
        assert(is_digit(u[b - 1]));
        assert(s.last() == u[b - 1]);
        assert(dec_value(u.subrange(0, b - 1)) * 10 >= dec_value(u.subrange(0, b - 1))) by (
        nonlinear_arith)
            requires
                dec_value(u.subrange(0, b - 1)) >= 0,
        ;
    }
}

/// A string of digits denotes a number, never something negative.
proof fn lemma_dec_value_nonneg(s: Seq<u8>)
    requires
        forall|j: int| 0 <= j < s.len() ==> is_digit(#[trigger] s[j]),
    ensures
        dec_value(s) >= 0,
    decreases s.len(),
{
    if s.len() > 0 {
        assert(forall|j: int| 0 <= j < s.drop_last().len() ==> is_digit(
            #[trigger] s.drop_last()[j],
        ));
        lemma_dec_value_nonneg(s.drop_last());
        assert(is_digit(s[s.len() - 1]));
        assert(dec_value(s.drop_last()) * 10 >= 0) by (nonlinear_arith)
            requires
                dec_value(s.drop_last()) >= 0,
        ;
    }
}

/// Parse the `<expiry_unix>` prefix of a username.
///
/// Returns the expiry iff the username is well formed, `None` otherwise.
pub fn parse_username_expiry(username: &Vec<u8>) -> (r: Option<u64>)
    ensures
        match r {
            Some(v) => exists|k: int|
                username_split_at(username@, k) && dec_value(username@.subrange(0, k))
                    == v as int,
            None => !username_well_formed(username@),
        },
{
    let n = username.len();
    let mut i: usize = 0;
    while i < n && username[i] != USERNAME_SEPARATOR
        invariant
            i <= n,
            n == username@.len(),
            forall|j: int|
                0 <= j < i ==> is_digit(#[trigger] username@[j]) && username@[j] != USERNAME_SEPARATOR,
        decreases n - i,
    {
        let b = username[i];
        if !(48 <= b && b <= 57) {
            // neither digit nor separator: a split cannot lie before `i`
            // (no separator there), at `i` (not a separator), or after it
            // (everything before a split is a digit)
            assert forall|m: int| !username_split_at(username@, m) by {
                if username_split_at(username@, m) {
                    if m > i {
                        assert(is_digit(username@[i as int]));
                    } else {
                        assert(username@[m] == USERNAME_SEPARATOR);
                    }
                }
            }
            assert(!username_well_formed(username@));
            return None;
        }
        i = i + 1;
    }
    if i >= n {
        // no separator at all
        assert forall|m: int| !username_split_at(username@, m) by {
            if username_split_at(username@, m) {
                assert(username@[m] == USERNAME_SEPARATOR);
            }
        }
        return None;
    }
    if i == 0 {
        // the username starts with the separator: no digit prefix
        assert forall|m: int| !username_split_at(username@, m) by {
            if username_split_at(username@, m) {
                assert(is_digit(username@[0]));
            }
        }
        return None;
    }
    let k = i;
    assert(username_split_at(username@, k as int));
    // accumulate the value, watching for overflow
    let mut acc: u64 = 0;
    let mut j: usize = 0;
    while j < k
        invariant
            0 <= j <= k < n,
            n == username@.len(),
            username_split_at(username@, k as int),
            acc as int == dec_value(username@.subrange(0, j as int)),
        decreases k - j,
    {
        let d = username[j] - 48;
        proof {
            assert(is_digit(username@[j as int]));
            assert(username@.subrange(0, j as int + 1).drop_last() =~= username@.subrange(0, j as int));
        }
        if acc > (u64::MAX - (d as u64)) / 10 {
            // the prefix already exceeds what a u64 can hold, and more
            // digits only grow it
            proof {
                assert((acc as int) * 10 + d > u64::MAX) by (nonlinear_arith)
                    requires
                        acc as int > (u64::MAX as int - d) / 10,
                        0 <= d <= 9,
                ;
                assert(dec_value(username@.subrange(0, j as int + 1)) > u64::MAX as int);
                lemma_dec_value_monotone(username@, j as int + 1, k as int);
                assert forall|m: int|
                    username_split_at(username@, m) implies dec_value(username@.subrange(0, m))
                    > u64::MAX as int by {
                    lemma_split_unique(username@, m, k as int);
                }
                assert(!username_well_formed(username@));
            }
            return None;
        }
        proof {
            assert((acc as int) * 10 + d <= u64::MAX) by (nonlinear_arith)
                requires
                    acc as int <= (u64::MAX as int - d) / 10,
                    0 <= d <= 9,
            ;
        }
        acc = acc * 10 + (d as u64);
        j = j + 1;
    }
    Some(acc)
}

/// Two byte strings hold the same bytes.
pub fn bytes_eq(a: &Vec<u8>, b: &Vec<u8>) -> (r: bool)
    ensures
        r == (a@ == b@),
{
    if a.len() != b.len() {
        return false;
    }
    let mut i: usize = 0;
    while i < a.len()
        invariant
            i <= a@.len(),
            a@.len() == b@.len(),
            forall|j: int| 0 <= j < i ==> a@[j] == b@[j],
        decreases a@.len() - i,
    {
        if a[i] != b[i] {
            return false;
        }
        i = i + 1;
    }
    proof {
        assert(a@ =~= b@);
    }
    true
}

/// Append the bytes of `src` to `dst`.
fn append_bytes(dst: &mut Vec<u8>, src: &Vec<u8>)
    ensures
        final(dst)@ == old(dst)@ + src@,
{
    let mut i: usize = 0;
    while i < src.len()
        invariant
            i <= src@.len(),
            dst@ == old(dst)@ + src@.subrange(0, i as int),
        decreases src@.len() - i,
    {
        proof {
            assert(old(dst)@ + src@.subrange(0, i as int + 1) =~= (old(dst)@ + src@.subrange(
                0,
                i as int,
            )).push(src@[i as int]));
        }
        dst.push(src[i]);
        i = i + 1;
    }
    proof {
        assert(src@.subrange(0, src@.len() as int) =~= src@);
    }
}

/// Decide whether a request's credentials authenticate it at `now`.
///
/// Returns `Ok` exactly on valid credentials; every failure — an
/// ill-formed or expired username as well as a wrong integrity tag — is
/// answered with `401`.
pub fn authenticate(secret: &Vec<u8>, credentials: &Credentials, now: u64) -> (r: Result<
    (),
    u16,
>)
    ensures
        r is Ok <==> credentials_valid(secret@, *credentials, now),
        r is Err ==> r == Result::<(), u16>::Err(UNAUTHORIZED),
{
    let expiry = match parse_username_expiry(&credentials.username) {
        Some(e) => e,
        None => {
            proof {
                assert forall|k: int|
                    !(username_split_at(credentials.username@, k) && dec_value(
                        credentials.username@.subrange(0, k),
                    ) <= u64::MAX as int && dec_value(credentials.username@.subrange(0, k))
                        > now) by {}
            }
            return Err(UNAUTHORIZED);
        },
    };
    if expiry <= now {
        proof {
            let k0 = choose|k: int|
                username_split_at(credentials.username@, k) && dec_value(
                    credentials.username@.subrange(0, k),
                ) == expiry as int;
            assert forall|k: int|
                !(username_split_at(credentials.username@, k) && dec_value(
                    credentials.username@.subrange(0, k),
                ) <= u64::MAX as int && dec_value(credentials.username@.subrange(0, k))
                    > now) by {
                if username_split_at(credentials.username@, k) {
                    lemma_split_unique(credentials.username@, k, k0);
                }
            }
        }
        return Err(UNAUTHORIZED);
    }
    proof {
        let k0 = choose|k: int|
            username_split_at(credentials.username@, k) && dec_value(
                credentials.username@.subrange(0, k),
            ) == expiry as int;
        assert(username_fresh(credentials.username@, now));
    }

    let mut prf = hmac_sha256(secret.as_slice(), credentials.username.as_slice());
    prf.truncate(16);
    proof {
        assert(prf@ =~= hmac_sha256_of(secret@, credentials.username@).take(16));
    }
    let password = base64_encode(prf.as_slice());

    let mut key_input: Vec<u8> = Vec::new();
    append_bytes(&mut key_input, &credentials.username);
    key_input.push(USERNAME_SEPARATOR);
    append_bytes(&mut key_input, &credentials.realm);
    key_input.push(USERNAME_SEPARATOR);
    append_bytes(&mut key_input, &password);
    proof {
        assert(key_input@ =~= credentials.username@ + seq![USERNAME_SEPARATOR]
            + credentials.realm@ + seq![USERNAME_SEPARATOR] + password@);
    }
    let key = md5(key_input.as_slice());
    let expected = hmac_sha1(key.as_slice(), credentials.covered.as_slice());
    if bytes_eq(&expected, &credentials.mac) {
        Ok(())
    } else {
        Err(UNAUTHORIZED)
    }
}

} // verus!
