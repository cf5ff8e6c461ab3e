//! The check of the OpenPGP signature of the published checksum, made with
//! the `pgp` crate.
use vstd::prelude::*;
use vstd::string::*;
use vstd::utf8::*;
use pgp::composed::{Deserializable, DetachedSignature, SignedPublicKey};
use crate::codec::str_from_utf8;

verus! {

/// What `SignedPublicKey::from_string_many` reads from the ASCII-armored
/// keyring `text`: `None` where it refuses the armor, else, for each item
/// that it yields in turn, `None` where the item is an error and otherwise
/// the number of public subkeys of the key.
pub uninterp spec fn keyring_reading(text: Seq<char>) -> Option<Seq<Option<usize>>>;

/// Whether `DetachedSignature::from_armor_single` reads a signature from the
/// ASCII-armored `text`.
pub uninterp spec fn signature_readable(text: Seq<char>) -> bool;

/// Whether `DetachedSignature::verify` accepts `data` with the signature read
/// from `sig` and the key at position `i` of what is read from `keyring`:
/// the key itself for `sub == None`, its public subkey `j` for
/// `sub == Some(j)`.
pub uninterp spec fn key_accepts(
    keyring: Seq<char>,
    i: int,
    sub: Option<usize>,
    sig: Seq<char>,
    data: Seq<u8>,
) -> bool;

/// `i` is the position of a key that parsed in `keyring`, and `sub` is
/// `None` or the index of one of its subkeys.
pub open spec fn key_at(keyring: Seq<char>, i: int, sub: Option<usize>) -> bool {
    &&& keyring_reading(keyring) is Some
    &&& 0 <= i < keyring_reading(keyring)->0.len()
    &&& keyring_reading(keyring)->0[i] is Some
    &&& sub matches Some(j) ==> j < keyring_reading(keyring)->0[i]->0
}

/// Some key of `keyring`, or one of its subkeys, accepts `data` with the
/// signature `sig`.
pub open spec fn some_key_accepts(keyring: Seq<char>, sig: Seq<char>, data: Seq<u8>) -> bool {
    exists|i: int, sub: Option<usize>|
        key_at(keyring, i, sub) && #[trigger] key_accepts(keyring, i, sub, sig, data)
}

/// `SignedPublicKey::from_string_many` on an ASCII-armored keyring: for
/// each item that it yields, the number of public subkeys of the key, or
/// `None` where the item is an error; the error text when the armor cannot
/// be read.
#[verifier::external_body]
fn parse_keyring(text: &str) -> (r: Result<Vec<Option<usize>>, String>)
    ensures
        r is Ok <==> keyring_reading(text@) is Some,
        r matches Ok(v) ==> v@ == keyring_reading(text@)->0,
{
    let (keys, _headers) = SignedPublicKey::from_string_many(text).map_err(|e| e.to_string())?;
    Ok(keys.map(|k| k.ok().map(|k| k.public_subkeys.len())).collect())
}

/// `DetachedSignature::from_armor_single` on an ASCII-armored signature:
/// the error text, or `None` when it reads a signature.
#[verifier::external_body]
fn parse_signature(text: &str) -> (r: Option<String>)
    ensures
        r is None <==> signature_readable(text@),
{
    DetachedSignature::from_armor_single(text.as_bytes()).err().map(|e| e.to_string())
}

/// `DetachedSignature::verify` of `data`, with the signature read from `sig`
/// and the key at position `i` of what `SignedPublicKey::from_string_many`
/// reads from `keyring` (both read again here: a parsed key stays inside
/// the `pgp` crate). The contract claims that the result is `key_accepts`
/// of these values.
#[verifier::external_body]
fn verify_with_key(keyring: &str, i: usize, sig: &str, data: &[u8]) -> (r: bool)
    requires
        key_at(keyring@, i as int, None),
        signature_readable(sig@),
    ensures
        r == key_accepts(keyring@, i as int, None, sig@, data@),
{
    let (mut keys, _) = SignedPublicKey::from_string_many(keyring).expect("a keyring that was read");
    let key = keys.nth(i).expect("a yielded item").expect("a parsed key");
    let (signature, _) = DetachedSignature::from_armor_single(sig.as_bytes()).expect("a signature that was read");
    signature.verify(&key, data).is_ok()
}

/// `DetachedSignature::verify` of `data`, with the signature read from `sig`
/// and the public subkey `j` of the key at position `i` of what
/// `SignedPublicKey::from_string_many` reads from `keyring`. The contract
/// claims that the result is `key_accepts` of these values.
#[verifier::external_body]
fn verify_with_subkey(keyring: &str, i: usize, j: usize, sig: &str, data: &[u8]) -> (r: bool)
    requires
        key_at(keyring@, i as int, Some(j)),
        signature_readable(sig@),
    ensures
        r == key_accepts(keyring@, i as int, Some(j), sig@, data@),
{
    let (mut keys, _) = SignedPublicKey::from_string_many(keyring).expect("a keyring that was read");
    let key = keys.nth(i).expect("a yielded item").expect("a parsed key");
    let (signature, _) = DetachedSignature::from_armor_single(sig.as_bytes()).expect("a signature that was read");
    signature.verify(&key.public_subkeys[j], data).is_ok()
}

/// Why a signature was refused.
#[derive(Debug)]
pub enum SignatureError {
    /// The keyring is not UTF-8 text.
    KeyringNotUtf8,
    /// The keyring cannot be read: the parser's message.
    KeyringUnreadable(String),
    /// The signature is not UTF-8 text.
    SignatureNotUtf8,
    /// The signature cannot be read: the parser's message.
    SignatureUnreadable(String),
    /// No key of the keyring, nor any of their subkeys, accepts the
    /// signature.
    NoMatchingKey,
}

/// Both texts are UTF-8 and both parse.
pub open spec fn both_read(keyring_bytes: Seq<u8>, sig_bytes: Seq<u8>) -> bool {
    &&& valid_utf8(keyring_bytes)
    &&& keyring_reading(decode_utf8(keyring_bytes)) is Some
    &&& valid_utf8(sig_bytes)
    &&& signature_readable(decode_utf8(sig_bytes))
}

/// Checks the detached ASCII-armored signature `sig_bytes` of `data_bytes`
/// against the keys of the ASCII-armored keyring `public_keyring_bytes`:
/// each key that parses is tried, first itself and then its subkeys, and
/// the first one that accepts ends the search.
pub fn verify_pgp_signature(data_bytes: &[u8], sig_bytes: &[u8], public_keyring_bytes: &[u8]) -> (r:
    Result<(), SignatureError>)
    ensures
        r matches Err(SignatureError::KeyringNotUtf8) <==> !valid_utf8(public_keyring_bytes@),
        r matches Err(SignatureError::KeyringUnreadable(_)) <==> valid_utf8(public_keyring_bytes@)
            && keyring_reading(decode_utf8(public_keyring_bytes@)) is None,
        r matches Err(SignatureError::SignatureNotUtf8) <==> valid_utf8(public_keyring_bytes@)
            && keyring_reading(decode_utf8(public_keyring_bytes@)) is Some && !valid_utf8(sig_bytes@),
        r matches Err(SignatureError::SignatureUnreadable(_)) <==> valid_utf8(public_keyring_bytes@)
            && keyring_reading(decode_utf8(public_keyring_bytes@)) is Some && valid_utf8(sig_bytes@)
            && !signature_readable(decode_utf8(sig_bytes@)),
        r is Ok <==> both_read(public_keyring_bytes@, sig_bytes@) && some_key_accepts(
            decode_utf8(public_keyring_bytes@),
            decode_utf8(sig_bytes@),
            data_bytes@,
        ),
        r matches Err(SignatureError::NoMatchingKey) <==> both_read(public_keyring_bytes@, sig_bytes@)
            && !some_key_accepts(
            decode_utf8(public_keyring_bytes@),
            decode_utf8(sig_bytes@),
            data_bytes@,
        ),
{
    broadcast use vstd::utf8::encode_utf8_decode_utf8;

    let keyring = match str_from_utf8(public_keyring_bytes) {
        Some(s) => s,
        None => return Err(SignatureError::KeyringNotUtf8),
    };
    assert(keyring@ == decode_utf8(public_keyring_bytes@));
    let keys = match parse_keyring(keyring) {
        Ok(k) => k,
        Err(e) => return Err(SignatureError::KeyringUnreadable(e)),
    };
    let sig_text = match str_from_utf8(sig_bytes) {
        Some(s) => s,
        None => return Err(SignatureError::SignatureNotUtf8),
    };
    assert(sig_text@ == decode_utf8(sig_bytes@));
    if let Some(e) = parse_signature(sig_text) {
        return Err(SignatureError::SignatureUnreadable(e));
    }
    let ghost kt = keyring@;
    let ghost st = sig_text@;
    let ghost data = data_bytes@;
    let mut i: usize = 0;
    while i < keys.len()
        invariant
            i <= keys@.len(),
            kt == keyring@,
            st == sig_text@,
            data == data_bytes@,
            both_read(public_keyring_bytes@, sig_bytes@),
            kt == decode_utf8(public_keyring_bytes@),
            st == decode_utf8(sig_bytes@),
            keyring_reading(kt) is Some,
            keys@ == keyring_reading(kt)->0,
            forall|i0: int, sub: Option<usize>|
                0 <= i0 < i && key_at(kt, i0, sub) ==> !#[trigger] key_accepts(kt, i0, sub, st, data),
        decreases keys@.len() - i,
    {
        if let Some(n) = keys[i] {
            if verify_with_key(keyring, i, sig_text, data_bytes) {
                assert(key_at(kt, i as int, None));
                return Ok(());
            }
            let mut k: usize = 0;
            while k < n
                invariant
                    k <= n,
                    i < keys@.len(),
                    keys@[i as int] == Some(n),
                    kt == keyring@,
                    st == sig_text@,
                    data == data_bytes@,
                    both_read(public_keyring_bytes@, sig_bytes@),
                    kt == decode_utf8(public_keyring_bytes@),
                    st == decode_utf8(sig_bytes@),
                    keyring_reading(kt) is Some,
                    keys@ == keyring_reading(kt)->0,
                    !key_accepts(kt, i as int, None, st, data),
                    forall|j: usize| j < k ==> !#[trigger] key_accepts(kt, i as int, Some(j), st, data),
                decreases n - k,
            {
                if verify_with_subkey(keyring, i, k, sig_text, data_bytes) {
                    assert(key_at(kt, i as int, Some(k)));
                    return Ok(());
                }
                k = k + 1;
            }
            assert forall|i0: int, sub: Option<usize>|
                0 <= i0 < i + 1 && key_at(kt, i0, sub) implies !#[trigger] key_accepts(kt, i0, sub, st, data) by {
                if i0 == i {
                    if let Some(j) = sub {
                        assert(j < n);
                    }
                }
            }
        } else {
            assert forall|i0: int, sub: Option<usize>|
                0 <= i0 < i + 1 && key_at(kt, i0, sub) implies !#[trigger] key_accepts(kt, i0, sub, st, data) by {
                if i0 == i {
                    assert(keys@[i0] is None);
                }
            }
        }
        i = i + 1;
    }
    assert(!some_key_accepts(kt, st, data));
    Err(SignatureError::NoMatchingKey)
}

} // verus!
