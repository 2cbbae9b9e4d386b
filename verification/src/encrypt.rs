//! Keys from passwords, and authenticated encryption under such keys.
//!
//! The cipher is AES-256-GCM-SIV and the key derivation PBKDF2 with
//! HMAC-SHA-256, both of `aws_lc_rs`. A sealed blob is laid out as
//! `nonce (12 bytes) || ciphertext || tag (16 bytes)`.

use crate::bytes::boxed_copy;
use crate::bytes::copy_into;
use crate::error::Error;
use crate::secret::Secret;
use aws_lc_rs::aead::Aad;
use aws_lc_rs::aead::Nonce;
use aws_lc_rs::aead::RandomizedNonceKey;
use aws_lc_rs::aead::AES_256_GCM_SIV;
use aws_lc_rs::error::Unspecified;
use aws_lc_rs::pbkdf2::PBKDF2_HMAC_SHA256;
use std::num::NonZeroU32;
use vstd::prelude::*;

verus! {

/// The length of a key of the cipher.
pub const KEY_LEN: usize = 32;

/// The length of the nonce at the start of a blob.
pub const NONCE_LEN: usize = 12;

/// The length of the tag at the end of a blob.
pub const TAG_LEN: usize = 16;

/// How often the password hash is iterated when a key is derived.
pub const PBKDF2_ITERATIONS: u32 = 300_000;

/// A key of `aws_lc_rs` that draws a fresh random nonce for each sealing.
#[verifier::external_type_specification]
#[verifier::external_body]
pub struct ExRandomizedNonceKey(RandomizedNonceKey);

/// A key of the cipher, made ready for sealing and opening. The only way to
/// one is [`Key::new`], so that every `Key` is a key of AES-256-GCM-SIV.
pub struct Key {
    inner: RandomizedNonceKey,
}

/// The 32 key bytes that a `Key` was made of.
pub uninterp spec fn key_bytes(key: Key) -> Seq<u8>;

impl View for Key {
    type V = Seq<u8>;

    open spec fn view(&self) -> Seq<u8> {
        key_bytes(*self)
    }
}

/// What AES-256-GCM-SIV, without associated data, opens `sealed` (ciphertext
/// followed by tag) to under `key` and `nonce`: the plaintext, or nothing where
/// the tag does not authenticate the ciphertext.
pub uninterp spec fn aead_open(key: Seq<u8>, nonce: Seq<u8>, sealed: Seq<u8>) -> Option<Seq<u8>>;

/// The `len` bytes that PBKDF2 with HMAC-SHA-256 derives from `password` and
/// `salt` in `iterations` iterations.
pub uninterp spec fn pbkdf2_hmac_sha256(
    iterations: u32,
    salt: Seq<u8>,
    password: Seq<u8>,
    len: nat,
) -> Seq<u8>;

/// The key that `derive_key` derives from `password` and `salt`.
pub open spec fn derived_key(password: Seq<u8>, salt: Seq<u8>) -> Seq<u8> {
    pbkdf2_hmac_sha256(PBKDF2_ITERATIONS, salt, password, KEY_LEN as nat)
}

/// What `blob` opens to under the key bytes `key`: its first 12 bytes are
/// the nonce, the rest is ciphertext and tag. A blob too short to hold nonce
/// and tag opens to nothing.
pub open spec fn opened(key: Seq<u8>, blob: Seq<u8>) -> Option<Seq<u8>> {
    if blob.len() < NONCE_LEN + TAG_LEN {
        None
    } else {
        aead_open(
            key,
            blob.subrange(0, NONCE_LEN as int),
            blob.subrange(NONCE_LEN as int, blob.len() as int),
        )
    }
}

/// What `decrypt` makes of `blob` under `key`: nothing where the key is not
/// 32 bytes long, and else what the blob opens to.
pub open spec fn decrypted(key: Seq<u8>, blob: Seq<u8>) -> Option<Seq<u8>> {
    if key.len() == KEY_LEN {
        opened(key, blob)
    } else {
        None
    }
}

/// Whether `blob` is a sealing of `plaintext` under `key`: a nonce of 12
/// bytes, a ciphertext as long as the plaintext and a tag of 16 bytes, one
/// after the other, such that ciphertext and tag open to the plaintext under
/// the key and the nonce.
pub open spec fn is_sealed(blob: Seq<u8>, plaintext: Seq<u8>, key: Seq<u8>) -> bool {
    exists|nonce: Seq<u8>, ciphertext: Seq<u8>, tag: Seq<u8>|
        #![trigger nonce + ciphertext + tag]
        {
            &&& nonce.len() == NONCE_LEN
            &&& ciphertext.len() == plaintext.len()
            &&& tag.len() == TAG_LEN
            &&& blob == nonce + ciphertext + tag
            &&& aead_open(key, nonce, ciphertext + tag) == Some(plaintext)
        }
}

/// `RandomizedNonceKey::new` with `AES_256_GCM_SIV`: refuses key bytes that
/// are not 32 long and accepts those that are; a key that it makes holds the
/// bytes it was given. (It asks the allocator for the cipher's context. That
/// the allocator delivers is taken for granted here as everywhere.)
#[verifier::external_body]
fn new_key(key: &[u8]) -> (made: Result<Key, Unspecified>)
    ensures
        key@.len() == KEY_LEN <==> made is Ok,
        made matches Ok(k) ==> key_bytes(k) == key@,
{
    Ok(Key { inner: RandomizedNonceKey::new(&AES_256_GCM_SIV, key)? })
}

/// `RandomizedNonceKey::seal_in_place_separate_tag` of a key of
/// AES-256-GCM-SIV, without associated data:
/// draws a random nonce, overwrites the plaintext in `in_out` with the
/// ciphertext, of the same length, and returns the nonce and the tag of 16
/// bytes. Ciphertext and tag open, under the same key and nonce, to the
/// plaintext.
#[verifier::external_body]
fn seal(key: &Key, in_out: &mut [u8]) -> (sealed: Result<
    ([u8; 12], Vec<u8>),
    Unspecified,
>)
    ensures
        final(in_out)@.len() == old(in_out)@.len(),
        sealed matches Ok(parts) ==> parts.1@.len() == TAG_LEN && aead_open(
            key_bytes(*key),
            parts.0@,
            final(in_out)@ + parts.1@,
        ) == Some(old(in_out)@),
{
    let (nonce, tag) = key.inner.seal_in_place_separate_tag(Aad::empty(), in_out)?;
    Ok((*nonce.as_ref(), tag.as_ref().to_vec()))
}

/// `RandomizedNonceKey::open_in_place` of a key of AES-256-GCM-SIV, without
/// associated data: `in_out` holds ciphertext and tag. Where the tag authenticates them, the plaintext,
/// 16 bytes shorter, is written to the start of `in_out` and its length is
/// returned. It fails where it does not, and where `in_out` is shorter than a
/// tag.
#[verifier::external_body]
fn open(key: &Key, nonce: [u8; 12], in_out: &mut [u8]) -> (plaintext_len: Result<
    usize,
    Unspecified,
>)
    ensures
        final(in_out)@.len() == old(in_out)@.len(),
        match plaintext_len {
            Ok(len) => len + TAG_LEN == old(in_out)@.len() && aead_open(
                key_bytes(*key),
                nonce@,
                old(in_out)@,
            ) == Some(final(in_out)@.subrange(0, len as int)),
            Err(_) => aead_open(key_bytes(*key), nonce@, old(in_out)@) is None,
        },
{
    let nonce = Nonce::assume_unique_for_key(nonce);
    let plaintext = key.inner.open_in_place(nonce, Aad::empty(), in_out)?;
    Ok(plaintext.len())
}

/// `aws_lc_rs::pbkdf2::derive` with `PBKDF2_HMAC_SHA256`: fills `out` with
/// the key derived from `password` and `salt`. It panics where `out` is longer
/// than 32 * (2^32 - 1) bytes.
#[verifier::external_body]
fn pbkdf2(iterations: u32, salt: &[u8], password: &[u8], out: &mut [u8])
    requires
        iterations > 0,
        old(out)@.len() <= 32 * 0xffff_ffff,
    ensures
        final(out)@.len() == old(out)@.len(),
        final(out)@ == pbkdf2_hmac_sha256(iterations, salt@, password@, old(out)@.len()),
{
    let iterations = NonZeroU32::new(iterations).unwrap();
    aws_lc_rs::pbkdf2::derive(PBKDF2_HMAC_SHA256, iterations, salt, password, out)
}

/// Decryption inverts encryption: a sealing of `plaintext` under `key` is 28
/// bytes longer than the plaintext and opens under `key` to the plaintext, so
/// that `decrypt` under a key of 32 bytes gives back what `encrypt` sealed
/// under it.
pub proof fn lemma_decrypt_inverts_encrypt(blob: Seq<u8>, plaintext: Seq<u8>, key: Seq<u8>)
    requires
        is_sealed(blob, plaintext, key),
    ensures
        blob.len() == plaintext.len() + NONCE_LEN + TAG_LEN,
        opened(key, blob) == Some(plaintext),
        key.len() == KEY_LEN ==> decrypted(key, blob) == Some(plaintext),
{
    let (nonce, ciphertext, tag) = choose|nonce: Seq<u8>, ciphertext: Seq<u8>, tag: Seq<u8>|
        #![trigger nonce + ciphertext + tag]
        {
            &&& nonce.len() == NONCE_LEN
            &&& ciphertext.len() == plaintext.len()
            &&& tag.len() == TAG_LEN
            &&& blob == nonce + ciphertext + tag
            &&& aead_open(key, nonce, ciphertext + tag) == Some(plaintext)
        };
    assert(blob.subrange(0, NONCE_LEN as int) == nonce);
    assert(blob.subrange(NONCE_LEN as int, blob.len() as int) == ciphertext + tag);
}

impl Key {
    /// Makes the 32 bytes of `key` ready for use. Bytes of any other length
    /// are malformed.
    pub fn new(key: &[u8]) -> (made: Result<Key, Error>)
        ensures
            match made {
                Ok(ready) => key@.len() == KEY_LEN && ready@ == key@,
                Err(e) => key@.len() != KEY_LEN && e == Error::MalformedKey,
            },
    {
        match new_key(key) {
            Ok(ready) => Ok(ready),
            Err(_) => Err(Error::MalformedKey),
        }
    }
}

/// Derives the key of 32 bytes for `password` and `salt`. The same password
/// and salt always give the same key.
pub fn derive_key(password: &[u8], salt: &[u8]) -> (key: Secret)
    ensures
        key@.len() == KEY_LEN,
        key@ == derived_key(password@, salt@),
{
    let mut key = Secret::zero(KEY_LEN);
    pbkdf2(PBKDF2_ITERATIONS, salt, password, key.expose_mut());
    key
}

/// Lays out a blob: `nonce`, then `ciphertext`, then `tag`.
pub fn assemble(nonce: &[u8], ciphertext: &[u8], tag: &[u8]) -> (blob: Secret)
    requires
        nonce@.len() + ciphertext@.len() + tag@.len() <= usize::MAX,
    ensures
        blob@ == nonce@ + ciphertext@ + tag@,
{
    let mut blob = Secret::zero(nonce.len() + ciphertext.len() + tag.len());
    let out = blob.expose_mut();
    copy_into(out, 0, nonce);
    copy_into(out, nonce.len(), ciphertext);
    copy_into(out, nonce.len() + ciphertext.len(), tag);
    assert(out@ =~= nonce@ + ciphertext@ + tag@);
    blob
}

/// Seals `plaintext` under `key` with a fresh random nonce.
///
/// The blob that comes back is a sealing of the plaintext: it opens under the
/// same key to the plaintext. Sealing fails only where the cipher reports that
/// it could not draw the nonce or seal.
pub fn seal_with(plaintext: Secret, key: &Key) -> (sealed: Result<Secret, Error>)
    requires
        plaintext@.len() + NONCE_LEN + TAG_LEN <= usize::MAX,
    ensures
        match sealed {
            Ok(blob) => {
                &&& blob@.len() == plaintext@.len() + NONCE_LEN + TAG_LEN
                &&& is_sealed(blob@, plaintext@, key@)
                &&& opened(key@, blob@) == Some(plaintext@)
            },
            Err(e) => e == Error::RngFailure,
        },
{
    let mut buffer = plaintext;
    match seal(key, buffer.expose_mut()) {
        Ok((nonce, tag)) => {
            let blob = assemble(&nonce, buffer.expose(), &tag);
            proof {
                assert(blob@ == nonce@ + buffer@ + tag@);
                lemma_decrypt_inverts_encrypt(blob@, plaintext@, key@);
            }
            Ok(blob)
        },
        Err(_) => Err(Error::RngFailure),
    }
}

/// Opens `blob` under `key`: returns the plaintext exactly where the blob
/// opens to one, and fails otherwise, whatever the reason.
pub fn open_with(blob: Secret, key: &Key) -> (plaintext: Result<Secret, Error>)
    ensures
        match opened(key@, blob@) {
            Some(bytes) => plaintext matches Ok(secret) && secret@ == bytes,
            None => plaintext matches Err(e) && e == Error::DecryptionFailed,
        },
        plaintext matches Ok(secret) ==> secret@.len() + NONCE_LEN + TAG_LEN == blob@.len(),
{
    let bytes = blob.expose();
    if bytes.len() < NONCE_LEN + TAG_LEN {
        return Err(Error::DecryptionFailed);
    }
    let mut nonce = [0u8; 12];
    let mut i: usize = 0;
    while i < NONCE_LEN
        invariant
            i <= NONCE_LEN,
            bytes@.len() >= NONCE_LEN + TAG_LEN,
            forall|j: int| 0 <= j < i ==> nonce@[j] == bytes@[j],
        decreases NONCE_LEN - i,
    {
        nonce[i] = bytes[i];
        i += 1;
    }
    assert(nonce@ =~= bytes@.subrange(0, NONCE_LEN as int));
    let mut scratch = Secret::new(
        boxed_copy(vstd::slice::slice_subrange(bytes, NONCE_LEN, bytes.len())),
    );
    match open(key, nonce, scratch.expose_mut()) {
        Ok(len) => Ok(scratch.truncate(len)),
        Err(_) => Err(Error::DecryptionFailed),
    }
}

/// Seals `plaintext` under the 32 bytes of `key`, with a fresh random nonce,
/// into a blob `nonce || ciphertext || tag`.
///
/// The key is malformed exactly where it is not 32 bytes long. Under a key of
/// 32 bytes the cipher decides, see [`seal_with`]: the blob that comes back is
/// a sealing of the plaintext, which [`decrypt`] opens under the same key.
pub fn encrypt(plaintext: Secret, key: &[u8]) -> (sealed: Result<Secret, Error>)
    requires
        plaintext@.len() + NONCE_LEN + TAG_LEN <= usize::MAX,
    ensures
        key@.len() != KEY_LEN <==> sealed == Err::<Secret, Error>(Error::MalformedKey),
        match sealed {
            Ok(blob) => {
                &&& key@.len() == KEY_LEN
                &&& blob@.len() == plaintext@.len() + NONCE_LEN + TAG_LEN
                &&& is_sealed(blob@, plaintext@, key@)
                &&& decrypted(key@, blob@) == Some(plaintext@)
            },
            Err(e) => e == Error::MalformedKey || e == Error::RngFailure,
        },
{
    match Key::new(key) {
        Ok(aead_key) => seal_with(plaintext, &aead_key),
        Err(e) => Err(e),
    }
}

/// Opens a blob that `encrypt` made under `key`: returns the plaintext exactly
/// where the key is 32 bytes long and the blob opens under it.
///
/// There is one failure, whatever went wrong: a key of the wrong length, a
/// blob too short to hold nonce and tag, a blob that was sealed under another
/// key or was changed since.
pub fn decrypt(ciphertext: Secret, key: &[u8]) -> (plaintext: Result<Secret, Error>)
    ensures
        match decrypted(key@, ciphertext@) {
            Some(bytes) => plaintext matches Ok(secret) && secret@ == bytes,
            None => plaintext matches Err(e) && e == Error::DecryptionFailed,
        },
        plaintext matches Ok(secret) ==> secret@.len() + NONCE_LEN + TAG_LEN == ciphertext@.len(),
{
    match Key::new(key) {
        Ok(aead_key) => open_with(ciphertext, &aead_key),
        Err(_) => Err(Error::DecryptionFailed),
    }
}

} // verus!
