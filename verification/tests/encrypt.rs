use passmogu::encrypt::{
    assemble, decrypt, derive_key, encrypt, open_with, seal_with, Key, KEY_LEN, NONCE_LEN,
    PBKDF2_ITERATIONS, TAG_LEN,
};
use passmogu::error::Error;
use passmogu::secret::Secret;

#[test]
fn encrypt_and_decrypt() {
    // derive key from password
    let password = Secret::new((*b"Phoenix").into());
    println!("password = {password:?}");
    let key = derive_key(password.expose(), b"salt");
    println!("key = {key:?}");
    assert_ne!(password, key);

    // encrypt and decrypt with key
    let message =
        Secret::new((*b"I set my ATM card's number to '0001' because I'm number one!").into());
    println!(
        "message = {}",
        std::str::from_utf8(message.expose()).unwrap()
    );
    let ciphertext = encrypt(message.clone(), key.expose()).unwrap();
    println!("ciphertext = {ciphertext:?}");
    let decoded = decrypt(ciphertext, key.expose()).unwrap();
    println!(
        "plaintext = {}",
        std::str::from_utf8(decoded.expose()).unwrap()
    );
    assert_eq!(message, decoded);
}

fn key_of(byte: u8) -> [u8; 32] {
    [byte; 32]
}

#[test]
fn decrypt_inverts_encrypt() {
    let key = key_of(7);
    for len in [0usize, 1, 15, 16, 17, 64, 1000] {
        let bytes: Vec<u8> = (0..len).map(|i| (i * 31 % 251) as u8).collect();
        let plaintext = Secret::new(bytes.clone().into_boxed_slice());
        let blob = encrypt(plaintext.clone(), &key).unwrap();
        assert_eq!(blob.len(), len + NONCE_LEN + TAG_LEN);
        assert_eq!(blob.len(), len + 28);
        let opened = decrypt(blob, &key).unwrap();
        assert_eq!(opened, plaintext);
        assert_eq!(opened.expose(), &bytes[..]);
    }
}

#[test]
fn blob_hides_the_plaintext() {
    let key = key_of(1);
    let message = b"the same sixteen bytes, twice: the same sixteen bytes, twice: ";
    let blob = encrypt(Secret::new(Box::from(&message[..])), &key).unwrap();
    let ciphertext = &blob.expose()[NONCE_LEN..NONCE_LEN + message.len()];
    assert_ne!(ciphertext, &message[..]);
}

#[test]
fn each_encryption_draws_a_new_nonce() {
    let key = key_of(1);
    let first = encrypt(Secret::new((*b"hunter2").into()), &key).unwrap();
    let second = encrypt(Secret::new((*b"hunter2").into()), &key).unwrap();
    assert_ne!(first.expose()[..NONCE_LEN], second.expose()[..NONCE_LEN]);
    assert_ne!(first, second);
    assert_eq!(decrypt(first, &key).unwrap().expose(), b"hunter2");
    assert_eq!(decrypt(second, &key).unwrap().expose(), b"hunter2");
}

#[test]
fn decrypt_with_another_key_fails() {
    let blob = encrypt(Secret::new((*b"hunter2").into()), &key_of(1)).unwrap();
    assert_eq!(decrypt(blob.clone(), &key_of(2)), Err(Error::DecryptionFailed));
    let mut near = key_of(1);
    near[31] ^= 1;
    assert_eq!(decrypt(blob.clone(), &near), Err(Error::DecryptionFailed));
    assert!(decrypt(blob, &key_of(1)).is_ok());
}

#[test]
fn flipping_any_bit_of_a_blob_makes_decrypt_fail() {
    let key = key_of(9);
    let blob = encrypt(Secret::new((*b"0001").into()), &key).unwrap();
    assert_eq!(blob.len(), 32);
    for position in 0..blob.len() {
        for bit in 0..8 {
            let mut forged = blob.clone();
            forged.expose_mut()[position] ^= 1 << bit;
            assert_eq!(decrypt(forged, &key), Err(Error::DecryptionFailed));
        }
    }
    assert_eq!(decrypt(blob, &key).unwrap().expose(), b"0001");
}

#[test]
fn truncated_blob_fails() {
    let key = key_of(3);
    let blob = encrypt(Secret::new((*b"hunter2").into()), &key).unwrap();
    for len in 0..blob.len() {
        assert_eq!(
            decrypt(blob.truncate(len), &key),
            Err(Error::DecryptionFailed)
        );
    }
    assert_eq!(decrypt(Secret::zero(0), &key), Err(Error::DecryptionFailed));
    assert_eq!(decrypt(Secret::zero(27), &key), Err(Error::DecryptionFailed));
    assert_eq!(decrypt(Secret::zero(28), &key), Err(Error::DecryptionFailed));
}

#[test]
fn key_of_wrong_length_is_refused() {
    for len in [0usize, 1, 16, 24, 31, 33, 64] {
        let key = vec![5u8; len];
        assert_eq!(
            encrypt(Secret::new((*b"hunter2").into()), &key),
            Err(Error::MalformedKey)
        );
    }
    let blob = encrypt(Secret::new((*b"hunter2").into()), &key_of(5)).unwrap();
    for len in [0usize, 16, 31, 33] {
        let key = vec![5u8; len];
        assert_eq!(decrypt(blob.clone(), &key), Err(Error::DecryptionFailed));
    }
}

#[test]
fn derived_key_is_deterministic() {
    let first = derive_key(b"hunter2", b"arbitrary salt, just don't repeat it");
    let second = derive_key(b"hunter2", b"arbitrary salt, just don't repeat it");
    assert_eq!(first, second);
    assert_eq!(first.len(), KEY_LEN);
    assert_eq!(first.len(), 32);
    assert_ne!(first, Secret::zero(32));

    let other_salt = derive_key(b"hunter2", b"another salt");
    assert_ne!(first, other_salt);
    let other_password = derive_key(b"hunter3", b"arbitrary salt, just don't repeat it");
    assert_ne!(first, other_password);
}

#[test]
fn derived_key_is_pbkdf2_hmac_sha256() {
    assert_eq!(PBKDF2_ITERATIONS, 300_000);
    let mut expected = [0u8; 32];
    aws_lc_rs::pbkdf2::derive(
        aws_lc_rs::pbkdf2::PBKDF2_HMAC_SHA256,
        std::num::NonZeroU32::new(300_000).unwrap(),
        b"salt",
        b"Phoenix",
        &mut expected,
    );
    assert_eq!(derive_key(b"Phoenix", b"salt").expose(), &expected[..]);
}

#[test]
fn derived_key_seals_and_opens() {
    let key = derive_key(b"Phoenix", b"salt");
    let blob = encrypt(Secret::new((*b"hunter2").into()), key.expose()).unwrap();
    let other = derive_key(b"Phoenix", b"pepper");
    assert_eq!(
        decrypt(blob.clone(), other.expose()),
        Err(Error::DecryptionFailed)
    );
    assert_eq!(decrypt(blob, key.expose()).unwrap().expose(), b"hunter2");
}

#[test]
fn blob_opens_with_the_cipher_itself() {
    let key = key_of(11);
    let blob = encrypt(Secret::new((*b"hunter2").into()), &key).unwrap();
    let cipher = aws_lc_rs::aead::RandomizedNonceKey::new(&aws_lc_rs::aead::AES_256_GCM_SIV, &key)
        .unwrap();
    let mut nonce = [0u8; 12];
    nonce.copy_from_slice(&blob.expose()[..12]);
    let mut sealed = blob.expose()[12..].to_vec();
    let plaintext = cipher
        .open_in_place(
            aws_lc_rs::aead::Nonce::assume_unique_for_key(nonce),
            aws_lc_rs::aead::Aad::empty(),
            &mut sealed,
        )
        .unwrap();
    assert_eq!(plaintext, b"hunter2");
}

#[test]
fn assemble_lays_out_nonce_ciphertext_tag() {
    let blob = assemble(b"nnnnnnnnnnnn", b"ciphertext", b"tttttttttttttttt");
    assert_eq!(blob.expose(), b"nnnnnnnnnnnnciphertexttttttttttttttttt");
    assert_eq!(assemble(b"", b"", b"").len(), 0);
    assert_eq!(assemble(b"a", b"", b"b").expose(), b"ab");
}

#[test]
fn seal_with_then_open_with() {
    let key = Key::new(&key_of(21)).unwrap();
    let other = Key::new(&key_of(22)).unwrap();
    for message in [&b""[..], &b"x"[..], &b"Your mom!"[..]] {
        let blob = seal_with(Secret::new(message.into()), &key).unwrap();
        assert_eq!(blob.len(), message.len() + 28);
        assert_eq!(
            open_with(blob.clone(), &other),
            Err(Error::DecryptionFailed)
        );
        // what was sealed with a key object opens with the key bytes, and back
        assert_eq!(decrypt(blob.clone(), &key_of(21)).unwrap().expose(), message);
        assert_eq!(open_with(blob, &key).unwrap().expose(), message);
        let blob = encrypt(Secret::new(message.into()), &key_of(21)).unwrap();
        assert_eq!(open_with(blob, &key).unwrap().expose(), message);
    }
    assert_eq!(
        open_with(Secret::zero(11), &key),
        Err(Error::DecryptionFailed)
    );
}

#[test]
fn key_is_made_of_32_bytes_only() {
    assert!(Key::new(&key_of(0)).is_ok());
    assert!(Key::new(&[0xff; 32]).is_ok());
    for len in [0usize, 1, 16, 24, 31, 33, 64] {
        assert!(matches!(
            Key::new(&vec![1u8; len]),
            Err(Error::MalformedKey)
        ));
    }
}

#[test]
fn a_key_of_another_cipher_does_not_open() {
    // the same 32 bytes under AES-256-GCM, which is not the cipher of this library
    let bytes = key_of(33);
    let blob = encrypt(Secret::new((*b"hunter2").into()), &bytes).unwrap();
    let foreign =
        aws_lc_rs::aead::RandomizedNonceKey::new(&aws_lc_rs::aead::AES_256_GCM, &bytes).unwrap();
    let mut nonce = [0u8; 12];
    nonce.copy_from_slice(&blob.expose()[..12]);
    let mut sealed = blob.expose()[12..].to_vec();
    assert!(foreign
        .open_in_place(
            aws_lc_rs::aead::Nonce::assume_unique_for_key(nonce),
            aws_lc_rs::aead::Aad::empty(),
            &mut sealed,
        )
        .is_err());
    assert_eq!(decrypt(blob, &bytes).unwrap().expose(), b"hunter2");
}
