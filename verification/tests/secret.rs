use passmogu::secret::Secret;

#[test]
fn secret_is_zero() {
    let mut buffer = Secret::zero(32);

    for (i, byte) in b"this is my password".into_iter().enumerate() {
        buffer.expose_mut()[i] = *byte;
    }
    let zero = Secret::zero(32);
    assert_ne!(buffer, zero);
    buffer.zeroize();
    assert_eq!(buffer, zero);
}

#[test]
fn wiping_gives_a_fresh_zeroed_buffer() {
    for n in [0usize, 1, 7, 128] {
        let fresh = Secret::zero(n);
        assert_eq!(fresh.len(), n);
        assert!(fresh.expose().iter().all(|byte| *byte == 0));

        let mut buffer = Secret::zero(n);
        buffer.zeroize();
        assert_eq!(buffer, fresh);

        for byte in buffer.expose_mut().iter_mut() {
            *byte = 0xa5;
        }
        if n > 0 {
            assert_ne!(buffer, fresh);
        }
        buffer.zeroize();
        assert_eq!(buffer, fresh);
        buffer.zeroize();
        assert_eq!(buffer, fresh);
        assert_eq!(buffer.len(), n);
    }
}

#[test]
fn secret_holds_what_it_was_given() {
    let secret = Secret::new((*b"Phoenix").into());
    assert_eq!(secret.expose(), b"Phoenix");
    assert_eq!(secret.len(), 7);
    assert!(!secret.is_empty());
    assert!(Secret::new(Box::from(&b""[..])).is_empty());
    assert!(Secret::zero(0).is_empty());
}

#[test]
fn secret_is_written_in_place() {
    let mut secret = Secret::new((*b"abc").into());
    secret.expose_mut()[1] = b'X';
    assert_eq!(secret.expose(), b"aXc");
    assert_eq!(secret.len(), 3);
}

#[test]
fn secret_clone_is_an_equal_buffer_of_its_own() {
    let mut original = Secret::new((*b"hunter2").into());
    let copy = original.clone();
    assert_eq!(copy, original);
    original.zeroize();
    assert_eq!(copy.expose(), b"hunter2");
    assert_ne!(copy, original);
}

#[test]
fn secret_equality_compares_bytes() {
    assert_eq!(Secret::new((*b"abc").into()), Secret::new((*b"abc").into()));
    assert_ne!(Secret::new((*b"abc").into()), Secret::new((*b"abd").into()));
    assert_ne!(Secret::new((*b"abc").into()), Secret::new((*b"ab").into()));
    assert_ne!(Secret::new((*b"bbc").into()), Secret::new((*b"abc").into()));
}

#[test]
fn truncate_copies_a_prefix() {
    let secret = Secret::new((*b"plaintext and scratch").into());
    let prefix = secret.truncate(9);
    assert_eq!(prefix.expose(), b"plaintext");
    assert_eq!(secret.truncate(0).len(), 0);
    assert_eq!(secret.truncate(secret.len()), secret);
    assert_eq!(secret.expose(), b"plaintext and scratch");
}
