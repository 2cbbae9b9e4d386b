use passmogu::error::Error;
use passmogu::generate::{
    greatest_multiple, patience_after, rand_base62, random_string, sample_into, take_chunk,
    BASE62, CHUNK_SIZE, MAX_EMPTY_CHUNKS,
};
use std::collections::HashMap;

#[test]
fn basic_base62() {
    let small = rand_base62(1).unwrap();
    assert_eq!(small.len(), 1);
    println!("small: {}", std::str::from_utf8(small.expose()).unwrap());

    let medium = rand_base62(64).unwrap();
    assert_eq!(medium.len(), 64);
    println!("medium: {}", std::str::from_utf8(medium.expose()).unwrap());

    let large = rand_base62(1024).unwrap();
    assert_eq!(large.len(), 1024);
    println!("large: {}", std::str::from_utf8(large.expose()).unwrap());
}

#[test]
/// detects statistical bias in string gen
fn base62_char_distribution() {
    let mut counts: HashMap<u8, usize> = HashMap::new();
    let mut total = 0;
    for _ in 0..50 {
        let string = rand_base62(10000).unwrap();
        for c in string.expose().iter() {
            *counts.entry(*c).or_default() += 1;
            total += 1;
        }
    }
    for v in counts.values() {
        let frequency = *v as f64 / total as f64;
        const EXPECT: f64 = 1_f64 / 62_f64;
        const TOLERANCE: f64 = 0.001;
        assert!((frequency - EXPECT).abs() < TOLERANCE);
    }
}

#[test]
fn base62_uses_every_character_and_no_other() {
    assert_eq!(
        BASE62.to_vec(),
        b"0123456789ABCDEFGHIJKLMNOPQRSTUVWXYZabcdefghijklmnopqrstuvwxyz".to_vec()
    );
    let string = rand_base62(20000).unwrap();
    assert_eq!(string.len(), 20000);
    for c in string.expose() {
        assert!(c.is_ascii_alphanumeric());
    }
    for c in BASE62 {
        assert!(string.expose().contains(&c));
    }
}

#[test]
fn random_strings_differ() {
    let first = rand_base62(64).unwrap();
    let second = rand_base62(64).unwrap();
    assert_ne!(first, second);
}

#[test]
fn random_string_of_no_length_is_empty() {
    assert_eq!(rand_base62(0).unwrap().len(), 0);
    assert_eq!(random_string(0, b"x").unwrap().len(), 0);
}

#[test]
fn random_string_draws_from_the_alphabet() {
    let one = random_string(300, b"x").unwrap();
    assert_eq!(one.expose(), &[b'x'; 300][..]);

    let dna = random_string(4 * CHUNK_SIZE + 3, b"ACGT").unwrap();
    assert_eq!(dna.len(), 4 * CHUNK_SIZE + 3);
    assert!(dna.expose().iter().all(|c| b"ACGT".contains(c)));

    let all: Vec<u8> = (0..=255).collect();
    assert_eq!(random_string(1000, &all).unwrap().len(), 1000);

    let odd: Vec<u8> = (0..129).collect();
    let string = random_string(5000, &odd).unwrap();
    assert_eq!(string.len(), 5000);
    assert!(string.expose().iter().all(|c| *c < 129));
}

#[test]
fn greatest_multiple_below_limit() {
    assert_eq!(greatest_multiple(62, 255), 248);
    assert_eq!(greatest_multiple(62, 257), 248);
    assert_eq!(greatest_multiple(62, 249), 248);
    assert_eq!(greatest_multiple(62, 248), 186);
    assert_eq!(greatest_multiple(64, 257), 256);
    assert_eq!(greatest_multiple(256, 257), 256);
    assert_eq!(greatest_multiple(129, 257), 129);
    assert_eq!(greatest_multiple(1, 257), 256);
    assert_eq!(greatest_multiple(7, 1), 0);
    assert_eq!(greatest_multiple(7, 7), 0);
    assert_eq!(greatest_multiple(7, 8), 7);
}

#[test]
fn sample_into_rejects_bytes_at_or_above_the_bound() {
    // 62 characters: bytes below 248 are accepted
    let mut out = [b'.'; 6];
    let end = sample_into(&[0, 61, 62, 247, 248, 255, 123], &BASE62, &mut out, 0);
    assert_eq!(end, 5);
    assert_eq!(out, *b"0z0zz.");
}

#[test]
fn sample_into_maps_by_remainder() {
    let mut out = [0u8; 4];
    let end = sample_into(&[0, 1, 2, 255], b"ab", &mut out, 0);
    assert_eq!(end, 4);
    assert_eq!(out, *b"abab");

    // three characters: 255 is the one byte that is thrown away
    let mut out = [0u8; 4];
    let end = sample_into(&[255, 254, 3, 255, 4], b"xyz", &mut out, 0);
    assert_eq!(end, 3);
    assert_eq!(out, [b'z', b'x', b'y', 0]);
}

#[test]
fn sample_into_stops_when_full_and_keeps_the_rest() {
    let mut out = *b"__________";
    let end = sample_into(&[0, 1, 2, 3, 4, 5, 6, 7], b"01", &mut out, 7);
    assert_eq!(end, 10);
    assert_eq!(out, *b"_______010");

    let mut out = *b"____";
    assert_eq!(sample_into(&[1], b"01", &mut out, 4), 4);
    assert_eq!(sample_into(&[], b"01", &mut out, 2), 2);
    assert_eq!(out, *b"____");
}

#[test]
fn take_chunk_fails_where_the_generator_did_not_deliver() {
    let mut out = *b"ab__";
    assert_eq!(
        take_chunk(false, &[0, 1, 2], &BASE62, &mut out, 2),
        Err(Error::RngFailure)
    );
    assert_eq!(out, *b"ab__");
}

#[test]
fn take_chunk_goes_on_after_a_chunk_without_acceptable_byte() {
    let mut out = *b"ab__";
    assert_eq!(take_chunk(true, &[248, 249, 250, 255], &BASE62, &mut out, 2), Ok(2));
    assert_eq!(take_chunk(true, &[255; 128], &BASE62, &mut out, 2), Ok(2));
    assert_eq!(take_chunk(true, &[], &BASE62, &mut out, 2), Ok(2));
    assert_eq!(out, *b"ab__");
    assert_eq!(take_chunk(true, &[255, 0, 255], &BASE62, &mut out, 2), Ok(3));
    assert_eq!(out, *b"ab0_");
}

#[test]
fn patience_is_spent_on_empty_chunks_only() {
    assert_eq!(MAX_EMPTY_CHUNKS, usize::MAX);
    assert_eq!(patience_after(5, true), Some(usize::MAX));
    assert_eq!(patience_after(0, true), Some(usize::MAX));
    assert_eq!(patience_after(5, false), Some(4));
    assert_eq!(patience_after(usize::MAX, false), Some(usize::MAX - 1));
    assert_eq!(patience_after(1, false), Some(0));
    assert_eq!(patience_after(0, false), None);
}

#[test]
fn random_string_goes_on_past_bytes_that_are_thrown_away() {
    // 129 characters: nearly half of all bytes are thrown away
    let alphabet: Vec<u8> = (0..129).collect();
    for _ in 0..20 {
        let string = random_string(3 * CHUNK_SIZE, &alphabet).unwrap();
        assert_eq!(string.len(), 3 * CHUNK_SIZE);
    }
}

#[test]
fn take_chunk_samples_a_delivered_chunk() {
    let mut out = *b"ab___";
    assert_eq!(take_chunk(true, &[255, 10, 248, 61], &BASE62, &mut out, 2), Ok(4));
    assert_eq!(out, *b"abAz_");
    assert_eq!(take_chunk(true, &[62, 63, 64], &BASE62, &mut out, 4), Ok(5));
    assert_eq!(out, *b"abAz0");
}
