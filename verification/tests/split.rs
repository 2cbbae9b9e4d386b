use passmogu::bytes::{copy_into, same_bytes};
use passmogu::split::split;

#[test]
fn split_cuts_at_every_separator() {
    assert_eq!(split(b"", b','), vec![&b""[..]]);
    assert_eq!(split(b"abc", b','), vec![&b"abc"[..]]);
    assert_eq!(split(b"a,b", b','), vec![&b"a"[..], &b"b"[..]]);
    assert_eq!(split(b",", b','), vec![&b""[..], &b""[..]]);
    assert_eq!(
        split(b",a,,b,", b','),
        vec![&b""[..], &b"a"[..], &b""[..], &b"b"[..], &b""[..]]
    );
    // as the slices of std are split
    let data = b"one\ttwo\t\tthree\n\t";
    let expected: Vec<&[u8]> = data.split(|byte| *byte == b'\t').collect();
    assert_eq!(split(data, b'\t'), expected);
}

#[test]
fn same_bytes_compares_contents() {
    assert!(same_bytes(b"", b""));
    assert!(same_bytes(b"abc", b"abc"));
    assert!(!same_bytes(b"abc", b"abd"));
    assert!(!same_bytes(b"abc", b"ab"));
    assert!(!same_bytes(b"", b"a"));
}

#[test]
fn copy_into_overwrites_a_range() {
    let mut out = *b"0123456789";
    copy_into(&mut out, 3, b"abc");
    assert_eq!(out, *b"012abc6789");
    copy_into(&mut out, 0, b"");
    assert_eq!(out, *b"012abc6789");
    copy_into(&mut out, 8, b"yz");
    assert_eq!(out, *b"012abc67yz");
}
