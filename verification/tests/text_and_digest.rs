use rsdupes::bytes::{bytes_equal, comes_before};
use rsdupes::digest::Digest;
use rsdupes::text::{characters, copy_strings, decimal_text, hex_text, right_align};

#[test]
fn numbers_are_written_in_decimal() {
    assert_eq!(decimal_text(0), "0");
    assert_eq!(decimal_text(7), "7");
    assert_eq!(decimal_text(10), "10");
    assert_eq!(decimal_text(907), "907");
    assert_eq!(decimal_text(u64::MAX), "18446744073709551615");
}

#[test]
fn bytes_are_written_in_hexadecimal() {
    assert_eq!(hex_text(&[]), "");
    assert_eq!(hex_text(&[0, 1, 15, 16, 171, 255]), "00010f10abff");
}

#[test]
fn texts_are_aligned_to_the_right() {
    assert_eq!(right_align("42", 9), "       42");
    assert_eq!(right_align("123456789", 9), "123456789");
    assert_eq!(right_align("1234567890", 9), "1234567890");
    assert_eq!(right_align("", 2), "  ");
}

#[test]
fn characters_and_copies() {
    assert_eq!(characters("aé0"), vec!['a', 'é', '0']);
    let strings = vec!["x".to_string(), "".to_string()];
    assert_eq!(copy_strings(&strings), strings);
}

#[test]
fn bytes_are_compared() {
    assert!(bytes_equal(b"", b""));
    assert!(bytes_equal(b"abc", b"abc"));
    assert!(!bytes_equal(b"abc", b"abd"));
    assert!(!bytes_equal(b"abc", b"ab"));
    assert!(comes_before(b"ab", b"abc"));
    assert!(comes_before(b"abb", b"abc"));
    assert!(!comes_before(b"abc", b"abc"));
    assert!(!comes_before(b"b", b"abc"));
}

#[test]
fn digests_are_sha256() {
    assert_eq!(
        Digest::of(b"").to_hex(),
        "e3b0c44298fc1c149afbf4c8996fb92427ae41e4649b934ca495991b7852b855"
    );
    assert_eq!(
        Digest::of(b"abc").to_hex(),
        "ba7816bf8f01cfea414140de5dae2223b00361a396177a9cb410ff61f20015ad"
    );
}

#[test]
fn a_digest_of_parts_is_that_of_the_whole() {
    assert_eq!(Digest::of_parts(b"ab", b"c"), Digest::of(b"abc"));
    assert_eq!(Digest::of_parts(b"", b"abc"), Digest::of(b"abc"));
    assert_eq!(Digest::of_parts(b"abc", b""), Digest::of(b"abc"));
    assert_ne!(Digest::of_parts(b"b", b"ac"), Digest::of(b"abc"));
}

#[test]
fn digests_and_bytes_stand_for_each_other() {
    let mut bytes = [0u8; 32];
    for (i, byte) in bytes.iter_mut().enumerate() {
        *byte = (i * 7 + 3) as u8;
    }
    let digest = Digest::from_bytes(&bytes);
    assert_eq!(digest.to_bytes(), bytes.to_vec());
    assert_eq!(digest.to_hex(), hex_text(&bytes));
    let mut other = bytes;
    other[31] = 0;
    assert_ne!(Digest::from_bytes(&other), digest);
}
