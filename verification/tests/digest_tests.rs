use testutil::digest::{Digest, Fingerprint, FormatError};

const ROLAND_HEX: &str = "693d8db7b05e99c6b7a7c0616456039d89c555029026936248085193559a0b5d";
const CATNIP_HEX: &str = "eb1b94cfd6971df4a73991580e1664cfbd8d830c5bd784e92ead3d7de9a9c874";
const EMPTY_HEX: &str = "e3b0c44298fc1c149afbf4c8996fb92427ae41e4649b934ca495991b7852b855";

#[test]
fn equal_bytes_equal_digests() {
    let d1 = Digest::of_bytes(b"European Burmese");
    let d2 = Digest::of_bytes(b"European Burmese");
    assert_eq!(d1, d2);
}

#[test]
fn distinct_bytes_distinct_digests() {
    let roland = Digest::of_bytes(b"European Burmese");
    let catnip = Digest::of_bytes(b"catnip");
    let empty = Digest::of_bytes(b"");
    assert_ne!(roland, catnip);
    assert_ne!(roland, empty);
    assert_ne!(catnip, empty);
}

#[test]
fn known_fingerprints() {
    assert_eq!(Fingerprint::of_bytes(b"European Burmese").to_hex(), ROLAND_HEX);
    assert_eq!(Fingerprint::of_bytes(b"catnip").to_hex(), CATNIP_HEX);
    assert_eq!(Fingerprint::of_bytes(b"").to_hex(), EMPTY_HEX);
}

#[test]
fn digest_records_length() {
    let d = Digest::of_bytes(b"European Burmese");
    assert_eq!(d.size_bytes, 16);
    let e = Digest::of_bytes(b"");
    assert_eq!(e.size_bytes, 0);
}

#[test]
fn empty_input_is_a_valid_digest() {
    let d1 = Digest::of_bytes(b"");
    let d2 = Digest::of_bytes(b"");
    assert_eq!(d1, d2);
    assert_eq!(d1.fingerprint.bytes.len(), 32);
}

#[test]
fn hex_round_trip() {
    let fp = Fingerprint::of_bytes(b"European Burmese");
    let hex = fp.to_hex();
    let back = Fingerprint::from_hex(&hex).unwrap();
    assert_eq!(back, fp);
    assert_eq!(back.to_hex(), hex);
}

#[test]
fn from_hex_accepts_uppercase_and_normalizes() {
    let upper = ROLAND_HEX.to_uppercase();
    let fp = Fingerprint::from_hex(&upper).unwrap();
    assert_eq!(fp.to_hex(), ROLAND_HEX);
}

#[test]
fn from_hex_rejects_wrong_length() {
    assert_eq!(Fingerprint::from_hex("abcd"), Err(FormatError::WrongLength));
    assert_eq!(Fingerprint::from_hex(""), Err(FormatError::WrongLength));
    let long = format!("{}00", ROLAND_HEX);
    assert_eq!(Fingerprint::from_hex(&long), Err(FormatError::WrongLength));
}

#[test]
fn from_hex_rejects_invalid_characters() {
    let mut s = String::from(ROLAND_HEX);
    s.replace_range(0..1, "g");
    assert_eq!(Fingerprint::from_hex(&s), Err(FormatError::InvalidCharacter));
    let mut t = String::from(ROLAND_HEX);
    t.replace_range(63..64, " ");
    assert_eq!(Fingerprint::from_hex(&t), Err(FormatError::InvalidCharacter));
}

#[test]
fn verify_content_accepts_matching_bytes() {
    let d = Digest::of_bytes(b"catnip");
    assert!(d.verify_content(b"catnip").is_ok());
}

#[test]
fn verify_content_rejects_wrong_bytes() {
    let d = Digest::of_bytes(b"catnip");
    assert!(d.verify_content(b"catnap").is_err());
    assert!(d.verify_content(b"catnip!").is_err());
}

#[test]
fn digest_text_round_trip() {
    let d = Digest::of_bytes(b"European Burmese");
    let text = d.to_text();
    assert_eq!(text, format!("{}-16", ROLAND_HEX));
    let back = Digest::from_text(&text).unwrap();
    assert_eq!(back, d);
}

#[test]
fn digest_text_of_empty_content() {
    let d = Digest::of_bytes(b"");
    let text = d.to_text();
    assert_eq!(text, format!("{}-0", EMPTY_HEX));
    assert_eq!(Digest::from_text(&text).unwrap(), d);
}

#[test]
fn digest_from_text_accepts_leading_zeros() {
    let text = format!("{}-0016", ROLAND_HEX);
    let d = Digest::from_text(&text).unwrap();
    assert_eq!(d, Digest::of_bytes(b"European Burmese"));
}

#[test]
fn digest_from_text_rejects_malformed_input() {
    assert_eq!(Digest::from_text("tooshort"), Err(FormatError::WrongLength));
    let no_digits = format!("{}-", ROLAND_HEX);
    assert_eq!(Digest::from_text(&no_digits), Err(FormatError::WrongLength));
    let bad_delim = format!("{}:16", ROLAND_HEX);
    assert_eq!(Digest::from_text(&bad_delim), Err(FormatError::InvalidCharacter));
    let bad_digit = format!("{}-1a", ROLAND_HEX);
    assert_eq!(Digest::from_text(&bad_digit), Err(FormatError::InvalidCharacter));
    let bad_hex = format!("zz{}-16", &ROLAND_HEX[2..]);
    assert_eq!(Digest::from_text(&bad_hex), Err(FormatError::InvalidCharacter));
}

#[test]
fn digest_from_text_rejects_oversized_length() {
    let max = format!("{}-18446744073709551615", ROLAND_HEX);
    assert_eq!(Digest::from_text(&max).unwrap().size_bytes, u64::MAX);
    let over = format!("{}-18446744073709551616", ROLAND_HEX);
    assert_eq!(Digest::from_text(&over), Err(FormatError::LengthOverflow));
}
