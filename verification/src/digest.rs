//! Fingerprints and digests: the content-addressing primitives.
//!
//! A [`Fingerprint`] is the fixed-length hash of a byte sequence; a
//! [`Digest`] pairs that fingerprint with the exact byte length of the
//! content, so that two digests are equal exactly when both fields are.

use vstd::prelude::*;
use vstd::arithmetic::div_mod::lemma_fundamental_div_mod;
use vstd::string::StringSliceAdditionalSpecFns;

verus! {

/// The hash of a byte sequence. The result is fixed by the hash algorithm
/// and depends on the input bytes alone; it is named rather than written
/// out, since restating the algorithm would prove nothing about it.
pub uninterp spec fn hash_of(data: Seq<u8>) -> Seq<u8>;

/// Relies on `sha2::Sha256` through the `sha2::Digest` trait: `digest`
/// returns a 32-byte value computed deterministically from the input
/// bytes alone.
#[verifier::external_body]
fn hash_bytes(data: &[u8]) -> (r: Vec<u8>)
    ensures
        r@ == hash_of(data@),
        r@.len() == 32,
{
    <sha2::Sha256 as sha2::Digest>::digest(data).to_vec()
}

/// Byte length of every fingerprint.
pub const FINGERPRINT_LENGTH: usize = 32;

/// Fixed-length hash of a byte sequence, used as a content identifier.
#[derive(Debug, PartialEq, Eq)]
pub struct Fingerprint {
    pub bytes: Vec<u8>,
}

impl View for Fingerprint {
    type V = Seq<u8>;

    open spec fn view(&self) -> Seq<u8> {
        self.bytes@
    }
}

/// Mathematical value of a digest: the fingerprint bytes and the byte
/// length of the fingerprinted content.
#[verifier::ext_equal]
pub struct DigestView {
    pub fingerprint: Seq<u8>,
    pub size_bytes: u64,
}

/// The digest of a byte sequence: its hash paired with its length.
pub open spec fn spec_digest_of(data: Seq<u8>) -> DigestView {
    DigestView { fingerprint: hash_of(data), size_bytes: data.len() as u64 }
}

/// A fingerprint together with the byte length of the content it
/// identifies; the pair identifies a piece of content unambiguously.
#[derive(Debug, PartialEq, Eq)]
pub struct Digest {
    pub fingerprint: Fingerprint,
    pub size_bytes: u64,
}

impl View for Digest {
    type V = DigestView;

    open spec fn view(&self) -> DigestView {
        DigestView { fingerprint: self.fingerprint@, size_bytes: self.size_bytes }
    }
}

impl Fingerprint {
    /// A fingerprint always holds exactly [`FINGERPRINT_LENGTH`] bytes.
    pub open spec fn wf(&self) -> bool {
        self@.len() == FINGERPRINT_LENGTH
    }

    /// Hash the given bytes.
    pub fn of_bytes(data: &[u8]) -> (r: Fingerprint)
        ensures
            r@ == hash_of(data@),
            r.wf(),
    {
        Fingerprint { bytes: hash_bytes(data) }
    }
}

impl Digest {
    /// A digest is well-formed when its fingerprint is.
    pub open spec fn wf(&self) -> bool {
        self.fingerprint.wf()
    }

    /// Digest the given bytes: their hash plus their length.
    pub fn of_bytes(data: &[u8]) -> (r: Digest)
        ensures
            r@ == spec_digest_of(data@),
            r.wf(),
    {
        let fingerprint = Fingerprint::of_bytes(data);
        let size_bytes = data.len() as u64;
        Digest { fingerprint, size_bytes }
    }
}

/// Equal byte sequences always digest to equal values: content addressing
/// may compare digests in place of bytes.
pub proof fn lemma_digest_deterministic(b1: Seq<u8>, b2: Seq<u8>)
    requires
        b1 == b2,
    ensures
        spec_digest_of(b1) == spec_digest_of(b2),
{
}

impl Clone for Fingerprint {
    /// The copy holds the same bytes.
    fn clone(&self) -> (r: Self)
        ensures
            r@ == self@,
    {
        let mut bytes: Vec<u8> = Vec::new();
        let mut i: usize = 0;
        while i < self.bytes.len()
            invariant
                i <= self.bytes@.len(),
                bytes@ == self.bytes@.take(i as int),
            decreases self.bytes@.len() - i,
        {
            bytes.push(self.bytes[i]);
            proof {
                assert(self.bytes@.take(i + 1) =~= self.bytes@.take(i as int).push(
                    self.bytes@[i as int],
                ));
            }
            i = i + 1;
        }
        proof {
            assert(self.bytes@.take(self.bytes@.len() as int) =~= self.bytes@);
        }
        Fingerprint { bytes }
    }
}

impl Clone for Digest {
    /// The copy holds the same fingerprint and length.
    fn clone(&self) -> (r: Self)
        ensures
            r@ == self@,
    {
        let r = Digest { fingerprint: self.fingerprint.clone(), size_bytes: self.size_bytes };
        proof {
            assert(r@ =~= self@);
        }
        r
    }
}

/// Malformed fingerprint text: wrong length or a character that is not a
/// hexadecimal digit.
#[derive(Clone, Copy, Debug, PartialEq, Eq, Structural)]
pub enum FormatError {
    WrongLength,
    InvalidCharacter,
    LengthOverflow,
}

/// The bytes presented for a digest do not re-digest to it.
#[derive(Clone, Copy, Debug, PartialEq, Eq, Structural)]
pub struct ContentMismatchError;

/// The lowercase-hex digit for a value below sixteen.
pub open spec fn hex_digit(n: u8) -> u8
    recommends
        n < 16,
{
    if n < 10 {
        (48 + n) as u8
    } else {
        (87 + n) as u8
    }
}

/// Lowercase-hex text (as ASCII bytes) of a byte sequence: two digits per
/// byte, high digit first.
pub open spec fn hex_of(bytes: Seq<u8>) -> Seq<u8> {
    Seq::new(
        bytes.len() * 2,
        |i: int|
            if i % 2 == 0 {
                hex_digit(bytes[i / 2] / 16)
            } else {
                hex_digit(bytes[i / 2] % 16)
            },
    )
}

/// An ASCII hexadecimal digit, either case.
pub open spec fn is_hex_digit(b: u8) -> bool {
    (48 <= b <= 57) || (97 <= b <= 102) || (65 <= b <= 70)
}

/// The value of an ASCII hexadecimal digit, either case.
pub open spec fn hex_val(b: u8) -> u8
    recommends
        is_hex_digit(b),
{
    if 48 <= b <= 57 {
        (b - 48) as u8
    } else if 97 <= b <= 102 {
        (b - 87) as u8
    } else {
        (b - 55) as u8
    }
}

/// The bytes spelled by hexadecimal text, two digits per byte.
pub open spec fn parse_hex(s: Seq<u8>) -> Seq<u8>
    recommends
        s.len() % 2 == 0,
{
    Seq::new(s.len() / 2, |i: int| (hex_val(s[2 * i]) * 16 + hex_val(s[2 * i + 1])) as u8)
}

/// Each digit round-trips through its hexadecimal spelling.
proof fn lemma_hex_digit_val(n: u8)
    requires
        n < 16,
    ensures
        is_hex_digit(hex_digit(n)),
        hex_val(hex_digit(n)) == n,
        hex_digit(n) < 128,
{
}

/// Hex round trip: parsing the hexadecimal spelling of any byte sequence
/// yields the sequence back, and every digit of the spelling is valid
/// lowercase hex.
pub proof fn lemma_hex_round_trip(b: Seq<u8>)
    ensures
        parse_hex(hex_of(b)) == b,
        hex_of(b).len() == 2 * b.len(),
        forall|i: int| 0 <= i < hex_of(b).len() ==> is_hex_digit(#[trigger] hex_of(b)[i]),
{
    let h = hex_of(b);
    assert forall|i: int| 0 <= i < h.len() implies is_hex_digit(#[trigger] h[i]) by {
        lemma_hex_digit_val(b[i / 2] / 16);
        lemma_hex_digit_val(b[i / 2] % 16);
    }
    assert forall|i: int| 0 <= i < b.len() implies parse_hex(h)[i] == b[i] by {
        assert(h[2 * i] == hex_digit(b[i] / 16));
        assert(h[2 * i + 1] == hex_digit(b[i] % 16));
        lemma_hex_digit_val(b[i] / 16);
        lemma_hex_digit_val(b[i] % 16);
        lemma_fundamental_div_mod(b[i] as int, 16);
    }
    assert(parse_hex(h) =~= b);
}

/// Relies on `String::from_utf8`: for ASCII input it succeeds and returns
/// the string spelled by exactly those bytes.
#[verifier::external_body]
fn string_from_ascii(v: Vec<u8>) -> (r: String)
    requires
        forall|i: int| 0 <= i < v@.len() ==> v@[i] < 128,
    ensures
        r@ == v@.map_values(|b: u8| b as char),
        vstd::utf8::encode_utf8(r@) == v@,
{
    String::from_utf8(v).unwrap_or_default()
}

/// The lowercase-hex digit (as an ASCII byte) for a value below sixteen.
fn hex_digit_byte(n: u8) -> (r: u8)
    requires
        n < 16,
    ensures
        r == hex_digit(n),
        r < 128,
{
    if n < 10 {
        48 + n
    } else {
        87 + n
    }
}

/// The value of an ASCII hexadecimal digit, if it is one.
fn hex_val_byte(b: u8) -> (r: Option<u8>)
    ensures
        r is Some <==> is_hex_digit(b),
        r matches Some(v) ==> v == hex_val(b) && v < 16,
{
    if 48 <= b && b <= 57 {
        Some(b - 48)
    } else if 97 <= b && b <= 102 {
        Some(b - 87)
    } else if 65 <= b && b <= 70 {
        Some(b - 55)
    } else {
        None
    }
}

impl Fingerprint {
    /// The canonical textual form: fixed-width lowercase hex.
    pub fn to_hex(&self) -> (r: String)
        ensures
            vstd::utf8::encode_utf8(r@) == hex_of(self@),
            r@.len() == 2 * self@.len(),
    {
        let ghost target = hex_of(self.bytes@);
        let mut out: Vec<u8> = Vec::new();
        proof {
            assert(out@ =~= target.take(0));
        }
        let mut i: usize = 0;
        while i < self.bytes.len()
            invariant
                i <= self.bytes@.len(),
                out@ == hex_of(self.bytes@).take(2 * i as int),
                forall|k: int| 0 <= k < out@.len() ==> out@[k] < 128,
            decreases self.bytes@.len() - i,
        {
            let b = self.bytes[i];
            let hi = hex_digit_byte(b / 16);
            let lo = hex_digit_byte(b % 16);
            out.push(hi);
            out.push(lo);
            proof {
                let t = hex_of(self.bytes@);
                assert(t[2 * i as int] == hex_digit(self.bytes@[i as int] / 16));
                assert(t[2 * i as int + 1] == hex_digit(self.bytes@[i as int] % 16));
                assert(out@ =~= t.take(2 * (i + 1) as int));
            }
            i = i + 1;
        }
        proof {
            assert(hex_of(self.bytes@).take(2 * self.bytes@.len() as int) =~= hex_of(self.bytes@));
        }
        let r = string_from_ascii(out);
        proof {
            assert(r@.len() == vstd::utf8::encode_utf8(r@).len());
        }
        r
    }

    /// Parse fixed-width hexadecimal text, either case, into a
    /// fingerprint. Fails exactly when the text has the wrong length or a
    /// character that is not a hex digit.
    pub fn from_hex(s: &str) -> (r: Result<Fingerprint, FormatError>)
        ensures
            s.spec_bytes().len() != 64 ==> r == Err::<Fingerprint, FormatError>(
                FormatError::WrongLength,
            ),
            s.spec_bytes().len() == 64 && !(forall|i: int|
                0 <= i < 64 ==> is_hex_digit(#[trigger] s.spec_bytes()[i])) ==> r == Err::<
                Fingerprint,
                FormatError,
            >(FormatError::InvalidCharacter),
            s.spec_bytes().len() == 64 && (forall|i: int|
                0 <= i < 64 ==> is_hex_digit(#[trigger] s.spec_bytes()[i])) ==> (r matches Ok(fp)
                && fp@ == parse_hex(s.spec_bytes()) && fp.wf()),
    {
        let bs = s.as_bytes();
        if bs.len() != 64 {
            return Err(FormatError::WrongLength);
        }
        let mut out: Vec<u8> = Vec::new();
        proof {
            assert(out@ =~= parse_hex(bs@).take(0));
        }
        let mut i: usize = 0;
        while i < 32
            invariant
                i <= 32,
                bs@.len() == 64,
                bs@ == s.spec_bytes(),
                out@ == parse_hex(bs@).take(i as int),
                forall|k: int| 0 <= k < 2 * i ==> is_hex_digit(#[trigger] bs@[k]),
            decreases 32 - i,
        {
            let hi = match hex_val_byte(bs[2 * i]) {
                Some(v) => v,
                None => {
                    return Err(FormatError::InvalidCharacter);
                },
            };
            let lo = match hex_val_byte(bs[2 * i + 1]) {
                Some(v) => v,
                None => {
                    return Err(FormatError::InvalidCharacter);
                },
            };
            out.push(hi * 16 + lo);
            proof {
                let p = parse_hex(bs@);
                assert(p[i as int] == (hex_val(bs@[2 * i as int]) * 16 + hex_val(
                    bs@[2 * i as int + 1],
                )) as u8);
                assert(out@ =~= p.take(i + 1));
            }
            i = i + 1;
        }
        proof {
            assert(parse_hex(bs@).take(32) =~= parse_hex(bs@));
        }
        Ok(Fingerprint { bytes: out })
    }
}

impl Digest {
    /// Whether the given bytes re-digest to exactly this digest.
    pub fn matches_content(&self, data: &[u8]) -> (r: bool)
        ensures
            r == (spec_digest_of(data@) == self@),
    {
        let actual = Digest::of_bytes(data);
        let same_fp = crate::directory::bytes_eq(&actual.fingerprint.bytes, &self.fingerprint.bytes);
        let same = same_fp && actual.size_bytes == self.size_bytes;
        proof {
            if same {
                assert(spec_digest_of(data@) =~= self@);
            } else {
                assert(spec_digest_of(data@) != self@);
            }
        }
        same
    }

    /// Check bytes fetched for this digest: they must re-digest to it, or
    /// the content does not match and the caller must not use it.
    pub fn verify_content(&self, data: &[u8]) -> (r: Result<(), ContentMismatchError>)
        ensures
            r is Ok <==> spec_digest_of(data@) == self@,
    {
        if self.matches_content(data) {
            Ok(())
        } else {
            Err(ContentMismatchError)
        }
    }
}

/// The decimal spelling (as ASCII digits) of a length, most significant
/// digit first, with no leading zeros.
pub open spec fn dec_of(n: u64) -> Seq<u8>
    decreases n,
{
    if n < 10 {
        seq![(48 + n) as u8]
    } else {
        dec_of(n / 10).push((48 + n % 10) as u8)
    }
}

/// An ASCII decimal digit.
pub open spec fn is_dec_digit(b: u8) -> bool {
    48 <= b <= 57
}

/// The value spelled by a string of decimal digits.
pub open spec fn dec_val(s: Seq<u8>) -> int
    decreases s.len(),
{
    if s.len() == 0 {
        0
    } else {
        dec_val(s.drop_last()) * 10 + (s.last() - 48)
    }
}

/// A digit string's value is never negative.
proof fn lemma_dec_val_nonneg(s: Seq<u8>)
    requires
        forall|i: int| 0 <= i < s.len() ==> is_dec_digit(#[trigger] s[i]),
    ensures
        dec_val(s) >= 0,
    decreases s.len(),
{
    if s.len() > 0 {
        lemma_dec_val_nonneg(s.drop_last());
    }
}

/// Appending digits never shrinks the value.
proof fn lemma_dec_val_prefix(s: Seq<u8>, i: int)
    requires
        0 <= i <= s.len(),
        forall|k: int| 0 <= k < s.len() ==> is_dec_digit(#[trigger] s[k]),
    ensures
        dec_val(s) >= dec_val(s.take(i)),
    decreases s.len() - i,
{
    if i < s.len() {
        lemma_dec_val_nonneg(s.take(i));
        assert(s.take(i + 1).drop_last() =~= s.take(i));
        assert(s.take(i + 1).last() == s[i]);
        assert(dec_val(s.take(i + 1)) == dec_val(s.take(i)) * 10 + (s[i] - 48));
        assert(dec_val(s.take(i + 1)) >= dec_val(s.take(i)));
        lemma_dec_val_prefix(s, i + 1);
        assert(s.take(s.len() as int) =~= s);
    } else {
        assert(s.take(s.len() as int) =~= s);
    }
}

/// Reading back the decimal spelling of a value yields the value, and the
/// spelling is made of ASCII digits.
pub proof fn lemma_dec_round_trip(n: u64)
    ensures
        dec_val(dec_of(n)) == n,
        dec_of(n).len() >= 1,
        forall|i: int| 0 <= i < dec_of(n).len() ==> is_dec_digit(#[trigger] dec_of(n)[i]),
    decreases n,
{
    if n < 10 {
        assert(dec_of(n) == seq![(48 + n) as u8]);
        assert(dec_of(n).drop_last() =~= Seq::<u8>::empty());
        assert(dec_of(n).last() == (48 + n) as u8);
        assert(dec_val(Seq::<u8>::empty()) == 0);
        assert(dec_val(dec_of(n)) == 0 * 10 + ((48 + n) as u8 - 48));
    } else {
        lemma_dec_round_trip(n / 10);
        assert(dec_of(n) == dec_of(n / 10).push((48 + n % 10) as u8));
        assert(dec_of(n).drop_last() =~= dec_of(n / 10));
        assert(dec_of(n).last() == (48 + n % 10) as u8);
        assert(dec_val(dec_of(n)) == dec_val(dec_of(n / 10)) * 10 + ((48 + n % 10) as u8 - 48));
        lemma_fundamental_div_mod(n as int, 10);
    }
}

/// Append the decimal spelling of a value.
fn push_decimal(out: &mut Vec<u8>, n: u64)
    ensures
        final(out)@ == old(out)@ + dec_of(n),
    decreases n,
{
    if n < 10 {
        out.push(48 + (n as u8));
        proof {
            assert(out@ =~= old(out)@ + dec_of(n));
        }
    } else {
        proof {
            assert(n / 10 < n) by (nonlinear_arith)
                requires
                    n >= 10,
            ;
        }
        push_decimal(out, n / 10);
        out.push(48 + ((n % 10) as u8));
        proof {
            assert(out@ =~= old(out)@ + dec_of(n));
        }
    }
}

/// The delimiter between the fingerprint and length fields of a digest's
/// textual form.
pub const DIGEST_DELIMITER: u8 = 45;

/// The textual form of a digest: the fingerprint's lowercase hex, the
/// delimiter, then the byte length in decimal.
pub open spec fn digest_text(d: DigestView) -> Seq<u8> {
    hex_of(d.fingerprint) + seq![DIGEST_DELIMITER] + dec_of(d.size_bytes)
}

/// A byte string that [`Digest::from_text`] accepts: 64 hex digits, the
/// delimiter, then at least one decimal digit spelling a length that fits.
pub open spec fn valid_digest_text(b: Seq<u8>) -> bool {
    &&& b.len() >= 66
    &&& forall|i: int| 0 <= i < 64 ==> is_hex_digit(#[trigger] b[i])
    &&& b[64] == DIGEST_DELIMITER
    &&& forall|i: int| 65 <= i < b.len() ==> is_dec_digit(#[trigger] b[i])
    &&& dec_val(b.skip(65)) <= u64::MAX
}

/// Parsing the textual form of any well-formed digest yields the digest
/// back.
pub proof fn lemma_digest_text_round_trip(d: DigestView)
    requires
        d.fingerprint.len() == 32,
    ensures
        valid_digest_text(digest_text(d)),
        parse_hex(digest_text(d).take(64)) == d.fingerprint,
        dec_val(digest_text(d).skip(65)) == d.size_bytes,
{
    let b = digest_text(d);
    lemma_hex_round_trip(d.fingerprint);
    lemma_dec_round_trip(d.size_bytes);
    assert(b.take(64) =~= hex_of(d.fingerprint));
    assert(b[64] == DIGEST_DELIMITER);
    assert(b.skip(65) =~= dec_of(d.size_bytes));
}

impl Digest {
    /// The textual form used wherever a digest crosses a process or wire
    /// boundary: fingerprint hex, the delimiter, decimal byte length.
    pub fn to_text(&self) -> (r: String)
        ensures
            vstd::utf8::encode_utf8(r@) == digest_text(self@),
    {
        let hex = self.fingerprint.to_hex();
        let mut out: Vec<u8> = hex.as_str().as_bytes_vec();
        out.push(DIGEST_DELIMITER);
        push_decimal(&mut out, self.size_bytes);
        proof {
            assert(out@ =~= digest_text(self@));
            lemma_dec_round_trip(self.size_bytes);
            lemma_hex_round_trip(self@.fingerprint);
            assert(forall|i: int| 0 <= i < out@.len() ==> out@[i] < 128);
        }
        string_from_ascii(out)
    }

    /// Parse the textual form of a digest. Fails exactly when the text is
    /// too short, a field holds a character it may not, or the decimal
    /// length does not fit.
    pub fn from_text(s: &str) -> (r: Result<Digest, FormatError>)
        ensures
            (r is Ok) <==> valid_digest_text(s.spec_bytes()),
            r matches Ok(d) ==> d@.fingerprint == parse_hex(s.spec_bytes().take(64))
                && d@.size_bytes == dec_val(s.spec_bytes().skip(65)) && d.wf(),
            (r == Err::<Digest, FormatError>(FormatError::WrongLength)) <==> s.spec_bytes().len()
                < 66,
            r == Err::<Digest, FormatError>(FormatError::InvalidCharacter) ==> s.spec_bytes().len()
                >= 66 && !((forall|i: int|
                0 <= i < 64 ==> is_hex_digit(#[trigger] s.spec_bytes()[i]))
                && s.spec_bytes()[64] == DIGEST_DELIMITER && (forall|i: int|
                65 <= i < s.spec_bytes().len() ==> is_dec_digit(#[trigger] s.spec_bytes()[i]))),
            r == Err::<Digest, FormatError>(FormatError::LengthOverflow) ==> s.spec_bytes().len()
                >= 66 && ((forall|i: int|
                65 <= i < s.spec_bytes().len() ==> is_dec_digit(#[trigger] s.spec_bytes()[i]))
                ==> dec_val(s.spec_bytes().skip(65)) > u64::MAX),
    {
        let bs = s.as_bytes();
        let n = bs.len();
        if n < 66 {
            return Err(FormatError::WrongLength);
        }
        let mut fingerprint: Vec<u8> = Vec::new();
        proof {
            assert(fingerprint@ =~= parse_hex(bs@.take(64)).take(0));
        }
        let mut i: usize = 0;
        while i < 32
            invariant
                i <= 32,
                66 <= bs@.len(),
                bs@ == s.spec_bytes(),
                fingerprint@ == parse_hex(bs@.take(64)).take(i as int),
                forall|k: int| 0 <= k < 2 * i ==> is_hex_digit(#[trigger] bs@[k]),
            decreases 32 - i,
        {
            let hi = match hex_val_byte(bs[2 * i]) {
                Some(v) => v,
                None => {
                    proof {
                        assert(!is_hex_digit(bs@[2 * i as int]));
                    }
                    return Err(FormatError::InvalidCharacter);
                },
            };
            let lo = match hex_val_byte(bs[2 * i + 1]) {
                Some(v) => v,
                None => {
                    proof {
                        assert(!is_hex_digit(bs@[2 * i as int + 1]));
                    }
                    return Err(FormatError::InvalidCharacter);
                },
            };
            fingerprint.push(hi * 16 + lo);
            proof {
                let p = parse_hex(bs@.take(64));
                assert(bs@.take(64)[2 * i as int] == bs@[2 * i as int]);
                assert(bs@.take(64)[2 * i as int + 1] == bs@[2 * i as int + 1]);
                assert(p[i as int] == (hex_val(bs@[2 * i as int]) * 16 + hex_val(
                    bs@[2 * i as int + 1],
                )) as u8);
                assert(fingerprint@ =~= p.take(i + 1));
            }
            i = i + 1;
        }
        proof {
            assert(parse_hex(bs@.take(64)).take(32) =~= parse_hex(bs@.take(64)));
        }
        if bs[64] != DIGEST_DELIMITER {
            return Err(FormatError::InvalidCharacter);
        }
        let ghost digits = bs@.skip(65);
        let mut acc: u128 = 0;
        let mut j: usize = 65;
        while j < n
            invariant
                65 <= j <= n == bs@.len(),
                66 <= bs@.len(),
                bs@ == s.spec_bytes(),
                digits == bs@.skip(65),
                forall|k: int| 65 <= k < j ==> is_dec_digit(#[trigger] bs@[k]),
                acc <= u64::MAX,
                acc == dec_val(digits.take(j - 65)),
            decreases n - j,
        {
            let b = bs[j];
            if b < 48 || b > 57 {
                return Err(FormatError::InvalidCharacter);
            }
            let d = (b - 48) as u128;
            let next: u128 = acc * 10 + d;
            proof {
                assert(digits.take(j - 65 + 1).drop_last() =~= digits.take(j - 65));
                assert(digits.take(j - 65 + 1).last() == bs@[j as int]);
                assert(next == dec_val(digits.take(j - 65 + 1)));
            }
            if next > u64::MAX as u128 {
                proof {
                    if forall|k: int| 65 <= k < bs@.len() ==> is_dec_digit(#[trigger] bs@[k]) {
                        assert(forall|k: int|
                            0 <= k < digits.len() ==> is_dec_digit(#[trigger] digits[k])
                                == is_dec_digit(bs@[k + 65]));
                        lemma_dec_val_prefix(digits, j - 65 + 1);
                        assert(dec_val(digits) > u64::MAX);
                    }
                }
                return Err(FormatError::LengthOverflow);
            }
            acc = next;
            j = j + 1;
        }
        proof {
            assert(digits.take(digits.len() as int) =~= digits);
        }
        let size_bytes = acc as u64;
        Ok(Digest { fingerprint: Fingerprint { bytes: fingerprint }, size_bytes })
    }
}

} // verus!
