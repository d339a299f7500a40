//! The calls into `flate2`, `sha1`, `hex`, `chrono` and the UTF-8 conversions of
//! `std` that the commands make. Verus does not see the bodies below: each
//! contract is believed as written.
use std::io::Read;
use std::io::Write;
use sha1::Digest;
use vstd::prelude::*;
use vstd::utf8::*;

verus! {

/// What `flate2::read::ZlibDecoder` makes of `data`: the bytes that reading the
/// decoder to its end gives, and the number of input bytes that the decoder took
/// (`total_in`), or `None` where reading reports an error. The decoder stops at the
/// end of the first zlib stream; bytes after it are left unread.
pub uninterp spec fn zlib_inflate(data: Seq<u8>) -> Option<(Seq<u8>, nat)>;

/// What `flate2::write::ZlibEncoder` at `Compression::default()` has written into a
/// `Vec` once all of `data` was written and `finish` was called.
pub uninterp spec fn zlib_deflate(data: Seq<u8>) -> Seq<u8>;

/// The SHA-1 digest of `data` as the `sha1` crate computes it.
pub uninterp spec fn sha1_digest(data: Seq<u8>) -> Seq<u8>;

/// What `String::from_utf8_lossy` gives for `bytes`.
pub uninterp spec fn utf8_lossy(bytes: Seq<u8>) -> Seq<char>;

/// `std::io::Error`, carried through unread.
#[verifier::external_type_specification]
#[verifier::external_body]
pub struct ExIoError(std::io::Error);

/// Trusted: reads `data` through `flate2::read::ZlibDecoder::read_to_end` and reports
/// `total_in` afterwards. The contract ties the outcome to the name `zlib_inflate`,
/// and claims that the decoder took no more bytes than `data` has (it only consumes
/// what its reader handed it); what the output is on given bytes is not stated here.
#[verifier::external_body]
pub(crate) fn zlib_decode(data: &[u8]) -> (r: Option<(Vec<u8>, u64)>)
    ensures
        match r {
            Some((out, n)) => zlib_inflate(data@) == Some((out@, n as nat)),
            None => zlib_inflate(data@) is None,
        },
        r matches Some((_, n)) ==> n <= data@.len(),
{
    let mut decoder = flate2::read::ZlibDecoder::new(data);
    let mut out: Vec<u8> = Vec::new();
    match decoder.read_to_end(&mut out) {
        Ok(_) => Some((out, decoder.total_in())),
        Err(_) => None,
    }
}

/// Trusted: writes `data` into `flate2::write::ZlibEncoder::new(Vec::new(),
/// Compression::default())` with `write_all` and calls `finish`. It claims that both
/// calls succeed, that the bytes written are the ones named `zlib_deflate`, and that
/// the zlib decoder reads back `data` from them (the decoder inverts the encoder).
/// Success: the encoder's sink is a `Vec`, whose writes never fail and never stop short;
/// the only other errors that flate2 passes on come from the miniz_oxide compressor,
/// which reports them for parameters that a default level does not set (`Param`), for
/// use after the stream was finished (which `write_all` and one `finish` do not do), and
/// for a failed custom output callback (`Stream`), which is not used here.
#[verifier::external_body]
pub(crate) fn zlib_encode(data: &[u8]) -> (r: Result<Vec<u8>, std::io::Error>)
    ensures
        r is Ok,
        r matches Ok(c) ==> c@ == zlib_deflate(data@),
        r matches Ok(c) ==> zlib_inflate(c@) matches Some((d, _)) && d == data@,
{
    let mut encoder = flate2::write::ZlibEncoder::new(Vec::new(), flate2::Compression::default());
    encoder.write_all(data)?;
    encoder.finish()
}

/// Trusted: `sha1::Sha1::digest`. It claims that the digest is the one named
/// `sha1_digest` and that it has 20 bytes (the output size of `Sha1Core` is `U20`).
#[verifier::external_body]
pub(crate) fn sha1(data: &[u8]) -> (r: Vec<u8>)
    ensures
        r@ == sha1_digest(data@),
        r@.len() == 20,
{
    sha1::Sha1::digest(data).to_vec()
}

/// True for the bytes that `hex` accepts as a digit: `0-9`, `a-f`, `A-F`.
pub open spec fn is_hex_digit(c: u8) -> bool {
    (48 <= c <= 57) || (97 <= c <= 102) || (65 <= c <= 70)
}

/// The value of a hex digit.
pub open spec fn hex_digit_value(c: u8) -> u8 {
    if 48 <= c <= 57 {
        (c - 48) as u8
    } else if 97 <= c <= 102 {
        (c - 87) as u8
    } else {
        (c - 55) as u8
    }
}

/// The bytes that the hex digits in `data` stand for, two digits to a byte.
pub open spec fn spec_hex_decode(data: Seq<u8>) -> Seq<u8> {
    Seq::new(
        data.len() / 2,
        |i: int| (hex_digit_value(data[2 * i]) * 16 + hex_digit_value(data[2 * i + 1])) as u8,
    )
}

/// True when `data` is what `hex::decode_to_slice` accepts for an output of `n` bytes.
pub open spec fn hex_decodes_to(data: Seq<u8>, n: nat) -> bool {
    &&& data.len() == 2 * n
    &&& forall|i: int| 0 <= i < data.len() ==> is_hex_digit(#[trigger] data[i])
}

/// Trusted: `hex::decode_to_slice` into a buffer of `out_len` bytes. It claims, as the
/// crate's source shows, that decoding succeeds exactly when `data` has `2 * out_len`
/// bytes that are all hex digits, and that each output byte is the value of two
/// digits, the first one the high half.
#[verifier::external_body]
pub(crate) fn hex_decode(data: &[u8], out_len: usize) -> (r: Option<Vec<u8>>)
    ensures
        r is Some <==> hex_decodes_to(data@, out_len as nat),
        r matches Some(v) ==> v@ == spec_hex_decode(data@),
{
    let mut out = vec![0u8; out_len];
    match hex::decode_to_slice(data, &mut out[..]) {
        Ok(()) => Some(out),
        Err(_) => None,
    }
}

/// Trusted: `String::from_utf8`. It claims what the documentation of `std` says: the
/// conversion succeeds exactly on valid UTF-8, and the string holds the characters
/// that the bytes encode.
#[verifier::external_body]
pub(crate) fn string_from_utf8(bytes: Vec<u8>) -> (r: Option<String>)
    ensures
        r is Some <==> valid_utf8(bytes@),
        r matches Some(s) ==> s@ == decode_utf8(bytes@),
{
    String::from_utf8(bytes).ok()
}

/// Trusted: `String::from_utf8_lossy`. It claims that the result is the one named
/// `utf8_lossy` and, as the documentation of `std` says, that valid UTF-8 is decoded
/// unchanged. What invalid sequences become is left unsaid.
#[verifier::external_body]
pub(crate) fn string_from_utf8_lossy(bytes: &[u8]) -> (r: String)
    ensures
        r@ == utf8_lossy(bytes@),
        valid_utf8(bytes@) ==> r@ == decode_utf8(bytes@),
{
    String::from_utf8_lossy(bytes).into_owned()
}

/// The form of a UTC offset as `%z` writes it: a sign and four digits, `+hhmm`.
pub open spec fn is_utc_offset_text(tz: Seq<char>) -> bool {
    &&& tz.len() == 5
    &&& (tz[0] == '+' || tz[0] == '-')
    &&& forall|k: int| 1 <= k < 5 ==> '0' <= #[trigger] tz[k] <= '9'
}

/// Trusted: reads the clock with `chrono::Local::now` and gives the reading's
/// `timestamp()` and its UTC offset formatted with `%z`. It claims only the form of the
/// offset text, a sign and four digits, as chrono documents `%z` and writes it (hours
/// and minutes, two digits each, no colon); the time and the offset themselves depend
/// on the clock and on the machine's time zone and are not stated.
#[verifier::external_body]
pub(crate) fn local_time_now() -> (r: (i64, String))
    ensures
        is_utc_offset_text(r.1@),
{
    let now = chrono::Local::now();
    (now.timestamp(), now.format("%z").to_string())
}

} // verus!
