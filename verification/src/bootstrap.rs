//! The checks on the downloaded database: decompression of the XZ file,
//! comparison of its SHA-512 digest with the published one, and decoding
//! of the text.
use vstd::prelude::*;
use vstd::string::*;
use vstd::utf8::*;
use crate::chars::{split_words, trim, trim_str, words};
use crate::codec::{
    hex_encode, hex_text, lowercase_of, sha512_digest, sha512_of, str_from_utf8, to_lowercase,
    xz_decoding, xz_decompress_checked, xz_decodable,
};
use crate::text::{str_eq, string_from_utf8};

verus! {

broadcast use vstd::utf8::encode_utf8_valid_utf8, vstd::utf8::encode_utf8_decode_utf8;

/// The room reserved for the decompressed database (about 22 MB).
pub const TLPDB_INITIAL_CAPACITY: usize = 23068672;

/// Why the downloaded database was refused.
#[derive(Debug)]
pub enum TlpdbError {
    /// The XZ data is broken: the decoder's message.
    Decompression(String),
    /// The checksum file is not UTF-8 text.
    ChecksumNotUtf8,
    /// The SHA-512 digest of the decompressed database is not the published
    /// one.
    HashMismatch { size: usize, expected: String, calculated: String },
    /// The decompressed database is not UTF-8 text.
    ContentNotUtf8,
}

/// What the decompression gives for the XZ data `input`: nothing for empty
/// data; the output of the decoder when it succeeds, or when it fails
/// without consuming anything (then the loop over concatenated streams
/// stops); `None` when it fails after consuming part of the data.
pub open spec fn xz_output(input: Seq<u8>) -> Option<Seq<u8>> {
    if input.len() == 0 {
        Some(seq![])
    } else {
        let d = xz_decoding(input);
        if !xz_decodable(input) {
            None
        } else if d.2 || d.1 == 0 {
            Some(d.0)
        } else {
            None
        }
    }
}

/// The published digest in the checksum file `text`: its first word
/// (empty when it has none), trimmed and lowercased.
pub open spec fn expected_digest(text: Seq<char>) -> Seq<char> {
    let w = words(text);
    lowercase_of(trim(if w.len() > 0 { w[0] } else { seq![] }))
}

/// Decompresses the XZ data `compressed_xz_bytes` (streams one after the
/// other), checks its SHA-512 digest against the first word of the checksum
/// file `sha512_file_bytes`, and gives the database as text.
pub fn decompress_and_verify_tlpdb(compressed_xz_bytes: &[u8], sha512_file_bytes: &[u8]) -> (r:
    Result<String, TlpdbError>)
    ensures
        match xz_output(compressed_xz_bytes@) {
            None => r matches Err(TlpdbError::Decompression(_)),
            Some(out) => if !valid_utf8(sha512_file_bytes@) {
                r matches Err(TlpdbError::ChecksumNotUtf8)
            } else if hex_text(sha512_of(out)) != expected_digest(decode_utf8(sha512_file_bytes@)) {
                r matches Err(TlpdbError::HashMismatch { size, expected, calculated }) && size
                    == out.len() && expected@ == expected_digest(decode_utf8(sha512_file_bytes@))
                    && calculated@ == hex_text(sha512_of(out))
            } else if !valid_utf8(out) {
                r matches Err(TlpdbError::ContentNotUtf8)
            } else {
                r matches Ok(s) && s@ == decode_utf8(out)
            },
        },
{
    let input = compressed_xz_bytes;
    let mut out: Vec<u8> = Vec::with_capacity(TLPDB_INITIAL_CAPACITY);
    let mut pos: usize = 0;
    let ghost d = xz_decoding(input@);
    assert(input@.subrange(0, input@.len() as int) =~= input@);
    while pos < input.len()
        invariant_except_break
            pos == 0 ==> out@.len() == 0,
        invariant
            d == xz_decoding(input@),
            input@ == compressed_xz_bytes@,
            input@.subrange(0, input@.len() as int) == input@,
            pos == 0 || pos == input@.len(),
            pos == input@.len() && input@.len() > 0 ==> xz_decodable(input@) && d.2 && out@ == d.0,
        ensures
            xz_output(input@) == Some(out@),
        decreases input@.len() - pos,
    {
        let (read, err) = xz_decompress_checked(input, pos, &mut out);
        match err {
            Some(e) => {
                assert(input@.subrange(pos as int, input@.len() as int) == input@);
                if read == 0 {
                    assert(out@ =~= d.0);
                    break;
                }
                assert(input@.subrange(pos as int, input@.len() as int) == input@);
                assert(xz_output(input@) is None);
                return Err(TlpdbError::Decompression(e));
            },
            None => {
                assert(input@.subrange(pos as int, input@.len() as int) == input@);
                pos = pos + read;
                assert(out@ =~= d.0);
            },
        }
    }
    let text = match str_from_utf8(sha512_file_bytes) {
        Some(t) => t,
        None => return Err(TlpdbError::ChecksumNotUtf8),
    };
    assert(text@ == decode_utf8(sha512_file_bytes@));
    let ws = split_words(text);
    proof {
        reveal_strlit("");
    }
    let first: &str = if ws.len() > 0 {
        ws[0]
    } else {
        ""
    };
    assert(first@ == (if words(text@).len() > 0 { words(text@)[0] } else { seq![] }));
    let expected = to_lowercase(trim_str(first));
    let digest = sha512_digest(out.as_slice());
    let calculated = hex_encode(digest.as_slice());
    if !str_eq(calculated.as_str(), expected.as_str()) {
        let size = out.len();
        return Err(TlpdbError::HashMismatch { size, expected, calculated });
    }
    match string_from_utf8(out) {
        Some(s) => {
            proof {
                crate::text::lemma_same_bytes_same_str(s@, decode_utf8(out@));
            }
            Ok(s)
        },
        None => Err(TlpdbError::ContentNotUtf8),
    }
}

} // verus!
