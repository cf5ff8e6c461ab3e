//! The decoders and digests that the installer takes from other crates:
//! XZ decompression (`lzma-rs`), tar listings (`tar`), SHA-512 (`sha2`) and
//! hexadecimal text (`hex`), each behind a small function whose contract
//! says what the rest of the library may rely on.
use vstd::prelude::*;
use vstd::string::*;
use vstd::utf8::*;
use sha2::Digest;
use std::io::{self, Cursor, Read};
use tar::EntryType::{Directory as TarDirectory, Regular as TarRegular};
use crate::codec::TarKind::{Directory, Other, Regular};

verus! {

/// What `lzma_rs::xz_decompress` does with the bytes `data`: the bytes it
/// writes, the number of input bytes it consumes, whether it succeeds, and
/// whether it fails on the check of the index size against the backward
/// size read from the stream footer.
pub uninterp spec fn xz_decoding(data: Seq<u8>) -> (Seq<u8>, nat, bool, bool);

/// Four zero bytes.
pub open spec fn zero_word() -> Seq<u8> {
    seq![0u8, 0u8, 0u8, 0u8]
}

/// The four bytes of `d` from `q` are all `0xFF`.
pub open spec fn all_ones_at(d: Seq<u8>, q: int) -> bool {
    &&& 0 <= q && q + 4 <= d.len()
    &&& d[q] == 0xff && d[q + 1] == 0xff && d[q + 2] == 0xff && d[q + 3] == 0xff
}

/// The decoder can be run on `d`: it is under 4 GiB + 4 bytes, and the
/// decoder never reads a footer backward size of `0xFFFFFFFF` from it.
pub open spec fn xz_decodable(d: Seq<u8>) -> bool {
    d.len() < 0x1_0000_0004 && xz_footer_safe(d)
}

/// The decoder never reads a footer backward size of `0xFFFFFFFF` from `d`:
/// wherever those four bytes stand, the decoder run on the bytes before
/// them followed by four zero bytes does not come to the index-size check.
pub open spec fn xz_footer_safe(d: Seq<u8>) -> bool {
    forall|q: int| #[trigger] all_ones_at(d, q) ==> !xz_decoding(d.subrange(0, q) + zero_word()).3
}

/// `lzma_rs::xz_decompress` on the bytes of `input` from offset `pos`:
/// appends what it decodes to `out` and gives the number of bytes it read,
/// the error text when it fails, and whether the failure is the index-size
/// check of the stream footer. The decoder only succeeds once the input is
/// exhausted (it checks for end of input after the stream footer).
///
/// The decoder computes `(backward_size + 1) << 2` on the `u32` that it
/// reads as the footer's backward size, which overflows, and so panics
/// where overflow is checked, for `0xFFFFFFFF`. It reads its input in
/// order, so it reads that field exactly where, run on the bytes before it
/// followed by four zero bytes, it reads a backward size of 0 and fails the
/// index-size check (an index takes at least 8 bytes, and the check
/// compares its size truncated to 32 bits with 4): `requires` leaves out
/// those inputs. The input is also held under 4 GiB + 4 bytes, so that no
/// index is large enough for its truncated size to be 4.
#[verifier::external_body]
pub(crate) fn xz_decompress_from(input: &[u8], pos: usize, out: &mut Vec<u8>) -> (r: (usize, Option<String>, bool))
    requires
        pos <= input@.len(),
        input@.len() - pos < 0x1_0000_0004,
        xz_footer_safe(input@.subrange(pos as int, input@.len() as int)),
    ensures
        final(out)@ == old(out)@ + xz_decoding(input@.subrange(pos as int, input@.len() as int)).0,
        r.0 == xz_decoding(input@.subrange(pos as int, input@.len() as int)).1,
        r.0 <= input@.len() - pos,
        r.1 is None <==> xz_decoding(input@.subrange(pos as int, input@.len() as int)).2,
        r.1 is None ==> r.0 == input@.len() - pos,
        r.2 == xz_decoding(input@.subrange(pos as int, input@.len() as int)).3,
{
    let mut cursor = Cursor::new(&input[pos..]);
    let res = lzma_rs::xz_decompress(&mut cursor, out);
    let index_size = matches!(&res, Err(lzma_rs::error::Error::XzError(m)) if m.starts_with("Invalid index size"));
    (cursor.position() as usize, res.err().map(|e| e.to_string()), index_size)
}

/// Decodes, as `xz_decompress_from` does, the XZ data of `input` from
/// offset `pos`, but first looks for a footer backward size of
/// `0xFFFFFFFF`, which the decoder cannot take: each place where four
/// `0xFF` bytes stand is tried by decoding what comes before it followed by
/// four zero bytes. Where the decoder would read such a field, nothing is
/// decoded and the error comes back with the bytes read up to its end;
/// an input of 4 GiB + 4 bytes or more is refused in the same way.
pub(crate) fn xz_decompress_checked(input: &[u8], pos: usize, out: &mut Vec<u8>) -> (r: (usize, Option<String>))
    requires
        pos <= input@.len(),
    ensures
        ({
            let d = input@.subrange(pos as int, input@.len() as int);
            if xz_decodable(d) {
                &&& final(out)@ == old(out)@ + xz_decoding(d).0
                &&& r.0 == xz_decoding(d).1
                &&& r.1 is None <==> xz_decoding(d).2
                &&& r.1 is None ==> r.0 == d.len()
            } else {
                &&& final(out)@ == old(out)@
                &&& 0 < r.0 <= d.len()
                &&& r.1 is Some
            }
        }),
{
    let ghost d = input@.subrange(pos as int, input@.len() as int);
    if (input.len() - pos) as u64 >= 0x1_0000_0004u64 {
        return (1, Some("the XZ data is larger than the decoder can check".to_owned()));
    }
    let mut q: usize = pos;
    while input.len() - q >= 4
        invariant
            pos <= q <= input@.len(),
            input@.len() - pos < 0x1_0000_0004,
            d == input@.subrange(pos as int, input@.len() as int),
            forall|k: int|
                0 <= k < q - pos && #[trigger] all_ones_at(d, k) ==> !xz_decoding(
                    d.subrange(0, k) + zero_word(),
                ).3,
        decreases input@.len() - q,
    {
        if input[q] == 0xff && input[q + 1] == 0xff && input[q + 2] == 0xff && input[q + 3] == 0xff {
            let mut probe: Vec<u8> = Vec::new();
            let mut j: usize = pos;
            while j < q
                invariant
                    pos <= j <= q,
                    q + 4 <= input@.len(),
                    probe@ == input@.subrange(pos as int, j as int),
                decreases q - j,
            {
                probe.push(input[j]);
                j = j + 1;
                assert(probe@ =~= input@.subrange(pos as int, j as int));
            }
            probe.push(0);
            probe.push(0);
            probe.push(0);
            probe.push(0);
            let ghost m = q - pos;
            assert(probe@ =~= d.subrange(0, m as int) + zero_word());
            assert(probe@.subrange(0, probe@.len() as int) =~= probe@);
            assert forall|k: int| #[trigger] all_ones_at(probe@, k) implies !xz_decoding(
                probe@.subrange(0, k) + zero_word(),
            ).3 by {
                if k + 4 > m {
                    let i = if k >= m { k } else { m as int };
                    assert(probe@[i] == 0);
                    assert(false);
                }
                assert(probe@.subrange(0, k) =~= d.subrange(0, k));
                assert(all_ones_at(d, k));
            }
            let mut scratch: Vec<u8> = Vec::new();
            let (_, _, index_size) = xz_decompress_from(&probe, 0, &mut scratch);
            if index_size {
                assert(all_ones_at(d, m as int));
                return (q - pos + 4, Some("the stream footer gives a backward size of 0xFFFFFFFF".to_owned()));
            }
            assert(all_ones_at(d, m as int));
        }
        q = q + 1;
    }
    assert forall|k: int| #[trigger] all_ones_at(d, k) implies !xz_decoding(d.subrange(0, k) + zero_word()).3 by {
        assert(k < q - pos);
    }
    let (n, e, _) = xz_decompress_from(input, pos, out);
    (n, e)
}

/// The SHA-512 digest of `data`.
pub uninterp spec fn sha512_of(data: Seq<u8>) -> Seq<u8>;

/// `sha2::Sha512::digest`: the 64-byte SHA-512 digest of `data`.
#[verifier::external_body]
pub(crate) fn sha512_digest(data: &[u8]) -> (r: Vec<u8>)
    ensures
        r@ == sha512_of(data@),
        r@.len() == 64,
{
    sha2::Sha512::digest(data).to_vec()
}

/// The lowercase hexadecimal digit of `n < 16`.
pub open spec fn hex_digit(n: u8) -> char {
    if n < 10 {
        (n + 48) as char
    } else {
        (n + 87) as char
    }
}

/// Two lowercase hexadecimal digits per byte, the high half first.
pub open spec fn hex_text(b: Seq<u8>) -> Seq<char> {
    Seq::new(
        2 * b.len(),
        |i: int|
            if i % 2 == 0 {
                hex_digit(b[i / 2] / 16)
            } else {
                hex_digit(b[i / 2] % 16)
            },
    )
}

/// `hex::encode`: each byte as two lowercase hexadecimal digits, the high
/// half first.
#[verifier::external_body]
pub(crate) fn hex_encode(b: &[u8]) -> (r: String)
    ensures
        r@ == hex_text(b@),
{
    hex::encode(b)
}

/// The string whose UTF-8 encoding is `b` (`std::str::from_utf8`), or `None`
/// when `b` is not valid UTF-8.
#[verifier::external_body]
pub(crate) fn str_from_utf8(b: &[u8]) -> (r: Option<&str>)
    ensures
        r is Some <==> valid_utf8(b@),
        r matches Some(s) ==> s.spec_bytes() == b@,
{
    std::str::from_utf8(b).ok()
}

/// The Unicode lowercase form of `s` (`str::to_lowercase`).
pub uninterp spec fn lowercase_of(s: Seq<char>) -> Seq<char>;

/// `str::to_lowercase`.
#[verifier::external_body]
pub(crate) fn to_lowercase(s: &str) -> (r: String)
    ensures
        r@ == lowercase_of(s@),
{
    s.to_lowercase()
}

/// The kind of a tar entry, as far as the installer tells them apart.
#[derive(Debug, PartialEq, Eq, Structural)]
pub enum TarKind {
    Directory,
    Regular,
    Other,
}

/// One entry of a tar archive: its kind, its path as the list of its path
/// components (each as the bytes of its platform encoding), and, for a
/// regular file, its contents.
#[derive(Debug)]
pub struct TarItem {
    pub kind: TarKind,
    pub path: Vec<Vec<u8>>,
    pub data: Vec<u8>,
}

/// A tar entry as plain values.
pub struct TarItemView {
    pub kind: TarKind,
    pub path: Seq<Seq<u8>>,
    pub data: Seq<u8>,
}

impl View for TarItem {
    type V = TarItemView;

    open spec fn view(&self) -> TarItemView {
        TarItemView {
            kind: self.kind,
            path: self.path@.map_values(|c: Vec<u8>| c@),
            data: self.data@,
        }
    }
}

#[verifier::external_type_specification]
#[verifier::external_body]
pub struct ExIoError(io::Error);

/// What the `tar` crate reads from the archive `data`: the entries, in
/// order, up to the first error, and whether the reading came to the end without an error.
pub uninterp spec fn tar_listing(data: Seq<u8>) -> (Seq<TarItemView>, bool);

/// `tar::Archive::entries` over the archive `data`, each entry handed out as
/// plain values: its kind (`Header::entry_type`), its path components
/// (`Path::iter` over `Entry::path`, each `OsStr::as_encoded_bytes`), and
/// for a regular file the bytes that `read_to_end` gives (no bytes for the
/// other kinds). Reading stops at the first error that the crate reports;
/// the entries read before it are kept.
#[verifier::external_body]
pub(crate) fn tar_read(data: Vec<u8>) -> (r: (Vec<TarItem>, Option<io::Error>))
    ensures
        r.0@.map_values(|t: TarItem| t@) == tar_listing(data@).0,
        r.1 is None <==> tar_listing(data@).1,
        forall|i: int|
            0 <= i < r.0@.len() && r.0@[i].kind != TarKind::Regular ==> (#[trigger] r.0@[i]).data@.len() == 0,
{
    let mut items = Vec::new();
    let read = || -> io::Result<()> {
        for entry in tar::Archive::new(Cursor::new(data)).entries()? {
            let mut entry = entry?;
            let path = entry.path()?.iter().map(|c| c.as_encoded_bytes().to_vec()).collect();
            let kind = match entry.header().entry_type() { TarDirectory => Directory, TarRegular => Regular, _ => Other };
            let mut data = Vec::new();
            if kind == Regular { entry.read_to_end(&mut data)?; }
            items.push(TarItem { kind, path, data });
        }
        Ok(())
    };
    let err = read().err();
    (items, err)
}

} // verus!
