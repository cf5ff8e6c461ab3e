//! The values that move through the download pipeline, and the decisions
//! that it takes on them.
use vstd::prelude::*;
use vstd::string::*;
use vstd::utf8::*;
use crate::codec::{
    hex_encode, hex_text, lowercase_of, sha512_digest, sha512_of, tar_listing, tar_read, to_lowercase,
    xz_decoding, xz_decompress_checked, xz_decodable, TarItem, TarItemView, TarKind,
};
use crate::text::{bytes_eq, push_bytes, str_eq, string_from_utf8};
use crate::tree::{distinct_dirs, file_name_of, files_at, has_dir, is_prefix, missing_dirs, parent_of, paths_view, Node};

verus! {

broadcast use vstd::utf8::encode_utf8_valid_utf8, vstd::utf8::encode_utf8_decode_utf8;

/// An archive to download: its file name on the mirror, the SHA-512 checksum
/// that the database gives for it, and whether its files are relocatable.
#[derive(Debug)]
pub struct RemoteFile {
    pub name: String,
    pub expected_sha512: String,
    pub relocated: bool,
}

/// A remote file with its texts given as UTF-8 bytes.
pub struct RemoteFileView {
    pub name: Seq<u8>,
    pub expected_sha512: Seq<u8>,
    pub relocated: bool,
}

impl View for RemoteFile {
    type V = RemoteFileView;

    open spec fn view(&self) -> RemoteFileView {
        RemoteFileView {
            name: encode_utf8(self.name@),
            expected_sha512: encode_utf8(self.expected_sha512@),
            relocated: self.relocated,
        }
    }
}

impl RemoteFile {
    pub fn new(name: String, expected_sha512: String, relocated: bool) -> (r: RemoteFile)
        ensures
            r.name == name,
            r.expected_sha512 == expected_sha512,
            r.relocated == relocated,
    {
        RemoteFile { name, expected_sha512, relocated }
    }
}


/// What the pipeline reports of its stages.
#[derive(Debug)]
pub enum PipelineEvent {
    ProducerNote { counter: usize },
    DownloadStarted { id_worker: usize, pkg_name: String },
    DownloadFinished { id_worker: usize, pkg_name: String, bytes_len: usize },
    DownloadFailed { id_worker: usize, pkg_name: String, error: String },
    ExtractionStarted { id_worker: usize, pkg_name: String },
    ExtractionFinished { id_worker: usize, pkg_name: String },
    ExtractionFailed { id_worker: usize, pkg_name: String, error: String },
}

/// The URL of an archive on the mirror: `<mirror>archive/<file name>`.
pub open spec fn archive_url_of(mirror_url: Seq<u8>, file_name: Seq<u8>) -> Seq<u8> {
    mirror_url + "archive/".spec_bytes() + file_name
}

/// The URL of the archive `file_name` on the mirror `mirror_url`.
pub fn archive_url(mirror_url: &str, file_name: &str) -> (r: String)
    ensures
        encode_utf8(r@) == archive_url_of(mirror_url.spec_bytes(), file_name.spec_bytes()),
{
    let mut v: Vec<u8> = Vec::new();
    push_bytes(&mut v, mirror_url.as_bytes());
    push_bytes(&mut v, "archive/".as_bytes());
    let ghost mid = v@;
    push_bytes(&mut v, file_name.as_bytes());
    proof {
        vstd::utf8::valid_utf8_concat(mirror_url.spec_bytes(), "archive/".spec_bytes());
        vstd::utf8::valid_utf8_concat(mid, file_name.spec_bytes());
    }
    match string_from_utf8(v) {
        Some(s) => s,
        None => {
            assert(false);
            String::new()
        },
    }
}

/// A byte with ASCII capitals made small.
pub open spec fn ascii_lower(b: u8) -> u8 {
    if 65 <= b <= 90 {
        (b + 32) as u8
    } else {
        b
    }
}

/// Equality of two byte strings that ignores the case of ASCII letters
/// (`str::eq_ignore_ascii_case`).
pub open spec fn eq_ignore_ascii_case(a: Seq<u8>, b: Seq<u8>) -> bool {
    a.len() == b.len() && forall|i: int| 0 <= i < a.len() ==> ascii_lower(a[i]) == ascii_lower(b[i])
}

/// Whether `a` and `b` are equal up to the case of ASCII letters.
pub fn eq_ignore_ascii_case_exec(a: &[u8], b: &[u8]) -> (r: bool)
    ensures
        r == eq_ignore_ascii_case(a@, b@),
{
    if a.len() != b.len() {
        return false;
    }
    let mut i: usize = 0;
    while i < a.len()
        invariant
            a@.len() == b@.len(),
            i <= a@.len(),
            forall|j: int| 0 <= j < i ==> ascii_lower(a@[j]) == ascii_lower(b@[j]),
        decreases a@.len() - i,
    {
        let x = a[i];
        let y = b[i];
        let lx: u8 = if 65 <= x && x <= 90 { x + 32 } else { x };
        let ly: u8 = if 65 <= y && y <= 90 { y + 32 } else { y };
        if lx != ly {
            return false;
        }
        i = i + 1;
    }
    true
}

/// A downloaded archive whose SHA-512 digest is not the expected one: the
/// expected digest lowercased, and the computed one.
#[derive(Debug)]
pub struct ChecksumMismatch {
    pub expected: String,
    pub calculated: String,
}

/// Checks that the SHA-512 digest of `data`, as lowercase hexadecimal text,
/// equals `expected_sha512` up to the case of ASCII letters.
pub fn check_sha512(data: &[u8], expected_sha512: &str) -> (r: Result<(), ChecksumMismatch>)
    ensures
        r is Ok <==> eq_ignore_ascii_case(
            encode_utf8(hex_text(sha512_of(data@))),
            expected_sha512.spec_bytes(),
        ),
        r matches Err(m) ==> m.expected@ == lowercase_of(expected_sha512@) && m.calculated@
            == hex_text(sha512_of(data@)),
{
    let digest = sha512_digest(data);
    let calculated = hex_encode(digest.as_slice());
    if !eq_ignore_ascii_case_exec(calculated.as_str().as_bytes(), expected_sha512.as_bytes()) {
        let expected = to_lowercase(expected_sha512);
        return Err(ChecksumMismatch { expected, calculated });
    }
    Ok(())
}

/// Where an entry of an archive goes, relative to the installation
/// directory: entries under `tlobj` go under `tlpkg`, the entries of a
/// relocatable package under `texmf-dist`, the others where they are.
pub open spec fn routed(path: Seq<Seq<u8>>, relocated: bool) -> Seq<Seq<u8>> {
    if path.len() > 0 && path[0] == "tlobj".spec_bytes() {
        seq!["tlpkg".spec_bytes()] + path
    } else if relocated {
        seq!["texmf-dist".spec_bytes()] + path
    } else {
        path
    }
}

/// The contents of a list of byte strings.
pub open spec fn bytes_view(v: Seq<Vec<u8>>) -> Seq<Seq<u8>> {
    v.map_values(|c: Vec<u8>| c@)
}

/// Every component of the path `p` is UTF-8 text.
pub open spec fn utf8_path(p: Seq<Seq<u8>>) -> bool {
    forall|i: int| 0 <= i < p.len() ==> valid_utf8(#[trigger] p[i])
}

/// The path `p` with each component read as UTF-8 text.
pub open spec fn text_path(p: Seq<Seq<u8>>) -> Seq<Seq<char>> {
    p.map_values(|c: Seq<u8>| decode_utf8(c))
}

/// The texts of a list of strings.
pub open spec fn strings_view(v: Seq<String>) -> Seq<Seq<char>> {
    v.map_values(|s: String| s@)
}

/// Routes the path `path` (its components) of an entry of an archive.
pub fn route_path(path: Vec<Vec<u8>>, relocated: bool) -> (r: Vec<Vec<u8>>)
    ensures
        bytes_view(r@) == routed(bytes_view(path@), relocated),
{
    let ghost p = bytes_view(path@);
    proof {
        reveal_strlit("tlobj");
        reveal_strlit("tlpkg");
        reveal_strlit("texmf-dist");
    }
    let mut out = path;
    let under_tlobj = out.len() > 0 && bytes_eq(out[0].as_slice(), "tlobj".as_bytes());
    if under_tlobj {
        let mut first: Vec<u8> = Vec::new();
        push_bytes(&mut first, "tlpkg".as_bytes());
        out.insert(0, first);
        assert(bytes_view(out@) =~= seq!["tlpkg".spec_bytes()] + p);
    } else if relocated {
        let mut first: Vec<u8> = Vec::new();
        push_bytes(&mut first, "texmf-dist".as_bytes());
        out.insert(0, first);
        assert(bytes_view(out@) =~= seq!["texmf-dist".spec_bytes()] + p);
    }
    out
}

/// What the unpacking stage hands to the disk writer: a file with its
/// contents, or a directory, each with the name of its archive and its
/// routed path.
#[derive(Debug)]
pub enum WritePayload {
    File { name: String, routed_path: Vec<Vec<u8>>, data: Vec<u8> },
    Directory { name: String, routed_path: Vec<Vec<u8>> },
}

/// A payload as plain values.
pub enum WritePayloadView {
    File { name: Seq<char>, routed_path: Seq<Seq<u8>>, data: Seq<u8> },
    Directory { name: Seq<char>, routed_path: Seq<Seq<u8>> },
}

impl View for WritePayload {
    type V = WritePayloadView;

    open spec fn view(&self) -> WritePayloadView {
        match self {
            WritePayload::File { name, routed_path, data } => WritePayloadView::File {
                name: name@,
                routed_path: bytes_view(routed_path@),
                data: data@,
            },
            WritePayload::Directory { name, routed_path } => WritePayloadView::Directory {
                name: name@,
                routed_path: bytes_view(routed_path@),
            },
        }
    }
}

/// The payload of one entry of the archive `name`: directories and regular
/// files, routed; nothing for the other kinds of entries.
pub open spec fn payload_of(name: Seq<char>, t: TarItemView, relocated: bool) -> Seq<WritePayloadView> {
    match t.kind {
        TarKind::Directory => seq![
            WritePayloadView::Directory { name, routed_path: routed(t.path, relocated) },
        ],
        TarKind::Regular => seq![
            WritePayloadView::File { name, routed_path: routed(t.path, relocated), data: t.data },
        ],
        TarKind::Other => seq![],
    }
}

/// The payloads of the entries `items` of the archive `name`, in order.
pub open spec fn payloads_of(name: Seq<char>, items: Seq<TarItemView>, relocated: bool) -> Seq<
    WritePayloadView,
>
    decreases items.len(),
{
    if items.len() == 0 {
        seq![]
    } else {
        payloads_of(name, items.drop_last(), relocated) + payload_of(name, items.last(), relocated)
    }
}

/// Why an archive could not be unpacked.
#[derive(Debug)]
pub enum UnpackError {
    /// The XZ data is broken: the decoder's message.
    Xz(String),
    /// The tar archive is broken.
    Tar(std::io::Error),
}

/// Unpacks the archive `name` (a tar archive compressed with XZ) into the
/// payloads for the disk writer, in the order of its entries. Where the tar
/// archive breaks off, the payloads of the entries read before the break
/// come back together with the error; where the XZ data is broken, nothing
/// is unpacked.
///
/// Paths are kept as the bytes of each component, whatever they hold; the
/// tree of installed files takes them as text (`new_dirs_for`).
pub fn unpack_and_route(name: &str, compressed_data: &[u8], relocated: bool) -> (r: (
    Vec<WritePayload>,
    Option<UnpackError>,
))
    ensures
        !(xz_decodable(compressed_data@) && xz_decoding(compressed_data@).2) ==> r.0@.len() == 0
            && r.1 matches Some(UnpackError::Xz(_)),
        xz_decodable(compressed_data@) && xz_decoding(compressed_data@).2 ==> {
            &&& r.0@.map_values(|p: WritePayload| p@) == payloads_of(
                name@,
                tar_listing(xz_decoding(compressed_data@).0).0,
                relocated,
            )
            &&& r.1 is None <==> tar_listing(xz_decoding(compressed_data@).0).1
            &&& r.1 is None || r.1 matches Some(UnpackError::Tar(_))
        },
{
    let mut decompressed: Vec<u8> = Vec::new();
    let (_, err) = xz_decompress_checked(compressed_data, 0, &mut decompressed);
    assert(compressed_data@.subrange(0, compressed_data@.len() as int) =~= compressed_data@);
    if let Some(e) = err {
        return (Vec::new(), Some(UnpackError::Xz(e)));
    }
    let (items, tar_error) = tar_read(decompressed);
    let ghost s = items@;
    let ghost its = items@.map_values(|t: TarItem| t@);
    let mut out: Vec<WritePayload> = Vec::new();
    assert(its.take(0) =~= Seq::<TarItemView>::empty());
    assert(out@.map_values(|p: WritePayload| p@) =~= Seq::<WritePayloadView>::empty());
    for item in it: items
        invariant
            s == it.seq(),
            its == s.map_values(|t: TarItem| t@),
            out@.map_values(|p: WritePayload| p@) == payloads_of(name@, its.take(it.index() as int), relocated),
    {
        let ghost k = it.index() as int;
        let ghost before = out@.map_values(|p: WritePayload| p@);
        assert(item == s[k]);
        proof {
            assert(its.take(k + 1).drop_last() =~= its.take(k));
            assert(its.take(k + 1).last() == its[k]);
        }
        let TarItem { kind, path, data } = item;
        match kind {
            TarKind::Directory => {
                let routed_path = route_path(path, relocated);
                out.push(WritePayload::Directory { name: name.to_owned(), routed_path });
            },
            TarKind::Regular => {
                let routed_path = route_path(path, relocated);
                out.push(WritePayload::File { name: name.to_owned(), routed_path, data });
            },
            TarKind::Other => {},
        }
        assert(out@.map_values(|p: WritePayload| p@) =~= before + payload_of(name@, its[k], relocated));
    }
    let ghost n = its.len();
    assert(its.take(n as int) =~= its);
    let error = match tar_error {
        Some(e) => Some(UnpackError::Tar(e)),
        None => None,
    };
    (out, error)
}

/// The path `p` as text, each component decoded from UTF-8.
fn path_text(p: &Vec<Vec<u8>>) -> (r: Vec<String>)
    requires
        utf8_path(p@.map_values(|c: Vec<u8>| c@)),
    ensures
        strings_view(r@) == text_path(bytes_view(p@)),
{
    let ghost bp = bytes_view(p@);
    let mut r: Vec<String> = Vec::new();
    let mut i: usize = 0;
    while i < p.len()
        invariant
            i <= p@.len(),
            bp == bytes_view(p@),
            utf8_path(bp),
            strings_view(r@) == text_path(bp).take(i as int),
        decreases p@.len() - i,
    {
        assert(valid_utf8(bp[i as int]));
        let c = p[i].clone();
        assert(c@ == bp[i as int]);
        match string_from_utf8(c) {
            Some(t) => {
                assert(decode_utf8(encode_utf8(t@)) == t@);
                assert(t@ == text_path(bp)[i as int]);
                let ghost before = r@;
                r.push(t);
                assert(strings_view(r@) =~= strings_view(before).push(t@));
                assert(text_path(bp).take(i + 1) =~= text_path(bp).take(i as int).push(text_path(bp)[i as int]));
            },
            None => {
                assert(false);
            },
        }
        i = i + 1;
    }
    assert(text_path(bp).take(p@.len() as int) =~= text_path(bp));
    r
}

/// Records a payload in the tree of installed files and gives the
/// directories that must be created before it is written, from the
/// outermost: for a file, the missing directories above it; for a
/// directory, the missing ones down to it. The tree keeps names as text:
/// every component of the payload's path must be UTF-8.
pub fn new_dirs_for(tree: &mut Node, payload: &WritePayload) -> (r: Vec<Vec<String>>)
    requires
        match payload@ {
            WritePayloadView::File { routed_path, .. } => utf8_path(routed_path),
            WritePayloadView::Directory { routed_path, .. } => utf8_path(routed_path),
        },
    ensures
        match payload@ {
            WritePayloadView::File { routed_path, .. } => {
                &&& paths_view(r@) == match parent_of(text_path(routed_path)) {
                    Some(q) => missing_dirs(*old(tree), q),
                    None => seq![],
                }
                &&& forall|p: Seq<Seq<char>>|
                    #[trigger] has_dir(*final(tree), p) <==> has_dir(*old(tree), p) || (parent_of(
                        text_path(routed_path),
                    ) matches Some(q) && is_prefix(p, q))
                &&& forall|q: Seq<Seq<char>>|
                    #[trigger] files_at(*final(tree), q) == if parent_of(text_path(routed_path)) == Some(q)
                        && file_name_of(text_path(routed_path)) is Some {
                        files_at(*old(tree), q).push(file_name_of(text_path(routed_path))->0)
                    } else {
                        files_at(*old(tree), q)
                    }
            },
            WritePayloadView::Directory { routed_path, .. } => {
                &&& paths_view(r@) == missing_dirs(*old(tree), text_path(routed_path))
                &&& forall|p: Seq<Seq<char>>|
                    #[trigger] has_dir(*final(tree), p) <==> has_dir(*old(tree), p) || is_prefix(
                        p,
                        text_path(routed_path),
                    )
                &&& forall|q: Seq<Seq<char>>| #[trigger] files_at(*final(tree), q) == files_at(*old(tree), q)
            },
        },
        distinct_dirs(*old(tree)) ==> distinct_dirs(*final(tree)),
{
    match payload {
        WritePayload::File { routed_path, .. } => {
            let comps = path_text(routed_path);
            tree.insert_file_path(comps.as_slice())
        },
        WritePayload::Directory { routed_path, .. } => {
            let comps = path_text(routed_path);
            tree.insert_dir(comps.as_slice())
        },
    }
}
} // verus!
