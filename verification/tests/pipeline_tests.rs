use sha2::Digest;
use tlx::pipeline::{
    archive_url, check_sha512, eq_ignore_ascii_case_exec, new_dirs_for, route_path, unpack_and_route,
    RemoteFile, UnpackError, WritePayload,
};
use tlx::tree::Node;

const ABC_SHA512: &str = "ddaf35a193617abacc417349ae20413112e6fa4e89a97ea20a9eeee64b55d39a2192992a274fc1a836ba3c23a3feebbd454d4423643ce80e2a9ac94fa54ca49f";

fn raw(p: &str) -> Vec<Vec<u8>> {
    p.split('/').map(|c| c.as_bytes().to_vec()).collect()
}

fn comps(p: &str) -> Vec<String> {
    p.split('/').map(String::from).collect()
}

fn xz(data: &[u8]) -> Vec<u8> {
    let mut out = Vec::new();
    lzma_rs::xz_compress(&mut std::io::Cursor::new(data), &mut out).unwrap();
    out
}

fn unpacked(name: &str, archive: &[u8], relocated: bool) -> Vec<WritePayload> {
    let (payloads, err) = unpack_and_route(name, archive, relocated);
    assert!(err.is_none());
    payloads
}

fn tar_of(files: &[(&str, &[u8])], dirs: &[&str]) -> Vec<u8> {
    let mut b = tar::Builder::new(Vec::new());
    for d in dirs {
        let mut h = tar::Header::new_gnu();
        h.set_entry_type(tar::EntryType::Directory);
        h.set_size(0);
        h.set_mode(0o755);
        h.set_cksum();
        b.append_data(&mut h, d, std::io::empty()).unwrap();
    }
    for (name, data) in files {
        let mut h = tar::Header::new_gnu();
        h.set_size(data.len() as u64);
        h.set_mode(0o644);
        h.set_cksum();
        b.append_data(&mut h, name, *data).unwrap();
    }
    b.into_inner().unwrap()
}

#[test]
fn remote_file_keeps_its_fields() {
    let f = RemoteFile::new("a.r1.tar.xz".to_string(), "ff".to_string(), true);
    assert_eq!(f.name, "a.r1.tar.xz");
    assert_eq!(f.expected_sha512, "ff");
    assert!(f.relocated);
}

#[test]
fn archive_urls() {
    assert_eq!(archive_url("https://m.org/tl/", "a.r1.tar.xz"), "https://m.org/tl/archive/a.r1.tar.xz");
    assert_eq!(archive_url("", "x"), "archive/x");
}

fn sha512_hex(data: &[u8]) -> String {
    hex::encode(sha2::Sha512::digest(data))
}

#[test]
fn digest_of_known_text() {
    assert_eq!(sha512_hex(b"abc"), ABC_SHA512);
    assert!(check_sha512(b"abc", ABC_SHA512).is_ok());
    let err = check_sha512(b"", "00").unwrap_err();
    assert_eq!(err.calculated.len(), 128);
    assert_eq!(err.calculated, sha512_hex(b""));
}

#[test]
fn checksums_compare_without_case() {
    assert!(check_sha512(b"abc", ABC_SHA512).is_ok());
    assert!(check_sha512(b"abc", &ABC_SHA512.to_uppercase()).is_ok());
    let err = check_sha512(b"abd", &ABC_SHA512.to_uppercase()).unwrap_err();
    assert_eq!(err.expected, ABC_SHA512);
    assert_eq!(err.calculated, sha512_hex(b"abd"));
    assert!(check_sha512(b"abc", "").is_err());
}

#[test]
fn ascii_case_comparison() {
    assert!(eq_ignore_ascii_case_exec(b"AbC", b"aBc"));
    assert!(!eq_ignore_ascii_case_exec(b"abc", b"abd"));
    assert!(!eq_ignore_ascii_case_exec(b"abc", b"ab"));
    assert!(!eq_ignore_ascii_case_exec(b"[", b"{"));
}

#[test]
fn expected_digest_is_reported_in_unicode_lowercase() {
    let err = check_sha512(b"abc", "ABC-É").unwrap_err();
    assert_eq!(err.expected, "abc-é");
}

#[test]
fn routing_of_entry_paths() {
    assert_eq!(route_path(raw("tlobj/x.tlpobj"), false), raw("tlpkg/tlobj/x.tlpobj"));
    assert_eq!(route_path(raw("tlobj/x.tlpobj"), true), raw("tlpkg/tlobj/x.tlpobj"));
    assert_eq!(route_path(raw("tex/latex/a.sty"), true), raw("texmf-dist/tex/latex/a.sty"));
    assert_eq!(route_path(raw("texmf-dist/tex/a.sty"), false), raw("texmf-dist/tex/a.sty"));
    assert_eq!(route_path(vec![], true), raw("texmf-dist"));
    assert_eq!(route_path(raw("tlobjx/a"), false), raw("tlobjx/a"));
}

#[test]
fn unpacking_keeps_contents_and_kinds() {
    let archive = xz(&tar_of(&[("a.txt", b"hello world"), ("b/c.txt", b"")], &["b"]));
    let payloads = unpacked("x", &archive, false);
    assert_eq!(payloads.len(), 3);
    assert!(matches!(&payloads[0], WritePayload::Directory { routed_path, .. } if routed_path == &raw("b")));
    assert!(matches!(&payloads[1], WritePayload::File { routed_path, data, .. }
        if routed_path == &raw("a.txt") && data == b"hello world"));
    assert!(matches!(&payloads[2], WritePayload::File { routed_path, data, .. }
        if routed_path == &raw("b/c.txt") && data.is_empty()));
}

#[test]
fn unpacking_routes_every_entry() {
    let archive = xz(&tar_of(&[("tex/a.sty", b"AAA"), ("tlobj/p.tlpobj", b"P")], &["tex"]));
    let payloads = unpacked("p.r1.tar.xz", &archive, true);
    assert_eq!(payloads.len(), 3);
    match &payloads[0] {
        WritePayload::Directory { name, routed_path } => {
            assert_eq!(name, "p.r1.tar.xz");
            assert_eq!(routed_path, &raw("texmf-dist/tex"));
        }
        _ => panic!("expected a directory"),
    }
    match &payloads[1] {
        WritePayload::File { routed_path, data, .. } => {
            assert_eq!(routed_path, &raw("texmf-dist/tex/a.sty"));
            assert_eq!(data, &b"AAA".to_vec());
        }
        _ => panic!("expected a file"),
    }
    match &payloads[2] {
        WritePayload::File { routed_path, .. } => assert_eq!(routed_path, &raw("tlpkg/tlobj/p.tlpobj")),
        _ => panic!("expected a file"),
    }
}

#[test]
fn unpacking_errors() {
    let (payloads, err) = unpack_and_route("x", b"garbage garbage garbage", false);
    assert!(payloads.is_empty());
    assert!(matches!(err, Some(UnpackError::Xz(_))));
    let not_tar = xz(&[1u8; 700]);
    let (payloads, err) = unpack_and_route("x", &not_tar, false);
    assert!(payloads.is_empty());
    assert!(matches!(err, Some(UnpackError::Tar(_))));
}

#[test]
fn unpacking_keeps_the_entries_before_a_broken_header() {
    let mut bytes = tar_of(&[("a.txt", b"first"), ("b.txt", b"second")], &[]);
    bytes.truncate(bytes.len() - 1024);
    bytes.extend_from_slice(&[1u8; 512]);
    let (payloads, err) = unpack_and_route("x", &xz(&bytes), true);
    assert!(matches!(err, Some(UnpackError::Tar(_))));
    assert_eq!(payloads.len(), 2);
    assert!(matches!(&payloads[0], WritePayload::File { routed_path, data, .. }
        if routed_path == &raw("texmf-dist/a.txt") && data == b"first"));
    assert!(matches!(&payloads[1], WritePayload::File { routed_path, data, .. }
        if routed_path == &raw("texmf-dist/b.txt") && data == b"second"));
}

#[test]
fn payloads_ask_for_their_directories() {
    let mut tree = Node::default();
    let f = WritePayload::File { name: "a".into(), routed_path: raw("texmf-dist/tex/a.sty"), data: vec![] };
    assert_eq!(new_dirs_for(&mut tree, &f), vec![comps("texmf-dist"), comps("texmf-dist/tex")]);
    let d = WritePayload::Directory { name: "a".into(), routed_path: raw("texmf-dist/doc") };
    assert_eq!(new_dirs_for(&mut tree, &d), vec![comps("texmf-dist/doc")]);
    assert!(new_dirs_for(&mut tree, &f).is_empty());
}

#[test]
fn unpacking_refuses_a_footer_backward_size_of_all_ones() {
    let mut archive = xz(&tar_of(&[("a.txt", b"x")], &[]));
    let n = archive.len();
    for b in &mut archive[n - 8..n - 4] {
        *b = 0xff;
    }
    let (payloads, err) = unpack_and_route("x", &archive, false);
    assert!(payloads.is_empty());
    assert!(matches!(err, Some(UnpackError::Xz(_))));
}

#[test]
fn entries_with_paths_that_are_not_text_are_still_routed() {
    let mut b = tar::Builder::new(Vec::new());
    let mut h = tar::Header::new_gnu();
    h.set_size(1);
    h.set_mode(0o644);
    h.set_path("x").unwrap();
    h.as_old_mut().name[..3].copy_from_slice(b"a\xffb");
    h.as_old_mut().name[3] = 0;
    h.set_cksum();
    b.append(&h, &b"z"[..]).unwrap();
    let archive = xz(&b.into_inner().unwrap());
    let (payloads, err) = unpack_and_route("x", &archive, true);
    assert!(err.is_none());
    assert_eq!(payloads.len(), 1);
    assert!(matches!(&payloads[0], WritePayload::File { routed_path, data, .. }
        if routed_path == &vec![b"texmf-dist".to_vec(), b"a\xffb".to_vec()] && data == b"z"));
}
