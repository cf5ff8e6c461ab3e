use tlx::arch::{get_target_arch, is_known_tl_arch};

#[test]
fn known_architectures_are_recognised() {
    assert!(is_known_tl_arch("windows"));
    assert!(is_known_tl_arch("x86_64-linux"));
    assert!(is_known_tl_arch("aarch64-linux"));
    assert!(is_known_tl_arch("universal-darwin"));
}

#[test]
fn unknown_architectures_are_refused() {
    assert!(!is_known_tl_arch("x86_64"));
    assert!(!is_known_tl_arch(""));
    assert!(!is_known_tl_arch("Windows"));
    assert!(!is_known_tl_arch("aarch64-linuxmusl"));
}

#[test]
fn target_triples_map_to_tex_live_architectures() {
    assert_eq!(get_target_arch("x86_64-pc-windows-msvc"), Some("windows"));
    assert_eq!(get_target_arch("x86_64-unknown-linux-gnu"), Some("x86_64-linux"));
    assert_eq!(get_target_arch("aarch64-unknown-linux-gnu"), Some("aarch64-linux"));
    assert_eq!(get_target_arch("i686-unknown-linux-gnu"), Some("i386-linux"));
    assert_eq!(get_target_arch("aarch64-apple-darwin"), Some("universal-darwin"));
    assert_eq!(get_target_arch("x86_64-unknown-linux-musl"), Some("x86_64-linuxmusl"));
    assert_eq!(get_target_arch("x86_64-unknown-freebsd"), Some("amd64-freebsd"));
    assert_eq!(get_target_arch("riscv64gc-unknown-linux-gnu"), None);
    assert_eq!(get_target_arch("wasm32-unknown-unknown"), None);
}

#[test]
fn law_target_arch_is_known_on_examples() {
    for t in [
        "x86_64-pc-windows-gnu",
        "x86_64-unknown-linux-gnu",
        "aarch64-unknown-linux-gnu",
        "x86_64-apple-darwin",
        "i686-unknown-freebsd",
        "x86_64-unknown-linux-musl",
    ] {
        let a = get_target_arch(t).unwrap();
        assert!(is_known_tl_arch(a), "{t} -> {a}");
    }
    // TeX Live has no binaries for aarch64 with musl
    assert_eq!(get_target_arch("aarch64-unknown-linux-musl"), None);
}
