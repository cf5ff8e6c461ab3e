use vstd::prelude::*;
use crate::text::{contains_bytes, contains_exec, starts_with, starts_with_exec, str_eq};
use vstd::string::*;

verus! {

/// The architectures that TeX Live distributes binaries for.
pub open spec fn known_tl_archs() -> Seq<Seq<char>> {
    seq![
        "windows"@,
        "x86_64-linux"@,
        "i386-freebsd"@,
        "i386-netbsd"@,
        "i386-linux"@,
        "universal-darwin"@,
        "amd64-freebsd"@,
        "amd64-netbsd"@,
        "armhf-linux"@,
        "x86_64-darwinlegacy"@,
        "x86_64-linuxmusl"@,
        "x86_64-cygwin"@,
        "aarch64-linux"@,
    ]
}

/// True when `arch` is the name of a TeX Live binary architecture.
pub fn is_known_tl_arch(arch: &str) -> (r: bool)
    ensures
        r == known_tl_archs().contains(arch@),
{
    let r = str_eq(arch, "windows")
        || str_eq(arch, "x86_64-linux")
        || str_eq(arch, "i386-freebsd")
        || str_eq(arch, "i386-netbsd")
        || str_eq(arch, "i386-linux")
        || str_eq(arch, "universal-darwin")
        || str_eq(arch, "amd64-freebsd")
        || str_eq(arch, "amd64-netbsd")
        || str_eq(arch, "armhf-linux")
        || str_eq(arch, "x86_64-darwinlegacy")
        || str_eq(arch, "x86_64-linuxmusl")
        || str_eq(arch, "x86_64-cygwin")
        || str_eq(arch, "aarch64-linux");
    proof {
        let k = known_tl_archs();
        assert(k[0] == "windows"@);
        assert(k[1] == "x86_64-linux"@);
        assert(k[2] == "i386-freebsd"@);
        assert(k[3] == "i386-netbsd"@);
        assert(k[4] == "i386-linux"@);
        assert(k[5] == "universal-darwin"@);
        assert(k[6] == "amd64-freebsd"@);
        assert(k[7] == "amd64-netbsd"@);
        assert(k[8] == "armhf-linux"@);
        assert(k[9] == "x86_64-darwinlegacy"@);
        assert(k[10] == "x86_64-linuxmusl"@);
        assert(k[11] == "x86_64-cygwin"@);
        assert(k[12] == "aarch64-linux"@);
        if !r {
            assert(!k.contains(arch@));
        }
    }
    r
}

/// The TeX Live architecture that corresponds to a Rust target triple,
/// given as the bytes of the triple.
pub open spec fn tl_arch_of_target(t: Seq<u8>) -> Option<Seq<char>> {
    if contains_bytes(t, "windows".spec_bytes()) {
        Some("windows"@)
    } else if contains_bytes(t, "apple-darwin".spec_bytes()) {
        Some("universal-darwin"@)
    } else if contains_bytes(t, "linux-gnu".spec_bytes()) {
        if starts_with(t, "x86_64".spec_bytes()) {
            Some("x86_64-linux"@)
        } else if starts_with(t, "aarch64".spec_bytes()) {
            Some("aarch64-linux"@)
        } else if starts_with(t, "i686".spec_bytes()) {
            Some("i386-linux"@)
        } else {
            None
        }
    } else if contains_bytes(t, "linux-musl".spec_bytes()) {
        if starts_with(t, "x86_64".spec_bytes()) {
            Some("x86_64-linuxmusl"@)
        } else {
            None
        }
    } else if contains_bytes(t, "freebsd".spec_bytes()) {
        if starts_with(t, "x86_64".spec_bytes()) {
            Some("amd64-freebsd"@)
        } else if starts_with(t, "i686".spec_bytes()) {
            Some("i386-freebsd"@)
        } else {
            None
        }
    } else {
        None
    }
}

/// The TeX Live architecture of the Rust target triple `target`
/// (for example `x86_64-unknown-linux-gnu`), or `None` when TeX Live has no
/// binaries for it.
pub fn get_target_arch(target: &str) -> (r: Option<&'static str>)
    ensures
        match r {
            Some(a) => tl_arch_of_target(target.spec_bytes()) == Some(a@),
            None => tl_arch_of_target(target.spec_bytes()) is None,
        },
{
    let t = target.as_bytes();
    if contains_exec(t, "windows".as_bytes()) {
        Some("windows")
    } else if contains_exec(t, "apple-darwin".as_bytes()) {
        Some("universal-darwin")
    } else if contains_exec(t, "linux-gnu".as_bytes()) {
        if starts_with_exec(t, "x86_64".as_bytes()) {
            Some("x86_64-linux")
        } else if starts_with_exec(t, "aarch64".as_bytes()) {
            Some("aarch64-linux")
        } else if starts_with_exec(t, "i686".as_bytes()) {
            Some("i386-linux")
        } else {
            None
        }
    } else if contains_exec(t, "linux-musl".as_bytes()) {
        if starts_with_exec(t, "x86_64".as_bytes()) {
            Some("x86_64-linuxmusl")
        } else {
            None
        }
    } else if contains_exec(t, "freebsd".as_bytes()) {
        if starts_with_exec(t, "x86_64".as_bytes()) {
            Some("amd64-freebsd")
        } else if starts_with_exec(t, "i686".as_bytes()) {
            Some("i386-freebsd")
        } else {
            None
        }
    } else {
        None
    }
}

} // verus!
