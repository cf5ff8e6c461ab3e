//! The layout of a TeX Live installation under its home directory.
use vstd::prelude::*;
use vstd::string::*;
use vstd::utf8::*;
use crate::pipeline::strings_view;
use crate::text::{decimal, lemma_decimal_digits, push_decimal, string_from_utf8};

verus! {

/// The directories of an installation, each as the list of its path
/// components relative to the TeX Live home.
#[derive(Debug)]
pub struct InstallContext {
    pub install_dir: Vec<String>,
    pub texmf_bin: Vec<String>,
    pub texmf_dist: Vec<String>,
    pub texmf_var: Vec<String>,
    pub texmf_config: Vec<String>,
    pub texmf_home: Vec<String>,
    pub local_tlpdb_dir: Vec<String>,
    pub language_file_dir: Vec<String>,
    pub fmtutil_cnf_dir: Vec<String>,
}

/// The decimal text of `n`.
fn decimal_string(n: u16) -> (r: String)
    ensures
        encode_utf8(r@) == decimal(n as nat),
{
    let mut v: Vec<u8> = Vec::new();
    push_decimal(&mut v, n as u64);
    proof {
        lemma_decimal_digits(n as nat);
        assert(v@ =~= decimal(n as nat));
    }
    match string_from_utf8(v) {
        Some(s) => s,
        None => {
            assert(false);
            String::new()
        },
    }
}

/// The texts of the strings of `v`.
pub open spec fn path_of(v: Vec<String>) -> Seq<Seq<char>> {
    strings_view(v@)
}

impl InstallContext {
    /// The layout of the installation of release `year` for the
    /// architecture `target_arch`: the release directory `<year>`, with
    /// `bin/<arch>`, `texmf-dist`, `texmf-var`, `texmf-config`, `tlpkg`,
    /// `texmf-var/tex/generic/config` (the language files) and
    /// `texmf-dist/web2c` (fmtutil.cnf) in it, and `texmf-local` beside it.
    pub fn setup(year: u16, target_arch: &str) -> (r: InstallContext)
        ensures
            encode_utf8(path_of(r.install_dir)[0]) == decimal(year as nat),
            path_of(r.install_dir).len() == 1,
            path_of(r.texmf_bin) == path_of(r.install_dir) + seq!["bin"@, target_arch@],
            path_of(r.texmf_dist) == path_of(r.install_dir) + seq!["texmf-dist"@],
            path_of(r.texmf_var) == path_of(r.install_dir) + seq!["texmf-var"@],
            path_of(r.texmf_config) == path_of(r.install_dir) + seq!["texmf-config"@],
            path_of(r.texmf_home) == seq!["texmf-local"@],
            path_of(r.local_tlpdb_dir) == path_of(r.install_dir) + seq!["tlpkg"@],
            path_of(r.language_file_dir) == path_of(r.texmf_var) + seq![
                "tex"@,
                "generic"@,
                "config"@,
            ],
            path_of(r.fmtutil_cnf_dir) == path_of(r.texmf_dist) + seq!["web2c"@],
    {
        let y = decimal_string(year);
        let install_dir = vec![y.clone()];
        let texmf_bin = vec![y.clone(), "bin".to_owned(), target_arch.to_owned()];
        let texmf_dist = vec![y.clone(), "texmf-dist".to_owned()];
        let texmf_var = vec![y.clone(), "texmf-var".to_owned()];
        let texmf_config = vec![y.clone(), "texmf-config".to_owned()];
        let texmf_home = vec!["texmf-local".to_owned()];
        let local_tlpdb_dir = vec![y.clone(), "tlpkg".to_owned()];
        let language_file_dir = vec![
            y.clone(),
            "texmf-var".to_owned(),
            "tex".to_owned(),
            "generic".to_owned(),
            "config".to_owned(),
        ];
        let fmtutil_cnf_dir = vec![y, "texmf-dist".to_owned(), "web2c".to_owned()];
        let r = InstallContext {
            install_dir,
            texmf_bin,
            texmf_dist,
            texmf_var,
            texmf_config,
            texmf_home,
            local_tlpdb_dir,
            language_file_dir,
            fmtutil_cnf_dir,
        };
        assert(path_of(r.texmf_bin) =~= path_of(r.install_dir) + seq!["bin"@, target_arch@]);
        assert(path_of(r.texmf_dist) =~= path_of(r.install_dir) + seq!["texmf-dist"@]);
        assert(path_of(r.texmf_var) =~= path_of(r.install_dir) + seq!["texmf-var"@]);
        assert(path_of(r.texmf_config) =~= path_of(r.install_dir) + seq!["texmf-config"@]);
        assert(path_of(r.texmf_home) =~= seq!["texmf-local"@]);
        assert(path_of(r.local_tlpdb_dir) =~= path_of(r.install_dir) + seq!["tlpkg"@]);
        assert(path_of(r.language_file_dir) =~= path_of(r.texmf_var) + seq![
            "tex"@,
            "generic"@,
            "config"@,
        ]);
        assert(path_of(r.fmtutil_cnf_dir) =~= path_of(r.texmf_dist) + seq!["web2c"@]);
        r
    }
}

} // verus!
