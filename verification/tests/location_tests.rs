use tlx::location::InstallContext;

fn p(v: &[&str]) -> Vec<String> {
    v.iter().map(|s| s.to_string()).collect()
}

#[test]
fn layout_of_an_installation() {
    let c = InstallContext::setup(2026, "x86_64-linux");
    assert_eq!(c.install_dir, p(&["2026"]));
    assert_eq!(c.texmf_bin, p(&["2026", "bin", "x86_64-linux"]));
    assert_eq!(c.texmf_dist, p(&["2026", "texmf-dist"]));
    assert_eq!(c.texmf_var, p(&["2026", "texmf-var"]));
    assert_eq!(c.texmf_config, p(&["2026", "texmf-config"]));
    assert_eq!(c.texmf_home, p(&["texmf-local"]));
    assert_eq!(c.local_tlpdb_dir, p(&["2026", "tlpkg"]));
    assert_eq!(c.language_file_dir, p(&["2026", "texmf-var", "tex", "generic", "config"]));
    assert_eq!(c.fmtutil_cnf_dir, p(&["2026", "texmf-dist", "web2c"]));
}

#[test]
fn years_are_written_in_decimal() {
    assert_eq!(InstallContext::setup(0, "windows").install_dir, p(&["0"]));
    assert_eq!(InstallContext::setup(65535, "windows").install_dir, p(&["65535"]));
    assert_eq!(InstallContext::setup(7, "windows").texmf_bin, p(&["7", "bin", "windows"]));
}
