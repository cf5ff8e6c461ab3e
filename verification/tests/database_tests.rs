use ahash::AHashSet;
use tlx::database::Database;

const TLPDB: &str = "name 00texlive.config
category TLCore
depend container_format/xz
depend frozen/0
depend minrelease/2016
depend release/2026

name 00texlive.installation
category TLCore
depend opt_autobackup:1
depend opt_backupdir:tlpkg/backups
depend opt_create_formats:1
depend opt_sys_bin:/usr/local/bin
depend opt_sys_info:/usr/local/share/info
depend opt_sys_man:/usr/local/share/man
depend setting_available_architectures:windows x86_64-linux

name scheme-basic
category Scheme
revision 54191
depend collection-basic
depend collection-latex

name collection-basic
category Collection
revision 7
depend hyphen-base
depend bin-foo.ARCH
depend bin-bar.ARCH

name hyphen-base
category Package
revision 3
containersize 10
containerchecksum aa
execute AddHyphen name=nohyphenation file=zerohyph.tex

name bin-foo
category Package
revision 1
depend bin-foo.ARCH

name bin-foo.x86_64-linux
category Package
revision 1
containersize 20
containerchecksum bb
binfiles arch=x86_64-linux size=1
 bin/x86_64-linux/foo

name bin-foo.windows
category Package
revision 1
binfiles arch=windows size=1
 bin/windows/foo.exe

";

fn set(names: &[&'static str]) -> AHashSet<&'static str> {
    names.iter().copied().collect()
}

#[test]
fn reads_settings_and_packages() {
    let db = Database::from_tlpdb_checked(TLPDB, "x86_64-linux", true, false, "https://m.org/tl/", false).unwrap();
    assert_eq!(db.options.release, 2026);
    assert_eq!(db.len(), 6);
    assert_eq!(db.get_package("hyphen-base").unwrap().get_name(), "hyphen-base");
    assert!(db.get_package("collection-latex").is_none());
}

#[test]
fn skip_filter_follows_the_include_src_flag() {
    let db = Database::from_tlpdb_checked(TLPDB, "x86_64-linux", false, true, "https://m.org/tl/", false).unwrap();
    assert_eq!(db.len(), 5);
    assert!(db.get_package("bin-foo.windows").is_none());
    assert!(db.get_package("bin-foo.x86_64-linux").is_some());
}

#[test]
fn broken_databases_are_refused() {
    assert!(Database::from_tlpdb_checked("name x\nrevision 1", "windows", false, false, "u", false).is_none());
    let bad = "name 00texlive.config\ncategory TLCore\ndepend release/abc\n\nname a\ncategory b\nrevision 1";
    assert!(Database::from_tlpdb_checked(bad, "windows", false, false, "u", false).is_none());
}

#[test]
fn dependencies_resolve_the_architecture() {
    let db = Database::from_tlpdb(TLPDB, "x86_64-linux", false, false, "u", false);
    let mut out = Vec::new();
    db.collect_dependencies("collection-basic", &mut out);
    assert_eq!(out, vec!["hyphen-base", "bin-foo.x86_64-linux"]);
    let mut none = vec!["keep"];
    db.collect_dependencies("missing", &mut none);
    assert_eq!(none, vec!["keep"]);
}

#[test]
fn resolution_gives_every_needed_name() {
    let db = Database::from_tlpdb(TLPDB, "x86_64-linux", false, false, "u", false);
    let got = db.resolve_dep(&["scheme-basic"]);
    let want = set(&[
        "scheme-basic",
        "collection-basic",
        "collection-latex",
        "hyphen-base",
        "bin-foo.x86_64-linux",
    ]);
    assert_eq!(got, want);
}

#[test]
fn law_resolution_is_closed_and_stable() {
    let db = Database::from_tlpdb(TLPDB, "windows", false, false, "u", false);
    let first = db.resolve_dep(&["bin-foo", "hyphen-base"]);
    assert_eq!(first, set(&["bin-foo", "bin-foo.windows", "hyphen-base"]));
    let names: Vec<&str> = first.iter().copied().collect();
    let again = db.resolve_dep(&names);
    assert_eq!(first, again);
    let more = db.resolve_dep(&["bin-foo", "hyphen-base", "scheme-basic"]);
    assert!(first.is_subset(&more));
}

#[test]
fn archives_and_directives_of_the_chosen_packages() {
    let db = Database::from_tlpdb(TLPDB, "x86_64-linux", false, false, "u", false);
    let chosen = set(&["hyphen-base", "bin-foo.x86_64-linux", "scheme-basic"]);
    let files = db.remote_files_iter(&chosen);
    let names: Vec<&str> = files.iter().map(|f| f.name.as_str()).collect();
    assert_eq!(names, vec!["hyphen-base.r3.tar.xz", "bin-foo.x86_64-linux.r1.tar.xz"]);
    assert_eq!(db.hyphen_directives_iter(&chosen).len(), 1);
    assert_eq!(db.format_directives_iter(&chosen).len(), 0);
}

#[test]
fn writes_the_local_database() {
    let db = Database::from_tlpdb(TLPDB, "x86_64-linux", true, false, "https://m.org/tl//", false);
    let mut out = Vec::new();
    db.write_tlpdb(&mut out, &set(&["hyphen-base"]));
    let text = String::from_utf8(out).unwrap();
    let expected = "name 00texlive.config
category TLCore
depend minrelease/2016
depend release/2026

name 00texlive.installation
category TLCore
depend opt_autobackup:1
depend opt_backupdir:tlpkg/backups
depend opt_create_formats:1
depend opt_desktop_integration:0
depend opt_file_assocs:0
depend opt_generate_updmap:0
depend opt_install_docfiles:1
depend opt_install_srcfiles:0
depend opt_location:https://m.org/tl
depend opt_post_code:0
depend opt_sys_bin:/usr/local/bin
depend opt_sys_info:/usr/local/share/info
depend opt_sys_man:/usr/local/share/man
depend opt_w32_multi_user:0
depend setting_available_architectures:x86_64-linux

name scheme-basic
category Scheme
revision 54191
depend collection-basic
depend collection-latex

name hyphen-base
category Package
revision 3
containersize 10
containerchecksum aa
execute AddHyphen name=nohyphenation file=zerohyph.tex


";
    assert_eq!(text, expected);
}

#[test]
fn a_name_finds_the_last_package_that_has_it() {
    let text = "name a\ncategory Package\nrevision 1\n\nname a\ncategory Package\nrevision 2\n\nname b\ncategory Package\nrevision 3\n";
    let db = Database::from_tlpdb_checked(text, "windows", false, false, "u", false).unwrap();
    assert_eq!(db.len(), 3);
    let a = db.get_package("a").unwrap();
    assert_eq!(a.get_name(), "a");
    let mut out = Vec::new();
    a.write_to(&mut out);
    assert_eq!(String::from_utf8(out).unwrap(), "name a\ncategory Package\nrevision 2\n");
    assert!(db.get_package("c").is_none());
}
