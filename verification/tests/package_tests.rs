use tlx::package::Package;

const MANY: &str = "name 12many
category Package
revision 79618
shortdesc Generalising mathematical index sets
relocated 1
containersize 2184
containerchecksum abc123
doccontainersize 436336
doccontainerchecksum def456
srccontainersize 9000
srccontainerchecksum 0a0b
docfiles size=118
 RELOC/doc/latex/12many/12many.pdf details=\"Package documentation\"
 RELOC/doc/latex/12many/README
runfiles size=1
 RELOC/tex/latex/12many/12many.sty
catalogue-ctan /macros/latex/contrib/12many
catalogue-license lppl";

#[test]
fn parses_name_and_fields() {
    let p = Package::parse_from_str(MANY, "x86_64-linux", false, false, false).unwrap();
    assert_eq!(p.get_name(), "12many");
    assert!(p.dependencies_as_slice().is_none());
    assert!(p.execute_as_slice().is_none());
    assert!(p.postaction_as_slice().is_none());
}

#[test]
fn remote_files_are_named_after_name_and_revision() {
    let p = Package::parse_from_str(MANY, "x86_64-linux", false, false, false).unwrap();
    let files = p.remote_files();
    let names: Vec<&str> = files.iter().map(|f| f.name.as_str()).collect();
    assert_eq!(
        names,
        vec!["12many.r79618.tar.xz", "12many.doc.r79618.tar.xz", "12many.source.r79618.tar.xz"]
    );
    assert_eq!(files[0].expected_sha512, "abc123");
    assert_eq!(files[1].expected_sha512, "def456");
    assert_eq!(files[2].expected_sha512, "0a0b");
    assert!(files.iter().all(|f| f.relocated));
}

#[test]
fn writes_the_record_back_with_reloc_resolved() {
    let p = Package::parse_from_str(MANY, "x86_64-linux", false, false, false).unwrap();
    let mut out = Vec::new();
    p.write_to(&mut out);
    let expected = "name 12many
category Package
revision 79618
shortdesc Generalising mathematical index sets
containersize 2184
containerchecksum abc123
doccontainersize 436336
doccontainerchecksum def456
srccontainersize 9000
srccontainerchecksum 0a0b
docfiles size=118
 texmf-dist/doc/latex/12many/12many.pdf details=\"Package documentation\"
 texmf-dist/doc/latex/12many/README
runfiles size=1
 texmf-dist/tex/latex/12many/12many.sty
catalogue-ctan /macros/latex/contrib/12many
catalogue-license lppl
";
    assert_eq!(String::from_utf8(out).unwrap(), expected);
}

#[test]
fn schemes_keep_their_relocated_line() {
    let block = "name scheme-x\ncategory Scheme\nrevision 3\nrelocated 1\ndepend a";
    let p = Package::parse_from_str(block, "windows", false, false, false).unwrap();
    let mut out = Vec::new();
    p.write_to(&mut out);
    assert_eq!(
        String::from_utf8(out).unwrap(),
        "name scheme-x\ncategory Scheme\nrevision 3\nrelocated 1\ndepend a\n"
    );
}

#[test]
fn dependencies_are_the_last_depend_list() {
    let block = "name collection-basic
category Collection
revision 1
depend a
depend b
shortdesc x
depend c
depend d.ARCH";
    let p = Package::parse_from_str(block, "windows", false, false, false).unwrap();
    assert_eq!(p.dependencies_as_slice().unwrap(), ["c", "d.windows"]);
}

#[test]
fn execute_and_postaction_lists() {
    let block = "name hyphen-german
category Package
revision 2
execute AddHyphen name=german file=loadhyph-de.tex synonyms=deutsch
execute AddFormat name=x engine=pdftex
execute AddMap x.map
postaction shortcut type=menu name=x";
    let p = Package::parse_from_str(block, "windows", false, false, false).unwrap();
    assert_eq!(p.execute_as_slice().unwrap().len(), 3);
    assert_eq!(p.postaction_as_slice().unwrap(), &["shortcut type=menu name=x"]);
    let formats = p.get_add_format_directives();
    assert_eq!(formats.len(), 1);
    assert_eq!(formats[0].name, "x");
    assert_eq!(formats[0].pkg_name, "hyphen-german");
    let hyphens = p.get_hyphen_directives();
    assert_eq!(hyphens.len(), 1);
    let mut dat = Vec::new();
    hyphens[0].write_language_dat(&mut dat);
    assert_eq!(String::from_utf8(dat).unwrap(), "% from hyphen-german:\ngerman loadhyph-de.tex\n=deutsch\n");
}

#[test]
fn binaries_of_other_architectures_are_skipped() {
    let block = "name foo.windows\ncategory Package\nrevision 1\nbinfiles arch=windows size=2\n bin/windows/foo.exe";
    assert!(Package::parse_from_str(block, "x86_64-linux", false, false, true).is_none());
    assert!(Package::parse_from_str(block, "windows", false, false, true).is_some());
    assert!(Package::parse_from_str(block, "x86_64-linux", false, false, false).is_some());
    assert!(matches!(Package::parse_checked(block, "x86_64-linux", true), Some(None)));
}

#[test]
fn binfiles_are_written_back() {
    let block = "name foo.windows\ncategory Package\nrevision 1\nbinfiles arch=windows size=2\n bin/windows/foo.exe";
    let p = Package::parse_from_str(block, "windows", false, false, true).unwrap();
    let mut out = Vec::new();
    p.write_to(&mut out);
    assert_eq!(String::from_utf8(out).unwrap(), format!("{block}\n"));
}

#[test]
fn malformed_blocks_are_refused() {
    assert!(Package::parse_checked("category Package\nrevision 1", "windows", false).is_none());
    assert!(Package::parse_checked("name x\nrevision 1\ncategory y", "windows", false).is_none());
    assert!(Package::parse_checked("name x\ncategory y\nrevision one", "windows", false).is_none());
    assert!(Package::parse_checked("name x\ncategory y\nrevision 1\nrunfiles 3", "windows", false).is_none());
    assert!(Package::parse_checked("name x\ncategory y\nrevision 1\ncontainersize 3\nnope", "windows", false)
        .is_none());
    assert!(matches!(
        Package::parse_checked("name x\ncategory y\nrevision 1", "windows", false),
        Some(Some(_))
    ));
}

#[test]
fn law_written_record_reads_back_on_example() {
    let block = "name foo
category Package
revision 12
shortdesc A package with all kinds of fields
longdesc first line
longdesc second line
depend bar
depend baz
execute AddFormat name=x engine=pdftex
containersize 100
containerchecksum c0ffee
doccontainersize 200
doccontainerchecksum d0c
runfiles size=3
 texmf-dist/tex/foo.sty
binfiles arch=windows size=4
 bin/windows/foo.exe
catalogue-license lppl
catalogue-version 1.0";
    let first = Package::parse_from_str(block, "windows", false, false, false).unwrap();
    let mut written = Vec::new();
    first.write_to(&mut written);
    let text = String::from_utf8(written.clone()).unwrap();
    assert_eq!(text, format!("{block}\n"));
    let again = Package::parse_from_str(&text, "windows", false, false, false).unwrap();
    let mut rewritten = Vec::new();
    again.write_to(&mut rewritten);
    assert_eq!(written, rewritten);
    assert_eq!(again.dependencies_as_slice().unwrap(), ["bar", "baz"]);
    assert_eq!(again.remote_files().len(), 2);
}

#[test]
fn dependencies_name_the_target_architecture() {
    let block = "name a\ncategory Package\nrevision 1\ndepend b.ARCH\ndepend c";
    let p = Package::parse_from_str(block, "windows", false, false, false).unwrap();
    assert_eq!(p.dependencies_as_slice(), Some(vec!["b.windows".to_string(), "c".to_string()]));
    let q = Package::parse_from_str(block, "x86_64-linux", false, false, false).unwrap();
    assert_eq!(q.dependencies_as_slice().unwrap(), ["b.x86_64-linux", "c"]);
}

#[test]
fn other_packages_drop_their_relocated_line() {
    let block = "name x\ncategory Package\nrevision 3\nrelocated 1\ndepend a";
    let p = Package::parse_from_str(block, "windows", false, false, false).unwrap();
    let mut out = Vec::new();
    p.write_to(&mut out);
    assert_eq!(String::from_utf8(out).unwrap(), "name x\ncategory Package\nrevision 3\ndepend a\n");
}

#[test]
fn a_block_in_the_writers_form_is_written_back() {
    let block = "name scheme-y\ncategory Scheme\nrevision 42\nrelocated 1\nshortdesc a scheme\ndepend a\ndepend b.ARCH\ncontainersize 1234\ncontainerchecksum abcd\ndoccontainersize 7\ndoccontainerchecksum ef\nrunfiles size=3\n texmf-dist/a.sty\n texmf-dist/b.sty\nbinfiles arch=windows size=2\n bin/windows/x.exe\ncatalogue-license lppl\ncatalogue-version 1.0";
    let p = Package::parse_from_str(block, "windows", false, false, false).unwrap();
    let mut out = Vec::new();
    p.write_to(&mut out);
    assert_eq!(String::from_utf8(out).unwrap(), format!("{block}\n"));
}
