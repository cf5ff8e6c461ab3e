use tlx::addformat::AddFormat;
use tlx::addhyphen::AddHyphen;
use tlx::command::hyphen_files;

#[test]
fn add_format_reads_its_keys() {
    let f = AddFormat::parse(
        "latex-bin",
        "AddFormat name=latex engine=pdftex patterns=language.dat options=\"-etex\" fmttriggers=a,b,c",
    )
    .unwrap();
    assert_eq!(f.pkg_name, "latex-bin");
    assert_eq!(f.name, "latex");
    assert_eq!(f.engine, "pdftex");
    assert_eq!(f.mode, None);
    assert_eq!(f.patterns, Some("language.dat"));
    assert_eq!(f.options, Some("\"-etex\""));
    assert_eq!(f.fmttriggers, vec!["a", "b", "c"]);
}

#[test]
fn add_format_needs_name_and_engine() {
    assert!(AddFormat::parse("p", "AddFormat engine=pdftex").is_none());
    assert!(AddFormat::parse("p", "AddFormat name=latex").is_none());
    assert!(AddFormat::parse("p", "AddFormat name= engine=pdftex").is_none());
    let f = AddFormat::parse("p", "AddFormat name=x engine=y mode=disabled").unwrap();
    assert_eq!(f.mode, Some("disabled"));
    assert!(f.fmttriggers.is_empty());
}

#[test]
fn add_hyphen_needs_name_and_file() {
    assert!(AddHyphen::parse("p", "AddHyphen name=german").is_none());
    assert!(AddHyphen::parse("p", "AddHyphen file=loadhyph-de.tex").is_none());
    assert!(AddHyphen::parse("p", "AddHyphen name=german file=loadhyph-de.tex").is_some());
}

#[test]
fn add_hyphen_writes_language_dat() {
    let h = AddHyphen::parse(
        "hyphen-german",
        "AddHyphen name=german file=loadhyph-de.tex lefthyphenmin=2 righthyphenmin=2 synonyms=deutsch,de",
    )
    .unwrap();
    let mut out = Vec::new();
    h.write_language_dat(&mut out);
    assert_eq!(
        String::from_utf8(out).unwrap(),
        "% from hyphen-german:\ngerman loadhyph-de.tex\n=deutsch\n=de\n"
    );
}

#[test]
fn add_hyphen_writes_language_def() {
    let h = AddHyphen::parse(
        "hyphen-german",
        "AddHyphen name=german file=loadhyph-de.tex lefthyphenmin=2 righthyphenmin=3 synonyms=deutsch",
    )
    .unwrap();
    let mut out = Vec::new();
    h.write_language_def(&mut out);
    assert_eq!(
        String::from_utf8(out).unwrap(),
        "% from hyphen-german:\n\\addlanguage{german}{loadhyph-de.tex}{}{2}{3}\n\\addlanguage{deutsch}{loadhyph-de.tex}{}{2}{3}\n"
    );
}

#[test]
fn add_hyphen_minimums_default_to_zero() {
    let h = AddHyphen::parse("p", "AddHyphen name=x file=y.tex lefthyphenmin=abc").unwrap();
    let mut out = Vec::new();
    h.write_language_def(&mut out);
    assert_eq!(String::from_utf8(out).unwrap(), "% from p:\n\\addlanguage{x}{y.tex}{}{0}{0}\n");
}

#[test]
fn add_hyphen_writes_language_dat_lua() {
    let h = AddHyphen::parse(
        "hyphen-german",
        "AddHyphen name=german file=loadhyph-de.tex lefthyphenmin=2 righthyphenmin=2 synonyms=deutsch,de file_patterns=hyph-de.pat.txt luaspecial=disabled",
    )
    .unwrap();
    let mut out = Vec::new();
    h.write_language_dat_lua(&mut out);
    assert_eq!(
        String::from_utf8(out).unwrap(),
        "-- from hyphen-german:\n\t['german'] = {\n\t\tloader = 'loadhyph-de.tex',\n\t\tlefthyphenmin = 2,\n\t\trighthyphenmin = 2,\n\t\tsynonyms = { 'deutsch', 'de' },\n\t\tpatterns = 'hyph-de.pat.txt',\n\t\thyphenation = '',\n\t\tspecial = 'disabled',\n\t},\n"
    );
}

#[test]
fn hyphen_files_wrap_the_entries() {
    let a = AddHyphen::parse("pa", "AddHyphen name=a file=a.tex").unwrap();
    let b = AddHyphen::parse("pb", "AddHyphen name=b file=b.tex").unwrap();
    let files = hyphen_files(&[a, b], b"HEAD\n", b"BEGIN\n", b"END\n", b"LUA\n");
    assert_eq!(
        String::from_utf8(files.language_dat).unwrap(),
        "HEAD\n% from pa:\na a.tex\n% from pb:\nb b.tex\n\n"
    );
    assert_eq!(
        String::from_utf8(files.language_def).unwrap(),
        "BEGIN\n% from pa:\n\\addlanguage{a}{a.tex}{}{0}{0}\n% from pb:\n\\addlanguage{b}{b.tex}{}{0}{0}\nEND\n"
    );
    let lua = String::from_utf8(files.language_dat_lua).unwrap();
    assert!(lua.starts_with("LUA\n-- from pa:\n\t['a'] = {\n"));
    assert!(lua.ends_with("\t},\n}\n"));
}

#[test]
fn hyphen_files_without_directives() {
    let files = hyphen_files(&[], b"H", b"B", b"E", b"L");
    assert_eq!(files.language_dat, b"H\n".to_vec());
    assert_eq!(files.language_def, b"BE".to_vec());
    assert_eq!(files.language_dat_lua, b"L}\n".to_vec());
}
