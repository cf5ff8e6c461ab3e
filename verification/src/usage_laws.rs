//! What the operations of the installer are for, stated over all inputs:
//! the records of the database head that carry no settings, the schemes
//! that the local database always lists, the hyphenation exceptions of
//! `language.dat.lua`, the relocation of archives and the files recorded
//! in the tree of installed files.
use vstd::prelude::*;
use vstd::string::*;
use crate::addhyphen::{enc, language_dat_lua, AddHyphenView};
use crate::database::{texlive_block, written_packages, ConfigView};
use crate::package::{parse_package, remote_files_of, write_package, EntryView, PackageView, ParseOutcome};
use crate::text::{index_of, index_of_from, lemma_ascii_bytes, lemma_index_of_from_bounds, lit};
use crate::tree::{file_name_of, parent_of};

verus! {

/// `t` stands somewhere in `s`.
pub open spec fn occurs_in(s: Seq<u8>, t: Seq<u8>) -> bool {
    exists|k: int| 0 <= k && k + t.len() <= s.len() && #[trigger] s.subrange(k, k + t.len()) == t
}

/// The `00texlive.image` and `00texlive.installer` records of the head of
/// the database carry no settings: whatever follows their `name` line,
/// they are accepted and leave the settings as they were.
pub proof fn law_image_and_installer_records_keep_the_settings(c: ConfigView, rest: Seq<u8>)
    ensures
        texlive_block(c, "name 00texlive.image\n".spec_bytes() + rest) == Some(c),
        texlive_block(c, "name 00texlive.installer\n".spec_bytes() + rest) == Some(c),
{
    reveal_strlit("name 00texlive.image\n");
    reveal_strlit("name 00texlive.image");
    reveal_strlit("name 00texlive.installer\n");
    reveal_strlit("name 00texlive.installer");
    reveal_strlit("name 00texlive.config");
    reveal_strlit("name 00texlive.installation");
    lemma_ascii_bytes("name 00texlive.image\n");
    lemma_ascii_bytes("name 00texlive.image");
    lemma_ascii_bytes("name 00texlive.installer\n");
    lemma_ascii_bytes("name 00texlive.installer");
    lemma_ascii_bytes("name 00texlive.config");
    lemma_ascii_bytes("name 00texlive.installation");
    let h1 = "name 00texlive.image".spec_bytes();
    let h2 = "name 00texlive.installer".spec_bytes();
    assert("name 00texlive.image\n".spec_bytes() =~= h1.push(10u8));
    assert("name 00texlive.installer\n".spec_bytes() =~= h2.push(10u8));
    lemma_first_line(h1, rest);
    lemma_first_line(h2, rest);
    assert(h1.len() != "name 00texlive.config".spec_bytes().len());
    assert(h1.len() != "name 00texlive.installation".spec_bytes().len());
    assert(h2.len() != "name 00texlive.config".spec_bytes().len());
    assert(h2.len() != "name 00texlive.installation".spec_bytes().len());
}

/// A first line without a line break, followed by one, is the part before
/// the first line break.
proof fn lemma_first_line(h: Seq<u8>, rest: Seq<u8>)
    requires
        forall|i: int| 0 <= i < h.len() ==> h[i] != 10u8,
    ensures
        index_of(h.push(10u8) + rest, 10u8) == h.len(),
        (h.push(10u8) + rest).take(h.len() as int) == h,
{
    let b = h.push(10u8) + rest;
    lemma_index_of_from_bounds(b, 10u8, 0);
    let i = index_of(b, 10u8);
    assert(b[h.len() as int] == 10u8);
    if i < h.len() {
        assert(b[i] == h[i]);
    }
    assert(b.take(h.len() as int) =~= h);
}

/// The schemes that the local database lists whether they are installed
/// or not.
pub open spec fn always_listed(n: Seq<u8>) -> bool {
    ||| n == "scheme-context".spec_bytes()
    ||| n == "scheme-bookpub".spec_bytes()
    ||| n == "scheme-tetex".spec_bytes()
    ||| n == "scheme-minimal".spec_bytes()
    ||| n == "scheme-basic".spec_bytes()
    ||| n == "scheme-medium".spec_bytes()
    ||| n == "scheme-gust".spec_bytes()
    ||| n == "scheme-small".spec_bytes()
    ||| n == "scheme-infraonly".spec_bytes()
}

proof fn lemma_written_concat(a: Seq<PackageView>, b: Seq<PackageView>, installed: Set<Seq<u8>>)
    ensures
        written_packages(a + b, installed) == written_packages(a, installed) + written_packages(b, installed),
    decreases b.len(),
{
    if b.len() == 0 {
        assert(a + b =~= a);
        assert(written_packages(b, installed) =~= Seq::<u8>::empty());
        assert(written_packages(a, installed) + written_packages(b, installed) =~= written_packages(a, installed));
    } else {
        lemma_written_concat(a, b.drop_last(), installed);
        assert((a + b).drop_last() =~= a + b.drop_last());
        assert((a + b).last() == b.last());
        assert(written_packages(a + b, installed) =~= written_packages(a, installed) + written_packages(b, installed));
    }
}

/// The local database holds the record of every installed package and of
/// each of the nine schemes that it always lists, installed or not, in
/// the order of the database: the records written for the packages are
/// those before it, its own record and a blank line, then those after it.
pub proof fn law_installed_and_listed_packages_are_written(
    ps: Seq<PackageView>,
    installed: Set<Seq<u8>>,
    i: int,
)
    requires
        0 <= i < ps.len(),
        installed.contains(ps[i].name) || always_listed(ps[i].name),
    ensures
        written_packages(ps, installed) == written_packages(ps.take(i), installed) + (write_package(ps[i])
            + "\n".spec_bytes()) + written_packages(ps.skip(i + 1), installed),
{
    let one = seq![ps[i]];
    assert(ps =~= ps.take(i) + one + ps.skip(i + 1));
    lemma_written_concat(ps.take(i) + one, ps.skip(i + 1), installed);
    lemma_written_concat(ps.take(i), one, installed);
    assert(one.drop_last() =~= Seq::<PackageView>::empty());
    assert(written_packages(one.drop_last(), installed) =~= Seq::<u8>::empty());
    assert(written_packages(one, installed) =~= write_package(ps[i]) + "\n".spec_bytes());
}

/// The hyphenation exceptions file of a directive is named in its entry of
/// `language.dat.lua`, on a line of its own.
pub proof fn law_exceptions_file_is_named_in_lua(h: AddHyphenView, e: Seq<char>)
    requires
        h.file_exceptions == Some(e),
    ensures
        occurs_in(
            language_dat_lua(h),
            "\t\thyphenation = '".spec_bytes() + enc(e) + "',\n".spec_bytes(),
        ),
{
    let line = "\t\thyphenation = '".spec_bytes() + enc(e) + "',\n".spec_bytes();
    let s = language_dat_lua(h);
    let pat = match h.file_patterns {
        Some(p) => "\t\tpatterns = '".spec_bytes() + enc(p) + "',\n".spec_bytes(),
        None => seq![],
    };
    let pre = crate::addhyphen::lua_head(h) + crate::addhyphen::lua_synonyms(h.synonyms) + " },\n".spec_bytes()
        + pat;
    let k = pre.len() as int;
    assert(s.subrange(k, k + line.len()) =~= line);
}

/// Every archive of a package carries the package's own relocation flag.
pub proof fn law_archives_carry_the_relocation_of_their_package(p: PackageView)
    ensures
        forall|i: int| 0 <= i < remote_files_of(p).len() ==> (#[trigger] remote_files_of(p)[i]).relocated == p.relocated,
{
}

/// A record read from the database is relocatable exactly when it lists
/// `relocated`.
pub proof fn law_records_are_relocated_when_they_say_so(b: Seq<u8>, arch: Seq<u8>, skip: bool)
    ensures
        parse_package(b, arch, skip) matches ParseOutcome::Record(v) ==> (v.relocated <==> v.entries.contains(
            EntryView::Relocated,
        )),
{
    if let ParseOutcome::Record(v) = parse_package(b, arch, skip) {
        let ls = crate::text::lines(b);
        let body = crate::package::parse_body(ls.skip(3))->0;
        let head = seq![v.entries[0], v.entries[1]];
        assert(v.entries =~= head + body);
        if v.entries.contains(EntryView::Relocated) {
            let j = choose|j: int| 0 <= j < v.entries.len() && v.entries[j] == EntryView::Relocated;
            assert(j >= 2);
            assert(body[j - 2] == EntryView::Relocated);
        }
        if body.contains(EntryView::Relocated) {
            let j = choose|j: int| 0 <= j < body.len() && body[j] == EntryView::Relocated;
            assert(v.entries[j + 2] == EntryView::Relocated);
        }
    }
}

/// The file of a path that ends in a name is recorded under the path
/// without that name.
pub proof fn law_file_goes_to_its_directory(p: Seq<Seq<char>>)
    requires
        p.len() >= 2,
        p.last() != "/"@ && p.last() != "."@ && p.last() != ".."@,
    ensures
        parent_of(p) == Some(p.drop_last()),
        file_name_of(p) == Some(p.last()),
{
}

} // verus!
