//! The package database: the installation settings of the `00texlive`
//! records, the index of the packages by name, the dependency resolver and
//! the writer of the local `texlive.tlpdb`.
use vstd::prelude::*;
use vstd::string::*;
use vstd::utf8::*;
use crate::chars::{split_once_char, split_words, to_chars, chars_eq, find_char, trim, trim_str, words, word_ranges};
use crate::collections::{
    name_map_entries, name_map_get, name_map_insert, name_map_new, name_set_contents, name_set_insert,
    name_set_contains, name_set_new, NameMap,
};
use crate::addformat::{AddFormat, AddFormatView};
use crate::addhyphen::{AddHyphen, AddHyphenView};
use crate::pipeline::{RemoteFile, RemoteFileView};
use ahash::AHashSet;
use crate::package::{
    format_directives, hyphen_directives, last_items, opt_seq, parse_package, remote_files_of,
    strs_bytes, write_package, Kind, Package, PackageView, ParseOutcome, Parser,
};
use crate::text::{
    decimal, ends_with, lines_from, push_after, push_decimal, push_decimal_after, str_eq, next_line, parse_unsigned, parse_unsigned_exec, push_bytes, string_from_utf8,
    sub_str,
};

verus! {

broadcast use vstd::utf8::encode_utf8_valid_utf8, vstd::utf8::encode_utf8_decode_utf8;

/// The settings read from the `00texlive.config` and
/// `00texlive.installation` records.
pub struct ConfigData<'a> {
    pub release: u16,
    min_release: u16,
    frozen: bool,
    opt_autobackup: u32,
    opt_backupdir: &'a str,
    opt_create_formats: bool,
    opt_desktop_integration: bool,
    opt_file_assocs: u8,
    opt_generate_updmap: bool,
    opt_install_docfiles: bool,
    opt_install_srcfiles: bool,
    opt_location: &'a str,
    opt_post_code: bool,
    opt_sys_bin: &'a str,
    opt_sys_info: &'a str,
    opt_sys_man: &'a str,
    opt_w32_multi_user: bool,
    setting_available_architectures: Vec<&'a str>,
}

/// The settings, their texts given as characters.
pub struct ConfigView {
    pub release: u16,
    pub min_release: u16,
    pub frozen: bool,
    pub opt_autobackup: u32,
    pub opt_backupdir: Seq<char>,
    pub opt_create_formats: bool,
    pub opt_desktop_integration: bool,
    pub opt_file_assocs: u8,
    pub opt_generate_updmap: bool,
    pub opt_install_docfiles: bool,
    pub opt_install_srcfiles: bool,
    pub opt_location: Seq<char>,
    pub opt_post_code: bool,
    pub opt_sys_bin: Seq<char>,
    pub opt_sys_info: Seq<char>,
    pub opt_sys_man: Seq<char>,
    pub opt_w32_multi_user: bool,
    pub setting_available_architectures: Seq<Seq<char>>,
}

impl<'a> View for ConfigData<'a> {
    type V = ConfigView;

    closed spec fn view(&self) -> ConfigView {
        ConfigView {
            release: self.release,
            min_release: self.min_release,
            frozen: self.frozen,
            opt_autobackup: self.opt_autobackup,
            opt_backupdir: self.opt_backupdir@,
            opt_create_formats: self.opt_create_formats,
            opt_desktop_integration: self.opt_desktop_integration,
            opt_file_assocs: self.opt_file_assocs,
            opt_generate_updmap: self.opt_generate_updmap,
            opt_install_docfiles: self.opt_install_docfiles,
            opt_install_srcfiles: self.opt_install_srcfiles,
            opt_location: self.opt_location@,
            opt_post_code: self.opt_post_code,
            opt_sys_bin: self.opt_sys_bin@,
            opt_sys_info: self.opt_sys_info@,
            opt_sys_man: self.opt_sys_man@,
            opt_w32_multi_user: self.opt_w32_multi_user,
            setting_available_architectures: crate::addformat::strs_chars(
                self.setting_available_architectures@,
            ),
        }
    }
}

/// The settings before any record is read: numbers 0, flags unset, texts
/// and lists empty.
pub open spec fn default_config() -> ConfigView {
    ConfigView {
        release: 0,
        min_release: 0,
        frozen: false,
        opt_autobackup: 0,
        opt_backupdir: seq![],
        opt_create_formats: false,
        opt_desktop_integration: false,
        opt_file_assocs: 0,
        opt_generate_updmap: false,
        opt_install_docfiles: false,
        opt_install_srcfiles: false,
        opt_location: seq![],
        opt_post_code: false,
        opt_sys_bin: seq![],
        opt_sys_info: seq![],
        opt_sys_man: seq![],
        opt_w32_multi_user: false,
        setting_available_architectures: seq![],
    }
}

impl<'a> Default for ConfigData<'a> {
    fn default() -> (r: ConfigData<'a>)
        ensures
            r@ == default_config(),
    {
        proof {
            reveal_strlit("");
        }
        let r = ConfigData {
            release: 0,
            min_release: 0,
            frozen: false,
            opt_autobackup: 0,
            opt_backupdir: "",
            opt_create_formats: false,
            opt_desktop_integration: false,
            opt_file_assocs: 0,
            opt_generate_updmap: false,
            opt_install_docfiles: false,
            opt_install_srcfiles: false,
            opt_location: "",
            opt_post_code: false,
            opt_sys_bin: "",
            opt_sys_info: "",
            opt_sys_man: "",
            opt_w32_multi_user: false,
            setting_available_architectures: Vec::new(),
        };
        assert(r@.setting_available_architectures =~= Seq::<Seq<char>>::empty());
        assert(""@ =~= Seq::<char>::empty());
        assert(r@ =~= default_config());
        r
    }
}

/// `s` without the prefix `p`, or `None`.
pub open spec fn strip_prefix_chars(s: Seq<char>, p: Seq<char>) -> Option<Seq<char>> {
    if p.len() <= s.len() && s.take(p.len() as int) == p {
        Some(s.skip(p.len() as int))
    } else {
        None
    }
}

/// A flag written `1` or `0`; `None` for any other text.
pub open spec fn flag_of(v: Seq<char>) -> Option<bool> {
    if v == "1"@ {
        Some(true)
    } else if v == "0"@ {
        Some(false)
    } else {
        None
    }
}

/// `v` read as an unsigned integer no greater than `max`.
pub open spec fn number_of(v: Seq<char>, max: nat) -> Option<nat> {
    parse_unsigned(encode_utf8(v), max)
}

/// The settings after a line `depend <option>/<value>` of the
/// `00texlive.config` record; `None` when the line breaks the format.
#[verifier::opaque]
pub open spec fn config_line(c: ConfigView, line: Seq<char>) -> Option<ConfigView> {
    match strip_prefix_chars(line, "depend "@) {
        None => Some(c),
        Some(item) => match split_once_char(item, '/') {
            None => None,
            Some((o, v)) => if o == "minrelease"@ {
                match number_of(trim(v), 65535) {
                    Some(n) => Some(ConfigView { min_release: n as u16, ..c }),
                    None => None,
                }
            } else if o == "release"@ {
                match number_of(trim(v), 65535) {
                    Some(n) => Some(ConfigView { release: n as u16, ..c }),
                    None => None,
                }
            } else if o == "frozen"@ {
                match flag_of(v) {
                    Some(b) => Some(ConfigView { frozen: b, ..c }),
                    None => None,
                }
            } else {
                Some(c)
            },
        },
    }
}

/// The settings after the lines `ls` of the `00texlive.config` record.
pub open spec fn config_lines(c: ConfigView, ls: Seq<Seq<u8>>) -> Option<ConfigView>
    decreases ls.len(),
{
    if ls.len() == 0 {
        Some(c)
    } else {
        match config_line(c, decode_utf8(ls[0])) {
            Some(c2) => config_lines(c2, ls.drop_first()),
            None => None,
        }
    }
}

/// The settings after the option `k` of the `00texlive.installation`
/// record is set to the flag `b`, for the options that are flags.
pub open spec fn install_flag(c: ConfigView, k: Seq<char>, b: bool) -> ConfigView {
    if k == "opt_create_formats"@ {
        ConfigView { opt_create_formats: b, ..c }
    } else if k == "opt_desktop_integration"@ {
        ConfigView { opt_desktop_integration: b, ..c }
    } else if k == "opt_generate_updmap"@ {
        ConfigView { opt_generate_updmap: b, ..c }
    } else if k == "opt_install_docfiles"@ {
        ConfigView { opt_install_docfiles: b, ..c }
    } else if k == "opt_install_srcfiles"@ {
        ConfigView { opt_install_srcfiles: b, ..c }
    } else if k == "opt_post_code"@ {
        ConfigView { opt_post_code: b, ..c }
    } else {
        ConfigView { opt_w32_multi_user: b, ..c }
    }
}

/// True for the options of the `00texlive.installation` record that are
/// flags.
pub open spec fn is_flag_option(k: Seq<char>) -> bool {
    k == "opt_create_formats"@ || k == "opt_desktop_integration"@ || k == "opt_generate_updmap"@
        || k == "opt_install_docfiles"@ || k == "opt_install_srcfiles"@ || k == "opt_post_code"@ || k
        == "opt_w32_multi_user"@
}

/// The settings after the option `k` of the `00texlive.installation`
/// record is given the value `v`; `None` when the value is malformed.
/// Unknown options are ignored.
#[verifier::opaque]
pub open spec fn install_option(c: ConfigView, k: Seq<char>, v: Seq<char>) -> Option<ConfigView> {
    if is_flag_option(k) {
        match flag_of(v) {
            Some(b) => Some(install_flag(c, k, b)),
            None => None,
        }
    } else if k == "opt_autobackup"@ {
        match number_of(v, 4294967295) {
            Some(n) => Some(ConfigView { opt_autobackup: n as u32, ..c }),
            None => None,
        }
    } else if k == "opt_file_assocs"@ {
        match number_of(v, 255) {
            Some(n) => Some(ConfigView { opt_file_assocs: n as u8, ..c }),
            None => None,
        }
    } else if k == "opt_backupdir"@ {
        Some(ConfigView { opt_backupdir: v, ..c })
    } else if k == "opt_location"@ {
        Some(ConfigView { opt_location: v, ..c })
    } else if k == "opt_sys_bin"@ {
        Some(ConfigView { opt_sys_bin: v, ..c })
    } else if k == "opt_sys_info"@ {
        Some(ConfigView { opt_sys_info: v, ..c })
    } else if k == "opt_sys_man"@ {
        Some(ConfigView { opt_sys_man: v, ..c })
    } else if k == "setting_available_architectures"@ {
        Some(ConfigView { setting_available_architectures: words(v), ..c })
    } else {
        Some(c)
    }
}

/// The settings after a line of the `00texlive.installation` record: a
/// trimmed line `depend <option>:<value>` sets the option, other lines
/// are ignored.
#[verifier::opaque]
pub open spec fn install_line(c: ConfigView, line: Seq<char>) -> Option<ConfigView> {
    match strip_prefix_chars(trim(line), "depend "@) {
        None => Some(c),
        Some(item) => match split_once_char(item, ':') {
            None => None,
            Some((k, v)) => install_option(c, k, v),
        },
    }
}

/// The settings after the lines `ls` of the `00texlive.installation`
/// record.
pub open spec fn install_lines(c: ConfigView, ls: Seq<Seq<u8>>) -> Option<ConfigView>
    decreases ls.len(),
{
    if ls.len() == 0 {
        Some(c)
    } else {
        match install_line(c, decode_utf8(ls[0])) {
            Some(c2) => install_lines(c2, ls.drop_first()),
            None => None,
        }
    }
}

/// The settings after a `00texlive.*` record `b`: its first line names the
/// record; the lines after it are read for the `config` and
/// `installation` records, ignored for `image` and `installer`; `None`
/// when the record breaks the format or is of another kind.
pub open spec fn texlive_block(c: ConfigView, b: Seq<u8>) -> Option<ConfigView> {
    let i = crate::text::index_of(b, 10u8);
    if i >= b.len() {
        None
    } else {
        let first = b.take(i);
        let rest = b.skip(i + 1);
        if first == "name 00texlive.config".spec_bytes() {
            config_lines(c, crate::text::lines(rest))
        } else if first == "name 00texlive.installation".spec_bytes() {
            install_lines(c, crate::text::lines(rest))
        } else if first == "name 00texlive.image".spec_bytes() || first
            == "name 00texlive.installer".spec_bytes() {
            Some(c)
        } else {
            None
        }
    }
}

/// The first offset `k >= i` at which `b` holds a blank line separator
/// (`\n\n`), or `b.len()` when there is none.
pub open spec fn pair_from(b: Seq<u8>, i: int) -> int
    decreases b.len() - i,
{
    if i < 0 || i + 1 >= b.len() {
        b.len() as int
    } else if b[i] == 10u8 && b[i + 1] == 10u8 {
        i
    } else {
        pair_from(b, i + 1)
    }
}

pub proof fn lemma_pair_from(b: Seq<u8>, i: int)
    requires
        0 <= i <= b.len(),
    ensures
        i <= pair_from(b, i) <= b.len(),
        pair_from(b, i) < b.len() ==> pair_from(b, i) + 1 < b.len() && b[pair_from(b, i)] == 10u8
            && b[pair_from(b, i) + 1] == 10u8,
        forall|k: int| i <= k < pair_from(b, i) ==> !(k + 1 < b.len() && #[trigger] b[k] == 10u8 && b[k + 1] == 10u8),
    decreases b.len() - i,
{
    if i + 1 < b.len() && !(b[i] == 10u8 && b[i + 1] == 10u8) {
        lemma_pair_from(b, i + 1);
    }
}

/// The blocks of `b[pos..]`, as `str::split("\n\n")` gives them.
pub open spec fn blocks_from(b: Seq<u8>, pos: int) -> Seq<Seq<u8>>
    decreases b.len() - pos,
{
    if pos < 0 || pos > b.len() {
        seq![]
    } else {
        let i = pair_from(b, pos);
        if i < b.len() {
            proof {
                lemma_pair_from(b, pos);
            }
            seq![b.subrange(pos, i)] + blocks_from(b, i + 2)
        } else {
            seq![b.subrange(pos, b.len() as int)]
        }
    }
}

/// `s` without its trailing white space (`str::trim_end`).
pub open spec fn trim_end(s: Seq<char>) -> Seq<char>
    decreases s.len(),
{
    if s.len() > 0 && crate::chars::is_ws(s.last()) {
        trim_end(s.drop_last())
    } else {
        s
    }
}

/// The packages of the blocks `bs`, skipped ones left out; `None` when a
/// block breaks the format.
pub open spec fn package_blocks(bs: Seq<Seq<u8>>, arch: Seq<u8>, skip: bool) -> Option<
    Seq<PackageView>,
>
    decreases bs.len(),
{
    if bs.len() == 0 {
        Some(seq![])
    } else {
        match parse_package(bs[0], arch, skip) {
            ParseOutcome::Malformed => None,
            ParseOutcome::Skipped => package_blocks(bs.drop_first(), arch, skip),
            ParseOutcome::Record(p) => match package_blocks(bs.drop_first(), arch, skip) {
                Some(t) => Some(seq![p] + t),
                None => None,
            },
        }
    }
}

/// The settings and packages of the blocks `bs`: the leading `00texlive.*`
/// records update the settings `c`, the blocks after them are packages.
pub open spec fn tlpdb_blocks(c: ConfigView, bs: Seq<Seq<u8>>, arch: Seq<u8>, skip: bool) -> Option<
    (ConfigView, Seq<PackageView>),
>
    decreases bs.len(),
{
    if bs.len() > 0 && crate::text::starts_with(bs[0], "name 00texlive.".spec_bytes()) {
        match texlive_block(c, bs[0]) {
            Some(c2) => tlpdb_blocks(c2, bs.drop_first(), arch, skip),
            None => None,
        }
    } else {
        match package_blocks(bs, arch, skip) {
            Some(ps) => Some((c, ps)),
            None => None,
        }
    }
}

/// The settings and packages of a `texlive.tlpdb` text: its trailing white
/// space removed, it is split into blocks at blank lines; `None` when a
/// block breaks the format.
pub open spec fn tlpdb_of(content: Seq<char>, arch: Seq<u8>, skip: bool) -> Option<
    (ConfigView, Seq<PackageView>),
> {
    tlpdb_blocks(default_config(), blocks_from(encode_utf8(trim_end(content)), 0), arch, skip)
}

/// The names of the packages.
pub open spec fn package_names(ps: Seq<PackageView>) -> Seq<Seq<u8>> {
    ps.map_values(|p: PackageView| p.name)
}

/// The map from each name to the position of the last package of that
/// name.
pub open spec fn name_positions(ns: Seq<Seq<u8>>) -> Map<Seq<u8>, usize>
    decreases ns.len(),
{
    if ns.len() == 0 {
        Map::empty()
    } else {
        name_positions(ns.drop_last()).insert(ns.last(), (ns.len() - 1) as usize)
    }
}

pub proof fn lemma_name_positions(ns: Seq<Seq<u8>>, n: Seq<u8>)
    requires
        ns.len() <= usize::MAX,
    ensures
        name_positions(ns).dom().contains(n) <==> ns.contains(n),
        name_positions(ns).dom().contains(n) ==> {
            let i = name_positions(ns)[n] as int;
            &&& 0 <= i < ns.len()
            &&& ns[i] == n
            &&& forall|j: int| i < j < ns.len() ==> ns[j] != n
        },
    decreases ns.len(),
{
    if ns.len() > 0 {
        let pre = ns.drop_last();
        lemma_name_positions(pre, n);
        if ns.last() != n {
            if pre.contains(n) {
                let k = choose|k: int| 0 <= k < pre.len() && pre[k] == n;
                assert(ns[k] == n);
            }
            if ns.contains(n) {
                let k = choose|k: int| 0 <= k < ns.len() && ns[k] == n;
                assert(pre[k] == n);
            }
            if name_positions(ns).dom().contains(n) {
                let i = name_positions(ns)[n] as int;
                assert(i == name_positions(pre)[n] as int);
                assert(ns[i] == pre[i]);
                assert forall|j: int| i < j < ns.len() implies ns[j] != n by {
                    if j < ns.len() - 1 {
                        assert(ns[j] == pre[j]);
                    }
                }
            }
        } else {
            assert(ns[ns.len() - 1] == n);
        }
    }
}

/// The package database.
pub struct DatabaseView {
    pub packages: Seq<PackageView>,
    pub target_arch: Seq<u8>,
    pub options: ConfigView,
    pub mirror_url: Seq<u8>,
    pub include_doc: bool,
    pub include_src: bool,
}

/// The position of the last package named `n`, if there is one.
pub open spec fn lookup(db: DatabaseView, n: Seq<u8>) -> Option<int> {
    let m = name_positions(package_names(db.packages));
    if m.dom().contains(n) {
        Some(m[n] as int)
    } else {
        None
    }
}

/// The package database: the packages of the `texlive.tlpdb` file, in the
/// order of the file, and the installation settings.
pub struct Database<'a> {
    packages: Vec<Package<'a>>,
    index: NameMap<'a>,
    target_arch: &'static str,
    pub options: ConfigData<'a>,
    mirror_url: &'a str,
    include_doc: bool,
    include_src: bool,
}

spec fn packages_view<'a>(v: Seq<Package<'a>>) -> Seq<PackageView> {
    v.map_values(|p: Package<'a>| p@)
}

impl<'a> View for Database<'a> {
    type V = DatabaseView;

    closed spec fn view(&self) -> DatabaseView {
        DatabaseView {
            packages: packages_view(self.packages@),
            target_arch: self.target_arch.spec_bytes(),
            options: self.options@,
            mirror_url: self.mirror_url.spec_bytes(),
            include_doc: self.include_doc,
            include_src: self.include_src,
        }
    }
}

impl<'a> Database<'a> {
    /// The index holds the position of the last package of each name.
    #[verifier::type_invariant]
    spec fn indexed(self) -> bool {
        name_map_entries(self.index) == name_positions(package_names(packages_view(self.packages@)))
    }

    /// The number of packages.
    pub fn len(&self) -> (r: usize)
        ensures
            r == self@.packages.len(),
    {
        self.packages.len()
    }

    /// The last package named `pkg_name`, if there is one.
    pub fn get_package(&self, pkg_name: &str) -> (r: Option<&Package<'a>>)
        ensures
            match lookup(self@, pkg_name.spec_bytes()) {
                Some(i) => r matches Some(p) && p@ == self@.packages[i],
                None => r is None,
            },
            r matches Some(p) ==> p@.name == pkg_name.spec_bytes(),
    {
        let n = self.packages.len();
        proof {
            use_type_invariant(self);
            lemma_name_positions(package_names(packages_view(self.packages@)), pkg_name.spec_bytes());
        }
        match name_map_get(&self.index, pkg_name) {
            Some(i) => Some(&self.packages[i]),
            None => None,
        }
    }
}

/// `s` without its trailing white space (`str::trim_end`).
fn trim_end_str<'a>(s: &'a str) -> (r: &'a str)
    ensures
        r@ == trim_end(s@),
{
    let v = to_chars(s);
    let mut j = v.len();
    assert(v@.subrange(0, j as int) =~= v@);
    while j > 0 && crate::chars::is_ws_exec(v[j - 1])
        invariant
            j <= v@.len(),
            trim_end(v@) == trim_end(v@.subrange(0, j as int)),
        decreases j,
    {
        assert(v@.subrange(0, j as int).drop_last() =~= v@.subrange(0, j - 1));
        j = j - 1;
    }
    s.substring_char(0, j)
}

/// The blocks that remain: none when `done`, else those from `pos`.
spec fn blocks_left(b: Seq<u8>, pos: int, done: bool) -> Seq<Seq<u8>> {
    if done {
        seq![]
    } else {
        blocks_from(b, pos)
    }
}

/// The end of the block at `pos` and whether it is the last block.
fn next_block(b: &[u8], pos: usize) -> (r: (usize, bool))
    requires
        pos <= b@.len(),
    ensures
        pos <= r.0 <= b@.len(),
        r.1 ==> r.0 == b@.len(),
        !r.1 ==> r.0 + 2 <= b@.len() && b@[r.0 as int] == 10u8 && b@[r.0 + 1] == 10u8,
        blocks_from(b@, pos as int) == seq![b@.subrange(pos as int, r.0 as int)] + blocks_left(
            b@,
            r.0 + 2,
            r.1,
        ),
{
    let n = b.len();
    let mut i = pos;
    proof {
        lemma_pair_from(b@, pos as int);
    }
    while n - i >= 2 && !(b[i] == 10u8 && b[i + 1] == 10u8)
        invariant
            n == b@.len(),
            pos <= i <= n,
            pair_from(b@, pos as int) == pair_from(b@, i as int),
        decreases n - i,
    {
        i = i + 1;
    }
    if n - i >= 2 {
        assert(pair_from(b@, i as int) == i);
        (i, false)
    } else {
        assert(pair_from(b@, i as int) == n);
        assert(blocks_left(b@, n + 2, true) =~= Seq::<Seq<u8>>::empty());
        (n, true)
    }
}

impl<'a> Database<'a> {
    /// Reads the database text `tlpdb_content`: its `00texlive.*` records
    /// give the settings, the blocks after them the packages. The packages
    /// are read with `include_src` as their architecture filter, so binary
    /// packages of other architectures are skipped when `include_src` holds;
    /// `skip_arch_filter` takes no part in the reading. This order of the
    /// flags is kept on purpose: it is the one that the installer has always
    /// read its database with, so the same packages are chosen. `None` when
    /// a block breaks the format.
    pub fn from_tlpdb_checked(
        tlpdb_content: &'a str,
        target_arch: &'static str,
        include_doc: bool,
        include_src: bool,
        mirror_url: &'a str,
        skip_arch_filter: bool,
    ) -> (r: Option<Database<'a>>)
        ensures
            match tlpdb_of(tlpdb_content@, target_arch.spec_bytes(), include_src) {
                None => r is None,
                Some((c, ps)) => r matches Some(db) && db@ == (DatabaseView {
                    packages: ps,
                    target_arch: target_arch.spec_bytes(),
                    options: c,
                    mirror_url: mirror_url.spec_bytes(),
                    include_doc,
                    include_src,
                }),
            },
    {
        let content = trim_end_str(tlpdb_content);
        let b = content.as_bytes();
        let blen = b.len();
        let ghost bb = b@;
        assert(bb == encode_utf8(trim_end(tlpdb_content@)));
        let ghost all = blocks_from(bb, 0);
        let mut options = ConfigData::default();
        let mut pos: usize = 0;
        let mut done = false;
        proof {
            reveal_strlit("name 00texlive.");
        }
        loop
            invariant_except_break
                b@ == bb,
                blen == bb.len(),
                bb == content.spec_bytes(),
                all == blocks_from(bb, 0),
                pos <= bb.len(),
                pos == 0 || bb[pos - 1] == 10u8,
                tlpdb_of(tlpdb_content@, target_arch.spec_bytes(), include_src) == tlpdb_blocks(
                    options@,
                    blocks_left(bb, pos as int, done),
                    target_arch.spec_bytes(),
                    include_src,
                ),
            ensures
                b@ == bb,
                pos <= bb.len(),
                pos == 0 || bb[pos - 1] == 10u8,
                tlpdb_of(tlpdb_content@, target_arch.spec_bytes(), include_src) == match package_blocks(
                    blocks_left(bb, pos as int, done),
                    target_arch.spec_bytes(),
                    include_src,
                ) {
                    Some(ps) => Some((options@, ps)),
                    None => None,
                },
            decreases bb.len() - pos + (if done { 0int } else { 1int }),
        {
            if done {
                break;
            }
            let (end, last) = next_block(b, pos);
            let block = sub_str(content, pos, end);
            let pb = "name 00texlive.".as_bytes();
            let is_config = pb.len() <= end - pos && crate::text::occurs_at_exec(b, pb, pos);
            let ghost rem = blocks_left(bb, pos as int, done);
            let ghost rest = blocks_left(bb, end + 2, last);
            assert(rem[0] == block.spec_bytes());
            assert(rem.drop_first() =~= rest);
            assert(is_config == crate::text::starts_with(block.spec_bytes(), pb@)) by {
                if pb@.len() <= block.spec_bytes().len() {
                    assert(block.spec_bytes().subrange(0, pb@.len() as int) =~= bb.subrange(
                        pos as int,
                        pos + pb@.len(),
                    ));
                }
            }
            if !is_config {
                break;
            }
            if !options.parse_00texlive_block(block) {
                return None;
            }
            if last {
                done = true;
            } else {
                pos = end + 2;
            }
        }
        let mut packages: Vec<Package<'a>> = Vec::new();
        let mut index = name_map_new(Parser::PKG_COUNT);
        let ghost mut seen: Seq<PackageView> = seq![];
        assert(packages_view(packages@) =~= seen);
        assert(name_map_entries(index) =~= name_positions(package_names(seen)));
        loop
            invariant_except_break
                b@ == bb,
                blen == bb.len(),
                bb == content.spec_bytes(),
                pos <= bb.len(),
                pos == 0 || bb[pos - 1] == 10u8,
                packages_view(packages@) == seen,
                name_map_entries(index) == name_positions(package_names(seen)),
                tlpdb_of(tlpdb_content@, target_arch.spec_bytes(), include_src) == match package_blocks(
                    blocks_left(bb, pos as int, done),
                    target_arch.spec_bytes(),
                    include_src,
                ) {
                    Some(ps) => Some((options@, seen + ps)),
                    None => None,
                },
            ensures
                packages_view(packages@) == seen,
                name_map_entries(index) == name_positions(package_names(seen)),
                tlpdb_of(tlpdb_content@, target_arch.spec_bytes(), include_src) == Some(
                    (options@, seen),
                ),
            decreases bb.len() - pos + (if done { 0int } else { 1int }),
        {
            if done {
                assert(seen + Seq::<PackageView>::empty() =~= seen);
                break;
            }
            let (end, last) = next_block(b, pos);
            let block = sub_str(content, pos, end);
            let ghost rest = blocks_left(bb, end + 2, last);
            let ghost rem = blocks_left(bb, pos as int, done);
            assert(rem[0] == block.spec_bytes());
            assert(rem.drop_first() =~= rest);
            match Package::parse_checked(block, target_arch, include_src) {
                None => {
                    return None;
                },
                Some(None) => {},
                Some(Some(p)) => {
                    let name = p.get_name();
                    let k = packages.len();
                    name_map_insert(&mut index, name, k);
                    let ghost pv = p@;
                    packages.push(p);
                    proof {
                        let ns = package_names(seen.push(pv));
                        assert(ns.drop_last() =~= package_names(seen));
                        assert(packages_view(packages@) =~= seen.push(pv));
                        assert(seen + (seq![pv] + package_blocks(rest, target_arch.spec_bytes(), include_src)->0)
                            =~= seen.push(pv) + package_blocks(rest, target_arch.spec_bytes(), include_src)->0);
                        seen = seen.push(pv);
                    }
                },
            }
            if last {
                done = true;
            } else {
                pos = end + 2;
            }
        }
        Some(
            Database {
                packages,
                index,
                target_arch,
                options,
                mirror_url,
                include_doc,
                include_src,
            },
        )
    }

    /// Reads the database text `tlpdb_content`, which must be well formed
    /// (see `from_tlpdb_checked`, whose order of the flags, `include_src`
    /// as the architecture filter, it keeps on purpose).
    pub fn from_tlpdb(
        tlpdb_content: &'a str,
        target_arch: &'static str,
        include_doc: bool,
        include_src: bool,
        mirror_url: &'a str,
        skip_arch_filter: bool,
    ) -> (r: Database<'a>)
        requires
            tlpdb_of(tlpdb_content@, target_arch.spec_bytes(), include_src) is Some,
        ensures
            ({
                let (c, ps) = tlpdb_of(tlpdb_content@, target_arch.spec_bytes(), include_src)->0;
                r@ == (DatabaseView {
                    packages: ps,
                    target_arch: target_arch.spec_bytes(),
                    options: c,
                    mirror_url: mirror_url.spec_bytes(),
                    include_doc,
                    include_src,
                })
            }),
    {
        match Database::from_tlpdb_checked(
            tlpdb_content,
            target_arch,
            include_doc,
            include_src,
            mirror_url,
            skip_arch_filter,
        ) {
            Some(db) => db,
            None => vstd::pervasive::unreached(),
        }
    }
}

/// A flag written `1` or `0`.
fn parse_01_bool(val: &str) -> (r: Option<bool>)
    ensures
        r == flag_of(val@),
{
    let v = to_chars(val);
    assert(v@.subrange(0, v@.len() as int) =~= v@);
    if chars_eq(&v, 0, v.len(), "1") {
        Some(true)
    } else if chars_eq(&v, 0, v.len(), "0") {
        Some(false)
    } else {
        None
    }
}

/// `s` read as an unsigned integer no greater than `max`.
fn number_exec(s: &str, max: u64) -> (r: Option<u64>)
    ensures
        match number_of(s@, max as nat) {
            Some(n) => r == Some(n as u64),
            None => r is None,
        },
{
    let b = s.as_bytes();
    assert(b@.subrange(0, b@.len() as int) =~= b@);
    parse_unsigned_exec(b, 0, b.len(), max)
}

impl<'a> ConfigData<'a> {
    /// Sets the flag option `kc[ks..ke]` to `b`.
    fn set_flag(&mut self, kc: &Vec<char>, ks: usize, ke: usize, b: bool)
        requires
            ks <= ke <= kc@.len(),
            is_flag_option(kc@.subrange(ks as int, ke as int)),
        ensures
            final(self)@ == install_flag(old(self)@, kc@.subrange(ks as int, ke as int), b),
    {
        let c = self;
        if chars_eq(kc, ks, ke, "opt_create_formats") {
            c.opt_create_formats = b;
        } else if chars_eq(kc, ks, ke, "opt_desktop_integration") {
            c.opt_desktop_integration = b;
        } else if chars_eq(kc, ks, ke, "opt_generate_updmap") {
            c.opt_generate_updmap = b;
        } else if chars_eq(kc, ks, ke, "opt_install_docfiles") {
            c.opt_install_docfiles = b;
        } else if chars_eq(kc, ks, ke, "opt_install_srcfiles") {
            c.opt_install_srcfiles = b;
        } else if chars_eq(kc, ks, ke, "opt_post_code") {
            c.opt_post_code = b;
        } else {
            c.opt_w32_multi_user = b;
        }
    }

    /// Sets the option `kc[ks..ke]` of the `00texlive.installation` record
    /// to `v`; false when the value is malformed.
    fn set_option(&mut self, kc: &Vec<char>, ks: usize, ke: usize, v: &'a str) -> (r: bool)
        requires
            ks <= ke <= kc@.len(),
        ensures
            match install_option(old(self)@, kc@.subrange(ks as int, ke as int), v@) {
                Some(n) => r && final(self)@ == n,
                None => !r,
            },
    {
        reveal(install_option);
        let is_flag = chars_eq(kc, ks, ke, "opt_create_formats") || chars_eq(
            kc,
            ks,
            ke,
            "opt_desktop_integration",
        ) || chars_eq(kc, ks, ke, "opt_generate_updmap") || chars_eq(kc, ks, ke, "opt_install_docfiles")
            || chars_eq(kc, ks, ke, "opt_install_srcfiles") || chars_eq(kc, ks, ke, "opt_post_code")
            || chars_eq(kc, ks, ke, "opt_w32_multi_user");
        if is_flag {
            match parse_01_bool(v) {
                Some(b) => {
                    self.set_flag(kc, ks, ke, b);
                    return true;
                },
                None => {
                    return false;
                },
            }
        }
        if chars_eq(kc, ks, ke, "opt_autobackup") {
            match number_exec(v, 4294967295u64) {
                Some(n) => {
                    self.opt_autobackup = n as u32;
                    return true;
                },
                None => {
                    return false;
                },
            }
        }
        if chars_eq(kc, ks, ke, "opt_file_assocs") {
            match number_exec(v, 255u64) {
                Some(n) => {
                    self.opt_file_assocs = n as u8;
                    return true;
                },
                None => {
                    return false;
                },
            }
        }
        if chars_eq(kc, ks, ke, "opt_backupdir") {
            self.opt_backupdir = v;
        } else if chars_eq(kc, ks, ke, "opt_location") {
            self.opt_location = v;
        } else if chars_eq(kc, ks, ke, "opt_sys_bin") {
            self.opt_sys_bin = v;
        } else if chars_eq(kc, ks, ke, "opt_sys_info") {
            self.opt_sys_info = v;
        } else if chars_eq(kc, ks, ke, "opt_sys_man") {
            self.opt_sys_man = v;
        } else if chars_eq(kc, ks, ke, "setting_available_architectures") {
            self.setting_available_architectures = split_words(v);
        }
        true
    }

    /// Applies a line of the `00texlive.config` record; false when the line
    /// breaks the format.
    fn config_line_exec(&mut self, line: &'a str) -> (r: bool)
        ensures
            match config_line(old(self)@, line@) {
                Some(n) => r && final(self)@ == n,
                None => !r,
            },
    {
        reveal(config_line);
        proof {
            reveal_strlit("depend ");
        }
        let lc = to_chars(line);
        let n = lc.len();
        if n < 7 || !chars_eq(&lc, 0, 7, "depend ") {
            return true;
        }
        let ghost item = lc@.skip(7);
        let slash = find_char(&lc, '/', 7, n);
        assert(lc@.subrange(7, n as int) =~= item);
        if slash == n {
            return false;
        }
        assert(item.take(slash - 7) =~= lc@.subrange(7, slash as int));
        let value = line.substring_char(slash + 1, n);
        assert(item.skip(slash - 7 + 1) =~= value@);
        if chars_eq(&lc, 7, slash, "minrelease") {
            match number_exec(trim_str(value), 65535u64) {
                Some(v) => {
                    self.min_release = v as u16;
                    true
                },
                None => false,
            }
        } else if chars_eq(&lc, 7, slash, "release") {
            match number_exec(trim_str(value), 65535u64) {
                Some(v) => {
                    self.release = v as u16;
                    true
                },
                None => false,
            }
        } else if chars_eq(&lc, 7, slash, "frozen") {
            match parse_01_bool(value) {
                Some(b) => {
                    self.frozen = b;
                    true
                },
                None => false,
            }
        } else {
            true
        }
    }

    /// Applies a line of the `00texlive.installation` record; false when the
    /// line breaks the format.
    fn install_line_exec(&mut self, line: &'a str) -> (r: bool)
        ensures
            match install_line(old(self)@, line@) {
                Some(n) => r && final(self)@ == n,
                None => !r,
            },
    {
        reveal(install_line);
        proof {
            reveal_strlit("depend ");
        }
        let t = trim_str(line);
        let tc = to_chars(t);
        let n = tc.len();
        if n < 7 || !chars_eq(&tc, 0, 7, "depend ") {
            return true;
        }
        let ghost item = tc@.skip(7);
        let colon = find_char(&tc, ':', 7, n);
        assert(tc@.subrange(7, n as int) =~= item);
        if colon == n {
            return false;
        }
        assert(item.take(colon - 7) =~= tc@.subrange(7, colon as int));
        let value = t.substring_char(colon + 1, n);
        assert(item.skip(colon - 7 + 1) =~= value@);
        self.set_option(&tc, 7, colon, value)
    }
}


impl<'a> ConfigData<'a> {
    /// Reads the lines of the `00texlive.config` record; false when a line
    /// breaks the format.
    fn parse_00config(&mut self, lines: &'a str) -> (r: bool)
        ensures
            match config_lines(old(self)@, lines_from(lines.spec_bytes(), 0)) {
                Some(n) => r && final(self)@ == n,
                None => !r,
            },
    {
        let b = lines.as_bytes();
        let ghost bb = b@;
        let ghost c0 = self@;
        let mut pos: usize = 0;
        loop
            invariant
                b@ == bb,
                bb == lines.spec_bytes(),
                pos <= bb.len(),
                pos == 0 || pos == bb.len() || bb[pos - 1] == 10u8,
                c0 == old(self)@,
                config_lines(c0, lines_from(bb, 0)) == config_lines(self@, lines_from(bb, pos as int)),
            decreases bb.len() - pos,
        {
            match next_line(b, pos) {
                None => {
                    assert(lines_from(bb, pos as int) =~= Seq::<Seq<u8>>::empty());
                    return true;
                },
                Some((s, e, n)) => {
                    let line = sub_str(lines, s, e);
                    assert(lines_from(bb, pos as int).drop_first() =~= lines_from(bb, n as int));
                    assert(decode_utf8(line.spec_bytes()) == line@);
                    if !self.config_line_exec(line) {
                        return false;
                    }
                    pos = n;
                },
            }
        }
    }

    /// Reads the lines of the `00texlive.installation` record; false when a
    /// line breaks the format.
    fn parse_00installation(&mut self, lines: &'a str) -> (r: bool)
        ensures
            match install_lines(old(self)@, lines_from(lines.spec_bytes(), 0)) {
                Some(n) => r && final(self)@ == n,
                None => !r,
            },
    {
        let b = lines.as_bytes();
        let ghost bb = b@;
        let ghost c0 = self@;
        let mut pos: usize = 0;
        loop
            invariant
                b@ == bb,
                bb == lines.spec_bytes(),
                pos <= bb.len(),
                pos == 0 || pos == bb.len() || bb[pos - 1] == 10u8,
                c0 == old(self)@,
                install_lines(c0, lines_from(bb, 0)) == install_lines(self@, lines_from(bb, pos as int)),
            decreases bb.len() - pos,
        {
            match next_line(b, pos) {
                None => {
                    assert(lines_from(bb, pos as int) =~= Seq::<Seq<u8>>::empty());
                    return true;
                },
                Some((s, e, n)) => {
                    let line = sub_str(lines, s, e);
                    assert(lines_from(bb, pos as int).drop_first() =~= lines_from(bb, n as int));
                    assert(decode_utf8(line.spec_bytes()) == line@);
                    if !self.install_line_exec(line) {
                        return false;
                    }
                    pos = n;
                },
            }
        }
    }

    /// Reads a `00texlive.*` record; false when it breaks the format or is
    /// of another kind.
    fn parse_00texlive_block(&mut self, lines_block: &'a str) -> (r: bool)
        ensures
            match texlive_block(old(self)@, lines_block.spec_bytes()) {
                Some(n) => r && final(self)@ == n,
                None => !r,
            },
    {
        let b = lines_block.as_bytes();
        let len = b.len();
        assert(b@.subrange(0, len as int) =~= b@);
        let i = crate::text::find_byte(b, 10u8, 0, len);
        if i == len {
            return false;
        }
        let rest = sub_str(lines_block, i + 1, len);
        assert(rest.spec_bytes() =~= b@.skip(i + 1));
        if range_eq(b, 0, i, "name 00texlive.config".as_bytes()) {
            self.parse_00config(rest)
        } else if range_eq(b, 0, i, "name 00texlive.installation".as_bytes()) {
            self.parse_00installation(rest)
        } else if range_eq(b, 0, i, "name 00texlive.image".as_bytes()) || range_eq(
            b,
            0,
            i,
            "name 00texlive.installer".as_bytes(),
        ) {
            assert(b@.subrange(0, i as int) =~= b@.take(i as int));
            true
        } else {
            assert(b@.subrange(0, i as int) =~= b@.take(i as int));
            false
        }
    }
}

/// Whether `b[s..e]` equals `p`.
fn range_eq(b: &[u8], s: usize, e: usize, p: &[u8]) -> (r: bool)
    requires
        s <= e <= b@.len(),
    ensures
        r == (b@.subrange(s as int, e as int) == p@),
{
    if e - s != p.len() {
        return false;
    }
    let r = crate::text::occurs_at_exec(b, p, s);
    assert(r == (b@.subrange(s as int, e as int) =~= p@));
    r
}


/// The name that the dependency `d` stands for: `d` itself, or, for a name
/// `base.ARCH`, the name `base.<target arch>` when the database has a
/// package of that name (`None` when it has none).
pub open spec fn resolve_dep_name(db: DatabaseView, d: Seq<u8>) -> Option<Seq<u8>> {
    if ends_with(d, ".ARCH".spec_bytes()) {
        let dest = d.subrange(0, d.len() - ".ARCH".spec_bytes().len()) + ".".spec_bytes()
            + db.target_arch;
        if lookup(db, dest) is Some {
            Some(dest)
        } else {
            None
        }
    } else {
        Some(d)
    }
}

/// The names that the dependencies `ds` stand for, in order.
pub open spec fn resolve_deps(db: DatabaseView, ds: Seq<Seq<u8>>) -> Seq<Seq<u8>>
    decreases ds.len(),
{
    if ds.len() == 0 {
        seq![]
    } else {
        resolve_deps(db, ds.drop_last()) + opt_seq(resolve_dep_name(db, ds.last()))
    }
}

/// The dependencies of the package at position `i`, resolved.
pub open spec fn package_deps(db: DatabaseView, i: int) -> Seq<Seq<u8>> {
    match last_items(db.packages[i], Kind::Depend) {
        Some(l) => resolve_deps(db, l),
        None => seq![],
    }
}

/// The resolved dependencies of the package named `n` (none when the
/// database has no such package).
pub open spec fn dependencies_of(db: DatabaseView, n: Seq<u8>) -> Seq<Seq<u8>> {
    match lookup(db, n) {
        Some(i) => package_deps(db, i),
        None => seq![],
    }
}

impl<'a> Database<'a> {
    /// The package name that the dependency `dep` stands for.
    fn resolve_one(&self, dep: &'a str) -> (r: Option<&'a str>)
        ensures
            match resolve_dep_name(self@, dep.spec_bytes()) {
                Some(n) => r matches Some(s) && s.spec_bytes() == n,
                None => r is None,
            },
    {
        let b = dep.as_bytes();
        let n = b.len();
        let suffix = ".ARCH";
        proof {
            reveal_strlit(".ARCH");
            crate::text::lemma_ascii_bytes(suffix);
        }
        let ends = n >= 5 && crate::text::occurs_at_exec(b, suffix.as_bytes(), n - 5);
        assert(ends == ends_with(b@, suffix.spec_bytes())) by {
            if n >= 5 {
                assert(b@.subrange(n - 5, n as int) == b@.subrange(n - 5, n - 5 + 5));
            }
        }
        if !ends {
            return Some(dep);
        }
        proof {
            assert(b@.subrange(n - 5, n as int)[0] == suffix.spec_bytes()[0]);
        }
        let base = sub_str(dep, 0, n - 5);
        let mut v: Vec<u8> = Vec::new();
        push_bytes(&mut v, base.as_bytes());
        push_bytes(&mut v, ".".as_bytes());
        let ghost mid = v@;
        push_bytes(&mut v, self.target_arch.as_bytes());
        let ghost dest = v@;
        proof {
            vstd::utf8::valid_utf8_concat(base.spec_bytes(), ".".spec_bytes());
            vstd::utf8::valid_utf8_concat(mid, self.target_arch.spec_bytes());
            assert(dest =~= b@.subrange(0, b@.len() - ".ARCH".spec_bytes().len()) + ".".spec_bytes()
                + self@.target_arch);
        }
        match string_from_utf8(v) {
            Some(d) => {
                let ds = d.as_str();
                proof {
                    crate::text::lemma_same_bytes_same_str(ds@, decode_utf8(dest));
                }
                assert(ds.spec_bytes() == dest);
                match self.get_package(ds) {
                    Some(p) => {
                        Some(p.get_name())
                    },
                    None => None,
                }
            },
            None => {
                assert(false);
                None
            },
        }
    }

    /// Appends to `archive_out` the dependencies of the package named
    /// `pkg_name`, each `base.ARCH` replaced by the name of the package for
    /// the target architecture (and left out when there is none); nothing
    /// when the database has no package of that name.
    pub fn collect_dependencies(&self, pkg_name: &'a str, archive_out: &mut Vec<&'a str>)
        ensures
            strs_bytes(final(archive_out)@) == strs_bytes(old(archive_out)@) + dependencies_of(
                self@,
                pkg_name.spec_bytes(),
            ),
    {
        let ghost o = strs_bytes(archive_out@);
        let pkg = match self.get_package(pkg_name) {
            Some(p) => p,
            None => {
                assert(strs_bytes(archive_out@) =~= o + seq![]);
                return ;
            },
        };
        let deps = match pkg.list_of(Kind::Depend) {
            Some(d) => d,
            None => {
                assert(strs_bytes(archive_out@) =~= o + seq![]);
                return ;
            },
        };
        let ghost l = strs_bytes(deps@);
        let mut i: usize = 0;
        assert(strs_bytes(archive_out@) =~= o + resolve_deps(self@, l.take(0)));
        while i < deps.len()
            invariant
                i <= deps@.len(),
                l == strs_bytes(deps@),
                strs_bytes(archive_out@) == o + resolve_deps(self@, l.take(i as int)),
            decreases deps@.len() - i,
        {
            let ghost before = archive_out@;
            let dep = deps[i];
            match self.resolve_one(dep) {
                Some(name) => {
                    archive_out.push(name);
                    assert(strs_bytes(archive_out@) =~= strs_bytes(before) + seq![name.spec_bytes()]);
                },
                None => {},
            }
            proof {
                assert(l.take(i + 1).drop_last() =~= l.take(i as int));
                assert(l.take(i + 1).last() == dep.spec_bytes());
                vstd::seq_lib::lemma_concat_associative(
                    o,
                    resolve_deps(self@, l.take(i as int)),
                    opt_seq(resolve_dep_name(self@, dep.spec_bytes())),
                );
            }
            i = i + 1;
        }
        assert(l.take(i as int) =~= l);
    }
}

/// True when `s` holds every name of `l`.
pub open spec fn holds_all(s: Set<Seq<u8>>, l: Seq<Seq<u8>>) -> bool {
    forall|i: int| 0 <= i < l.len() ==> s.contains(#[trigger] l[i])
}

/// True when `s` holds the dependencies of each of its names.
pub open spec fn closed_under_deps(db: DatabaseView, s: Set<Seq<u8>>) -> bool {
    forall|n: Seq<u8>| s.contains(n) ==> #[trigger] holds_all(s, dependencies_of(db, n))
}

/// True when `s` is the set of the names that the names `entries` need:
/// it holds them, it holds the dependencies of each of its names, and it is
/// contained in every set that does both.
pub open spec fn dependency_closure(db: DatabaseView, entries: Seq<Seq<u8>>, s: Set<Seq<u8>>) -> bool {
    &&& holds_all(s, entries)
    &&& closed_under_deps(db, s)
    &&& forall|t: Set<Seq<u8>>|
        holds_all(t, entries) && closed_under_deps(db, t) ==> #[trigger] s.subset_of(t)
}

/// The resolved dependencies of the first `k` packages, one after another.
spec fn all_deps(db: DatabaseView, k: int) -> Seq<Seq<u8>>
    decreases k,
{
    if k <= 0 {
        seq![]
    } else {
        all_deps(db, k - 1) + package_deps(db, k - 1)
    }
}

proof fn lemma_all_deps(db: DatabaseView, k: int, i: int, j: int)
    requires
        0 <= i < k,
        0 <= j < package_deps(db, i).len(),
    ensures
        all_deps(db, k).contains(package_deps(db, i)[j]),
    decreases k,
{
    let a = all_deps(db, k - 1);
    let x = package_deps(db, i)[j];
    if i == k - 1 {
        assert(all_deps(db, k)[a.len() + j] == x);
    } else {
        lemma_all_deps(db, k - 1, i, j);
        let w = choose|w: int| 0 <= w < a.len() && a[w] == x;
        assert(all_deps(db, k)[w] == x);
    }
}

/// A name still in the work list after its last element is replaced by `d`.
proof fn lemma_pop_contains(w: Seq<Seq<u8>>, d: Seq<Seq<u8>>, x: Seq<u8>)
    requires
        w.len() > 0,
        w.contains(x),
        x != w.last(),
    ensures
        (w.drop_last() + d).contains(x),
{
    let k = choose|k: int| 0 <= k < w.len() && w[k] == x;
    assert((w.drop_last() + d)[k] == x);
}

impl<'a> Database<'a> {
    /// The names needed to install the packages `entry_packages`: the
    /// least set that holds them and the dependencies of each of its names.
    pub fn resolve_dep(&self, entry_packages: &[&'a str]) -> (r: AHashSet<&'a str>)
        ensures
            dependency_closure(self@, strs_bytes(entry_packages@), name_set_contents(r)),
    {
        let ghost db = self@;
        let ghost e = strs_bytes(entry_packages@);
        let total = self.packages.len();
        let ghost u = (e + all_deps(db, total as int)).to_set();
        let mut worklist: Vec<&'a str> = Vec::new();
        let mut k: usize = 0;
        while k < entry_packages.len()
            invariant
                k <= entry_packages@.len(),
                e == strs_bytes(entry_packages@),
                strs_bytes(worklist@) == e.take(k as int),
            decreases entry_packages@.len() - k,
        {
            let ghost before = worklist@;
            assert(strs_bytes(before) == e.take(k as int));
            let x = entry_packages[k];
            worklist.push(x);
            assert(worklist@ == before.push(x));
            assert(x.spec_bytes() == e[k as int]);
            assert(strs_bytes(worklist@) =~= e.take(k + 1)) by {
                assert forall|i: int| 0 <= i < k + 1 implies strs_bytes(worklist@)[i] == e.take(k + 1)[i] by {
                    if i < k {
                        assert(strs_bytes(before)[i] == e.take(k as int)[i]);
                    }
                }
            }
            k = k + 1;
        }
        assert(e.take(k as int) =~= e);
        let mut visited = name_set_new(5500);
        proof {
            vstd::seq_lib::seq_to_set_is_finite(e + all_deps(db, total as int));
            assert forall|i: int| 0 <= i < e.len() implies u.contains(#[trigger] e[i]) by {
                assert((e + all_deps(db, total as int))[i] == e[i]);
            }
            assert forall|i: int| 0 <= i < e.len() implies strs_bytes(worklist@).contains(#[trigger] e[i]) by {
                assert(strs_bytes(worklist@)[i] == e[i]);
            }
        }
        loop
            invariant
                db == self@,
                total == db.packages.len(),
                e == strs_bytes(entry_packages@),
                u == (e + all_deps(db, total as int)).to_set(),
                u.finite(),
                name_set_contents(visited).subset_of(u),
                holds_all(u, strs_bytes(worklist@)),
                forall|i: int|
                    0 <= i < e.len() ==> name_set_contents(visited).contains(#[trigger] e[i])
                        || strs_bytes(worklist@).contains(e[i]),
                forall|n: Seq<u8>, i: int|
                    name_set_contents(visited).contains(n) && 0 <= i < dependencies_of(db, n).len()
                        ==> name_set_contents(visited).contains(#[trigger] dependencies_of(db, n)[i])
                        || strs_bytes(worklist@).contains(dependencies_of(db, n)[i]),
                forall|t: Set<Seq<u8>>|
                    holds_all(t, e) && closed_under_deps(db, t) ==> #[trigger] name_set_contents(
                        visited,
                    ).subset_of(t) && holds_all(t, strs_bytes(worklist@)),
            ensures
                dependency_closure(db, e, name_set_contents(visited)),
            decreases u.len() - name_set_contents(visited).len(), worklist@.len(),
        {
            let ghost w = strs_bytes(worklist@);
            let ghost v = name_set_contents(visited);
            assert(forall|t: Set<Seq<u8>>| holds_all(t, e) && closed_under_deps(db, t) ==> v.subset_of(t) && holds_all(t, w));
            let last = match worklist.pop() {
                Some(x) => x,
                None => {
                    proof {
                        assert forall|i: int| 0 <= i < e.len() implies v.contains(#[trigger] e[i]) by {
                            if w.contains(e[i]) {
                                let j = choose|j: int| 0 <= j < w.len() && w[j] == e[i];
                            }
                        }
                        assert forall|n: Seq<u8>| v.contains(n) implies #[trigger] holds_all(
                            v,
                            dependencies_of(db, n),
                        ) by {
                            assert forall|i: int| 0 <= i < dependencies_of(db, n).len() implies v.contains(
                                #[trigger] dependencies_of(db, n)[i],
                            ) by {
                                if w.contains(dependencies_of(db, n)[i]) {
                                    let j = choose|j: int| 0 <= j < w.len() && w[j] == dependencies_of(db, n)[i];
                                }
                            }
                        }
                    }
                    break;
                },
            };
            let ghost lb = last.spec_bytes();
            assert(w.last() == lb && strs_bytes(worklist@) =~= w.drop_last());
            let newly = name_set_insert(&mut visited, last);
            let ghost d: Seq<Seq<u8>> = if newly { dependencies_of(db, lb) } else { seq![] };
            if newly {
                match self.get_package(last) {
                    Some(pkg) => {
                        self.collect_dependencies(pkg.get_name(), &mut worklist);
                    },
                    None => {
                        assert(strs_bytes(worklist@) =~= w.drop_last() + d);
                    },
                }
            } else {
                assert(strs_bytes(worklist@) =~= w.drop_last() + d);
            }
            proof {
                let v2 = name_set_contents(visited);
                let w2 = strs_bytes(worklist@);
                assert(w2 == w.drop_last() + d);
                assert(v2 == v.insert(lb));
                assert(u.contains(w[w.len() - 1]));
                // every new work item is a dependency of some package
                if newly {
                    match lookup(db, lb) {
                        Some(i) => {
                            use_type_invariant(self);
                            lemma_name_positions(package_names(db.packages), lb);
                            assert forall|j: int| 0 <= j < d.len() implies u.contains(#[trigger] d[j]) by {
                                lemma_all_deps(db, total as int, i, j);
                                let a = all_deps(db, total as int);
                                let q = choose|q: int| 0 <= q < a.len() && a[q] == d[j];
                                assert((e + a)[e.len() + q] == d[j]);
                            }
                        },
                        None => {},
                    }
                }
                assert forall|j: int| 0 <= j < w2.len() implies u.contains(#[trigger] w2[j]) by {
                    if j < w.len() - 1 {
                        assert(w2[j] == w[j]);
                    } else {
                        assert(w2[j] == d[j - (w.len() - 1)]);
                    }
                }
                assert forall|i: int| 0 <= i < e.len() implies v2.contains(#[trigger] e[i]) || w2.contains(e[i]) by {
                    if !v.contains(e[i]) && e[i] != lb {
                        lemma_pop_contains(w, d, e[i]);
                    }
                }
                assert forall|n: Seq<u8>, i: int|
                    v2.contains(n) && 0 <= i < dependencies_of(db, n).len() implies v2.contains(
                        #[trigger] dependencies_of(db, n)[i],
                    ) || w2.contains(dependencies_of(db, n)[i]) by {
                    let x = dependencies_of(db, n)[i];
                    if n == lb && newly {
                        assert(w2[w.len() - 1 + i] == x);
                    } else if !v.contains(x) && x != lb {
                        lemma_pop_contains(w, d, x);
                    }
                }
                assert forall|t: Set<Seq<u8>>| holds_all(t, e) && closed_under_deps(db, t) implies #[trigger] v2.subset_of(t)
                    && holds_all(t, w2) by {
                    assert(v.subset_of(t) && holds_all(t, w));
                    assert(t.contains(w[w.len() - 1]));
                    if newly {
                        assert(holds_all(t, dependencies_of(db, lb)));
                    }
                    assert forall|j: int| 0 <= j < w2.len() implies t.contains(#[trigger] w2[j]) by {
                        if j < w.len() - 1 {
                            assert(w2[j] == w[j]);
                        } else {
                            assert(w2[j] == d[j - (w.len() - 1)]);
                        }
                    }
                }
                vstd::set_lib::lemma_set_subset_finite(u, v);
                vstd::set_lib::lemma_len_subset(v2, u);
                vstd::set::axiom_set_insert_len(v, lb);
            }
        }
        visited
    }
}

/// The values that `f` gives for the packages of `ps` whose names are in
/// `sel`, one after another.
pub open spec fn flat_selected<T>(ps: Seq<PackageView>, sel: Set<Seq<u8>>, f: spec_fn(PackageView) -> Seq<T>) -> Seq<T>
    decreases ps.len(),
{
    if ps.len() == 0 {
        seq![]
    } else {
        flat_selected(ps.drop_last(), sel, f) + if sel.contains(ps.last().name) {
            f(ps.last())
        } else {
            seq![]
        }
    }
}

impl<'a> Database<'a> {
    /// The hyphenation directives of the packages whose names are in
    /// `pkg_to_download`, package after package.
    pub fn hyphen_directives_iter(&self, pkg_to_download: &AHashSet<&str>) -> (r: Vec<AddHyphen<'a>>)
        ensures
            r@.map_values(|x: AddHyphen<'a>| x@) == flat_selected(
                self@.packages,
                name_set_contents(*pkg_to_download),
                |p: PackageView| hyphen_directives(p),
            ),
    {
        let ghost sel = name_set_contents(*pkg_to_download);
        let ghost f = |p: PackageView| hyphen_directives(p);
        let mut out: Vec<AddHyphen<'a>> = Vec::new();
        let mut i: usize = 0;
        assert(self@.packages.take(0) =~= Seq::<PackageView>::empty());
        assert(out@.map_values(|x: AddHyphen<'a>| x@) =~= Seq::<AddHyphenView>::empty());
        while i < self.packages.len()
            invariant
                i <= self.packages@.len(),
                self@.packages == packages_view(self.packages@),
                f == (|p: PackageView| hyphen_directives(p)),
                sel == name_set_contents(*pkg_to_download),
                out@.map_values(|x: AddHyphen<'a>| x@) == flat_selected(self@.packages.take(i as int), sel, f),
            decreases self.packages@.len() - i,
        {
            let pkg = &self.packages[i];
            let ghost before = out@.map_values(|x: AddHyphen<'a>| x@);
            proof {
                assert(self@.packages.take(i + 1).drop_last() =~= self@.packages.take(i as int));
                assert(self@.packages.take(i + 1).last() == pkg@);
                assert(flat_selected(self@.packages.take(i + 1), sel, f) == flat_selected(
                    self@.packages.take(i as int),
                    sel,
                    f,
                ) + if sel.contains(pkg@.name) {
                    f(pkg@)
                } else {
                    seq![]
                });
            }
            if name_set_contains(pkg_to_download, pkg.get_name()) {
                let mut more = pkg.get_hyphen_directives();
                let ghost m = more@;
                out.append(&mut more);
                assert(f(pkg@) == hyphen_directives(pkg@));
                assert(out@.map_values(|x: AddHyphen<'a>| x@) =~= before + m.map_values(|x: AddHyphen<'a>| x@));
            } else {
                assert(out@.map_values(|x: AddHyphen<'a>| x@) =~= before + Seq::<AddHyphenView>::empty());
            }
            i = i + 1;
        }
        assert(self@.packages.take(i as int) =~= self@.packages);
        out
    }

    /// The format directives of the packages whose names are in
    /// `pkg_to_download`, package after package.
    pub fn format_directives_iter(&self, pkg_to_download: &AHashSet<&str>) -> (r: Vec<AddFormat<'a>>)
        ensures
            r@.map_values(|x: AddFormat<'a>| x@) == flat_selected(
                self@.packages,
                name_set_contents(*pkg_to_download),
                |p: PackageView| format_directives(p),
            ),
    {
        let ghost sel = name_set_contents(*pkg_to_download);
        let ghost f = |p: PackageView| format_directives(p);
        let mut out: Vec<AddFormat<'a>> = Vec::new();
        let mut i: usize = 0;
        assert(self@.packages.take(0) =~= Seq::<PackageView>::empty());
        assert(out@.map_values(|x: AddFormat<'a>| x@) =~= Seq::<AddFormatView>::empty());
        while i < self.packages.len()
            invariant
                i <= self.packages@.len(),
                self@.packages == packages_view(self.packages@),
                f == (|p: PackageView| format_directives(p)),
                sel == name_set_contents(*pkg_to_download),
                out@.map_values(|x: AddFormat<'a>| x@) == flat_selected(self@.packages.take(i as int), sel, f),
            decreases self.packages@.len() - i,
        {
            let pkg = &self.packages[i];
            let ghost before = out@.map_values(|x: AddFormat<'a>| x@);
            proof {
                assert(self@.packages.take(i + 1).drop_last() =~= self@.packages.take(i as int));
                assert(self@.packages.take(i + 1).last() == pkg@);
                assert(flat_selected(self@.packages.take(i + 1), sel, f) == flat_selected(
                    self@.packages.take(i as int),
                    sel,
                    f,
                ) + if sel.contains(pkg@.name) {
                    f(pkg@)
                } else {
                    seq![]
                });
            }
            if name_set_contains(pkg_to_download, pkg.get_name()) {
                let mut more = pkg.get_add_format_directives();
                let ghost m = more@;
                out.append(&mut more);
                assert(f(pkg@) == format_directives(pkg@));
                assert(out@.map_values(|x: AddFormat<'a>| x@) =~= before + m.map_values(|x: AddFormat<'a>| x@));
            } else {
                assert(out@.map_values(|x: AddFormat<'a>| x@) =~= before + Seq::<AddFormatView>::empty());
            }
            i = i + 1;
        }
        assert(self@.packages.take(i as int) =~= self@.packages);
        out
    }

    /// The archives to download for the packages whose names are in
    /// `pkg_to_download`, package after package.
    pub fn remote_files_iter(&self, pkg_to_download: &AHashSet<&str>) -> (r: Vec<RemoteFile>)
        ensures
            r@.map_values(|x: RemoteFile| x@) == flat_selected(
                self@.packages,
                name_set_contents(*pkg_to_download),
                |p: PackageView| remote_files_of(p),
            ),
    {
        let ghost sel = name_set_contents(*pkg_to_download);
        let ghost f = |p: PackageView| remote_files_of(p);
        let mut out: Vec<RemoteFile> = Vec::new();
        let mut i: usize = 0;
        assert(self@.packages.take(0) =~= Seq::<PackageView>::empty());
        assert(out@.map_values(|x: RemoteFile| x@) =~= Seq::<RemoteFileView>::empty());
        while i < self.packages.len()
            invariant
                i <= self.packages@.len(),
                self@.packages == packages_view(self.packages@),
                f == (|p: PackageView| remote_files_of(p)),
                sel == name_set_contents(*pkg_to_download),
                out@.map_values(|x: RemoteFile| x@) == flat_selected(self@.packages.take(i as int), sel, f),
            decreases self.packages@.len() - i,
        {
            let pkg = &self.packages[i];
            let ghost before = out@.map_values(|x: RemoteFile| x@);
            proof {
                assert(self@.packages.take(i + 1).drop_last() =~= self@.packages.take(i as int));
                assert(self@.packages.take(i + 1).last() == pkg@);
                assert(flat_selected(self@.packages.take(i + 1), sel, f) == flat_selected(
                    self@.packages.take(i as int),
                    sel,
                    f,
                ) + if sel.contains(pkg@.name) {
                    f(pkg@)
                } else {
                    seq![]
                });
            }
            if name_set_contains(pkg_to_download, pkg.get_name()) {
                let mut more = pkg.remote_files();
                let ghost m = more@;
                out.append(&mut more);
                assert(f(pkg@) == remote_files_of(pkg@));
                assert(out@.map_values(|x: RemoteFile| x@) =~= before + m.map_values(|x: RemoteFile| x@));
            } else {
                assert(out@.map_values(|x: RemoteFile| x@) =~= before + Seq::<RemoteFileView>::empty());
            }
            i = i + 1;
        }
        assert(self@.packages.take(i as int) =~= self@.packages);
        out
    }
}

/// `1` for true, `0` for false.
pub open spec fn flag01(b: bool) -> Seq<u8> {
    if b {
        "1".spec_bytes()
    } else {
        "0".spec_bytes()
    }
}

/// `s` without its trailing `/` characters.
pub open spec fn trim_slashes(s: Seq<u8>) -> Seq<u8>
    decreases s.len(),
{
    if s.len() > 0 && s.last() == 47u8 {
        trim_slashes(s.drop_last())
    } else {
        s
    }
}

/// The names of the schemes, which the local database always lists.
pub open spec fn is_listed_scheme(n: Seq<u8>) -> bool {
    ||| n == "scheme-context".spec_bytes()
    ||| n == "scheme-bookpub".spec_bytes()
    ||| n == "scheme-tetex".spec_bytes()
    ||| n == "scheme-minimal".spec_bytes()
    ||| n == "scheme-basic".spec_bytes()
    ||| n == "scheme-medium".spec_bytes()
    ||| n == "scheme-gust".spec_bytes()
    ||| n == "scheme-small".spec_bytes()
    ||| n == "scheme-infraonly".spec_bytes()
}

/// The `00texlive.config` record of the local database.
pub open spec fn config_record(c: ConfigView) -> Seq<u8> {
    "name 00texlive.config\ncategory TLCore\ndepend minrelease/".spec_bytes() + decimal(
        c.min_release as nat,
    ) + "\ndepend release/".spec_bytes() + decimal(c.release as nat) + "\n\n".spec_bytes()
}

/// The `00texlive.installation` record of the local database: the
/// settings read, the forced ones, and the mirror without trailing `/`.
pub open spec fn installation_record(db: DatabaseView) -> Seq<u8> {
    let c = db.options;
    "name 00texlive.installation\ncategory TLCore\ndepend opt_autobackup:".spec_bytes()
        + decimal(c.opt_autobackup as nat)
        + "\ndepend opt_backupdir:".spec_bytes()
        + encode_utf8(c.opt_backupdir)
        + "\ndepend opt_create_formats:".spec_bytes()
        + flag01(c.opt_create_formats)
        + "\ndepend opt_desktop_integration:0\ndepend opt_file_assocs:0\ndepend opt_generate_updmap:".spec_bytes()
        + flag01(c.opt_generate_updmap)
        + "\ndepend opt_install_docfiles:".spec_bytes()
        + flag01(db.include_doc)
        + "\ndepend opt_install_srcfiles:".spec_bytes()
        + flag01(db.include_src)
        + "\ndepend opt_location:".spec_bytes()
        + trim_slashes(db.mirror_url)
        + "\ndepend opt_post_code:0\ndepend opt_sys_bin:".spec_bytes()
        + encode_utf8(c.opt_sys_bin)
        + "\ndepend opt_sys_info:".spec_bytes()
        + encode_utf8(c.opt_sys_info)
        + "\ndepend opt_sys_man:".spec_bytes()
        + encode_utf8(c.opt_sys_man)
        + "\ndepend opt_w32_multi_user:0\ndepend setting_available_architectures:".spec_bytes()
        + db.target_arch
        + "\n\n".spec_bytes()
}

/// The records of the packages of `ps` that are installed or are schemes,
/// each followed by a blank line.
pub open spec fn written_packages(ps: Seq<PackageView>, installed: Set<Seq<u8>>) -> Seq<u8>
    decreases ps.len(),
{
    if ps.len() == 0 {
        seq![]
    } else {
        written_packages(ps.drop_last(), installed) + if installed.contains(ps.last().name)
            || is_listed_scheme(ps.last().name) {
            write_package(ps.last()) + "\n".spec_bytes()
        } else {
            seq![]
        }
    }
}

/// The local `texlive.tlpdb`: the two `00texlive` records, the installed
/// packages and the schemes, and a closing blank line.
pub open spec fn tlpdb_text(db: DatabaseView, installed: Set<Seq<u8>>) -> Seq<u8> {
    config_record(db.options) + installation_record(db) + written_packages(db.packages, installed)
        + "\n".spec_bytes()
}

/// `1` or `0`.
fn flag_text(b: bool) -> (r: &'static str)
    ensures
        r.spec_bytes() == flag01(b),
{
    if b {
        "1"
    } else {
        "0"
    }
}

/// `s` without its trailing `/` characters (`trim_end_matches('/')`).
fn trim_slashes_str(s: &str) -> (r: &str)
    ensures
        r.spec_bytes() == trim_slashes(s.spec_bytes()),
{
    let b = s.as_bytes();
    let mut j = b.len();
    assert(b@.subrange(0, j as int) =~= b@);
    while j > 0 && b[j - 1] == 47u8
        invariant
            j <= b@.len(),
            trim_slashes(b@.subrange(0, j as int)) == trim_slashes(b@),
            j < b@.len() ==> b@[j as int] == 47u8,
        decreases j,
    {
        assert(b@.subrange(0, j as int).drop_last() =~= b@.subrange(0, j - 1));
        j = j - 1;
    }
    sub_str(s, 0, j)
}

/// Whether `name` is one of the schemes that the local database lists.
fn is_listed_scheme_exec(name: &str) -> (r: bool)
    ensures
        r == is_listed_scheme(name.spec_bytes()),
{
    proof {
        crate::text::lemma_same_bytes_same_str(name@, "scheme-context"@);
        crate::text::lemma_same_bytes_same_str(name@, "scheme-bookpub"@);
        crate::text::lemma_same_bytes_same_str(name@, "scheme-tetex"@);
        crate::text::lemma_same_bytes_same_str(name@, "scheme-minimal"@);
        crate::text::lemma_same_bytes_same_str(name@, "scheme-basic"@);
        crate::text::lemma_same_bytes_same_str(name@, "scheme-medium"@);
        crate::text::lemma_same_bytes_same_str(name@, "scheme-gust"@);
        crate::text::lemma_same_bytes_same_str(name@, "scheme-small"@);
        crate::text::lemma_same_bytes_same_str(name@, "scheme-infraonly"@);
    }
    str_eq(name, "scheme-context") || str_eq(name, "scheme-bookpub") || str_eq(name, "scheme-tetex")
        || str_eq(name, "scheme-minimal") || str_eq(name, "scheme-basic") || str_eq(
        name,
        "scheme-medium",
    ) || str_eq(name, "scheme-gust") || str_eq(name, "scheme-small") || str_eq(
        name,
        "scheme-infraonly",
    )
}

impl<'a> Database<'a> {
    /// Appends the `00texlive.config` and `00texlive.installation` records.
    fn write_settings(&self, out: &mut Vec<u8>)
        ensures
            final(out)@ == old(out)@ + (config_record(self@.options) + installation_record(self@)),
    {
        let ghost o0 = out@;
        let ghost db = self@;
        let ghost c = db.options;
        push_bytes(out, "name 00texlive.config\ncategory TLCore\ndepend minrelease/".as_bytes());
        push_decimal(out, self.options.min_release as u64);
        push_bytes(out, "\ndepend release/".as_bytes());
        push_decimal(out, self.options.release as u64);
        push_bytes(out, "\n\n".as_bytes());
        assert(out@ =~= o0 + config_record(c));
        let ghost o = out@;
        push_bytes(out, "name 00texlive.installation\ncategory TLCore\ndepend opt_autobackup:".as_bytes());
        let ghost mut q: Seq<u8> = "name 00texlive.installation\ncategory TLCore\ndepend opt_autobackup:".spec_bytes();
        push_decimal_after(out, self.options.opt_autobackup as u64, Ghost(o), Ghost(q));
        proof { q = q + decimal((self.options.opt_autobackup as u64) as nat); }
        let piece = "\ndepend opt_backupdir:";
        push_after(out, piece, Ghost(o), Ghost(q));
        proof { q = q + piece.spec_bytes(); }
        let piece = self.options.opt_backupdir;
        push_after(out, piece, Ghost(o), Ghost(q));
        proof { q = q + piece.spec_bytes(); }
        let piece = "\ndepend opt_create_formats:";
        push_after(out, piece, Ghost(o), Ghost(q));
        proof { q = q + piece.spec_bytes(); }
        let piece = flag_text(self.options.opt_create_formats);
        push_after(out, piece, Ghost(o), Ghost(q));
        proof { q = q + piece.spec_bytes(); }
        let piece = "\ndepend opt_desktop_integration:0\ndepend opt_file_assocs:0\ndepend opt_generate_updmap:";
        push_after(out, piece, Ghost(o), Ghost(q));
        proof { q = q + piece.spec_bytes(); }
        let piece = flag_text(self.options.opt_generate_updmap);
        push_after(out, piece, Ghost(o), Ghost(q));
        proof { q = q + piece.spec_bytes(); }
        let piece = "\ndepend opt_install_docfiles:";
        push_after(out, piece, Ghost(o), Ghost(q));
        proof { q = q + piece.spec_bytes(); }
        let piece = flag_text(self.include_doc);
        push_after(out, piece, Ghost(o), Ghost(q));
        proof { q = q + piece.spec_bytes(); }
        let piece = "\ndepend opt_install_srcfiles:";
        push_after(out, piece, Ghost(o), Ghost(q));
        proof { q = q + piece.spec_bytes(); }
        let piece = flag_text(self.include_src);
        push_after(out, piece, Ghost(o), Ghost(q));
        proof { q = q + piece.spec_bytes(); }
        let piece = "\ndepend opt_location:";
        push_after(out, piece, Ghost(o), Ghost(q));
        proof { q = q + piece.spec_bytes(); }
        let piece = trim_slashes_str(self.mirror_url);
        push_after(out, piece, Ghost(o), Ghost(q));
        proof { q = q + piece.spec_bytes(); }
        let piece = "\ndepend opt_post_code:0\ndepend opt_sys_bin:";
        push_after(out, piece, Ghost(o), Ghost(q));
        proof { q = q + piece.spec_bytes(); }
        let piece = self.options.opt_sys_bin;
        push_after(out, piece, Ghost(o), Ghost(q));
        proof { q = q + piece.spec_bytes(); }
        let piece = "\ndepend opt_sys_info:";
        push_after(out, piece, Ghost(o), Ghost(q));
        proof { q = q + piece.spec_bytes(); }
        let piece = self.options.opt_sys_info;
        push_after(out, piece, Ghost(o), Ghost(q));
        proof { q = q + piece.spec_bytes(); }
        let piece = "\ndepend opt_sys_man:";
        push_after(out, piece, Ghost(o), Ghost(q));
        proof { q = q + piece.spec_bytes(); }
        let piece = self.options.opt_sys_man;
        push_after(out, piece, Ghost(o), Ghost(q));
        proof { q = q + piece.spec_bytes(); }
        let piece = "\ndepend opt_w32_multi_user:0\ndepend setting_available_architectures:";
        push_after(out, piece, Ghost(o), Ghost(q));
        proof { q = q + piece.spec_bytes(); }
        let piece = self.target_arch;
        push_after(out, piece, Ghost(o), Ghost(q));
        proof { q = q + piece.spec_bytes(); }
        let piece = "\n\n";
        push_after(out, piece, Ghost(o), Ghost(q));
        proof { q = q + piece.spec_bytes(); }
        proof {
            assert(q == installation_record(db));
            vstd::seq_lib::lemma_concat_associative(o0, config_record(c), installation_record(db));
        }
    }

    /// Appends the local `texlive.tlpdb`: the settings records, then the
    /// record of each package that is in `installed_package` or is a
    /// scheme, each followed by a blank line, then a blank line.
    pub fn write_tlpdb(&self, out: &mut Vec<u8>, installed_package: &AHashSet<&str>)
        ensures
            final(out)@ == old(out)@ + tlpdb_text(self@, name_set_contents(*installed_package)),
    {
        let ghost o = out@;
        let ghost db = self@;
        let ghost inst = name_set_contents(*installed_package);
        self.write_settings(out);
        let ghost head = out@;
        let mut i: usize = 0;
        assert(db.packages.take(0) =~= Seq::<PackageView>::empty());
        assert(head =~= head + written_packages(db.packages.take(0), inst));
        while i < self.packages.len()
            invariant
                i <= self.packages@.len(),
                db == self@,
                db.packages == packages_view(self.packages@),
                inst == name_set_contents(*installed_package),
                out@ == head + written_packages(db.packages.take(i as int), inst),
            decreases self.packages@.len() - i,
        {
            let pkg = &self.packages[i];
            let ghost before = out@;
            proof {
                assert(db.packages.take(i + 1).drop_last() =~= db.packages.take(i as int));
                assert(db.packages.take(i + 1).last() == pkg@);
            }
            let name = pkg.get_name();
            if name_set_contains(installed_package, name) || is_listed_scheme_exec(name) {
                pkg.write_to(out);
                push_bytes(out, "\n".as_bytes());
                assert(out@ =~= before + (write_package(pkg@) + "\n".spec_bytes()));
            } else {
                assert(out@ =~= before + Seq::<u8>::empty());
            }
            i = i + 1;
        }
        assert(db.packages.take(i as int) =~= db.packages);
        push_bytes(out, "\n".as_bytes());
        assert(out@ =~= o + tlpdb_text(db, inst));
    }
}

} // verus!
