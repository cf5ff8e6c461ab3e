//! The package records of the `texlive.tlpdb` database: their model, the
//! parser of one block of lines, and the writer that gives the block back.
use vstd::prelude::*;
use vstd::string::*;
use vstd::utf8::*;
use crate::addformat::{add_format_of, AddFormat, AddFormatView};
use crate::addhyphen::{add_hyphen_of, AddHyphen, AddHyphenView};
use crate::chars::{trim, trim_str};
use crate::pipeline::{RemoteFile, RemoteFileView};
use crate::text::{
    find_byte, index_of, is_ascii_byte, lemma_ascii_bytes, lemma_ascii_concat, lines, lines_from,
    next_line, occurs_at_exec, parse_unsigned, parse_unsigned_exec, starts_with, sub_str,
    decimal, lemma_decimal_digits, push_bytes, push_decimal, starts_with_exec, string_from_utf8, ends_with,
};

verus! {

broadcast use vstd::utf8::encode_utf8_valid_utf8, vstd::utf8::encode_utf8_decode_utf8;

/// The parser of the `texlive.tlpdb` file.
pub struct Parser;

impl Parser {
    /// The number of packages that a database is expected to hold.
    pub const PKG_COUNT: usize = 9000;
}

/// A list of values read from consecutive lines, each written after
/// `prefix` (the key and a space, or a single space for file lists).
pub struct ItemsView {
    pub prefix: Seq<u8>,
    pub list: Seq<Seq<u8>>,
}

/// A downloadable archive: its size in bytes and its SHA-512 checksum.
pub struct ContainerView {
    pub byte_size: u64,
    pub checksum: Seq<u8>,
}

/// One field of a package record, its texts given as UTF-8 bytes.
pub enum EntryView {
    Category(Seq<u8>),
    Revision(u32),
    Catalogue(Seq<u8>),
    Shortdesc(Seq<u8>),
    Longdesc(ItemsView),
    Relocated,
    Depend(ItemsView),
    Postaction(ItemsView),
    Execute(ItemsView),
    RunContainer(ContainerView),
    DocContainer(ContainerView),
    SrcContainer(ContainerView),
    RunFiles(u64, ItemsView),
    BinFiles(Seq<u8>, u64, ItemsView),
    DocFiles(u64, ItemsView),
    SrcFiles(u64, ItemsView),
    CatalogueEntry(Seq<u8>, Seq<u8>),
}

/// A package record: its name, revision, whether it is relocatable, and
/// its fields in the order in which the database lists them.
pub struct PackageView {
    pub name: Seq<u8>,
    pub revision: u32,
    pub relocated: bool,
    pub entries: Seq<EntryView>,
}

/// The fields that a package record indexes for fast access.
pub enum Kind {
    Depend,
    Execute,
    Postaction,
    RunContainer,
    DocContainer,
    SrcContainer,
}

pub open spec fn has_kind(e: EntryView, k: Kind) -> bool {
    match k {
        Kind::Depend => e is Depend,
        Kind::Execute => e is Execute,
        Kind::Postaction => e is Postaction,
        Kind::RunContainer => e is RunContainer,
        Kind::DocContainer => e is DocContainer,
        Kind::SrcContainer => e is SrcContainer,
    }
}

/// The position of the last field of kind `k`, if there is one.
pub open spec fn last_index(es: Seq<EntryView>, k: Kind) -> Option<int>
    decreases es.len(),
{
    if es.len() == 0 {
        None
    } else if has_kind(es.last(), k) {
        Some(es.len() - 1)
    } else {
        last_index(es.drop_last(), k)
    }
}

pub proof fn lemma_last_index_bounds(es: Seq<EntryView>, k: Kind)
    ensures
        last_index(es, k) matches Some(i) ==> 0 <= i < es.len() && has_kind(es[i], k),
    decreases es.len(),
{
    if es.len() > 0 && !has_kind(es.last(), k) {
        lemma_last_index_bounds(es.drop_last(), k);
    }
}

/// The list of values of a field that holds one.
pub open spec fn items_of(e: EntryView) -> ItemsView {
    match e {
        EntryView::Longdesc(it) => it,
        EntryView::Depend(it) => it,
        EntryView::Postaction(it) => it,
        EntryView::Execute(it) => it,
        EntryView::RunFiles(_, it) => it,
        EntryView::BinFiles(_, _, it) => it,
        EntryView::DocFiles(_, it) => it,
        EntryView::SrcFiles(_, it) => it,
        _ => ItemsView { prefix: seq![], list: seq![] },
    }
}

/// The archive of a container field.
pub open spec fn container_of(e: EntryView) -> ContainerView {
    match e {
        EntryView::RunContainer(c) => c,
        EntryView::DocContainer(c) => c,
        EntryView::SrcContainer(c) => c,
        _ => ContainerView { byte_size: 0, checksum: seq![] },
    }
}

/// The values of the last field of kind `k`, or `None` when the package has
/// no such field.
pub open spec fn last_items(p: PackageView, k: Kind) -> Option<Seq<Seq<u8>>> {
    match last_index(p.entries, k) {
        Some(i) => Some(items_of(p.entries[i]).list),
        None => None,
    }
}

/// The bytes of each string of a list.
pub open spec fn strs_bytes(v: Seq<&str>) -> Seq<Seq<u8>> {
    v.map_values(|s: &str| s.spec_bytes())
}


/// `l` split at its first space, or `None` when it has none.
pub open spec fn split_once_space(l: Seq<u8>) -> Option<(Seq<u8>, Seq<u8>)> {
    let i = index_of(l, 32u8);
    if i < l.len() {
        Some((l.subrange(0, i), l.subrange(i + 1, l.len() as int)))
    } else {
        None
    }
}

/// `l` without the prefix `p`, or `None` when `l` does not begin with `p`.
pub open spec fn strip_prefix(l: Seq<u8>, p: Seq<u8>) -> Option<Seq<u8>> {
    if starts_with(l, p) {
        Some(l.subrange(p.len() as int, l.len() as int))
    } else {
        None
    }
}

/// The number of leading lines of `ls` that begin with `p`.
pub open spec fn count_prefixed(ls: Seq<Seq<u8>>, p: Seq<u8>) -> nat
    decreases ls.len(),
{
    if ls.len() > 0 && starts_with(ls[0], p) {
        1 + count_prefixed(ls.drop_first(), p)
    } else {
        0
    }
}

/// Each line of `ls` without its first `p.len()` bytes.
pub open spec fn strip_each(ls: Seq<Seq<u8>>, p: Seq<u8>) -> Seq<Seq<u8>> {
    Seq::new(ls.len(), |i: int| ls[i].subrange(p.len() as int, ls[i].len() as int))
}

/// A `key value` list: `first`, then the values of the following lines
/// that repeat the key.
pub open spec fn keyval_items(first: Seq<u8>, rest: Seq<Seq<u8>>, p: Seq<u8>) -> ItemsView {
    ItemsView { prefix: p, list: seq![first] + strip_each(rest.take(count_prefixed(rest, p) as int), p) }
}

/// A file list: the following lines that begin with a space, without it.
pub open spec fn file_items(rest: Seq<Seq<u8>>) -> ItemsView {
    ItemsView {
        prefix: " ".spec_bytes(),
        list: strip_each(rest.take(count_prefixed(rest, " ".spec_bytes()) as int), " ".spec_bytes()),
    }
}

/// `s` read as a `u64`.
pub open spec fn parse_u64(s: Seq<u8>) -> Option<u64> {
    match parse_unsigned(s, u64::MAX as nat) {
        Some(n) => Some(n as u64),
        None => None,
    }
}

/// `s` read as a `u32`.
pub open spec fn parse_u32(s: Seq<u8>) -> Option<u32> {
    match parse_unsigned(s, u32::MAX as nat) {
        Some(n) => Some(n as u32),
        None => None,
    }
}

/// The size of a `size=<n>` value.
pub open spec fn parse_size(v: Seq<u8>) -> Option<u64> {
    match strip_prefix(v, "size=".spec_bytes()) {
        Some(d) => parse_u64(d),
        None => None,
    }
}

/// A container whose size is `value` and whose checksum is on the first of
/// the lines `rest`, after `ck`.
pub open spec fn container_of_lines(value: Seq<u8>, rest: Seq<Seq<u8>>, ck: Seq<u8>) -> Option<
    ContainerView,
> {
    match parse_u64(value) {
        Some(n) => if rest.len() == 0 {
            None
        } else {
            match strip_prefix(rest[0], ck) {
                Some(c) => Some(ContainerView { byte_size: n, checksum: c }),
                None => None,
            }
        },
        None => None,
    }
}

/// The catalogue fields that end a record: one per line that holds a
/// space, whatever its key.
pub open spec fn catalogue_tail(ls: Seq<Seq<u8>>) -> Seq<EntryView>
    decreases ls.len(),
{
    if ls.len() == 0 {
        seq![]
    } else {
        match split_once_space(ls[0]) {
            Some((k, v)) => seq![EntryView::CatalogueEntry(k, v)] + catalogue_tail(ls.drop_first()),
            None => catalogue_tail(ls.drop_first()),
        }
    }
}

/// What a line `key value` of a record gives, with the lines `rest` after it.
pub enum Step {
    /// One field, read from the line and the given number of lines after it.
    Single(EntryView, nat),
    /// The fields that end the record.
    Tail(Seq<EntryView>),
    /// A malformed line.
    Fail,
}

pub open spec fn container_step(value: Seq<u8>, rest: Seq<Seq<u8>>, ck: Seq<u8>, k: Kind) -> Step {
    match container_of_lines(value, rest, ck) {
        Some(c) => Step::Single(
            match k {
                Kind::RunContainer => EntryView::RunContainer(c),
                Kind::DocContainer => EntryView::DocContainer(c),
                _ => EntryView::SrcContainer(c),
            },
            1,
        ),
        None => Step::Fail,
    }
}

pub open spec fn files_step(value: Seq<u8>, rest: Seq<Seq<u8>>, key: Seq<u8>) -> Step {
    match parse_size(value) {
        Some(n) => Step::Single(
            if key == "runfiles".spec_bytes() {
                EntryView::RunFiles(n, file_items(rest))
            } else if key == "docfiles".spec_bytes() {
                EntryView::DocFiles(n, file_items(rest))
            } else {
                EntryView::SrcFiles(n, file_items(rest))
            },
            count_prefixed(rest, " ".spec_bytes()),
        ),
        None => Step::Fail,
    }
}

pub open spec fn binfiles_step(value: Seq<u8>, rest: Seq<Seq<u8>>) -> Step {
    match split_once_space(value) {
        Some((a, sz)) => match strip_prefix(a, "arch=".spec_bytes()) {
            Some(arch) => match parse_size(sz) {
                Some(n) => Step::Single(
                    EntryView::BinFiles(arch, n, file_items(rest)),
                    count_prefixed(rest, " ".spec_bytes()),
                ),
                None => Step::Fail,
            },
            None => Step::Fail,
        },
        None => Step::Fail,
    }
}

pub open spec fn keyval_step(value: Seq<u8>, rest: Seq<Seq<u8>>, key: Seq<u8>) -> Step {
    let p = key + " ".spec_bytes();
    let it = keyval_items(value, rest, p);
    Step::Single(
        if key == "longdesc".spec_bytes() {
            EntryView::Longdesc(it)
        } else if key == "postaction".spec_bytes() {
            EntryView::Postaction(it)
        } else if key == "depend".spec_bytes() {
            EntryView::Depend(it)
        } else {
            EntryView::Execute(it)
        },
        count_prefixed(rest, p),
    )
}

/// What the line `key value` gives, followed by the lines `rest`.
#[verifier::opaque]
pub open spec fn step(key: Seq<u8>, value: Seq<u8>, rest: Seq<Seq<u8>>) -> Step {
    if key == "catalogue".spec_bytes() {
        Step::Single(EntryView::Catalogue(value), 0)
    } else if key == "shortdesc".spec_bytes() {
        Step::Single(EntryView::Shortdesc(value), 0)
    } else if key == "relocated".spec_bytes() {
        Step::Single(EntryView::Relocated, 0)
    } else if key == "longdesc".spec_bytes() || key == "postaction".spec_bytes() || key
        == "depend".spec_bytes() || key == "execute".spec_bytes() {
        keyval_step(value, rest, key)
    } else if key == "containersize".spec_bytes() {
        container_step(value, rest, "containerchecksum ".spec_bytes(), Kind::RunContainer)
    } else if key == "doccontainersize".spec_bytes() {
        container_step(value, rest, "doccontainerchecksum ".spec_bytes(), Kind::DocContainer)
    } else if key == "srccontainersize".spec_bytes() {
        container_step(value, rest, "srccontainerchecksum ".spec_bytes(), Kind::SrcContainer)
    } else if key == "runfiles".spec_bytes() || key == "docfiles".spec_bytes() || key
        == "srcfiles".spec_bytes() {
        files_step(value, rest, key)
    } else if key == "binfiles".spec_bytes() {
        binfiles_step(value, rest)
    } else {
        Step::Tail(seq![EntryView::CatalogueEntry(key, value)] + catalogue_tail(rest))
    }
}

/// The fields of the lines that follow the header of a record, or `None`
/// when a line is malformed.  Lines without a space are skipped.
pub open spec fn parse_body(ls: Seq<Seq<u8>>) -> Option<Seq<EntryView>>
    decreases ls.len(),
{
    if ls.len() == 0 {
        Some(seq![])
    } else {
        let rest = ls.drop_first();
        match split_once_space(ls[0]) {
            None => parse_body(rest),
            Some((k, v)) => match step(k, v, rest) {
                Step::Single(e, n) => if n <= rest.len() {
                    match parse_body(rest.skip(n as int)) {
                        Some(t) => Some(seq![e] + t),
                        None => None,
                    }
                } else {
                    None
                },
                Step::Tail(es) => Some(es),
                Step::Fail => None,
            },
        }
    }
}

/// The offset of the last `x` in `b`, or `-1` when there is none.
pub open spec fn rindex_of(b: Seq<u8>, x: u8) -> int
    decreases b.len(),
{
    if b.len() == 0 {
        -1
    } else if b.last() == x {
        b.len() - 1
    } else {
        rindex_of(b.drop_last(), x)
    }
}

/// True when the package `name` is built for a known TeX Live architecture
/// other than `target_arch` (its name ends with `.<arch>`).
pub open spec fn skipped_for_arch(name: Seq<u8>, target_arch: Seq<u8>) -> bool {
    let i = rindex_of(name, 46u8);
    i >= 0 && {
        let a = name.subrange(i + 1, name.len() as int);
        &&& crate::arch::known_tl_archs().contains(decode_utf8(a))
        &&& a != target_arch
    }
}

/// What reading one record of the database gives.
pub enum ParseOutcome {
    /// The record breaks the format.
    Malformed,
    /// The record is a binary package for another architecture.
    Skipped,
    Record(PackageView),
}

/// The record of the block `b`: a `name` line, a `category` line and a
/// `revision` line, then the fields of `parse_body`.  When `skip_filter`
/// holds, packages built for another architecture are skipped.
pub open spec fn parse_package(b: Seq<u8>, target_arch: Seq<u8>, skip_filter: bool) -> ParseOutcome {
    let ls = lines(b);
    if ls.len() < 1 {
        ParseOutcome::Malformed
    } else {
        match strip_prefix(ls[0], "name ".spec_bytes()) {
            None => ParseOutcome::Malformed,
            Some(name) => if skip_filter && skipped_for_arch(name, target_arch) {
                ParseOutcome::Skipped
            } else if ls.len() < 3 {
                ParseOutcome::Malformed
            } else {
                match (
                    strip_prefix(ls[1], "category ".spec_bytes()),
                    strip_prefix(ls[2], "revision ".spec_bytes()),
                ) {
                    (Some(cat), Some(r)) => match parse_u32(r) {
                        Some(rev) => match parse_body(ls.skip(3)) {
                            Some(body) => ParseOutcome::Record(
                                PackageView {
                                    name,
                                    revision: rev,
                                    relocated: body.contains(EntryView::Relocated),
                                    entries: seq![EntryView::Category(cat), EntryView::Revision(rev)]
                                        + body,
                                },
                            ),
                            None => ParseOutcome::Malformed,
                        },
                        None => ParseOutcome::Malformed,
                    },
                    _ => ParseOutcome::Malformed,
                }
            },
        }
    }
}

/// A value as written back: a leading `RELOC` becomes `texmf-dist`.
pub open spec fn reloc(x: Seq<u8>) -> Seq<u8> {
    if starts_with(x, "RELOC".spec_bytes()) {
        "texmf-dist".spec_bytes() + x.subrange("RELOC".spec_bytes().len() as int, x.len() as int)
    } else {
        x
    }
}

/// The lines of a list: each value after the prefix, one per line.
pub open spec fn write_list(prefix: Seq<u8>, list: Seq<Seq<u8>>) -> Seq<u8>
    decreases list.len(),
{
    if list.len() == 0 {
        seq![]
    } else {
        write_list(prefix, list.drop_last()) + prefix + reloc(list.last()) + "\n".spec_bytes()
    }
}

pub open spec fn write_items(it: ItemsView) -> Seq<u8> {
    write_list(it.prefix, it.list)
}

/// The two lines of a container, their keys after `pf`.
pub open spec fn write_container(c: ContainerView, pf: Seq<u8>) -> Seq<u8> {
    pf + "containersize ".spec_bytes() + decimal(c.byte_size as nat) + "\n".spec_bytes() + pf
        + "containerchecksum ".spec_bytes() + c.checksum + "\n".spec_bytes()
}

/// A line `key value`.
pub open spec fn write_kv(key: Seq<u8>, val: Seq<u8>) -> Seq<u8> {
    key + " ".spec_bytes() + val + "\n".spec_bytes()
}

/// The header line of a file list.
pub open spec fn write_size(key: Seq<u8>, n: u64) -> Seq<u8> {
    key + " size=".spec_bytes() + decimal(n as nat) + "\n".spec_bytes()
}

/// The lines of one field; the `relocated` flag is written back for the
/// schemes only.
pub open spec fn write_entry(e: EntryView, is_scheme: bool) -> Seq<u8> {
    match e {
        EntryView::Category(c) => write_kv("category".spec_bytes(), c),
        EntryView::Revision(r) => write_kv("revision".spec_bytes(), decimal(r as nat)),
        EntryView::Catalogue(c) => write_kv("catalogue".spec_bytes(), c),
        EntryView::Shortdesc(d) => write_kv("shortdesc".spec_bytes(), d),
        EntryView::Longdesc(it) => write_items(it),
        EntryView::Relocated => if is_scheme {
            "relocated 1\n".spec_bytes()
        } else {
            seq![]
        },
        EntryView::Depend(it) => write_items(it),
        EntryView::Postaction(it) => write_items(it),
        EntryView::Execute(it) => write_items(it),
        EntryView::RunContainer(c) => write_container(c, seq![]),
        EntryView::DocContainer(c) => write_container(c, "doc".spec_bytes()),
        EntryView::SrcContainer(c) => write_container(c, "src".spec_bytes()),
        EntryView::RunFiles(n, it) => write_size("runfiles".spec_bytes(), n) + write_items(it),
        EntryView::BinFiles(a, n, it) => "binfiles".spec_bytes() + " arch=".spec_bytes() + a
            + " size=".spec_bytes() + decimal(n as nat) + "\n".spec_bytes() + write_items(it),
        EntryView::DocFiles(n, it) => write_size("docfiles".spec_bytes(), n) + write_items(it),
        EntryView::SrcFiles(n, it) => write_size("srcfiles".spec_bytes(), n) + write_items(it),
        EntryView::CatalogueEntry(k, v) => write_kv(k, v),
    }
}

pub open spec fn write_entries(es: Seq<EntryView>, is_scheme: bool) -> Seq<u8>
    decreases es.len(),
{
    if es.len() == 0 {
        seq![]
    } else {
        write_entries(es.drop_last(), is_scheme) + write_entry(es.last(), is_scheme)
    }
}

/// The record as the database writes it: the `name` line, then each field.
pub open spec fn write_package(p: PackageView) -> Seq<u8> {
    "name ".spec_bytes() + p.name + "\n".spec_bytes() + write_entries(
        p.entries,
        starts_with(p.name, "scheme-".spec_bytes()),
    )
}

/// The archive of the container of kind `k` of the package, named
/// `<name><infix>.r<revision>.tar.xz`.
pub open spec fn archive_file(p: PackageView, k: Kind, infix: Seq<u8>) -> Option<RemoteFileView> {
    match last_index(p.entries, k) {
        Some(i) => Some(
            RemoteFileView {
                name: p.name + infix + ".r".spec_bytes() + decimal(p.revision as nat)
                    + ".tar.xz".spec_bytes(),
                expected_sha512: container_of(p.entries[i]).checksum,
                relocated: p.relocated,
            },
        ),
        None => None,
    }
}

pub open spec fn opt_seq<T>(o: Option<T>) -> Seq<T> {
    match o {
        Some(x) => seq![x],
        None => seq![],
    }
}

/// The archives of the package: the run, documentation and source archives
/// that it has containers for, in that order.
pub open spec fn remote_files_of(p: PackageView) -> Seq<RemoteFileView> {
    opt_seq(archive_file(p, Kind::RunContainer, seq![])) + opt_seq(
        archive_file(p, Kind::DocContainer, ".doc".spec_bytes()),
    ) + opt_seq(archive_file(p, Kind::SrcContainer, ".source".spec_bytes()))
}

/// The format directives among the `execute` values `l` of the package
/// `pkg`: the values that begin with `AddFormat` and read as a directive
/// once trimmed.
pub open spec fn format_directives_of(pkg: Seq<char>, l: Seq<Seq<u8>>) -> Seq<AddFormatView>
    decreases l.len(),
{
    if l.len() == 0 {
        seq![]
    } else {
        let rest = format_directives_of(pkg, l.drop_last());
        let x = l.last();
        if starts_with(x, "AddFormat".spec_bytes()) {
            match add_format_of(pkg, trim(decode_utf8(x))) {
                Some(f) => rest.push(f),
                None => rest,
            }
        } else {
            rest
        }
    }
}

/// The hyphenation directives among the `execute` values `l` of the
/// package `pkg`.
pub open spec fn hyphen_directives_of(pkg: Seq<char>, l: Seq<Seq<u8>>) -> Seq<AddHyphenView>
    decreases l.len(),
{
    if l.len() == 0 {
        seq![]
    } else {
        let rest = hyphen_directives_of(pkg, l.drop_last());
        let x = l.last();
        if starts_with(x, "AddHyphen".spec_bytes()) {
            match add_hyphen_of(pkg, trim(decode_utf8(x))) {
                Some(f) => rest.push(f),
                None => rest,
            }
        } else {
            rest
        }
    }
}

/// The format directives of the package.
pub open spec fn format_directives(p: PackageView) -> Seq<AddFormatView> {
    match last_items(p, Kind::Execute) {
        Some(l) => format_directives_of(decode_utf8(p.name), l),
        None => seq![],
    }
}

/// The hyphenation directives of the package.
pub open spec fn hyphen_directives(p: PackageView) -> Seq<AddHyphenView> {
    match last_items(p, Kind::Execute) {
        Some(l) => hyphen_directives_of(decode_utf8(p.name), l),
        None => seq![],
    }
}

struct Items<'a> {
    prefix: &'a str,
    list: Vec<&'a str>,
}

struct Container<'a> {
    byte_size: u64,
    checksum: &'a str,
}

enum Field<'a> {
    Category(&'a str),
    Revision(u32),
    Catalogue(&'a str),
    Shortdesc(&'a str),
    Longdesc(Items<'a>),
    Relocated,
    Depend(Items<'a>),
    Postaction(Items<'a>),
    Execute(Items<'a>),
    RunContainer(Container<'a>),
    DocContainer(Container<'a>),
    SrcContainer(Container<'a>),
    RunFiles(u64, Items<'a>),
    BinFiles(&'a str, u64, Items<'a>),
    DocFiles(u64, Items<'a>),
    SrcFiles(u64, Items<'a>),
    CatalogueEntry(&'a str, &'a str),
}


/// Whether `b[s..e]` equals `p`.
fn range_eq(b: &[u8], s: usize, e: usize, p: &[u8]) -> (r: bool)
    requires
        s <= e <= b@.len(),
    ensures
        r == (b@.subrange(s as int, e as int) == p@),
{
    if e - s != p.len() {
        return false;
    }
    let r = occurs_at_exec(b, p, s);
    assert(r == (b@.subrange(s as int, e as int) =~= p@));
    r
}

/// The offset right after the prefix `p` of the line `b[s..e]`, or `None`
/// when the line does not begin with `p`.
fn prefix_end(b: &[u8], s: usize, e: usize, p: &str) -> (r: Option<usize>)
    requires
        s <= e <= b@.len(),
        is_ascii(p),
    ensures
        match strip_prefix(b@.subrange(s as int, e as int), p.spec_bytes()) {
            Some(rest) => r == Some((s + p.spec_bytes().len()) as usize) && rest == b@.subrange(
                s + p.spec_bytes().len(),
                e as int,
            ),
            None => r is None,
        },
        r matches Some(k) ==> s <= k <= e && (k == s || is_ascii_byte(b@[k - 1])),
{
    broadcast use vstd::string::is_ascii_spec_bytes;

    let pb = p.as_bytes();
    let ghost line = b@.subrange(s as int, e as int);
    if pb.len() > e - s {
        return None;
    }
    let ok = occurs_at_exec(b, pb, s);
    assert(line.subrange(0, pb@.len() as int) =~= b@.subrange(s as int, s + pb@.len()));
    if ok {
        assert(line.subrange(pb@.len() as int, line.len() as int) =~= b@.subrange(
            s + pb@.len(),
            e as int,
        ));
        if pb.len() > 0 {
            assert(b@[s + pb@.len() - 1] == pb@[pb@.len() - 1]);
            assert(pb@[pb@.len() - 1] == p@[pb@.len() - 1] as u8);
        }
        Some(s + pb.len())
    } else {
        None
    }
}

proof fn lemma_count_prefixed(ls: Seq<Seq<u8>>, p: Seq<u8>, c: int)
    requires
        0 <= c <= ls.len(),
        forall|j: int| 0 <= j < c ==> starts_with(#[trigger] ls[j], p),
        c == ls.len() || !starts_with(ls[c], p),
    ensures
        count_prefixed(ls, p) == c,
    decreases c,
{
    if c > 0 {
        assert forall|j: int| 0 <= j < c - 1 implies starts_with(#[trigger] ls.drop_first()[j], p) by {
            assert(ls.drop_first()[j] == ls[j + 1]);
        }
        lemma_count_prefixed(ls.drop_first(), p, c - 1);
    }
}

/// The lines after `pos` that begin with `p`, without it, and the offset
/// after the last of them.
#[verifier::spinoff_prover]
fn take_prefixed<'a>(block: &'a str, pos: usize, p: &str, first: Option<&'a str>) -> (r: (Vec<&'a str>, usize))
    requires
        pos <= block.spec_bytes().len(),
        pos == 0 || pos == block.spec_bytes().len() || block.spec_bytes()[pos - 1] == 10u8,
        is_ascii(p),
    ensures
        ({
            let ls = lines_from(block.spec_bytes(), pos as int);
            let n = count_prefixed(ls, p.spec_bytes());
            let pre = match first {
                Some(f) => seq![f.spec_bytes()],
                None => Seq::<Seq<u8>>::empty(),
            };
            &&& n <= ls.len()
            &&& strs_bytes(r.0@) == pre + strip_each(ls.take(n as int), p.spec_bytes())
            &&& pos <= r.1 <= block.spec_bytes().len()
            &&& (r.1 == 0 || r.1 == block.spec_bytes().len() || block.spec_bytes()[r.1 - 1] == 10u8)
            &&& lines_from(block.spec_bytes(), r.1 as int) == ls.skip(n as int)
        }),
{
    let b = block.as_bytes();
    let ghost bb = b@;
    let ghost ls = lines_from(bb, pos as int);
    let ghost pb = p.spec_bytes();
    let mut out: Vec<&'a str> = Vec::new();
    match first {
        Some(f) => out.push(f),
        None => {},
    }
    let ghost pre = strs_bytes(out@);
    let mut cur = pos;
    let ghost mut c: int = 0;
    loop
        invariant_except_break
            bb == block.spec_bytes(),
            b@ == bb,
            pb == p.spec_bytes(),
            is_ascii(p),
            ls == lines_from(bb, pos as int),
            0 <= c <= ls.len(),
            pos <= cur <= bb.len(),
            cur == 0 || cur == bb.len() || bb[cur - 1] == 10u8,
            lines_from(bb, cur as int) == ls.skip(c),
            forall|j: int| 0 <= j < c ==> starts_with(#[trigger] ls[j], pb),
            strs_bytes(out@) == pre + strip_each(ls.take(c), pb),
        ensures
            0 <= c <= ls.len(),
            pos <= cur <= bb.len(),
            cur == 0 || cur == bb.len() || bb[cur - 1] == 10u8,
            lines_from(bb, cur as int) == ls.skip(c),
            count_prefixed(ls, pb) == c,
            strs_bytes(out@) == pre + strip_each(ls.take(c), pb),
        decreases bb.len() - cur,
    {
        match next_line(b, cur) {
            None => {
                assert(ls.skip(c).len() == 0);
                proof {
                    lemma_count_prefixed(ls, pb, c);
                }
                break;
            },
            Some((s, e, n)) => {
                assert(ls.skip(c)[0] == bb.subrange(s as int, e as int));
                assert(ls[c] == ls.skip(c)[0]);
                match prefix_end(b, s, e, p) {
                    None => {
                        proof {
                            lemma_count_prefixed(ls, pb, c);
                        }
                        break;
                    },
                    Some(k) => {
                        let v = sub_str(block, k, e);
                        let ghost old_out = out@;
                        out.push(v);
                        proof {
                            assert(ls.skip(c + 1) =~= ls.skip(c).drop_first());
                            assert(strip_each(ls.take(c + 1), pb) =~= strip_each(ls.take(c), pb).push(
                                v.spec_bytes(),
                            ));
                            assert(strs_bytes(out@) =~= strs_bytes(old_out).push(v.spec_bytes()));
                            c = c + 1;
                        }
                        cur = n;
                    },
                }
            },
        }
    }
    (out, cur)
}


/// What a line `key value` gives, as values.
enum ExecStep<'a> {
    Single(Field<'a>, usize),
    Tail(Vec<Field<'a>>),
    Fail,
}

/// The relation between a line of the block and the offsets that delimit
/// it, its first space and the next line.
spec fn line_at(bb: Seq<u8>, s: int, e: int, sp: int, pos: int) -> bool {
    &&& 0 <= s <= sp < e <= pos <= bb.len()
    &&& s == 0 || bb[s - 1] == 10u8
    &&& e == bb.len() || bb[e] == 10u8 || bb[e] == 13u8
    &&& pos == bb.len() || bb[pos - 1] == 10u8
    &&& split_once_space(bb.subrange(s, e)) == Some(
        (bb.subrange(s, sp), bb.subrange(sp + 1, e)),
    )
    &&& bb[sp] == 32u8
}

/// The catalogue fields of the lines from `pos` on.
fn catalogue_tail_exec<'a>(block: &'a str, pos: usize) -> (r: Vec<Field<'a>>)
    requires
        pos <= block.spec_bytes().len(),
        pos == 0 || pos == block.spec_bytes().len() || block.spec_bytes()[pos - 1] == 10u8,
    ensures
        entries_view(r@) == catalogue_tail(lines_from(block.spec_bytes(), pos as int)),
{
    let b = block.as_bytes();
    let ghost bb = b@;
    let ghost ls = lines_from(bb, pos as int);
    let mut out: Vec<Field<'a>> = Vec::new();
    let mut cur = pos;
    loop
        invariant
            bb == block.spec_bytes(),
            b@ == bb,
            pos <= cur <= bb.len(),
            ls == lines_from(bb, pos as int),
            cur == 0 || cur == bb.len() || bb[cur - 1] == 10u8,
            catalogue_tail(ls) == entries_view(out@) + catalogue_tail(lines_from(bb, cur as int)),
        decreases bb.len() - cur,
    {
        match next_line(b, cur) {
            None => {
                assert(lines_from(bb, cur as int) =~= Seq::<Seq<u8>>::empty());
                assert(catalogue_tail(lines_from(bb, cur as int)) =~= Seq::<EntryView>::empty());
                assert(entries_view(out@) + catalogue_tail(lines_from(bb, cur as int)) =~= entries_view(out@));
                return out;
            },
            Some((s, e, n)) => {
                let ghost line = bb.subrange(s as int, e as int);
                let ghost rest = lines_from(bb, n as int);
                assert(lines_from(bb, cur as int).drop_first() =~= rest);
                let sp = find_byte(b, 32u8, s, e);
                if sp < e {
                    let k = sub_str(block, s, sp);
                    let v = sub_str(block, sp + 1, e);
                    assert(k.spec_bytes() =~= line.subrange(0, sp - s));
                    assert(v.spec_bytes() =~= line.subrange(sp - s + 1, line.len() as int));
                    let ghost old_out = out@;
                    out.push(Field::CatalogueEntry(k, v));
                    assert(entries_view(out@) =~= entries_view(old_out).push(
                        EntryView::CatalogueEntry(k.spec_bytes(), v.spec_bytes()),
                    ));
                    assert(entries_view(out@) + catalogue_tail(rest) =~= entries_view(old_out) + (seq![
                        EntryView::CatalogueEntry(k.spec_bytes(), v.spec_bytes())] + catalogue_tail(rest)));
                }
                cur = n;
            },
        }
    }
}

/// The container of the line whose value is `b[vs..e]`, whose checksum is on
/// the line at `pos` after `ck`, with the offset of the line after it.
fn container_exec<'a>(block: &'a str, vs: usize, e: usize, pos: usize, ck: &str) -> (r: Option<
    (Container<'a>, usize),
>)
    requires
        vs <= e <= pos <= block.spec_bytes().len(),
        pos == 0 || pos == block.spec_bytes().len() || block.spec_bytes()[pos - 1] == 10u8,
        is_ascii(ck),
    ensures
        match container_of_lines(
            block.spec_bytes().subrange(vs as int, e as int),
            lines_from(block.spec_bytes(), pos as int),
            ck.spec_bytes(),
        ) {
            Some(c) => r matches Some((cont, n)) && cont.view_container() == c && pos < n
                && n <= block.spec_bytes().len()
                && lines_from(block.spec_bytes(), n as int) == lines_from(
                block.spec_bytes(),
                pos as int,
            ).skip(1) && (n == block.spec_bytes().len() || block.spec_bytes()[n - 1] == 10u8),
            None => r is None,
        },
{
    let b = block.as_bytes();
    let size = match parse_unsigned_exec(b, vs, e, u64::MAX) {
        Some(v) => v,
        None => return None,
    };
    match next_line(b, pos) {
        None => None,
        Some((s2, e2, n2)) => match prefix_end(b, s2, e2, ck) {
            None => None,
            Some(k) => {
                let c = sub_str(block, k, e2);
                assert(lines_from(b@, pos as int).skip(1) =~= lines_from(b@, n2 as int));
                Some((Container { byte_size: size, checksum: c }, n2))
            },
        },
    }
}

/// The size of a `size=<n>` value at `b[vs..e]`.
fn size_exec(b: &[u8], vs: usize, e: usize) -> (r: Option<u64>)
    requires
        vs <= e <= b@.len(),
    ensures
        r == parse_size(b@.subrange(vs as int, e as int)),
{
    proof {
        reveal_strlit("size=");
        lemma_ascii_bytes("size=");
    }
    match prefix_end(b, vs, e, "size=") {
        None => None,
        Some(k) => {
            let r = parse_unsigned_exec(b, k, e, u64::MAX);
            match r {
                Some(v) => Some(v),
                None => None,
            }
        },
    }
}


/// True when the values `r` are what the step `st` gives, for a block of
/// bytes `bb` whose next line is at `pos`.
spec fn step_matches<'a>(r: ExecStep<'a>, st: Step, bb: Seq<u8>, pos: int) -> bool {
    let rest = lines_from(bb, pos);
    match st {
        Step::Single(ev, n) => r matches ExecStep::Single(en, np) && en.view_entry() == ev && n
            <= rest.len() && pos <= np <= bb.len() && lines_from(bb, np as int) == rest.skip(
            n as int,
        ) && (np == bb.len() || bb[np - 1] == 10u8),
        Step::Tail(es) => r matches ExecStep::Tail(v) && entries_view(v@) == es,
        Step::Fail => r is Fail,
    }
}

/// The `key value` lists.
fn keyval_exec<'a>(block: &'a str, s: usize, e: usize, sp: usize, pos: usize) -> (r: ExecStep<'a>)
    requires
        line_at(block.spec_bytes(), s as int, e as int, sp as int, pos as int),
        ({
            let key = block.spec_bytes().subrange(s as int, sp as int);
            key == "longdesc".spec_bytes() || key == "postaction".spec_bytes() || key
                == "depend".spec_bytes() || key == "execute".spec_bytes()
        }),
    ensures
        step_matches(
            r,
            keyval_step(
                block.spec_bytes().subrange(sp + 1, e as int),
                lines_from(block.spec_bytes(), pos as int),
                block.spec_bytes().subrange(s as int, sp as int),
            ),
            block.spec_bytes(),
            pos as int,
        ),
{
    let b = block.as_bytes();
    let ghost rest = lines_from(b@, pos as int);
    let v = sub_str(block, sp + 1, e);
    if range_eq(b, s, sp, "longdesc".as_bytes()) {
        proof {
            reveal_strlit("longdesc ");
            reveal_strlit("longdesc");
            reveal_strlit(" ");
            assert("longdesc "@ =~= "longdesc"@ + " "@);
            lemma_ascii_concat("longdesc ", "longdesc", " ");
        }
        let (list, np) = take_prefixed(block, pos, "longdesc ", Some(v));
        assert(strs_bytes(list@) == keyval_items(v.spec_bytes(), rest, "longdesc ".spec_bytes()).list);
        return ExecStep::Single(Field::Longdesc(Items { prefix: "longdesc ", list }), np);
    }
    if range_eq(b, s, sp, "postaction".as_bytes()) {
        proof {
            reveal_strlit("postaction ");
            reveal_strlit("postaction");
            reveal_strlit(" ");
            assert("postaction "@ =~= "postaction"@ + " "@);
            lemma_ascii_concat("postaction ", "postaction", " ");
        }
        let (list, np) = take_prefixed(block, pos, "postaction ", Some(v));
        assert(strs_bytes(list@) == keyval_items(v.spec_bytes(), rest, "postaction ".spec_bytes()).list);
        return ExecStep::Single(Field::Postaction(Items { prefix: "postaction ", list }), np);
    }
    if range_eq(b, s, sp, "depend".as_bytes()) {
        proof {
            reveal_strlit("depend ");
            reveal_strlit("depend");
            reveal_strlit(" ");
            assert("depend "@ =~= "depend"@ + " "@);
            lemma_ascii_concat("depend ", "depend", " ");
        }
        let (list, np) = take_prefixed(block, pos, "depend ", Some(v));
        assert(strs_bytes(list@) == keyval_items(v.spec_bytes(), rest, "depend ".spec_bytes()).list);
        return ExecStep::Single(Field::Depend(Items { prefix: "depend ", list }), np);
    }
    proof {
        reveal_strlit("execute ");
        reveal_strlit("execute");
        reveal_strlit(" ");
        assert("execute "@ =~= "execute"@ + " "@);
        lemma_ascii_concat("execute ", "execute", " ");
    }
    let (list, np) = take_prefixed(block, pos, "execute ", Some(v));
    assert(strs_bytes(list@) == keyval_items(v.spec_bytes(), rest, "execute ".spec_bytes()).list);
    ExecStep::Single(Field::Execute(Items { prefix: "execute ", list }), np)
}

/// The container fields.
fn container_step_exec<'a>(block: &'a str, s: usize, e: usize, sp: usize, pos: usize) -> (r: ExecStep<'a>)
    requires
        line_at(block.spec_bytes(), s as int, e as int, sp as int, pos as int),
        ({
            let key = block.spec_bytes().subrange(s as int, sp as int);
            key == "containersize".spec_bytes() || key == "doccontainersize".spec_bytes() || key
                == "srccontainersize".spec_bytes()
        }),
    ensures
        ({
            let bb = block.spec_bytes();
            let key = bb.subrange(s as int, sp as int);
            let value = bb.subrange(sp + 1, e as int);
            let rest = lines_from(bb, pos as int);
            step_matches(
                r,
                if key == "containersize".spec_bytes() {
                    container_step(value, rest, "containerchecksum ".spec_bytes(), Kind::RunContainer)
                } else if key == "doccontainersize".spec_bytes() {
                    container_step(value, rest, "doccontainerchecksum ".spec_bytes(), Kind::DocContainer)
                } else {
                    container_step(value, rest, "srccontainerchecksum ".spec_bytes(), Kind::SrcContainer)
                },
                bb,
                pos as int,
            )
        }),
{
    let b = block.as_bytes();
    if range_eq(b, s, sp, "containersize".as_bytes()) {
        proof {
            reveal_strlit("containerchecksum ");
        }
        return match container_exec(block, sp + 1, e, pos, "containerchecksum ") {
            Some((c, np)) => ExecStep::Single(Field::RunContainer(c), np),
            None => ExecStep::Fail,
        };
    }
    if range_eq(b, s, sp, "doccontainersize".as_bytes()) {
        proof {
            reveal_strlit("doccontainerchecksum ");
        }
        return match container_exec(block, sp + 1, e, pos, "doccontainerchecksum ") {
            Some((c, np)) => ExecStep::Single(Field::DocContainer(c), np),
            None => ExecStep::Fail,
        };
    }
    proof {
        reveal_strlit("srccontainerchecksum ");
    }
    match container_exec(block, sp + 1, e, pos, "srccontainerchecksum ") {
        Some((c, np)) => ExecStep::Single(Field::SrcContainer(c), np),
        None => ExecStep::Fail,
    }
}

/// The file lists other than the binary ones.
fn files_step_exec<'a>(block: &'a str, s: usize, e: usize, sp: usize, pos: usize) -> (r: ExecStep<'a>)
    requires
        line_at(block.spec_bytes(), s as int, e as int, sp as int, pos as int),
    ensures
        step_matches(
            r,
            files_step(
                block.spec_bytes().subrange(sp + 1, e as int),
                lines_from(block.spec_bytes(), pos as int),
                block.spec_bytes().subrange(s as int, sp as int),
            ),
            block.spec_bytes(),
            pos as int,
        ),
{
    let b = block.as_bytes();
    let ghost rest = lines_from(b@, pos as int);
    proof {
        reveal_strlit(" ");
    }
    let n = match size_exec(b, sp + 1, e) {
        Some(n) => n,
        None => {
            return ExecStep::Fail;
        },
    };
    let (list, np) = take_prefixed(block, pos, " ", None);
    assert(strs_bytes(list@) =~= file_items(rest).list);
    if range_eq(b, s, sp, "runfiles".as_bytes()) {
        return ExecStep::Single(Field::RunFiles(n, Items { prefix: " ", list }), np);
    }
    if range_eq(b, s, sp, "docfiles".as_bytes()) {
        return ExecStep::Single(Field::DocFiles(n, Items { prefix: " ", list }), np);
    }
    ExecStep::Single(Field::SrcFiles(n, Items { prefix: " ", list }), np)
}

/// The binary file lists.
#[verifier::spinoff_prover]
fn binfiles_step_exec<'a>(block: &'a str, s: usize, e: usize, sp: usize, pos: usize) -> (r: ExecStep<'a>)
    requires
        line_at(block.spec_bytes(), s as int, e as int, sp as int, pos as int),
    ensures
        step_matches(
            r,
            binfiles_step(
                block.spec_bytes().subrange(sp + 1, e as int),
                lines_from(block.spec_bytes(), pos as int),
            ),
            block.spec_bytes(),
            pos as int,
        ),
{
    let b = block.as_bytes();
    let ghost bb = b@;
    let ghost rest = lines_from(bb, pos as int);
    let ghost value = bb.subrange(sp + 1, e as int);
    let sp2 = find_byte(b, 32u8, sp + 1, e);
    if sp2 == e {
        return ExecStep::Fail;
    }
    assert(value.subrange(0, sp2 - sp - 1) =~= bb.subrange(sp + 1, sp2 as int));
    assert(value.subrange(sp2 - sp, value.len() as int) =~= bb.subrange(sp2 + 1, e as int));
    proof {
        reveal_strlit("arch=");
        reveal_strlit(" ");
    }
    let k = match prefix_end(b, sp + 1, sp2, "arch=") {
        Some(k) => k,
        None => {
            return ExecStep::Fail;
        },
    };
    let arch = sub_str(block, k, sp2);
    match size_exec(b, sp2 + 1, e) {
        Some(n) => {
            let (list, np) = take_prefixed(block, pos, " ", None);
            assert(strs_bytes(list@) =~= file_items(rest).list);
            ExecStep::Single(Field::BinFiles(arch, n, Items { prefix: " ", list }), np)
        },
        None => ExecStep::Fail,
    }
}

/// What the line at `b[s..e]`, whose first space is at `sp`, gives, with
/// the lines from `pos` after it.
fn step_exec<'a>(block: &'a str, s: usize, e: usize, sp: usize, pos: usize) -> (r: ExecStep<'a>)
    requires
        line_at(block.spec_bytes(), s as int, e as int, sp as int, pos as int),
    ensures
        step_matches(
            r,
            step(
                block.spec_bytes().subrange(s as int, sp as int),
                block.spec_bytes().subrange(sp + 1, e as int),
                lines_from(block.spec_bytes(), pos as int),
            ),
            block.spec_bytes(),
            pos as int,
        ),
{
    reveal(step);
    let b = block.as_bytes();
    let ghost rest = lines_from(b@, pos as int);
    assert(rest.skip(0) =~= rest);
    if range_eq(b, s, sp, "catalogue".as_bytes()) {
        return ExecStep::Single(Field::Catalogue(sub_str(block, sp + 1, e)), pos);
    }
    if range_eq(b, s, sp, "shortdesc".as_bytes()) {
        return ExecStep::Single(Field::Shortdesc(sub_str(block, sp + 1, e)), pos);
    }
    if range_eq(b, s, sp, "relocated".as_bytes()) {
        return ExecStep::Single(Field::Relocated, pos);
    }
    if range_eq(b, s, sp, "longdesc".as_bytes()) || range_eq(b, s, sp, "postaction".as_bytes())
        || range_eq(b, s, sp, "depend".as_bytes()) || range_eq(b, s, sp, "execute".as_bytes()) {
        return keyval_exec(block, s, e, sp, pos);
    }
    if range_eq(b, s, sp, "containersize".as_bytes()) || range_eq(
        b,
        s,
        sp,
        "doccontainersize".as_bytes(),
    ) || range_eq(b, s, sp, "srccontainersize".as_bytes()) {
        return container_step_exec(block, s, e, sp, pos);
    }
    if range_eq(b, s, sp, "runfiles".as_bytes()) || range_eq(b, s, sp, "docfiles".as_bytes())
        || range_eq(b, s, sp, "srcfiles".as_bytes()) {
        return files_step_exec(block, s, e, sp, pos);
    }
    if range_eq(b, s, sp, "binfiles".as_bytes()) {
        return binfiles_step_exec(block, s, e, sp, pos);
    }
    let k = sub_str(block, s, sp);
    let v = sub_str(block, sp + 1, e);
    let mut tail = catalogue_tail_exec(block, pos);
    let mut out: Vec<Field<'a>> = Vec::new();
    out.push(Field::CatalogueEntry(k, v));
    let ghost t = tail@;
    out.append(&mut tail);
    assert(entries_view(out@) =~= seq![EntryView::CatalogueEntry(k.spec_bytes(), v.spec_bytes())]
        + entries_view(t));
    ExecStep::Tail(out)
}

/// The fields read before the line at `pos`, prepended to what the lines
/// from `pos` give.
pub open spec fn prepend_opt(pre: Seq<EntryView>, o: Option<Seq<EntryView>>) -> Option<Seq<EntryView>> {
    match o {
        Some(t) => Some(pre + t),
        None => None,
    }
}

proof fn lemma_contains_push(s: Seq<EntryView>, x: EntryView, y: EntryView)
    ensures
        s.push(x).contains(y) == (s.contains(y) || x == y),
{
    if s.contains(y) {
        let i = choose|i: int| 0 <= i < s.len() && s[i] == y;
        assert(s.push(x)[i] == y);
    }
    if x == y {
        assert(s.push(x)[s.len() as int] == y);
    }
    if s.push(x).contains(y) {
        let i = choose|i: int| 0 <= i < s.len() + 1 && s.push(x)[i] == y;
        if i < s.len() {
            assert(s[i] == y);
        }
    }
}

proof fn lemma_contains_concat(a: Seq<EntryView>, b: Seq<EntryView>, y: EntryView)
    ensures
        (a + b).contains(y) == (a.contains(y) || b.contains(y)),
{
    if a.contains(y) {
        let i = choose|i: int| 0 <= i < a.len() && a[i] == y;
        assert((a + b)[i] == y);
    }
    if b.contains(y) {
        let i = choose|i: int| 0 <= i < b.len() && b[i] == y;
        assert((a + b)[a.len() + i] == y);
    }
    if (a + b).contains(y) {
        let i = choose|i: int| 0 <= i < a.len() + b.len() && (a + b)[i] == y;
        if i < a.len() {
            assert(a[i] == y);
        } else {
            assert(b[i - a.len()] == y);
        }
    }
}

/// The name that the dependency `d` stands for in a record read for the
/// architecture `arch`: `base.ARCH` becomes `base.<arch>`, any other name
/// stays as it is.
pub open spec fn arch_dependency(d: Seq<u8>, arch: Seq<u8>) -> Seq<u8> {
    if ends_with(d, ".ARCH".spec_bytes()) {
        d.subrange(0, d.len() - ".ARCH".spec_bytes().len()) + ".".spec_bytes() + arch
    } else {
        d
    }
}

/// The dependency `dep` with a `.ARCH` suffix turned into `.<arch>`.
fn arch_name(dep: &str, arch: &str) -> (r: String)
    ensures
        encode_utf8(r@) == arch_dependency(dep.spec_bytes(), arch.spec_bytes()),
{
    let b = dep.as_bytes();
    let n = b.len();
    let suffix = ".ARCH";
    proof {
        reveal_strlit(".ARCH");
        reveal_strlit(".");
        crate::text::lemma_ascii_bytes(suffix);
        crate::text::lemma_ascii_bytes(".");
    }
    let ends = n >= 5 && crate::text::occurs_at_exec(b, suffix.as_bytes(), n - 5);
    assert(ends == ends_with(b@, suffix.spec_bytes())) by {
        if n >= 5 {
            assert(b@.subrange(n - 5, n as int) == b@.subrange(n - 5, n - 5 + 5));
        }
    }
    if !ends {
        return dep.to_owned();
    }
    proof {
        assert(b@.subrange(n - 5, n as int)[0] == suffix.spec_bytes()[0]);
    }
    let base = sub_str(dep, 0, n - 5);
    let mut v: Vec<u8> = Vec::new();
    push_bytes(&mut v, base.as_bytes());
    push_bytes(&mut v, ".".as_bytes());
    let ghost mid = v@;
    push_bytes(&mut v, arch.as_bytes());
    let ghost dest = v@;
    proof {
        vstd::utf8::valid_utf8_concat(base.spec_bytes(), ".".spec_bytes());
        vstd::utf8::valid_utf8_concat(mid, arch.spec_bytes());
        assert(dest =~= arch_dependency(b@, arch.spec_bytes()));
    }
    match string_from_utf8(v) {
        Some(d) => d,
        None => {
            assert(false);
            String::new()
        },
    }
}

impl<'a> Package<'a> {
    /// The record of the block of lines `block`, or `Some(None)` when the
    /// record is skipped, or `None` when the block breaks the format.
    #[verifier::spinoff_prover]
    #[verifier::rlimit(40)]
    fn parse_block(block: &'a str, target_arch: &'a str, skip_filter: bool) -> (r: Option<Option<Package<'a>>>)
        ensures
            match parse_package(block.spec_bytes(), target_arch.spec_bytes(), skip_filter) {
                ParseOutcome::Malformed => r is None,
                ParseOutcome::Skipped => r matches Some(None),
                ParseOutcome::Record(v) => r matches Some(Some(p)) && p@ == v && p.arch()
                    == target_arch.spec_bytes(),
            },
    {
        let b = block.as_bytes();
        let ghost bb = b@;
        let ghost ls = lines(bb);
        let (s0, e0, n0) = match next_line(b, 0) {
            None => return None,
            Some(t) => t,
        };
        proof {
            reveal_strlit("name ");
            reveal_strlit("category ");
            reveal_strlit("revision ");
        }
        let k0 = match prefix_end(b, s0, e0, "name ") {
            None => return None,
            Some(k) => k,
        };
        let name = sub_str(block, k0, e0);
        if skip_filter && Package::should_skip_package(name, target_arch) {
            return Some(None);
        }
        let (s1, e1, n1) = match next_line(b, n0) {
            None => return None,
            Some(t) => t,
        };
        let (s2, e2, n2) = match next_line(b, n1) {
            None => return None,
            Some(t) => t,
        };
        assert(ls[1] == bb.subrange(s1 as int, e1 as int));
        assert(ls.drop_first()[1] == bb.subrange(s2 as int, e2 as int));
        let k1 = match prefix_end(b, s1, e1, "category ") {
            None => return None,
            Some(k) => k,
        };
        let category = sub_str(block, k1, e1);
        let k2 = match prefix_end(b, s2, e2, "revision ") {
            None => return None,
            Some(k) => k,
        };
        let rev = match parse_unsigned_exec(b, k2, e2, 4294967295u64) {
            None => return None,
            Some(v) => v as u32,
        };
        let mut pkg = Package::new(name, target_arch);
        pkg = pkg.add(Field::Category(category));
        pkg = pkg.add(Field::Revision(rev));
        pkg = pkg.with_revision(rev);
        let ghost header = seq![EntryView::Category(category.spec_bytes()), EntryView::Revision(rev)];
        assert(ls.skip(3) =~= lines_from(bb, n2 as int));
        assert(pkg@.entries =~= header);
        assert(!header.contains(EntryView::Relocated));
        match Package::read_fields(block, n2, pkg) {
            None => None,
            Some(p) => {
                proof {
                    let body = parse_body(ls.skip(3))->0;
                    assert(!header.contains(EntryView::Relocated));
                    lemma_contains_concat(header, body, EntryView::Relocated);
                }
                Some(Some(p))
            },
        }
    }

    /// The record `pkg` with the fields of the lines from `start` appended,
    /// or `None` when a line is malformed.
    #[verifier::spinoff_prover]
    fn read_fields(block: &'a str, start: usize, pkg: Package<'a>) -> (r: Option<Package<'a>>)
        requires
            start <= block.spec_bytes().len(),
            start == 0 || start == block.spec_bytes().len() || block.spec_bytes()[start - 1] == 10u8,
        ensures
            match parse_body(lines_from(block.spec_bytes(), start as int)) {
                None => r is None,
                Some(body) => r matches Some(p) && p@ == (PackageView {
                    entries: pkg@.entries + body,
                    relocated: pkg@.relocated || body.contains(EntryView::Relocated),
                    ..pkg@
                }) && p.arch() == pkg.arch(),
            },
    {
        let b = block.as_bytes();
        let ghost bb = b@;
        let ghost all = lines_from(bb, start as int);
        let ghost pkg0 = pkg@;
        let ghost arch0 = pkg.arch();
        let ghost mut body: Seq<EntryView> = seq![];
        let mut pkg = pkg;
        let mut pos = start;
        assert(pkg0.entries + body =~= pkg0.entries);
        assert(body + parse_body(all)->0 =~= parse_body(all)->0);
        loop
            invariant_except_break
                bb == block.spec_bytes(),
                b@ == bb,
                all == lines_from(bb, start as int),
                start <= pos <= bb.len(),
                pos == 0 || pos == bb.len() || bb[pos - 1] == 10u8,
                parse_body(all) == prepend_opt(body, parse_body(lines_from(bb, pos as int))),
                pkg@ == (PackageView {
                    entries: pkg0.entries + body,
                    relocated: pkg0.relocated || body.contains(EntryView::Relocated),
                    ..pkg0
                }),
            invariant
                pkg.arch() == arch0,
            ensures
                parse_body(all) == Some(body),
                pkg@ == (PackageView {
                    entries: pkg0.entries + body,
                    relocated: pkg0.relocated || body.contains(EntryView::Relocated),
                    ..pkg0
                }),
            decreases bb.len() - pos,
        {
            let ghost rem = lines_from(bb, pos as int);
            match next_line(b, pos) {
                None => {
                    assert(rem =~= Seq::<Seq<u8>>::empty());
                    assert(body + Seq::<EntryView>::empty() =~= body);
                    break;
                },
                Some((s, e, n)) => {
                    let ghost line = bb.subrange(s as int, e as int);
                    assert(rem[0] == line);
                    assert(rem.drop_first() =~= lines_from(bb, n as int));
                    let sp = find_byte(b, 32u8, s, e);
                    if sp == e {
                        pos = n;
                    } else {
                        assert(line.subrange(0, sp - s) =~= bb.subrange(s as int, sp as int));
                        assert(line.subrange(sp - s + 1, line.len() as int) =~= bb.subrange(
                            sp + 1,
                            e as int,
                        ));
                        match step_exec(block, s, e, sp, n) {
                            ExecStep::Fail => {
                                return None;
                            },
                            ExecStep::Single(en, np) => {
                                let ghost ev = en.view_entry();
                                proof {
                                    lemma_contains_push(body, ev, EntryView::Relocated);
                                    assert(body + (seq![ev] + parse_body(lines_from(bb, np as int))->0)
                                        =~= body.push(ev) + parse_body(lines_from(bb, np as int))->0);
                                    assert(pkg0.entries + body.push(ev) =~= (pkg0.entries + body).push(ev));
                                    body = body.push(ev);
                                }
                                pkg = pkg.add(en);
                                pos = np;
                            },
                            ExecStep::Tail(v) => {
                                let ghost es = entries_view(v@);
                                let mut v = v;
                                let ghost body0 = body;
                                assert(entries_view(v@) == es);
                                while v.len() > 0
                                    invariant
                                        body0 + es == body + entries_view(v@),
                                        pkg@ == (PackageView {
                                            entries: pkg0.entries + body,
                                            relocated: pkg0.relocated || body.contains(EntryView::Relocated),
                                            ..pkg0
                                        }),
                                        pkg.arch() == arch0,
                                    decreases v@.len(),
                                {
                                    let ghost v0 = v@;
                                    let en = v.remove(0);
                                    let ghost ev = en.view_entry();
                                    proof {
                                        assert(entries_view(v0) =~= seq![ev] + entries_view(v@));
                                        lemma_contains_push(body, ev, EntryView::Relocated);
                                        assert(body + entries_view(v0) =~= body.push(ev) + entries_view(v@));
                                        assert(pkg0.entries + body.push(ev) =~= (pkg0.entries + body).push(ev));
                                        body = body.push(ev);
                                    }
                                    pkg = pkg.add(en);
                                }
                                assert(body + entries_view(v@) =~= body);
                                break;
                            },
                        }
                    }
                },
            }
        }
        Some(pkg)
    }
}

/// Appends `s`.
fn push_str(out: &mut Vec<u8>, s: &str)
    ensures
        final(out)@ == old(out)@ + s.spec_bytes(),
{
    push_bytes(out, s.as_bytes());
}

/// Appends the bytes `b[start..end]`.
fn push_range(out: &mut Vec<u8>, b: &[u8], start: usize, end: usize)
    requires
        start <= end <= b@.len(),
    ensures
        final(out)@ == old(out)@ + b@.subrange(start as int, end as int),
{
    let ghost o = out@;
    let mut i = start;
    while i < end
        invariant
            start <= i <= end <= b@.len(),
            out@ == o + b@.subrange(start as int, i as int),
        decreases end - i,
    {
        out.push(b[i]);
        i = i + 1;
        assert(out@ =~= o + b@.subrange(start as int, i as int));
    }
}

impl<'a> Items<'a> {
    /// Appends the lines of the list.
    fn write_to(&self, out: &mut Vec<u8>)
        ensures
            final(out)@ == old(out)@ + write_items(self.view_items()),
    {
        let ghost o = out@;
        let ghost l = strs_bytes(self.list@);
        let mut i: usize = 0;
        assert(l.subrange(0, 0) =~= Seq::<Seq<u8>>::empty());
        while i < self.list.len()
            invariant
                i <= self.list@.len(),
                l == strs_bytes(self.list@),
                out@ == o + write_list(self.prefix.spec_bytes(), l.subrange(0, i as int)),
            decreases self.list@.len() - i,
        {
            let elem = self.list[i];
            let ghost before = out@;
            push_str(out, self.prefix);
            let eb = elem.as_bytes();
            if starts_with_exec(eb, "RELOC".as_bytes()) {
                push_str(out, "texmf-dist");
                push_range(out, eb, "RELOC".as_bytes().len(), eb.len());
            } else {
                push_bytes(out, eb);
            }
            push_str(out, "\n");
            proof {
                let sub = l.subrange(0, i + 1);
                assert(sub.drop_last() =~= l.subrange(0, i as int));
                assert(sub.last() == elem.spec_bytes());
                assert(out@ =~= before + self.prefix.spec_bytes() + reloc(elem.spec_bytes()) + "\n".spec_bytes());
            }
            i = i + 1;
        }
        assert(l.subrange(0, i as int) =~= l);
    }
}

impl<'a> Container<'a> {
    /// Appends the two lines of the container, their keys after `prefix`.
    fn write_to(&self, out: &mut Vec<u8>, prefix: Option<&str>)
        ensures
            final(out)@ == old(out)@ + write_container(
                self.view_container(),
                match prefix {
                    Some(p) => p.spec_bytes(),
                    None => seq![],
                },
            ),
    {
        let ghost o = out@;
        let ghost pf = match prefix {
            Some(p) => p.spec_bytes(),
            None => Seq::<u8>::empty(),
        };
        match prefix {
            Some(p) => push_str(out, p),
            None => {},
        }
        assert(out@ =~= o + pf);
        push_str(out, "containersize ");
        push_decimal(out, self.byte_size);
        push_str(out, "\n");
        let ghost mid = out@;
        match prefix {
            Some(p) => push_str(out, p),
            None => {},
        }
        assert(out@ =~= mid + pf);
        push_str(out, "containerchecksum ");
        push_str(out, self.checksum);
        push_str(out, "\n");
        assert(out@ =~= o + write_container(self.view_container(), pf));
    }
}

impl<'a> Field<'a> {
    /// Appends the line `key val`.
    fn write_str_str(out: &mut Vec<u8>, key: &[u8], val: &[u8])
        ensures
            final(out)@ == old(out)@ + write_kv(key@, val@),
    {
        let ghost o = out@;
        push_bytes(out, key);
        push_str(out, " ");
        push_bytes(out, val);
        push_str(out, "\n");
        assert(out@ =~= o + write_kv(key@, val@));
    }

    /// Appends the line `key n`.
    fn write_str_u32(out: &mut Vec<u8>, key: &[u8], val: u32)
        ensures
            final(out)@ == old(out)@ + write_kv(key@, decimal(val as nat)),
    {
        let ghost o = out@;
        push_bytes(out, key);
        push_str(out, " ");
        push_decimal(out, val as u64);
        push_str(out, "\n");
        assert(out@ =~= o + write_kv(key@, decimal(val as nat)));
    }

    /// Appends the line `key size=n`.
    fn write_str_size(out: &mut Vec<u8>, key: &[u8], size: u64)
        ensures
            final(out)@ == old(out)@ + write_size(key@, size),
    {
        let ghost o = out@;
        push_bytes(out, key);
        push_str(out, " size=");
        push_decimal(out, size);
        push_str(out, "\n");
        assert(out@ =~= o + write_size(key@, size));
    }

    /// Appends the line `key arch=a size=n`.
    fn write_str_arch_size(out: &mut Vec<u8>, key: &[u8], arch: &[u8], size: u64)
        ensures
            final(out)@ == old(out)@ + key@ + " arch=".spec_bytes() + arch@ + " size=".spec_bytes()
                + decimal(size as nat) + "\n".spec_bytes(),
    {
        let ghost o = out@;
        push_bytes(out, key);
        push_str(out, " arch=");
        push_bytes(out, arch);
        push_str(out, " size=");
        push_decimal(out, size);
        push_str(out, "\n");
        assert(out@ =~= o + key@ + " arch=".spec_bytes() + arch@ + " size=".spec_bytes() + decimal(
            size as nat,
        ) + "\n".spec_bytes());
    }

    /// Appends the lines of the field.
    fn write_to(&self, out: &mut Vec<u8>, is_scheme: bool)
        ensures
            final(out)@ == old(out)@ + write_entry(self.view_entry(), is_scheme),
    {
        let ghost o = out@;
        match self {
            Field::Category(c) => Field::write_str_str(out, "category".as_bytes(), c.as_bytes()),
            Field::Revision(r) => Field::write_str_u32(out, "revision".as_bytes(), *r),
            Field::Catalogue(c) => Field::write_str_str(out, "catalogue".as_bytes(), c.as_bytes()),
            Field::Shortdesc(d) => Field::write_str_str(out, "shortdesc".as_bytes(), d.as_bytes()),
            Field::Longdesc(rows) => rows.write_to(out),
            Field::Relocated => {
                if is_scheme {
                    push_str(out, "relocated 1\n");
                } else {
                    assert(out@ =~= o + Seq::<u8>::empty());
                }
            },
            Field::Depend(rows) => rows.write_to(out),
            Field::Postaction(rows) => rows.write_to(out),
            Field::Execute(rows) => rows.write_to(out),
            Field::RunContainer(c) => {
                c.write_to(out, None);
            },
            Field::DocContainer(c) => c.write_to(out, Some("doc")),
            Field::SrcContainer(c) => c.write_to(out, Some("src")),
            Field::RunFiles(n, items) => {
                Field::write_str_size(out, "runfiles".as_bytes(), *n);
                items.write_to(out);
                assert(out@ =~= o + write_entry(self.view_entry(), is_scheme));
            },
            Field::BinFiles(a, n, items) => {
                Field::write_str_arch_size(out, "binfiles".as_bytes(), a.as_bytes(), *n);
                items.write_to(out);
                assert(out@ =~= o + write_entry(self.view_entry(), is_scheme));
            },
            Field::DocFiles(n, items) => {
                Field::write_str_size(out, "docfiles".as_bytes(), *n);
                items.write_to(out);
                assert(out@ =~= o + write_entry(self.view_entry(), is_scheme));
            },
            Field::SrcFiles(n, items) => {
                Field::write_str_size(out, "srcfiles".as_bytes(), *n);
                items.write_to(out);
                assert(out@ =~= o + write_entry(self.view_entry(), is_scheme));
            },
            Field::CatalogueEntry(k, v) => Field::write_str_str(out, k.as_bytes(), v.as_bytes()),
        }
    }
}

impl<'a> Package<'a> {
    /// The record of the block of lines `block` (a block of the database,
    /// its lines without a blank line among them), or `None` when it is a
    /// binary package for another architecture and `skip_filter` holds.
    /// The block must hold a well-formed record.
    ///
    /// Where a block is read differently with checks that only a debug build
    /// makes, the reading of a release build is followed: a `relocated`
    /// line marks the record relocated whatever its value, a key that is
    /// neither known nor starts `catalogue-` is kept as a catalogue entry
    /// (as are all the lines after it), and a line without a space is
    /// passed over.
    pub fn parse_from_str(
        block: &'a str,
        target_arch: &'a str,
        include_doc: bool,
        include_src: bool,
        skip_filter: bool,
    ) -> (r: Option<Package<'a>>)
        requires
            !(parse_package(block.spec_bytes(), target_arch.spec_bytes(), skip_filter) is Malformed),
        ensures
            match parse_package(block.spec_bytes(), target_arch.spec_bytes(), skip_filter) {
                ParseOutcome::Record(v) => r matches Some(p) && p@ == v && p.arch()
                    == target_arch.spec_bytes(),
                _ => r is None,
            },
    {
        match Package::parse_block(block, target_arch, skip_filter) {
            Some(r) => r,
            None => None,
        }
    }

    /// As `parse_from_str`, for any block: `None` when the block breaks the
    /// format, otherwise what `parse_from_str` gives.
    pub fn parse_checked(block: &'a str, target_arch: &'a str, skip_filter: bool) -> (r: Option<
        Option<Package<'a>>,
    >)
        ensures
            match parse_package(block.spec_bytes(), target_arch.spec_bytes(), skip_filter) {
                ParseOutcome::Malformed => r is None,
                ParseOutcome::Skipped => r matches Some(None),
                ParseOutcome::Record(v) => r matches Some(Some(p)) && p@ == v && p.arch()
                    == target_arch.spec_bytes(),
            },
    {
        Package::parse_block(block, target_arch, skip_filter)
    }

    /// Appends the record in the format of the database: its `name` line,
    /// then each field.
    pub fn write_to(&self, out: &mut Vec<u8>)
        ensures
            final(out)@ == old(out)@ + write_package(self@),
    {
        let ghost o = out@;
        push_str(out, "name ");
        push_str(out, self.name);
        push_str(out, "\n");
        let is_scheme = starts_with_exec(self.name.as_bytes(), "scheme-".as_bytes());
        let ghost head = out@;
        let ghost es = entries_view(self.dataset@);
        let mut i: usize = 0;
        assert(es.subrange(0, 0) =~= Seq::<EntryView>::empty());
        assert(head =~= head + write_entries(es.subrange(0, 0), is_scheme));
        while i < self.dataset.len()
            invariant
                i <= self.dataset@.len(),
                es == entries_view(self.dataset@),
                out@ == head + write_entries(es.subrange(0, i as int), is_scheme),
            decreases self.dataset@.len() - i,
        {
            self.dataset[i].write_to(out, is_scheme);
            proof {
                let sub = es.subrange(0, i + 1);
                assert(sub.drop_last() =~= es.subrange(0, i as int));
                assert(sub.last() == self.dataset@[i as int].view_entry());
            }
            i = i + 1;
        }
        assert(es.subrange(0, i as int) =~= es);
        assert(out@ =~= o + write_package(self@));
    }
}

impl<'a> Package<'a> {
    /// The archive of the container of kind `k`, if the package has one.
    fn archive(&self, k: Kind, infix: &str) -> (r: Option<RemoteFile>)
        requires
            k is RunContainer || k is DocContainer || k is SrcContainer,
        ensures
            match archive_file(self@, k, infix.spec_bytes()) {
                Some(v) => r matches Some(f) && f@ == v,
                None => r is None,
            },
    {
        proof {
            use_type_invariant(self);
            lemma_last_index_bounds(entries_view(self.dataset@), k);
        }
        let idx = match k {
            Kind::RunContainer => self.index_container,
            Kind::DocContainer => self.index_doc_container,
            _ => self.index_src_container,
        };
        let i = match idx {
            None => return None,
            Some(i) => i,
        };
        assert(self.dataset@[i as int].view_entry() == entries_view(self.dataset@)[i as int]);
        let checksum = match &self.dataset[i] {
            Field::RunContainer(c) => c.checksum,
            Field::DocContainer(c) => c.checksum,
            Field::SrcContainer(c) => c.checksum,
            _ => {
                return None;
            },
        };
        let mut name: Vec<u8> = Vec::new();
        push_str(&mut name, self.name);
        push_str(&mut name, infix);
        push_str(&mut name, ".r");
        let ghost before = name@;
        push_decimal(&mut name, self.revision as u64);
        let ghost after = name@;
        push_str(&mut name, ".tar.xz");
        proof {
            lemma_decimal_digits(self.revision as nat);
            vstd::utf8::valid_utf8_concat(self.name.spec_bytes(), infix.spec_bytes());
            vstd::utf8::valid_utf8_concat(self.name.spec_bytes() + infix.spec_bytes(), ".r".spec_bytes());
            assert(before =~= self.name.spec_bytes() + infix.spec_bytes() + ".r".spec_bytes());
            vstd::utf8::valid_utf8_concat(before, decimal(self.revision as nat));
            assert(after =~= before + decimal(self.revision as nat));
            vstd::utf8::valid_utf8_concat(after, ".tar.xz".spec_bytes());
            assert(name@ =~= after + ".tar.xz".spec_bytes());
        }
        let ghost bytes = name@;
        match string_from_utf8(name) {
            Some(n) => {
                let ck = checksum.to_owned();
                Some(RemoteFile::new(n, ck, self.relocated))
            },
            None => {
                assert(false);
                None
            },
        }
    }

    /// The archives of the package: the run, documentation and source
    /// archives that it has containers for, in that order.
    pub fn remote_files(&self) -> (r: Vec<RemoteFile>)
        ensures
            r@.map_values(|f: RemoteFile| f@) == remote_files_of(self@),
    {
        let mut out: Vec<RemoteFile> = Vec::new();
        match self.archive(Kind::RunContainer, "") {
            Some(f) => out.push(f),
            None => {},
        }
        let ghost o1 = out@.map_values(|f: RemoteFile| f@);
        proof {
            reveal_strlit("");
            assert("".spec_bytes() =~= Seq::<u8>::empty());
            assert(o1 =~= opt_seq(archive_file(self@, Kind::RunContainer, seq![])));
        }
        match self.archive(Kind::DocContainer, ".doc") {
            Some(f) => out.push(f),
            None => {},
        }
        let ghost o2 = out@.map_values(|f: RemoteFile| f@);
        assert(o2 =~= o1 + opt_seq(archive_file(self@, Kind::DocContainer, ".doc".spec_bytes())));
        match self.archive(Kind::SrcContainer, ".source") {
            Some(f) => out.push(f),
            None => {},
        }
        assert(out@.map_values(|f: RemoteFile| f@) =~= o2 + opt_seq(
            archive_file(self@, Kind::SrcContainer, ".source".spec_bytes()),
        ));
        out
    }
}

impl<'a> Package<'a> {
    /// The format directives of the package: its `execute` values that
    /// begin with `AddFormat` and read as a directive once trimmed.
    pub fn get_add_format_directives(&self) -> (r: Vec<AddFormat<'a>>)
        ensures
            r@.map_values(|f: AddFormat<'a>| f@) == format_directives(self@),
    {
        let mut out: Vec<AddFormat<'a>> = Vec::new();
        let list = match self.list_of(Kind::Execute) {
            None => {
                assert(out@.map_values(|f: AddFormat<'a>| f@) =~= Seq::<AddFormatView>::empty());
                return out;
            },
            Some(l) => l,
        };
        let ghost l = strs_bytes(list@);
        let ghost pkg = decode_utf8(self@.name);
        assert(self.name@ == pkg);
        let mut i: usize = 0;
        assert(l.take(0) =~= Seq::<Seq<u8>>::empty());
        assert(out@.map_values(|f: AddFormat<'a>| f@) =~= Seq::<AddFormatView>::empty());
        while i < list.len()
            invariant
                i <= list@.len(),
                l == strs_bytes(list@),
                pkg == self.name@,
                out@.map_values(|f: AddFormat<'a>| f@) == format_directives_of(pkg, l.take(i as int)),
            decreases list@.len() - i,
        {
            let exec_str = list[i];
            let ghost before = out@.map_values(|f: AddFormat<'a>| f@);
            assert(l.take(i + 1).drop_last() =~= l.take(i as int));
            assert(l.take(i + 1).last() == exec_str.spec_bytes());
            assert(decode_utf8(exec_str.spec_bytes()) == exec_str@);
            if starts_with_exec(exec_str.as_bytes(), "AddFormat".as_bytes()) {
                match AddFormat::parse(self.name, trim_str(exec_str)) {
                    Some(f) => {
                        out.push(f);
                        assert(out@.map_values(|f: AddFormat<'a>| f@) =~= before.push(f@));
                    },
                    None => {},
                }
            }
            i = i + 1;
        }
        assert(l.take(i as int) =~= l);
        out
    }

    /// The hyphenation directives of the package: its `execute` values that
    /// begin with `AddHyphen` and read as a directive once trimmed.
    pub fn get_hyphen_directives(&self) -> (r: Vec<AddHyphen<'a>>)
        ensures
            r@.map_values(|h: AddHyphen<'a>| h@) == hyphen_directives(self@),
    {
        let mut out: Vec<AddHyphen<'a>> = Vec::new();
        let list = match self.list_of(Kind::Execute) {
            None => {
                assert(out@.map_values(|h: AddHyphen<'a>| h@) =~= Seq::<AddHyphenView>::empty());
                return out;
            },
            Some(l) => l,
        };
        let ghost l = strs_bytes(list@);
        let ghost pkg = decode_utf8(self@.name);
        assert(self.name@ == pkg);
        let mut i: usize = 0;
        assert(l.take(0) =~= Seq::<Seq<u8>>::empty());
        assert(out@.map_values(|h: AddHyphen<'a>| h@) =~= Seq::<AddHyphenView>::empty());
        while i < list.len()
            invariant
                i <= list@.len(),
                l == strs_bytes(list@),
                pkg == self.name@,
                out@.map_values(|h: AddHyphen<'a>| h@) == hyphen_directives_of(pkg, l.take(i as int)),
            decreases list@.len() - i,
        {
            let exec_str = list[i];
            let ghost before = out@.map_values(|h: AddHyphen<'a>| h@);
            assert(l.take(i + 1).drop_last() =~= l.take(i as int));
            assert(l.take(i + 1).last() == exec_str.spec_bytes());
            assert(decode_utf8(exec_str.spec_bytes()) == exec_str@);
            if starts_with_exec(exec_str.as_bytes(), "AddHyphen".as_bytes()) {
                match AddHyphen::parse(self.name, trim_str(exec_str)) {
                    Some(h) => {
                        out.push(h);
                        assert(out@.map_values(|h: AddHyphen<'a>| h@) =~= before.push(h@));
                    },
                    None => {},
                }
            }
            i = i + 1;
        }
        assert(l.take(i as int) =~= l);
        out
    }
}

impl<'a> Items<'a> {
    spec fn view_items(&self) -> ItemsView {
        ItemsView { prefix: self.prefix.spec_bytes(), list: strs_bytes(self.list@) }
    }
}

impl<'a> Container<'a> {
    spec fn view_container(&self) -> ContainerView {
        ContainerView { byte_size: self.byte_size, checksum: self.checksum.spec_bytes() }
    }
}

impl<'a> Field<'a> {
    spec fn view_entry(&self) -> EntryView {
        match self {
            Field::Category(s) => EntryView::Category(s.spec_bytes()),
            Field::Revision(r) => EntryView::Revision(*r),
            Field::Catalogue(s) => EntryView::Catalogue(s.spec_bytes()),
            Field::Shortdesc(s) => EntryView::Shortdesc(s.spec_bytes()),
            Field::Longdesc(it) => EntryView::Longdesc(it.view_items()),
            Field::Relocated => EntryView::Relocated,
            Field::Depend(it) => EntryView::Depend(it.view_items()),
            Field::Postaction(it) => EntryView::Postaction(it.view_items()),
            Field::Execute(it) => EntryView::Execute(it.view_items()),
            Field::RunContainer(c) => EntryView::RunContainer(c.view_container()),
            Field::DocContainer(c) => EntryView::DocContainer(c.view_container()),
            Field::SrcContainer(c) => EntryView::SrcContainer(c.view_container()),
            Field::RunFiles(n, it) => EntryView::RunFiles(*n, it.view_items()),
            Field::BinFiles(a, n, it) => EntryView::BinFiles(a.spec_bytes(), *n, it.view_items()),
            Field::DocFiles(n, it) => EntryView::DocFiles(*n, it.view_items()),
            Field::SrcFiles(n, it) => EntryView::SrcFiles(*n, it.view_items()),
            Field::CatalogueEntry(k, v) => EntryView::CatalogueEntry(k.spec_bytes(), v.spec_bytes()),
        }
    }
}

/// The view of a list of fields.
spec fn entries_view<'a>(v: Seq<Field<'a>>) -> Seq<EntryView> {
    v.map_values(|e: Field<'a>| e.view_entry())
}

spec fn opt_index(o: Option<usize>) -> Option<int> {
    match o {
        Some(i) => Some(i as int),
        None => None,
    }
}

/// A unit component of the TeX Live distribution, as the database lists it.
pub struct Package<'a> {
    name: &'a str,
    revision: u32,
    relocated: bool,
    target_arch: &'a str,
    dataset: Vec<Field<'a>>,
    index_depend: Option<usize>,
    index_execute: Option<usize>,
    index_post_action: Option<usize>,
    index_container: Option<usize>,
    index_doc_container: Option<usize>,
    index_src_container: Option<usize>,
}

impl<'a> View for Package<'a> {
    type V = PackageView;

    closed spec fn view(&self) -> PackageView {
        PackageView {
            name: self.name.spec_bytes(),
            revision: self.revision,
            relocated: self.relocated,
            entries: entries_view(self.dataset@),
        }
    }
}

impl<'a> Package<'a> {
    /// Each index field holds the position of the last field of its kind.
    #[verifier::type_invariant]
    spec fn indexed(self) -> bool {
        let es = entries_view(self.dataset@);
        &&& opt_index(self.index_depend) == last_index(es, Kind::Depend)
        &&& opt_index(self.index_execute) == last_index(es, Kind::Execute)
        &&& opt_index(self.index_post_action) == last_index(es, Kind::Postaction)
        &&& opt_index(self.index_container) == last_index(es, Kind::RunContainer)
        &&& opt_index(self.index_doc_container) == last_index(es, Kind::DocContainer)
        &&& opt_index(self.index_src_container) == last_index(es, Kind::SrcContainer)
    }

    /// The target architecture that the record was read for.
    pub closed spec fn arch(&self) -> Seq<u8> {
        self.target_arch.spec_bytes()
    }

    /// An empty package record named `name`, read for `target_arch`.
    fn new(name: &'a str, target_arch: &'a str) -> (p: Package<'a>)
        ensures
            p@ == (PackageView { name: name.spec_bytes(), revision: 0, relocated: false, entries: seq![] }),
            p.arch() == target_arch.spec_bytes(),
    {
        let p = Package {
            name,
            revision: 0,
            relocated: false,
            target_arch,
            dataset: Vec::new(),
            index_depend: None,
            index_execute: None,
            index_post_action: None,
            index_container: None,
            index_doc_container: None,
            index_src_container: None,
        };
        assert(entries_view(p.dataset@) =~= Seq::<EntryView>::empty());
        p
    }

    /// The record with a field appended; `relocated` is the flag of the
    /// result, set by a `relocated` field.
    fn insert(self, item: Field<'a>, relocated: bool) -> (p: Package<'a>)
        ensures
            p@ == (PackageView {
                entries: self@.entries.push(item.view_entry()),
                relocated,
                ..self@
            }),
            p.arch() == self.arch(),
    {
        proof {
            use_type_invariant(&self);
        }
        let Package {
            name,
            revision,
            relocated: _,
            target_arch,
            mut dataset,
            mut index_depend,
            mut index_execute,
            mut index_post_action,
            mut index_container,
            mut index_doc_container,
            mut index_src_container,
        } = self;
        let n = dataset.len();
        let ghost es = entries_view(dataset@);
        let ghost e = item.view_entry();
        let ghost es2 = es.push(e);
        assert(es2.drop_last() =~= es);
        match &item {
            Field::Depend(_) => index_depend = Some(n),
            Field::Execute(_) => index_execute = Some(n),
            Field::Postaction(_) => index_post_action = Some(n),
            Field::RunContainer(_) => index_container = Some(n),
            Field::DocContainer(_) => index_doc_container = Some(n),
            Field::SrcContainer(_) => index_src_container = Some(n),
            _ => {},
        }
        dataset.push(item);
        assert(entries_view(dataset@) =~= es2);
        Package {
            name,
            revision,
            relocated,
            target_arch,
            dataset,
            index_depend,
            index_execute,
            index_post_action,
            index_container,
            index_doc_container,
            index_src_container,
        }
    }

    /// The record with its revision set.
    fn with_revision(self, revision: u32) -> (p: Package<'a>)
        ensures
            p@ == (PackageView { revision, ..self@ }),
            p.arch() == self.arch(),
    {
        proof {
            use_type_invariant(&self);
        }
        let Package {
            name,
            revision: _,
            relocated,
            target_arch,
            dataset,
            index_depend,
            index_execute,
            index_post_action,
            index_container,
            index_doc_container,
            index_src_container,
        } = self;
        Package {
            name,
            revision,
            relocated,
            target_arch,
            dataset,
            index_depend,
            index_execute,
            index_post_action,
            index_container,
            index_doc_container,
            index_src_container,
        }
    }

    /// The record with a field appended, marked relocated if the field is
    /// `relocated`.
    fn add(self, item: Field<'a>) -> (p: Package<'a>)
        ensures
            p@ == (PackageView {
                entries: self@.entries.push(item.view_entry()),
                relocated: self@.relocated || item.view_entry() == EntryView::Relocated,
                ..self@
            }),
            p.arch() == self.arch(),
    {
        let rel = match &item {
            Field::Relocated => true,
            _ => self.relocated,
        };
        self.insert(item, rel)
    }

    /// True when `pkg_name` ends with `.<arch>` for a known TeX Live
    /// architecture other than `target_arch`.
    fn should_skip_package(pkg_name: &str, target_arch: &str) -> (r: bool)
        ensures
            r == skipped_for_arch(pkg_name.spec_bytes(), target_arch.spec_bytes()),
    {
        let b = pkg_name.as_bytes();
        let ghost bb = b@;
        let mut i = b.len();
        let mut found = false;
        assert(bb.subrange(0, i as int) =~= bb);
        while i > 0
            invariant_except_break
                i <= bb.len(),
                b@ == bb,
                !found,
                rindex_of(bb, 46u8) == rindex_of(bb.subrange(0, i as int), 46u8),
            ensures
                i <= bb.len(),
                found ==> i > 0 && bb[i - 1] == 46u8 && rindex_of(bb, 46u8) == i - 1,
                !found ==> i == 0 && rindex_of(bb, 46u8) == rindex_of(bb.subrange(0, 0), 46u8),
            decreases i,
        {
            assert(bb.subrange(0, i as int).drop_last() =~= bb.subrange(0, i - 1));
            if b[i - 1] == 46u8 {
                found = true;
                break;
            }
            i = i - 1;
        }
        if !found {
            assert(bb.subrange(0, 0) =~= Seq::<u8>::empty());
            return false;
        }
        assert(b@[i - 1] == 46u8);
        let a = sub_str(pkg_name, i, b.len());
        let known = crate::arch::is_known_tl_arch(a);
        let same = crate::text::str_eq(a, target_arch);
        proof {
            crate::text::lemma_same_bytes_same_str(a@, target_arch@);
        }
        known && !same
    }

    /// The name of the package.
    pub fn get_name(&self) -> (r: &'a str)
        ensures
            r.spec_bytes() == self@.name,
    {
        self.name
    }

    /// The values of the last list of kind `k`.
    pub(crate) fn list_of(&self, k: Kind) -> (r: Option<&[&'a str]>)
        requires
            k is Depend || k is Execute || k is Postaction,
        ensures
            match last_items(self@, k) {
                Some(l) => r is Some && strs_bytes(r.unwrap()@) == l,
                None => r is None,
            },
    {
        proof {
            use_type_invariant(self);
            lemma_last_index_bounds(entries_view(self.dataset@), k);
        }
        let idx = match k {
            Kind::Depend => self.index_depend,
            Kind::Execute => self.index_execute,
            _ => self.index_post_action,
        };
        match idx {
            None => None,
            Some(i) => {
                let ghost e = entries_view(self.dataset@)[i as int];
                assert(self.dataset@[i as int].view_entry() == e);
                match &self.dataset[i] {
                    Field::Depend(items) => Some(items.list.as_slice()),
                    Field::Execute(items) => Some(items.list.as_slice()),
                    Field::Postaction(items) => Some(items.list.as_slice()),
                    _ => None,
                }
            },
        }
    }

    /// The dependencies of the package (the values of its last `depend`
    /// list), each `base.ARCH` turned into `base.<target_arch>` for the
    /// architecture that the record was read for, or `None` when it has
    /// none.
    pub fn dependencies_as_slice(&self) -> (r: Option<Vec<String>>)
        ensures
            match last_items(self@, Kind::Depend) {
                Some(l) => r matches Some(v) && v@.len() == l.len() && forall|i: int|
                    0 <= i < l.len() ==> encode_utf8(#[trigger] v@[i]@) == arch_dependency(
                        l[i],
                        self.arch(),
                    ),
                None => r is None,
            },
    {
        let list = match self.list_of(Kind::Depend) {
            None => return None,
            Some(l) => l,
        };
        let ghost l = strs_bytes(list@);
        let mut v: Vec<String> = Vec::new();
        let mut i: usize = 0;
        while i < list.len()
            invariant
                i <= list@.len(),
                l == strs_bytes(list@),
                v@.len() == i,
                forall|k: int| 0 <= k < i ==> encode_utf8(#[trigger] v@[k]@) == arch_dependency(
                    l[k],
                    self.arch(),
                ),
            decreases list@.len() - i,
        {
            v.push(arch_name(list[i], self.target_arch));
            i = i + 1;
        }
        Some(v)
    }

    /// The `execute` directives of the package, or `None` when it has none.
    pub fn execute_as_slice(&self) -> (r: Option<&[&'a str]>)
        ensures
            match last_items(self@, Kind::Execute) {
                Some(l) => r is Some && strs_bytes(r.unwrap()@) == l,
                None => r is None,
            },
    {
        self.list_of(Kind::Execute)
    }

    /// The `postaction` directives of the package, or `None` when it has
    /// none.
    pub fn postaction_as_slice(&self) -> (r: Option<&[&'a str]>)
        ensures
            match last_items(self@, Kind::Postaction) {
                Some(l) => r is Some && strs_bytes(r.unwrap()@) == l,
                None => r is None,
            },
    {
        self.list_of(Kind::Postaction)
    }
}

} // verus!
