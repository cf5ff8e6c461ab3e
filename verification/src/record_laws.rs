//! The writer and the parser of records agree: a record that the format
//! can hold is read back from what the writer gives for it.
use vstd::prelude::*;
use vstd::string::*;
use crate::text::{
    decimal, index_of, index_of_from, lemma_ascii_bytes, lemma_index_of_from_bounds, lines, lines_from,
    starts_with, strip_cr,
};
use crate::package::{
    parse_package, parse_u32, ParseOutcome, count_prefixed, split_once_space, step, parse_body, catalogue_tail, Step, Kind, parse_u64,
    parse_size, strip_each, strip_prefix, keyval_items, file_items, keyval_step, files_step, binfiles_step, reloc, write_container, write_entries, write_entry, write_items, write_kv, write_list, write_package,
    write_size, ContainerView, EntryView, ItemsView, PackageView,
};

verus! {

/// Lines, each followed by a newline.
pub open spec fn join_lines(ls: Seq<Seq<u8>>) -> Seq<u8>
    decreases ls.len(),
{
    if ls.len() == 0 {
        seq![]
    } else {
        join_lines(ls.drop_last()) + ls.last() + seq![10u8]
    }
}

/// A line that the line splitter gives back unchanged: no newline in it,
/// and no carriage return at its end.
pub open spec fn line_ok(l: Seq<u8>) -> bool {
    &&& forall|i: int| 0 <= i < l.len() ==> l[i] != 10u8
    &&& (l.len() == 0 || l.last() != 13u8)
}

proof fn lemma_join_front(ls: Seq<Seq<u8>>)
    requires
        ls.len() > 0,
    ensures
        join_lines(ls) == ls[0] + seq![10u8] + join_lines(ls.drop_first()),
    decreases ls.len(),
{
    if ls.len() == 1 {
        assert(ls.drop_last() =~= Seq::<Seq<u8>>::empty());
        assert(ls.drop_first() =~= Seq::<Seq<u8>>::empty());
        assert(join_lines(ls) =~= ls[0] + seq![10u8] + join_lines(ls.drop_first()));
    } else {
        lemma_join_front(ls.drop_last());
        assert(ls.drop_last()[0] == ls[0]);
        assert(ls.drop_last().drop_first() =~= ls.drop_first().drop_last());
        assert(ls.drop_first().last() == ls.last());
        assert(join_lines(ls) =~= ls[0] + seq![10u8] + join_lines(ls.drop_first()));
    }
}

pub proof fn lemma_join_concat(a: Seq<Seq<u8>>, b: Seq<Seq<u8>>)
    ensures
        join_lines(a + b) == join_lines(a) + join_lines(b),
    decreases b.len(),
{
    if b.len() == 0 {
        assert(a + b =~= a);
        assert(join_lines(a) + join_lines(b) =~= join_lines(a));
    } else {
        lemma_join_concat(a, b.drop_last());
        assert((a + b).drop_last() =~= a + b.drop_last());
        assert((a + b).last() == b.last());
        assert(join_lines(a + b) =~= join_lines(a) + join_lines(b));
    }
}

proof fn lemma_index_shift(a: Seq<u8>, b: Seq<u8>, k: int)
    requires
        0 <= k <= b.len(),
    ensures
        index_of_from(a + b, 10u8, a.len() + k) == a.len() + index_of_from(b, 10u8, k),
    decreases b.len() - k,
{
    if k < b.len() {
        assert((a + b)[a.len() + k] == b[k]);
        if b[k] != 10u8 {
            lemma_index_shift(a, b, k + 1);
        }
    }
}

proof fn lemma_lines_shift(a: Seq<u8>, b: Seq<u8>, k: int)
    requires
        0 <= k <= b.len(),
    ensures
        lines_from(a + b, a.len() + k) == lines_from(b, k),
    decreases b.len() - k,
{
    if k < b.len() {
        lemma_index_shift(a, b, k);
        lemma_index_of_from_bounds(b, 10u8, k);
        let nl = index_of_from(b, 10u8, k);
        if nl < b.len() {
            lemma_lines_shift(a, b, nl + 1);
            assert((a + b).subrange(a.len() + k, a.len() + nl) =~= b.subrange(k, nl));
        } else {
            assert((a + b).subrange(a.len() + k, (a + b).len() as int) =~= b.subrange(k, b.len() as int));
        }
    }
}

proof fn lemma_lines_cons(l: Seq<u8>, rest: Seq<u8>)
    requires
        line_ok(l),
    ensures
        lines(l + seq![10u8] + rest) == seq![l] + lines(rest),
{
    let b = l + seq![10u8] + rest;
    assert(b[l.len() as int] == 10u8);
    assert forall|i: int| 0 <= i < l.len() implies b[i] != 10u8 by {
        assert(b[i] == l[i]);
    }
    assert(index_of_from(b, 10u8, 0) == l.len()) by {
        lemma_index_of_from_bounds(b, 10u8, 0);
        let nl = index_of_from(b, 10u8, 0);
        if nl < l.len() {
            assert(b[nl] == l[nl]);
        }
    }
    assert(b.subrange(0, l.len() as int) =~= l);
    assert(strip_cr(l) == l);
    assert(b =~= (l + seq![10u8]) + rest);
    lemma_lines_shift(l + seq![10u8], rest, 0);
}

/// The lines of joined lines are those lines.
pub proof fn lemma_lines_join(ls: Seq<Seq<u8>>)
    requires
        forall|i: int| 0 <= i < ls.len() ==> line_ok(#[trigger] ls[i]),
    ensures
        lines(join_lines(ls)) == ls,
    decreases ls.len(),
{
    if ls.len() == 0 {
        assert(lines(Seq::<u8>::empty()) =~= Seq::<Seq<u8>>::empty());
    } else {
        lemma_join_front(ls);
        assert forall|i: int| 0 <= i < ls.drop_first().len() implies line_ok(#[trigger] ls.drop_first()[i]) by {
            assert(ls.drop_first()[i] == ls[i + 1]);
        }
        lemma_lines_join(ls.drop_first());
        assert(line_ok(ls[0]));
        lemma_lines_cons(ls[0], join_lines(ls.drop_first()));
        assert(ls =~= seq![ls[0]] + ls.drop_first());
    }
}


proof fn lemma_newline()
    ensures
        "\n".spec_bytes() == seq![10u8],
{
    reveal_strlit("\n");
    lemma_ascii_bytes("\n");
    assert("\n".spec_bytes() =~= seq![10u8]);
}

/// The lines of a list: each value after the prefix.
pub open spec fn list_lines(prefix: Seq<u8>, list: Seq<Seq<u8>>) -> Seq<Seq<u8>> {
    Seq::new(list.len(), |i: int| prefix + reloc(list[i]))
}

/// The lines of a container, their keys after `pf`.
pub open spec fn container_lines(c: ContainerView, pf: Seq<u8>) -> Seq<Seq<u8>> {
    seq![
        pf + "containersize ".spec_bytes() + decimal(c.byte_size as nat),
        pf + "containerchecksum ".spec_bytes() + c.checksum,
    ]
}

/// The lines that the writer gives for one field.
pub open spec fn entry_lines(e: EntryView, is_scheme: bool) -> Seq<Seq<u8>> {
    match e {
        EntryView::Category(c) => seq!["category".spec_bytes() + " ".spec_bytes() + c],
        EntryView::Revision(r) => seq!["revision".spec_bytes() + " ".spec_bytes() + decimal(r as nat)],
        EntryView::Catalogue(c) => seq!["catalogue".spec_bytes() + " ".spec_bytes() + c],
        EntryView::Shortdesc(d) => seq!["shortdesc".spec_bytes() + " ".spec_bytes() + d],
        EntryView::Longdesc(it) => list_lines(it.prefix, it.list),
        EntryView::Relocated => if is_scheme {
            seq!["relocated 1".spec_bytes()]
        } else {
            seq![]
        },
        EntryView::Depend(it) => list_lines(it.prefix, it.list),
        EntryView::Postaction(it) => list_lines(it.prefix, it.list),
        EntryView::Execute(it) => list_lines(it.prefix, it.list),
        EntryView::RunContainer(c) => container_lines(c, seq![]),
        EntryView::DocContainer(c) => container_lines(c, "doc".spec_bytes()),
        EntryView::SrcContainer(c) => container_lines(c, "src".spec_bytes()),
        EntryView::RunFiles(n, it) => seq!["runfiles".spec_bytes() + " size=".spec_bytes() + decimal(n as nat)]
            + list_lines(it.prefix, it.list),
        EntryView::BinFiles(a, n, it) => seq![
            "binfiles".spec_bytes() + " arch=".spec_bytes() + a + " size=".spec_bytes() + decimal(n as nat),
        ] + list_lines(it.prefix, it.list),
        EntryView::DocFiles(n, it) => seq!["docfiles".spec_bytes() + " size=".spec_bytes() + decimal(n as nat)]
            + list_lines(it.prefix, it.list),
        EntryView::SrcFiles(n, it) => seq!["srcfiles".spec_bytes() + " size=".spec_bytes() + decimal(n as nat)]
            + list_lines(it.prefix, it.list),
        EntryView::CatalogueEntry(k, v) => seq![k + " ".spec_bytes() + v],
    }
}

/// The lines of the fields, one after another.
pub open spec fn entries_lines(es: Seq<EntryView>, is_scheme: bool) -> Seq<Seq<u8>>
    decreases es.len(),
{
    if es.len() == 0 {
        seq![]
    } else {
        entries_lines(es.drop_last(), is_scheme) + entry_lines(es.last(), is_scheme)
    }
}

proof fn lemma_one_line(l: Seq<u8>)
    ensures
        join_lines(seq![l]) == l + "\n".spec_bytes(),
{
    lemma_newline();
    assert(seq![l].drop_last() =~= Seq::<Seq<u8>>::empty());
    assert(join_lines(Seq::<Seq<u8>>::empty()) == Seq::<u8>::empty());
    assert(seq![l].last() == l);
    assert(join_lines(seq![l]) == join_lines(Seq::<Seq<u8>>::empty()) + l + seq![10u8]);
    assert(join_lines(seq![l]) =~= l + seq![10u8]);
}

proof fn lemma_write_list(prefix: Seq<u8>, list: Seq<Seq<u8>>)
    ensures
        write_list(prefix, list) == join_lines(list_lines(prefix, list)),
    decreases list.len(),
{
    lemma_newline();
    if list.len() > 0 {
        lemma_write_list(prefix, list.drop_last());
        assert(list_lines(prefix, list).drop_last() =~= list_lines(prefix, list.drop_last()));
        assert(list_lines(prefix, list).last() == prefix + reloc(list.last()));
        assert(write_list(prefix, list) =~= join_lines(list_lines(prefix, list)));
    } else {
        assert(list_lines(prefix, list) =~= Seq::<Seq<u8>>::empty());
    }
}

proof fn lemma_two_lines(a: Seq<u8>, b: Seq<u8>)
    ensures
        join_lines(seq![a, b]) == a + "\n".spec_bytes() + b + "\n".spec_bytes(),
{
    lemma_newline();
    assert(seq![a, b].drop_last() =~= seq![a]);
    lemma_one_line(a);
    assert(join_lines(seq![a, b]) =~= a + "\n".spec_bytes() + b + "\n".spec_bytes());
}

proof fn lemma_head_list(h: Seq<u8>, it: ItemsView)
    ensures
        join_lines(seq![h] + list_lines(it.prefix, it.list)) == h + "\n".spec_bytes() + write_items(it),
{
    lemma_join_concat(seq![h], list_lines(it.prefix, it.list));
    lemma_one_line(h);
    lemma_write_list(it.prefix, it.list);
}

/// What the writer gives for a field is its lines, joined.
pub proof fn lemma_write_entry(e: EntryView, is_scheme: bool)
    ensures
        write_entry(e, is_scheme) == join_lines(entry_lines(e, is_scheme)),
{
    match e {
        EntryView::Category(c) => lemma_one_line("category".spec_bytes() + " ".spec_bytes() + c),
        EntryView::Revision(r) => lemma_one_line(
            "revision".spec_bytes() + " ".spec_bytes() + decimal(r as nat),
        ),
        EntryView::Catalogue(c) => lemma_one_line("catalogue".spec_bytes() + " ".spec_bytes() + c),
        EntryView::Shortdesc(d) => lemma_one_line("shortdesc".spec_bytes() + " ".spec_bytes() + d),
        EntryView::Longdesc(it) => lemma_write_list(it.prefix, it.list),
        EntryView::Relocated => {
            if is_scheme {
                reveal_strlit("relocated 1\n");
                reveal_strlit("relocated 1");
                lemma_ascii_bytes("relocated 1\n");
                lemma_ascii_bytes("relocated 1");
                lemma_one_line("relocated 1".spec_bytes());
                lemma_newline();
                assert("relocated 1\n".spec_bytes() =~= "relocated 1".spec_bytes() + "\n".spec_bytes());
            } else {
                assert(entry_lines(e, is_scheme) =~= Seq::<Seq<u8>>::empty());
            }
        },
        EntryView::Depend(it) => lemma_write_list(it.prefix, it.list),
        EntryView::Postaction(it) => lemma_write_list(it.prefix, it.list),
        EntryView::Execute(it) => lemma_write_list(it.prefix, it.list),
        EntryView::RunContainer(c) => {
            let l = container_lines(c, seq![]);
            lemma_two_lines(l[0], l[1]);
            assert(write_container(c, seq![]) =~= join_lines(l));
        },
        EntryView::DocContainer(c) => {
            let l = container_lines(c, "doc".spec_bytes());
            lemma_two_lines(l[0], l[1]);
            assert(write_container(c, "doc".spec_bytes()) =~= join_lines(l));
        },
        EntryView::SrcContainer(c) => {
            let l = container_lines(c, "src".spec_bytes());
            lemma_two_lines(l[0], l[1]);
            assert(write_container(c, "src".spec_bytes()) =~= join_lines(l));
        },
        EntryView::RunFiles(n, it) => {
            let h = "runfiles".spec_bytes() + " size=".spec_bytes() + decimal(n as nat);
            lemma_head_list(h, it);
            assert(write_size("runfiles".spec_bytes(), n) =~= h + "\n".spec_bytes());
        },
        EntryView::BinFiles(a, n, it) => {
            let h = "binfiles".spec_bytes() + " arch=".spec_bytes() + a + " size=".spec_bytes() + decimal(n as nat);
            lemma_head_list(h, it);
            assert(write_entry(e, is_scheme) =~= h + "\n".spec_bytes() + write_items(it));
        },
        EntryView::DocFiles(n, it) => {
            let h = "docfiles".spec_bytes() + " size=".spec_bytes() + decimal(n as nat);
            lemma_head_list(h, it);
            assert(write_size("docfiles".spec_bytes(), n) =~= h + "\n".spec_bytes());
        },
        EntryView::SrcFiles(n, it) => {
            let h = "srcfiles".spec_bytes() + " size=".spec_bytes() + decimal(n as nat);
            lemma_head_list(h, it);
            assert(write_size("srcfiles".spec_bytes(), n) =~= h + "\n".spec_bytes());
        },
        EntryView::CatalogueEntry(k, v) => lemma_one_line(k + " ".spec_bytes() + v),
    }
}

/// What the writer gives for fields is their lines, joined.
pub proof fn lemma_write_entries(es: Seq<EntryView>, is_scheme: bool)
    ensures
        write_entries(es, is_scheme) == join_lines(entries_lines(es, is_scheme)),
    decreases es.len(),
{
    if es.len() > 0 {
        lemma_write_entries(es.drop_last(), is_scheme);
        lemma_write_entry(es.last(), is_scheme);
        lemma_join_concat(entries_lines(es.drop_last(), is_scheme), entry_lines(es.last(), is_scheme));
    }
}

/// The lines of a record as the writer gives it.
pub open spec fn record_lines(p: PackageView) -> Seq<Seq<u8>> {
    seq!["name ".spec_bytes() + p.name] + entries_lines(p.entries, starts_with(p.name, "scheme-".spec_bytes()))
}

/// What the writer gives for a record is its lines, joined.
pub proof fn lemma_write_package(p: PackageView)
    ensures
        write_package(p) == join_lines(record_lines(p)),
{
    let s = starts_with(p.name, "scheme-".spec_bytes());
    lemma_write_entries(p.entries, s);
    lemma_join_concat(seq!["name ".spec_bytes() + p.name], entries_lines(p.entries, s));
    lemma_one_line("name ".spec_bytes() + p.name);
    assert(write_package(p) =~= join_lines(record_lines(p)));
}

/// No space in `b`.
pub open spec fn no_space(b: Seq<u8>) -> bool {
    forall|i: int| 0 <= i < b.len() ==> b[i] != 32u8
}

/// A line `key value`, with no space in `key`, splits into them.
proof fn lemma_split_key(key: Seq<u8>, value: Seq<u8>)
    requires
        no_space(key),
    ensures
        split_once_space(key + " ".spec_bytes() + value) == Some((key, value)),
{
    reveal_strlit(" ");
    lemma_ascii_bytes(" ");
    let l = key + " ".spec_bytes() + value;
    assert(" ".spec_bytes() =~= seq![32u8]);
    assert(l[key.len() as int] == 32u8);
    lemma_index_of_from_bounds(l, 32u8, 0);
    let i = index_of(l, 32u8);
    if i < key.len() {
        assert(l[i] == key[i]);
    }
    assert(i == key.len());
    assert(l.subrange(0, i) =~= key);
    assert(l.subrange(i + 1, l.len() as int) =~= value);
}

/// `p` followed by anything starts with `p`, and loses it to `strip_prefix`.
proof fn lemma_prefix(p: Seq<u8>, x: Seq<u8>)
    ensures
        starts_with(p + x, p),
        strip_prefix(p + x, p) == Some(x),
{
    assert((p + x).subrange(0, p.len() as int) =~= p);
    assert((p + x).subrange(p.len() as int, (p + x).len() as int) =~= x);
}

/// Lines that all start with `p`, then lines whose first does not: the
/// count of leading lines with `p` is the number of the first ones.
proof fn lemma_count_prefixed(a: Seq<Seq<u8>>, r: Seq<Seq<u8>>, p: Seq<u8>)
    requires
        forall|i: int| 0 <= i < a.len() ==> starts_with(#[trigger] a[i], p),
        r.len() == 0 || !starts_with(r[0], p),
    ensures
        count_prefixed(a + r, p) == a.len(),
    decreases a.len(),
{
    if a.len() == 0 {
        assert(a + r =~= r);
    } else {
        assert((a + r)[0] == a[0]);
        assert((a + r).drop_first() =~= a.drop_first() + r);
        assert forall|i: int| 0 <= i < a.drop_first().len() implies starts_with(#[trigger] a.drop_first()[i], p) by {
            assert(a.drop_first()[i] == a[i + 1]);
        }
        lemma_count_prefixed(a.drop_first(), r, p);
    }
}

/// The values of the lines of a list, after their prefix.
proof fn lemma_strip_list(p: Seq<u8>, list: Seq<Seq<u8>>, r: Seq<Seq<u8>>)
    requires
        forall|i: int| 0 <= i < list.len() ==> !starts_with(#[trigger] list[i], "RELOC".spec_bytes()),
    ensures
        strip_each((list_lines(p, list) + r).take(list.len() as int), p) == list,
        forall|i: int| 0 <= i < list.len() ==> starts_with(#[trigger] list_lines(p, list)[i], p),
{
    let l = list_lines(p, list);
    assert forall|i: int| 0 <= i < list.len() implies starts_with(#[trigger] l[i], p) by {
        assert(reloc(list[i]) == list[i]);
        lemma_prefix(p, list[i]);
    }
    let t = (l + r).take(list.len() as int);
    assert forall|i: int| 0 <= i < list.len() implies #[trigger] strip_each(t, p)[i] == list[i] by {
        assert(t[i] == l[i]);
        assert(reloc(list[i]) == list[i]);
        assert((p + list[i]).subrange(p.len() as int, (p + list[i]).len() as int) =~= list[i]);
    }
    assert(strip_each(t, p) =~= list);
}

/// The lines of fields, taken from the front.
proof fn lemma_entries_front(es: Seq<EntryView>, s: bool)
    requires
        es.len() > 0,
    ensures
        entries_lines(es, s) == entry_lines(es[0], s) + entries_lines(es.drop_first(), s),
    decreases es.len(),
{
    if es.len() == 1 {
        assert(es.drop_last() =~= Seq::<EntryView>::empty());
        assert(es.drop_first() =~= Seq::<EntryView>::empty());
        assert(entries_lines(es, s) =~= entry_lines(es[0], s) + entries_lines(es.drop_first(), s));
    } else {
        lemma_entries_front(es.drop_last(), s);
        assert(es.drop_last()[0] == es[0]);
        assert(es.drop_last().drop_first() =~= es.drop_first().drop_last());
        assert(es.drop_first().last() == es.last());
        assert(entries_lines(es, s) =~= entry_lines(es[0], s) + entries_lines(es.drop_first(), s));
    }
}

/// The keys of the format: their lengths and first bytes, which tell them
/// apart, and that they hold no space.
proof fn lemma_keys()
    ensures
        "catalogue".spec_bytes().len() == 9 && "catalogue".spec_bytes()[0] == 99u8,
        no_space("catalogue".spec_bytes()),
        "shortdesc".spec_bytes().len() == 9 && "shortdesc".spec_bytes()[0] == 115u8,
        no_space("shortdesc".spec_bytes()),
        "relocated".spec_bytes().len() == 9 && "relocated".spec_bytes()[0] == 114u8,
        no_space("relocated".spec_bytes()),
        "longdesc".spec_bytes().len() == 8 && "longdesc".spec_bytes()[0] == 108u8,
        no_space("longdesc".spec_bytes()),
        "postaction".spec_bytes().len() == 10 && "postaction".spec_bytes()[0] == 112u8,
        no_space("postaction".spec_bytes()),
        "depend".spec_bytes().len() == 6 && "depend".spec_bytes()[0] == 100u8,
        no_space("depend".spec_bytes()),
        "execute".spec_bytes().len() == 7 && "execute".spec_bytes()[0] == 101u8,
        no_space("execute".spec_bytes()),
        "containersize".spec_bytes().len() == 13 && "containersize".spec_bytes()[0] == 99u8,
        no_space("containersize".spec_bytes()),
        "doccontainersize".spec_bytes().len() == 16 && "doccontainersize".spec_bytes()[0] == 100u8,
        no_space("doccontainersize".spec_bytes()),
        "srccontainersize".spec_bytes().len() == 16 && "srccontainersize".spec_bytes()[0] == 115u8,
        no_space("srccontainersize".spec_bytes()),
        "runfiles".spec_bytes().len() == 8 && "runfiles".spec_bytes()[0] == 114u8,
        no_space("runfiles".spec_bytes()),
        "docfiles".spec_bytes().len() == 8 && "docfiles".spec_bytes()[0] == 100u8,
        no_space("docfiles".spec_bytes()),
        "srcfiles".spec_bytes().len() == 8 && "srcfiles".spec_bytes()[0] == 115u8,
        no_space("srcfiles".spec_bytes()),
        "binfiles".spec_bytes().len() == 8 && "binfiles".spec_bytes()[0] == 98u8,
        no_space("binfiles".spec_bytes()),
{
    reveal_strlit("catalogue");
    lemma_ascii_bytes("catalogue");
    reveal_strlit("shortdesc");
    lemma_ascii_bytes("shortdesc");
    reveal_strlit("relocated");
    lemma_ascii_bytes("relocated");
    reveal_strlit("longdesc");
    lemma_ascii_bytes("longdesc");
    reveal_strlit("postaction");
    lemma_ascii_bytes("postaction");
    reveal_strlit("depend");
    lemma_ascii_bytes("depend");
    reveal_strlit("execute");
    lemma_ascii_bytes("execute");
    reveal_strlit("containersize");
    lemma_ascii_bytes("containersize");
    reveal_strlit("doccontainersize");
    lemma_ascii_bytes("doccontainersize");
    reveal_strlit("srccontainersize");
    lemma_ascii_bytes("srccontainersize");
    reveal_strlit("runfiles");
    lemma_ascii_bytes("runfiles");
    reveal_strlit("docfiles");
    lemma_ascii_bytes("docfiles");
    reveal_strlit("srcfiles");
    lemma_ascii_bytes("srcfiles");
    reveal_strlit("binfiles");
    lemma_ascii_bytes("binfiles");
    assert("catalogue".spec_bytes()[0] == 99u8);
    assert("shortdesc".spec_bytes()[0] == 115u8);
    assert("relocated".spec_bytes()[0] == 114u8);
    assert("longdesc".spec_bytes()[0] == 108u8);
    assert("postaction".spec_bytes()[0] == 112u8);
    assert("depend".spec_bytes()[0] == 100u8);
    assert("execute".spec_bytes()[0] == 101u8);
    assert("containersize".spec_bytes()[0] == 99u8);
    assert("doccontainersize".spec_bytes()[0] == 100u8);
    assert("srccontainersize".spec_bytes()[0] == 115u8);
    assert("runfiles".spec_bytes()[0] == 114u8);
    assert("docfiles".spec_bytes()[0] == 100u8);
    assert("srcfiles".spec_bytes()[0] == 115u8);
    assert("binfiles".spec_bytes()[0] == 98u8);
}

/// The keys joined with what follows them in the lines of the writer.
proof fn lemma_joined_literals()
    ensures
        "longdesc ".spec_bytes() == "longdesc".spec_bytes() + " ".spec_bytes(),
        "depend ".spec_bytes() == "depend".spec_bytes() + " ".spec_bytes(),
        "postaction ".spec_bytes() == "postaction".spec_bytes() + " ".spec_bytes(),
        "execute ".spec_bytes() == "execute".spec_bytes() + " ".spec_bytes(),
        "containersize ".spec_bytes() == "containersize".spec_bytes() + " ".spec_bytes(),
        "doc".spec_bytes() + "containersize ".spec_bytes() == "doccontainersize".spec_bytes() + " ".spec_bytes(),
        "src".spec_bytes() + "containersize ".spec_bytes() == "srccontainersize".spec_bytes() + " ".spec_bytes(),
        "doc".spec_bytes() + "containerchecksum ".spec_bytes() == "doccontainerchecksum ".spec_bytes(),
        "src".spec_bytes() + "containerchecksum ".spec_bytes() == "srccontainerchecksum ".spec_bytes(),
        " size=".spec_bytes() == " ".spec_bytes() + "size=".spec_bytes(),
        " arch=".spec_bytes() == " ".spec_bytes() + "arch=".spec_bytes(),
        "relocated 1".spec_bytes() == "relocated".spec_bytes() + " ".spec_bytes() + "1".spec_bytes(),
        no_space("arch=".spec_bytes()),
{
    reveal_strlit("longdesc ");
    reveal_strlit("longdesc");
    reveal_strlit("depend ");
    reveal_strlit("depend");
    reveal_strlit("postaction ");
    reveal_strlit("postaction");
    reveal_strlit("execute ");
    reveal_strlit("execute");
    reveal_strlit("containersize ");
    reveal_strlit("containersize");
    reveal_strlit("doc");
    reveal_strlit("src");
    reveal_strlit("doccontainersize");
    reveal_strlit("srccontainersize");
    reveal_strlit("containerchecksum ");
    reveal_strlit("doccontainerchecksum ");
    reveal_strlit("srccontainerchecksum ");
    reveal_strlit(" size=");
    reveal_strlit("size=");
    reveal_strlit(" arch=");
    reveal_strlit("arch=");
    reveal_strlit("relocated 1");
    reveal_strlit("relocated");
    reveal_strlit("1");
    reveal_strlit(" ");
    lemma_ascii_bytes("longdesc ");
    lemma_ascii_bytes("longdesc");
    lemma_ascii_bytes("depend ");
    lemma_ascii_bytes("depend");
    lemma_ascii_bytes("postaction ");
    lemma_ascii_bytes("postaction");
    lemma_ascii_bytes("execute ");
    lemma_ascii_bytes("execute");
    lemma_ascii_bytes("containersize ");
    lemma_ascii_bytes("containersize");
    lemma_ascii_bytes("doc");
    lemma_ascii_bytes("src");
    lemma_ascii_bytes("doccontainersize");
    lemma_ascii_bytes("srccontainersize");
    lemma_ascii_bytes("containerchecksum ");
    lemma_ascii_bytes("doccontainerchecksum ");
    lemma_ascii_bytes("srccontainerchecksum ");
    lemma_ascii_bytes(" size=");
    lemma_ascii_bytes("size=");
    lemma_ascii_bytes(" arch=");
    lemma_ascii_bytes("arch=");
    lemma_ascii_bytes("relocated 1");
    lemma_ascii_bytes("relocated");
    lemma_ascii_bytes("1");
    lemma_ascii_bytes(" ");
    assert("longdesc ".spec_bytes() =~= "longdesc".spec_bytes() + " ".spec_bytes());
    assert("depend ".spec_bytes() =~= "depend".spec_bytes() + " ".spec_bytes());
    assert("postaction ".spec_bytes() =~= "postaction".spec_bytes() + " ".spec_bytes());
    assert("execute ".spec_bytes() =~= "execute".spec_bytes() + " ".spec_bytes());
    assert("containersize ".spec_bytes() =~= "containersize".spec_bytes() + " ".spec_bytes());
    assert("doc".spec_bytes() + "containersize ".spec_bytes() =~= "doccontainersize".spec_bytes() + " ".spec_bytes());
    assert("src".spec_bytes() + "containersize ".spec_bytes() =~= "srccontainersize".spec_bytes() + " ".spec_bytes());
    assert("doc".spec_bytes() + "containerchecksum ".spec_bytes() =~= "doccontainerchecksum ".spec_bytes());
    assert("src".spec_bytes() + "containerchecksum ".spec_bytes() =~= "srccontainerchecksum ".spec_bytes());
    assert(" size=".spec_bytes() =~= " ".spec_bytes() + "size=".spec_bytes());
    assert(" arch=".spec_bytes() =~= " ".spec_bytes() + "arch=".spec_bytes());
    assert("relocated 1".spec_bytes() =~= "relocated".spec_bytes() + " ".spec_bytes() + "1".spec_bytes());
}

/// The values of a list, after `prefix`, can be written: none starts with
/// `RELOC` (which the writer replaces) and each line is kept by the line
/// splitter.
pub open spec fn list_ok(it: ItemsView, prefix: Seq<u8>) -> bool {
    &&& it.prefix == prefix
    &&& forall|i: int|
        0 <= i < it.list.len() ==> !starts_with(#[trigger] it.list[i], "RELOC".spec_bytes()) && line_ok(
            prefix + it.list[i],
        )
}

/// The lines of a list field read back as the list.
proof fn lemma_keyval(key: Seq<u8>, it: ItemsView, r: Seq<Seq<u8>>)
    requires
        no_space(key),
        it.list.len() > 0,
        list_ok(it, key + " ".spec_bytes()),
        r.len() > 0 ==> !starts_with(r[0], key + " ".spec_bytes()),
    ensures
        ({
            let l = list_lines(it.prefix, it.list);
            &&& split_once_space(l[0]) == Some((key, it.list[0]))
            &&& count_prefixed(l.drop_first() + r, it.prefix) == l.len() - 1
            &&& keyval_items(it.list[0], l.drop_first() + r, it.prefix) == it
            &&& (l + r).drop_first() == l.drop_first() + r
        }),
{
    let p = it.prefix;
    let l = list_lines(p, it.list);
    let tail = it.list.drop_first();
    assert(l[0] == p + it.list[0]);
    assert(reloc(it.list[0]) == it.list[0]);
    assert(l[0] =~= key + " ".spec_bytes() + it.list[0]);
    lemma_split_key(key, it.list[0]);
    assert(l.drop_first() =~= list_lines(p, tail));
    assert forall|i: int| 0 <= i < tail.len() implies !starts_with(#[trigger] tail[i], "RELOC".spec_bytes()) by {
        assert(tail[i] == it.list[i + 1]);
    }
    lemma_strip_list(p, tail, r);
    lemma_count_prefixed(l.drop_first(), r, p);
    assert(seq![it.list[0]] + tail =~= it.list);
    assert((l + r).drop_first() =~= l.drop_first() + r);
}

/// The lines after the header line of a file list read back as the list.
proof fn lemma_files(it: ItemsView, r: Seq<Seq<u8>>)
    requires
        list_ok(it, " ".spec_bytes()),
        r.len() > 0 ==> !starts_with(r[0], " ".spec_bytes()),
    ensures
        ({
            let l = list_lines(it.prefix, it.list);
            &&& count_prefixed(l + r, " ".spec_bytes()) == l.len()
            &&& file_items(l + r) == it
        }),
{
    let p = it.prefix;
    let l = list_lines(p, it.list);
    lemma_strip_list(p, it.list, r);
    lemma_count_prefixed(l, r, p);
}

/// The kinds of field that the writer can write so that the parser reads
/// them back.
pub open spec fn entry_ok(e: EntryView, is_scheme: bool) -> bool {
    match e {
        EntryView::Catalogue(c) => line_ok("catalogue".spec_bytes() + " ".spec_bytes() + c),
        EntryView::Shortdesc(d) => line_ok("shortdesc".spec_bytes() + " ".spec_bytes() + d),
        EntryView::Relocated => is_scheme,
        EntryView::Longdesc(it) => it.list.len() > 0 && list_ok(it, "longdesc ".spec_bytes()),
        EntryView::Depend(it) => it.list.len() > 0 && list_ok(it, "depend ".spec_bytes()),
        EntryView::Postaction(it) => it.list.len() > 0 && list_ok(it, "postaction ".spec_bytes()),
        EntryView::Execute(it) => it.list.len() > 0 && list_ok(it, "execute ".spec_bytes()),
        EntryView::RunContainer(c) => line_ok(container_lines(c, seq![])[1]),
        EntryView::DocContainer(c) => line_ok(container_lines(c, "doc".spec_bytes())[1]),
        EntryView::SrcContainer(c) => line_ok(container_lines(c, "src".spec_bytes())[1]),
        EntryView::RunFiles(_, it) => list_ok(it, " ".spec_bytes()),
        EntryView::DocFiles(_, it) => list_ok(it, " ".spec_bytes()),
        EntryView::SrcFiles(_, it) => list_ok(it, " ".spec_bytes()),
        EntryView::BinFiles(a, _, it) => no_space(a) && line_ok(entry_lines(e, is_scheme)[0]) && list_ok(
            it,
            " ".spec_bytes(),
        ),
        _ => false,
    }
}

/// The prefix of the lines that a list field takes after its first line.
pub open spec fn list_prefix(e: EntryView) -> Option<Seq<u8>> {
    match e {
        EntryView::Longdesc(it) => Some(it.prefix),
        EntryView::Depend(it) => Some(it.prefix),
        EntryView::Postaction(it) => Some(it.prefix),
        EntryView::Execute(it) => Some(it.prefix),
        EntryView::RunFiles(_, it) => Some(it.prefix),
        EntryView::DocFiles(_, it) => Some(it.prefix),
        EntryView::SrcFiles(_, it) => Some(it.prefix),
        EntryView::BinFiles(_, _, it) => Some(it.prefix),
        _ => None,
    }
}

#[verifier::rlimit(40)]
proof fn lemma_step_one(e: EntryView, s: bool, r: Seq<Seq<u8>>)
    requires
        entry_ok(e, s),
        list_prefix(e) is Some && r.len() > 0 ==> !starts_with(r[0], list_prefix(e)->0),
        e is Catalogue || e is Shortdesc || e is Relocated,
    ensures
        ({
            let l = entry_lines(e, s);
            &&& l.len() >= 1
            &&& split_once_space(l[0]) matches Some((k, v)) && step(k, v, l.drop_first() + r) == Step::Single(
                e,
                (l.len() - 1) as nat,
            )
            &&& (l + r).drop_first() == l.drop_first() + r
            &&& (l.drop_first() + r).skip(l.len() - 1) == r
        }),
{
    reveal(step);
    lemma_keys();
    lemma_joined_literals();
    let l = entry_lines(e, s);
    match e {
        EntryView::Catalogue(c) => {
            lemma_split_key("catalogue".spec_bytes(), c);
        },
        EntryView::Shortdesc(d) => {
            lemma_split_key("shortdesc".spec_bytes(), d);
        },
        EntryView::Relocated => {
            lemma_split_key("relocated".spec_bytes(), "1".spec_bytes());
        },
        _ => {},
    }
    assert((l + r).drop_first() =~= l.drop_first() + r);
    assert((l.drop_first() + r).skip(l.len() - 1) =~= r);
}

#[verifier::rlimit(40)]
proof fn lemma_step_list(e: EntryView, s: bool, r: Seq<Seq<u8>>)
    requires
        entry_ok(e, s),
        list_prefix(e) is Some && r.len() > 0 ==> !starts_with(r[0], list_prefix(e)->0),
        e is Longdesc || e is Depend || e is Postaction || e is Execute,
    ensures
        ({
            let l = entry_lines(e, s);
            &&& l.len() >= 1
            &&& split_once_space(l[0]) matches Some((k, v)) && step(k, v, l.drop_first() + r) == Step::Single(
                e,
                (l.len() - 1) as nat,
            )
            &&& (l + r).drop_first() == l.drop_first() + r
            &&& (l.drop_first() + r).skip(l.len() - 1) == r
        }),
{
    reveal(step);
    lemma_keys();
    lemma_joined_literals();
    let l = entry_lines(e, s);
    match e {
        EntryView::Longdesc(it) => {
            lemma_keyval("longdesc".spec_bytes(), it, r);
        },
        EntryView::Depend(it) => {
            lemma_keyval("depend".spec_bytes(), it, r);
        },
        EntryView::Postaction(it) => {
            lemma_keyval("postaction".spec_bytes(), it, r);
        },
        EntryView::Execute(it) => {
            lemma_keyval("execute".spec_bytes(), it, r);
        },
        _ => {},
    }
    assert((l + r).drop_first() =~= l.drop_first() + r);
    assert((l.drop_first() + r).skip(l.len() - 1) =~= r);
}

/// The two lines of a container read back as the container.
proof fn lemma_container_lines(key: Seq<u8>, ckey: Seq<u8>, d: Seq<u8>, c: ContainerView, r: Seq<Seq<u8>>)
    requires
        no_space(key),
        parse_u64(d) == Some(c.byte_size),
    ensures
        ({
            let l = seq![key + " ".spec_bytes() + d, ckey + c.checksum];
            &&& split_once_space(l[0]) == Some((key, d))
            &&& crate::package::container_of_lines(d, l.drop_first() + r, ckey) == Some(c)
            &&& (l + r).drop_first() == l.drop_first() + r
            &&& (l.drop_first() + r).skip(1) == r
        }),
{
    let l = seq![key + " ".spec_bytes() + d, ckey + c.checksum];
    lemma_split_key(key, d);
    lemma_prefix(ckey, c.checksum);
    assert((l.drop_first() + r)[0] == l[1]);
    assert((l + r).drop_first() =~= l.drop_first() + r);
    assert((l.drop_first() + r).skip(1) =~= r);
}

proof fn lemma_step_runcontainer(c: ContainerView, s: bool, r: Seq<Seq<u8>>)
    ensures
        ({
            let e = EntryView::RunContainer(c);
            let l = entry_lines(e, s);
            &&& l.len() >= 1
            &&& split_once_space(l[0]) matches Some((k, v)) && step(k, v, l.drop_first() + r) == Step::Single(
                e,
                (l.len() - 1) as nat,
            )
            &&& (l + r).drop_first() == l.drop_first() + r
            &&& (l.drop_first() + r).skip(l.len() - 1) == r
        }),
{
    let e = EntryView::RunContainer(c);
    let l = entry_lines(e, s);
    let d = decimal(c.byte_size as nat);
    assert(parse_u64(d) == Some(c.byte_size)) by {
        crate::laws::law_numbers_read_back(0, c.byte_size);
    }
    assert(no_space("containersize".spec_bytes())) by {
        lemma_keys();
    }
    assert(l =~= seq!["containersize".spec_bytes() + " ".spec_bytes() + d, "containerchecksum ".spec_bytes() + c.checksum]) by {
        lemma_joined_literals();
    }
    lemma_container_lines("containersize".spec_bytes(), "containerchecksum ".spec_bytes(), d, c, r);
    assert(step("containersize".spec_bytes(), d, l.drop_first() + r) == Step::Single(e, 1)) by {
        reveal(step);
        lemma_keys();
    }
}

proof fn lemma_step_doccontainer(c: ContainerView, s: bool, r: Seq<Seq<u8>>)
    ensures
        ({
            let e = EntryView::DocContainer(c);
            let l = entry_lines(e, s);
            &&& l.len() >= 1
            &&& split_once_space(l[0]) matches Some((k, v)) && step(k, v, l.drop_first() + r) == Step::Single(
                e,
                (l.len() - 1) as nat,
            )
            &&& (l + r).drop_first() == l.drop_first() + r
            &&& (l.drop_first() + r).skip(l.len() - 1) == r
        }),
{
    let e = EntryView::DocContainer(c);
    let l = entry_lines(e, s);
    let d = decimal(c.byte_size as nat);
    assert(parse_u64(d) == Some(c.byte_size)) by {
        crate::laws::law_numbers_read_back(0, c.byte_size);
    }
    assert(no_space("doccontainersize".spec_bytes())) by {
        lemma_keys();
    }
    assert(l =~= seq!["doccontainersize".spec_bytes() + " ".spec_bytes() + d, "doccontainerchecksum ".spec_bytes() + c.checksum]) by {
        lemma_joined_literals();
    }
    lemma_container_lines("doccontainersize".spec_bytes(), "doccontainerchecksum ".spec_bytes(), d, c, r);
    assert(step("doccontainersize".spec_bytes(), d, l.drop_first() + r) == Step::Single(e, 1)) by {
        reveal(step);
        lemma_keys();
    }
}

proof fn lemma_step_srccontainer(c: ContainerView, s: bool, r: Seq<Seq<u8>>)
    ensures
        ({
            let e = EntryView::SrcContainer(c);
            let l = entry_lines(e, s);
            &&& l.len() >= 1
            &&& split_once_space(l[0]) matches Some((k, v)) && step(k, v, l.drop_first() + r) == Step::Single(
                e,
                (l.len() - 1) as nat,
            )
            &&& (l + r).drop_first() == l.drop_first() + r
            &&& (l.drop_first() + r).skip(l.len() - 1) == r
        }),
{
    let e = EntryView::SrcContainer(c);
    let l = entry_lines(e, s);
    let d = decimal(c.byte_size as nat);
    assert(parse_u64(d) == Some(c.byte_size)) by {
        crate::laws::law_numbers_read_back(0, c.byte_size);
    }
    assert(no_space("srccontainersize".spec_bytes())) by {
        lemma_keys();
    }
    assert(l =~= seq!["srccontainersize".spec_bytes() + " ".spec_bytes() + d, "srccontainerchecksum ".spec_bytes() + c.checksum]) by {
        lemma_joined_literals();
    }
    lemma_container_lines("srccontainersize".spec_bytes(), "srccontainerchecksum ".spec_bytes(), d, c, r);
    assert(step("srccontainersize".spec_bytes(), d, l.drop_first() + r) == Step::Single(e, 1)) by {
        reveal(step);
        lemma_keys();
    }
}

#[verifier::rlimit(40)]
#[verifier::spinoff_prover]
proof fn lemma_step_files(e: EntryView, s: bool, r: Seq<Seq<u8>>)
    requires
        entry_ok(e, s),
        list_prefix(e) is Some && r.len() > 0 ==> !starts_with(r[0], list_prefix(e)->0),
        e is RunFiles || e is DocFiles || e is SrcFiles,
    ensures
        ({
            let l = entry_lines(e, s);
            &&& l.len() >= 1
            &&& split_once_space(l[0]) matches Some((k, v)) && step(k, v, l.drop_first() + r) == Step::Single(
                e,
                (l.len() - 1) as nat,
            )
            &&& (l + r).drop_first() == l.drop_first() + r
            &&& (l.drop_first() + r).skip(l.len() - 1) == r
        }),
{
    reveal(step);
    lemma_keys();
    lemma_joined_literals();
    let l = entry_lines(e, s);
    match e {
        EntryView::RunFiles(n, it) => {
            let d = decimal(n as nat);
            let v = "size=".spec_bytes() + d;
            assert(l[0] =~= "runfiles".spec_bytes() + " ".spec_bytes() + v);
            lemma_split_key("runfiles".spec_bytes(), v);
            assert(parse_size(v) == Some(n)) by {
                lemma_prefix("size=".spec_bytes(), d);
                crate::laws::law_numbers_read_back(0, n);
            }
            lemma_files(it, r);
            assert(l.drop_first() =~= list_lines(it.prefix, it.list));
        },
        EntryView::DocFiles(n, it) => {
            let d = decimal(n as nat);
            let v = "size=".spec_bytes() + d;
            assert(l[0] =~= "docfiles".spec_bytes() + " ".spec_bytes() + v);
            lemma_split_key("docfiles".spec_bytes(), v);
            assert(parse_size(v) == Some(n)) by {
                lemma_prefix("size=".spec_bytes(), d);
                crate::laws::law_numbers_read_back(0, n);
            }
            lemma_files(it, r);
            assert(l.drop_first() =~= list_lines(it.prefix, it.list));
        },
        EntryView::SrcFiles(n, it) => {
            let d = decimal(n as nat);
            let v = "size=".spec_bytes() + d;
            assert(l[0] =~= "srcfiles".spec_bytes() + " ".spec_bytes() + v);
            lemma_split_key("srcfiles".spec_bytes(), v);
            assert(parse_size(v) == Some(n)) by {
                lemma_prefix("size=".spec_bytes(), d);
                crate::laws::law_numbers_read_back(0, n);
            }
            lemma_files(it, r);
            assert(l.drop_first() =~= list_lines(it.prefix, it.list));
        },
        _ => {},
    }
    assert((l + r).drop_first() =~= l.drop_first() + r);
    assert((l.drop_first() + r).skip(l.len() - 1) =~= r);
}

/// The lines of a binary file list read back as the list.
proof fn lemma_bin_lines(a: Seq<u8>, sz: Seq<u8>, n: u64, it: ItemsView, r: Seq<Seq<u8>>)
    requires
        no_space(a),
        no_space("arch=".spec_bytes()),
        no_space("binfiles".spec_bytes()),
        parse_size(sz) == Some(n),
        list_ok(it, " ".spec_bytes()),
        r.len() > 0 ==> !starts_with(r[0], " ".spec_bytes()),
    ensures
        ({
            let h = "binfiles".spec_bytes() + " ".spec_bytes() + ("arch=".spec_bytes() + a + " ".spec_bytes() + sz);
            let l = seq![h] + list_lines(it.prefix, it.list);
            &&& split_once_space(l[0]) == Some(("binfiles".spec_bytes(), "arch=".spec_bytes() + a + " ".spec_bytes() + sz))
            &&& crate::package::binfiles_step("arch=".spec_bytes() + a + " ".spec_bytes() + sz, l.drop_first() + r)
                == Step::Single(EntryView::BinFiles(a, n, it), it.list.len() as nat)
            &&& (l + r).drop_first() == l.drop_first() + r
            &&& (l.drop_first() + r).skip(l.len() - 1) == r
        }),
{
    let v = "arch=".spec_bytes() + a + " ".spec_bytes() + sz;
    let h = "binfiles".spec_bytes() + " ".spec_bytes() + v;
    let l = seq![h] + list_lines(it.prefix, it.list);
    lemma_split_key("binfiles".spec_bytes(), v);
    assert(no_space("arch=".spec_bytes() + a));
    lemma_split_key("arch=".spec_bytes() + a, sz);
    lemma_prefix("arch=".spec_bytes(), a);
    lemma_files(it, r);
    assert(l.drop_first() =~= list_lines(it.prefix, it.list));
    assert((l + r).drop_first() =~= l.drop_first() + r);
    assert((l.drop_first() + r).skip(l.len() - 1) =~= r);
}

#[verifier::rlimit(80)]
proof fn lemma_step_bin(a: Seq<u8>, n: u64, it: ItemsView, s: bool, r: Seq<Seq<u8>>)
    requires
        entry_ok(EntryView::BinFiles(a, n, it), s),
        r.len() > 0 ==> !starts_with(r[0], it.prefix),
    ensures
        ({
            let e = EntryView::BinFiles(a, n, it);
            let l = entry_lines(e, s);
            &&& l.len() >= 1
            &&& split_once_space(l[0]) matches Some((k, v)) && step(k, v, l.drop_first() + r) == Step::Single(
                e,
                (l.len() - 1) as nat,
            )
            &&& (l + r).drop_first() == l.drop_first() + r
            &&& (l.drop_first() + r).skip(l.len() - 1) == r
        }),
{
    let e = EntryView::BinFiles(a, n, it);
    let l = entry_lines(e, s);
    let d = decimal(n as nat);
    let sz = "size=".spec_bytes() + d;
    assert(parse_size(sz) == Some(n)) by {
        lemma_prefix("size=".spec_bytes(), d);
        crate::laws::law_numbers_read_back(0, n);
    }
    assert(l[0] =~= "binfiles".spec_bytes() + " ".spec_bytes() + ("arch=".spec_bytes() + a + " ".spec_bytes() + sz)) by {
        lemma_joined_literals();
    }
    assert(no_space("binfiles".spec_bytes())) by {
        lemma_keys();
    }
    assert(no_space("arch=".spec_bytes())) by {
        lemma_joined_literals();
    }
    lemma_bin_lines(a, sz, n, it, r);
    let v = "arch=".spec_bytes() + a + " ".spec_bytes() + sz;
    assert(step("binfiles".spec_bytes(), v, l.drop_first() + r) == crate::package::binfiles_step(v, l.drop_first() + r)) by {
        reveal(step);
        lemma_keys();
    }
}

/// The lines that the writer gives for a field that it can write read back
/// as that field, the following lines `r` left for what comes next.
proof fn lemma_step_entry(e: EntryView, s: bool, r: Seq<Seq<u8>>)
    requires
        entry_ok(e, s),
        list_prefix(e) is Some && r.len() > 0 ==> !starts_with(r[0], list_prefix(e)->0),
    ensures
        ({
            let l = entry_lines(e, s);
            &&& l.len() >= 1
            &&& split_once_space(l[0]) matches Some((k, v)) && step(k, v, l.drop_first() + r) == Step::Single(
                e,
                (l.len() - 1) as nat,
            )
            &&& (l + r).drop_first() == l.drop_first() + r
            &&& (l.drop_first() + r).skip(l.len() - 1) == r
        }),
{
    match e {
        EntryView::Catalogue(_) | EntryView::Shortdesc(_) | EntryView::Relocated => lemma_step_one(e, s, r),
        EntryView::Longdesc(_) | EntryView::Depend(_) | EntryView::Postaction(_) | EntryView::Execute(_) => lemma_step_list(e, s, r),
        EntryView::RunContainer(c) => lemma_step_runcontainer(c, s, r),
        EntryView::DocContainer(c) => lemma_step_doccontainer(c, s, r),
        EntryView::SrcContainer(c) => lemma_step_srccontainer(c, s, r),
        EntryView::RunFiles(..) | EntryView::DocFiles(..) | EntryView::SrcFiles(..) => lemma_step_files(e, s, r),
        EntryView::BinFiles(a, n, it) => lemma_step_bin(a, n, it, s, r),
        _ => {},
    }
}

/// The keys of the fields that the parser tells apart.
pub open spec fn known_key(k: Seq<u8>) -> bool {
    ||| k == "catalogue".spec_bytes()
    ||| k == "shortdesc".spec_bytes()
    ||| k == "relocated".spec_bytes()
    ||| k == "longdesc".spec_bytes()
    ||| k == "postaction".spec_bytes()
    ||| k == "depend".spec_bytes()
    ||| k == "execute".spec_bytes()
    ||| k == "containersize".spec_bytes()
    ||| k == "doccontainersize".spec_bytes()
    ||| k == "srccontainersize".spec_bytes()
    ||| k == "runfiles".spec_bytes()
    ||| k == "docfiles".spec_bytes()
    ||| k == "srcfiles".spec_bytes()
    ||| k == "binfiles".spec_bytes()
}

/// The catalogue fields at the end of a record: each `key value` with no
/// space in the key, on a line that the splitter keeps.
pub open spec fn tail_ok(es: Seq<EntryView>) -> bool {
    forall|i: int|
        0 <= i < es.len() ==> (#[trigger] es[i] matches EntryView::CatalogueEntry(k, v) && no_space(k)
            && line_ok(k + " ".spec_bytes() + v))
}

/// The fields after the header of a record can be written and read back:
/// each is of a kind that the writer writes as the parser reads it, no list
/// takes the first line of the field after it, and the catalogue fields
/// come last, the first of them with a key that names no other field.
pub open spec fn body_ok(es: Seq<EntryView>, is_scheme: bool) -> bool
    decreases es.len(),
{
    if es.len() == 0 {
        true
    } else {
        match es[0] {
            EntryView::CatalogueEntry(k, _) => tail_ok(es) && !known_key(k),
            _ => {
                &&& entry_ok(es[0], is_scheme)
                &&& list_prefix(es[0]) is Some && es.len() > 1 ==> !starts_with(
                    entries_lines(es.drop_first(), is_scheme)[0],
                    list_prefix(es[0])->0,
                )
                &&& body_ok(es.drop_first(), is_scheme)
            },
        }
    }
}

proof fn lemma_catalogue_tail(es: Seq<EntryView>, s: bool)
    requires
        tail_ok(es),
    ensures
        catalogue_tail(entries_lines(es, s)) == es,
    decreases es.len(),
{
    if es.len() == 0 {
        assert(entries_lines(es, s) =~= Seq::<Seq<u8>>::empty());
    } else {
        lemma_entries_front(es, s);
        assert(tail_ok(es.drop_first())) by {
            assert forall|i: int| 0 <= i < es.drop_first().len() implies (#[trigger] es.drop_first()[i] matches EntryView::CatalogueEntry(k, v) && no_space(k)
                && line_ok(k + " ".spec_bytes() + v)) by {
                assert(es.drop_first()[i] == es[i + 1]);
            }
        }
        lemma_catalogue_tail(es.drop_first(), s);
        assert(es[0] matches EntryView::CatalogueEntry(k, v) && no_space(k));
        match es[0] {
            EntryView::CatalogueEntry(k, v) => {
                lemma_split_key(k, v);
                let l = entries_lines(es, s);
                assert(l[0] == k + " ".spec_bytes() + v);
                assert(l.drop_first() =~= entries_lines(es.drop_first(), s));
                assert(es =~= seq![es[0]] + es.drop_first());
            },
            _ => {},
        }
    }
}

/// The lines of fields that can be written and read back are read back as
/// those fields.
proof fn lemma_parse_body(es: Seq<EntryView>, s: bool)
    requires
        body_ok(es, s),
    ensures
        parse_body(entries_lines(es, s)) == Some(es),
    decreases es.len(),
{
    if es.len() == 0 {
        assert(entries_lines(es, s) =~= Seq::<Seq<u8>>::empty());
    } else {
        lemma_entries_front(es, s);
        let l = entries_lines(es, s);
        let r = entries_lines(es.drop_first(), s);
        match es[0] {
            EntryView::CatalogueEntry(k, v) => {
                assert(tail_ok(es));
                assert(es[0] matches EntryView::CatalogueEntry(k, v) && no_space(k));
                lemma_split_key(k, v);
                assert(l[0] == k + " ".spec_bytes() + v);
                assert(l.drop_first() =~= r);
                assert(tail_ok(es.drop_first())) by {
                    assert forall|i: int| 0 <= i < es.drop_first().len() implies (#[trigger] es.drop_first()[i] matches EntryView::CatalogueEntry(k2, v2) && no_space(k2)
                        && line_ok(k2 + " ".spec_bytes() + v2)) by {
                        assert(es.drop_first()[i] == es[i + 1]);
                    }
                }
                lemma_catalogue_tail(es.drop_first(), s);
                assert(step(k, v, r) == Step::Tail(seq![EntryView::CatalogueEntry(k, v)] + catalogue_tail(r))) by {
                    reveal(step);
                }
                assert(es =~= seq![es[0]] + es.drop_first());
            },
            _ => {
                let e = es[0];
                let l0 = entry_lines(e, s);
                if es.len() == 1 {
                    assert(r =~= Seq::<Seq<u8>>::empty());
                }
                lemma_step_entry(e, s, r);
                lemma_parse_body(es.drop_first(), s);
                assert(l[0] == l0[0]);
                assert(l.drop_first() == l0.drop_first() + r);
                assert(es =~= seq![e] + es.drop_first());
            },
        }
    }
}

proof fn lemma_header_literals()
    ensures
        "category ".spec_bytes() == "category".spec_bytes() + " ".spec_bytes(),
        "revision ".spec_bytes() == "revision".spec_bytes() + " ".spec_bytes(),
{
    reveal_strlit("category ");
    reveal_strlit("category");
    reveal_strlit("revision ");
    reveal_strlit("revision");
    reveal_strlit(" ");
    lemma_ascii_bytes("category ");
    lemma_ascii_bytes("category");
    lemma_ascii_bytes("revision ");
    lemma_ascii_bytes("revision");
    lemma_ascii_bytes(" ");
    assert("category ".spec_bytes() =~= "category".spec_bytes() + " ".spec_bytes());
    assert("revision ".spec_bytes() =~= "revision".spec_bytes() + " ".spec_bytes());
}

/// A record that the format can hold: its lines hold no line break and
/// end in no carriage return, it starts with its category and its
/// revision, the fields after them can be written and read back, and it is
/// relocatable exactly when it lists `relocated`.
pub open spec fn record_ok(p: PackageView) -> bool {
    &&& forall|i: int| 0 <= i < record_lines(p).len() ==> line_ok(#[trigger] record_lines(p)[i])
    &&& p.entries.len() >= 2
    &&& p.entries[0] is Category
    &&& p.entries[1] == EntryView::Revision(p.revision)
    &&& body_ok(p.entries.skip(2), starts_with(p.name, "scheme-".spec_bytes()))
    &&& p.relocated == p.entries.skip(2).contains(EntryView::Relocated)
}

/// What the writer writes for a record that the format can hold, the
/// parser reads back as that record.
pub proof fn law_written_record_reads_back(p: PackageView, target_arch: Seq<u8>)
    requires
        record_ok(p),
    ensures
        parse_package(write_package(p), target_arch, false) == ParseOutcome::Record(p),
{
    let s = starts_with(p.name, "scheme-".spec_bytes());
    let ls = record_lines(p);
    lemma_write_package(p);
    lemma_lines_join(ls);
    let body = p.entries.skip(2);
    let c = match p.entries[0] {
        EntryView::Category(c) => c,
        _ => seq![],
    };
    let r = p.revision;
    assert(p.entries =~= seq![p.entries[0], p.entries[1]] + body);
    lemma_entries_front(p.entries, s);
    lemma_entries_front(p.entries.drop_first(), s);
    assert(p.entries.drop_first()[0] == p.entries[1]);
    assert(p.entries.drop_first().drop_first() =~= body);
    let el = entries_lines(p.entries, s);
    assert(el =~= entry_lines(p.entries[0], s) + (entry_lines(p.entries[1], s) + entries_lines(body, s)));
    assert(ls[0] == "name ".spec_bytes() + p.name);
    assert(ls[1] == "category".spec_bytes() + " ".spec_bytes() + c);
    assert(ls[2] == "revision".spec_bytes() + " ".spec_bytes() + decimal(r as nat));
    assert(ls.skip(3) =~= entries_lines(body, s));
    lemma_header_literals();
    lemma_prefix("name ".spec_bytes(), p.name);
    lemma_prefix("category ".spec_bytes(), c);
    lemma_prefix("revision ".spec_bytes(), decimal(r as nat));
    assert(parse_u32(decimal(r as nat)) == Some(r)) by {
        crate::laws::law_numbers_read_back(r, 0);
    }
    lemma_parse_body(body, s);
}
/// A block of the database that holds a record in the writer's own form
/// (the text of a record that the format can hold) is read and written
/// back to the same text.
pub proof fn law_record_text_is_written_back(t: Seq<u8>, p: PackageView, target_arch: Seq<u8>)
    requires
        record_ok(p),
        t == write_package(p),
    ensures
        parse_package(t, target_arch, false) matches ParseOutcome::Record(v) && write_package(v) == t,
{
    law_written_record_reads_back(p, target_arch);
}

/// Every line of `ls` holds a space.
pub open spec fn spaced(ls: Seq<Seq<u8>>) -> bool {
    forall|i: int| 0 <= i < ls.len() ==> #[trigger] split_once_space(ls[i]) is Some
}

/// `d` is the decimal writing, with no leading zero, of a number that fits
/// in a `u64`.
pub open spec fn canonical_number(d: Seq<u8>) -> bool {
    parse_u64(d) matches Some(n) && decimal(n as nat) == d
}

/// No value of the lines `ls`, after their prefix `p`, starts with `RELOC`.
pub open spec fn values_kept(ls: Seq<Seq<u8>>, p: Seq<u8>) -> bool {
    forall|i: int|
        0 <= i < ls.len() ==> !starts_with(
            #[trigger] ls[i].subrange(p.len() as int, ls[i].len() as int),
            "RELOC".spec_bytes(),
        )
}

/// The key of the checksum line that follows the size line `k` of a
/// container, with its space.
pub open spec fn checksum_key(k: Seq<u8>) -> Seq<u8> {
    if k == "containersize".spec_bytes() {
        "containerchecksum ".spec_bytes()
    } else if k == "doccontainersize".spec_bytes() {
        "doccontainerchecksum ".spec_bytes()
    } else {
        "srccontainerchecksum ".spec_bytes()
    }
}

/// The lines after the header of a record are in the writer's form: each
/// line holds a space; `relocated` is `relocated 1`, in a scheme only; no
/// value of a list (`longdesc`, `postaction`, `depend`, `execute` and the
/// file lists) starts with `RELOC`; sizes are canonical decimal numbers, as
/// `size=<n>` for the file lists and after `arch=<a>` for `binfiles`; each
/// container size line is followed by its checksum line. From the first
/// line whose key names no field on, every line is a catalogue entry.
pub open spec fn canonical_body(ls: Seq<Seq<u8>>, s: bool) -> bool
    decreases ls.len(),
{
    if ls.len() == 0 {
        true
    } else {
        let rest = ls.drop_first();
        match split_once_space(ls[0]) {
            None => false,
            Some((k, v)) => if !known_key(k) {
                spaced(ls)
            } else if k == "catalogue".spec_bytes() || k == "shortdesc".spec_bytes() {
                canonical_body(rest, s)
            } else if k == "relocated".spec_bytes() {
                s && v == "1".spec_bytes() && canonical_body(rest, s)
            } else if k == "longdesc".spec_bytes() || k == "postaction".spec_bytes() || k
                == "depend".spec_bytes() || k == "execute".spec_bytes() {
                let p = k + " ".spec_bytes();
                let n = count_prefixed(rest, p);
                &&& !starts_with(v, "RELOC".spec_bytes())
                &&& n <= rest.len()
                &&& values_kept(rest.take(n as int), p)
                &&& canonical_body(rest.skip(n as int), s)
            } else if k == "containersize".spec_bytes() || k == "doccontainersize".spec_bytes() || k
                == "srccontainersize".spec_bytes() {
                &&& canonical_number(v)
                &&& rest.len() > 0
                &&& starts_with(rest[0], checksum_key(k))
                &&& canonical_body(rest.drop_first(), s)
            } else {
                let n = count_prefixed(rest, " ".spec_bytes());
                let sz = if k == "binfiles".spec_bytes() {
                    match split_once_space(v) {
                        Some((a, z)) => z,
                        None => v,
                    }
                } else {
                    v
                };
                &&& k == "binfiles".spec_bytes() ==> (split_once_space(v) matches Some((a, z)) && starts_with(
                    a,
                    "arch=".spec_bytes(),
                ))
                &&& starts_with(sz, "size=".spec_bytes())
                &&& canonical_number(sz.subrange("size=".spec_bytes().len() as int, sz.len() as int))
                &&& n <= rest.len()
                &&& values_kept(rest.take(n as int), " ".spec_bytes())
                &&& canonical_body(rest.skip(n as int), s)
            },
        }
    }
}

/// A line split at its first space is its key, a space and its value.
proof fn lemma_line_parts(l: Seq<u8>)
    requires
        split_once_space(l) is Some,
    ensures
        ({
            let (k, v) = split_once_space(l)->0;
            l == k + " ".spec_bytes() + v && no_space(k)
        }),
{
    reveal_strlit(" ");
    lemma_ascii_bytes(" ");
    assert(" ".spec_bytes() =~= seq![32u8]);
    lemma_index_of_from_bounds(l, 32u8, 0);
    let i = index_of(l, 32u8);
    assert(l =~= l.subrange(0, i) + " ".spec_bytes() + l.subrange(i + 1, l.len() as int));
}

/// The lines counted by `count_prefixed` start with the prefix.
proof fn lemma_prefixed_lines(ls: Seq<Seq<u8>>, p: Seq<u8>)
    ensures
        count_prefixed(ls, p) <= ls.len(),
        forall|j: int| 0 <= j < count_prefixed(ls, p) ==> starts_with(#[trigger] ls[j], p),
    decreases ls.len(),
{
    if ls.len() > 0 && starts_with(ls[0], p) {
        lemma_prefixed_lines(ls.drop_first(), p);
        assert forall|j: int| 0 <= j < count_prefixed(ls, p) implies starts_with(#[trigger] ls[j], p) by {
            if j > 0 {
                assert(ls[j] == ls.drop_first()[j - 1]);
            }
        }
    }
}

/// Lines that start with `p` are written back as they are from their
/// values.
proof fn lemma_strip_back(p: Seq<u8>, t: Seq<Seq<u8>>)
    requires
        forall|j: int| 0 <= j < t.len() ==> starts_with(#[trigger] t[j], p),
        values_kept(t, p),
    ensures
        list_lines(p, strip_each(t, p)) == t,
{
    assert forall|j: int| 0 <= j < t.len() implies #[trigger] list_lines(p, strip_each(t, p))[j] == t[j] by {
        let x = t[j].subrange(p.len() as int, t[j].len() as int);
        assert(strip_each(t, p)[j] == x);
        assert(reloc(x) == x);
        assert(t[j].subrange(0, p.len() as int) == p);
        assert(t[j] =~= p + x);
    }
    assert(list_lines(p, strip_each(t, p)) =~= t);
}

/// Lines that all hold a space read as catalogue entries that write them
/// back.
proof fn lemma_tail_back(ls: Seq<Seq<u8>>, s: bool)
    requires
        spaced(ls),
    ensures
        entries_lines(catalogue_tail(ls), s) == ls,
    decreases ls.len(),
{
    if ls.len() == 0 {
        assert(entries_lines(catalogue_tail(ls), s) =~= ls);
    } else {
        assert(split_once_space(ls[0]) is Some);
        lemma_line_parts(ls[0]);
        assert(spaced(ls.drop_first())) by {
            assert forall|i: int| 0 <= i < ls.drop_first().len() implies #[trigger] split_once_space(
                ls.drop_first()[i],
            ) is Some by {
                assert(ls.drop_first()[i] == ls[i + 1]);
            }
        }
        lemma_tail_back(ls.drop_first(), s);
        let es = catalogue_tail(ls);
        lemma_entries_front(es, s);
        assert(es.drop_first() == catalogue_tail(ls.drop_first()));
        assert(ls =~= seq![ls[0]] + ls.drop_first());
    }
}

/// The first line of `ls` (with the lines that it takes) is one field,
/// written back as those lines, and the lines after them are in the
/// writer's form.
spec fn first_field_back(ls: Seq<Seq<u8>>, s: bool) -> bool {
    let rest = ls.drop_first();
    let kv = split_once_space(ls[0])->0;
    step(kv.0, kv.1, rest) matches Step::Single(e, n) && n <= rest.len() && entry_lines(e, s) == seq![ls[0]]
        + rest.take(n as int) && canonical_body(rest.skip(n as int), s)
}

#[verifier::spinoff_prover]
proof fn lemma_field_simple(ls: Seq<Seq<u8>>, s: bool, k: Seq<u8>, v: Seq<u8>)
    requires
        ls.len() > 0,
        canonical_body(ls, s),
        split_once_space(ls[0]) == Some((k, v)),
        k == "catalogue".spec_bytes() || k == "shortdesc".spec_bytes() || k == "relocated".spec_bytes(),
    ensures
        first_field_back(ls, s),
{
    let rest = ls.drop_first();
    lemma_line_parts(ls[0]);
    lemma_keys();
    lemma_joined_literals();
    reveal(step);
    assert(known_key(k));
    let e = if k == "catalogue".spec_bytes() {
        EntryView::Catalogue(v)
    } else if k == "shortdesc".spec_bytes() {
        EntryView::Shortdesc(v)
    } else {
        EntryView::Relocated
    };
    assert(step(k, v, rest) == Step::Single(e, 0));
    assert(entry_lines(e, s) =~= seq![ls[0]] + rest.take(0));
    assert(rest.skip(0) =~= rest);
}

#[verifier::spinoff_prover]
proof fn lemma_field_list(ls: Seq<Seq<u8>>, s: bool, k: Seq<u8>, v: Seq<u8>)
    requires
        ls.len() > 0,
        canonical_body(ls, s),
        split_once_space(ls[0]) == Some((k, v)),
        k == "longdesc".spec_bytes() || k == "postaction".spec_bytes() || k == "depend".spec_bytes() || k
            == "execute".spec_bytes(),
    ensures
        first_field_back(ls, s),
{
    let rest = ls.drop_first();
    lemma_line_parts(ls[0]);
    lemma_keys();
    lemma_joined_literals();
    reveal(step);
    assert(known_key(k));
    let p = k + " ".spec_bytes();
    assert(step(k, v, rest) == keyval_step(v, rest, k));
    let n = count_prefixed(rest, p);
    let it = keyval_items(v, rest, p);
    let e = if k == "longdesc".spec_bytes() {
        EntryView::Longdesc(it)
    } else if k == "postaction".spec_bytes() {
        EntryView::Postaction(it)
    } else if k == "depend".spec_bytes() {
        EntryView::Depend(it)
    } else {
        EntryView::Execute(it)
    };
    assert(step(k, v, rest) == Step::Single(e, n));
    lemma_prefixed_lines(rest, p);
    let t = rest.take(n as int);
    assert forall|j: int| 0 <= j < t.len() implies starts_with(#[trigger] t[j], p) by {
        assert(t[j] == rest[j]);
    }
    lemma_strip_back(p, t);
    assert(reloc(v) == v);
    assert(it.list =~= seq![v] + strip_each(t, p));
    assert(list_lines(p, it.list) =~= seq![p + v] + list_lines(p, strip_each(t, p)));
    assert(entry_lines(e, s) == list_lines(p, it.list));
    assert(entry_lines(e, s) =~= seq![ls[0]] + t);
}

#[verifier::spinoff_prover]
#[verifier::rlimit(60)]
proof fn lemma_field_container(ls: Seq<Seq<u8>>, s: bool, k: Seq<u8>, v: Seq<u8>)
    requires
        ls.len() > 0,
        canonical_body(ls, s),
        split_once_space(ls[0]) == Some((k, v)),
        k == "containersize".spec_bytes() || k == "doccontainersize".spec_bytes() || k
            == "srccontainersize".spec_bytes(),
    ensures
        first_field_back(ls, s),
{
    let rest = ls.drop_first();
    lemma_line_parts(ls[0]);
    lemma_keys();
    lemma_joined_literals();
    reveal(step);
    assert(known_key(k));
    let ck = checksum_key(k);
    let m = parse_u64(v)->0;
    let c = rest[0].subrange(ck.len() as int, rest[0].len() as int);
    assert(rest[0].subrange(0, ck.len() as int) == ck);
    assert(rest[0] =~= ck + c);
    assert(strip_prefix(rest[0], ck) == Some(c));
    let cv = ContainerView { byte_size: m, checksum: c };
    let pf = if k == "containersize".spec_bytes() {
        Seq::<u8>::empty()
    } else if k == "doccontainersize".spec_bytes() {
        "doc".spec_bytes()
    } else {
        "src".spec_bytes()
    };
    let e = if k == "containersize".spec_bytes() {
        EntryView::RunContainer(cv)
    } else if k == "doccontainersize".spec_bytes() {
        EntryView::DocContainer(cv)
    } else {
        EntryView::SrcContainer(cv)
    };
    assert(pf + "containersize ".spec_bytes() == k + " ".spec_bytes()) by {
        if k == "containersize".spec_bytes() {
            assert(pf + "containersize ".spec_bytes() =~= "containersize ".spec_bytes());
        }
    }
    assert(pf + "containerchecksum ".spec_bytes() == ck) by {
        if k == "containersize".spec_bytes() {
            assert(pf + "containerchecksum ".spec_bytes() =~= "containerchecksum ".spec_bytes());
        }
    }
    assert(step(k, v, rest) == Step::Single(e, 1));
    assert(entry_lines(e, s) == container_lines(cv, pf));
    assert(pf + "containersize ".spec_bytes() + decimal(m as nat) =~= k + " ".spec_bytes() + v);
    assert(pf + "containerchecksum ".spec_bytes() + c =~= rest[0]);
    assert(entry_lines(e, s) =~= seq![ls[0]] + rest.take(1));
    assert(rest.skip(1) =~= rest.drop_first());
}

#[verifier::spinoff_prover]
proof fn lemma_field_files(ls: Seq<Seq<u8>>, s: bool, k: Seq<u8>, v: Seq<u8>)
    requires
        ls.len() > 0,
        canonical_body(ls, s),
        split_once_space(ls[0]) == Some((k, v)),
        k == "runfiles".spec_bytes() || k == "docfiles".spec_bytes() || k == "srcfiles".spec_bytes() || k
            == "binfiles".spec_bytes(),
    ensures
        first_field_back(ls, s),
{
    let rest = ls.drop_first();
    lemma_line_parts(ls[0]);
    lemma_keys();
    lemma_joined_literals();
    reveal(step);
    assert(known_key(k));
    let sp = " ".spec_bytes();
    let sz = if k == "binfiles".spec_bytes() {
        match split_once_space(v) {
            Some((a, z)) => z,
            None => v,
        }
    } else {
        v
    };
    let d = sz.subrange("size=".spec_bytes().len() as int, sz.len() as int);
    let m = parse_u64(d)->0;
    assert(sz.subrange(0, "size=".spec_bytes().len() as int) == "size=".spec_bytes());
    assert(sz =~= "size=".spec_bytes() + d);
    assert(strip_prefix(sz, "size=".spec_bytes()) == Some(d));
    assert(parse_size(sz) == Some(m));
    let n = count_prefixed(rest, sp);
    lemma_prefixed_lines(rest, sp);
    let t = rest.take(n as int);
    assert forall|j: int| 0 <= j < t.len() implies starts_with(#[trigger] t[j], sp) by {
        assert(t[j] == rest[j]);
    }
    lemma_strip_back(sp, t);
    let fi = file_items(rest);
    assert(fi.list == strip_each(t, sp));
    assert(list_lines(fi.prefix, fi.list) == t);
    if k == "binfiles".spec_bytes() {
        let (a, z) = split_once_space(v)->0;
        lemma_line_parts(v);
        let arch = a.subrange("arch=".spec_bytes().len() as int, a.len() as int);
        assert(a.subrange(0, "arch=".spec_bytes().len() as int) == "arch=".spec_bytes());
        assert(a =~= "arch=".spec_bytes() + arch);
        assert(strip_prefix(a, "arch=".spec_bytes()) == Some(arch));
        assert(step(k, v, rest) == binfiles_step(v, rest));
        let e = EntryView::BinFiles(arch, m, fi);
        assert(step(k, v, rest) == Step::Single(e, n));
        assert("binfiles".spec_bytes() + " arch=".spec_bytes() + arch + " size=".spec_bytes() + decimal(m as nat)
            =~= ls[0]);
        assert(entry_lines(e, s) =~= seq![ls[0]] + t);
    } else {
        assert(step(k, v, rest) == files_step(v, rest, k));
        let e = if k == "runfiles".spec_bytes() {
            EntryView::RunFiles(m, fi)
        } else if k == "docfiles".spec_bytes() {
            EntryView::DocFiles(m, fi)
        } else {
            EntryView::SrcFiles(m, fi)
        };
        assert(step(k, v, rest) == Step::Single(e, n));
        assert(k + " size=".spec_bytes() + decimal(m as nat) =~= ls[0]);
        assert(entry_lines(e, s) =~= seq![ls[0]] + t);
    }
}

/// A record's lines in the writer's form are read as fields whose lines are
/// those lines.
proof fn lemma_canonical_body(ls: Seq<Seq<u8>>, s: bool)
    requires
        canonical_body(ls, s),
    ensures
        parse_body(ls) matches Some(es) && entries_lines(es, s) == ls,
    decreases ls.len(),
{
    if ls.len() == 0 {
        assert(entries_lines(Seq::<EntryView>::empty(), s) =~= ls);
        return;
    }
    let rest = ls.drop_first();
    let (k, v) = split_once_space(ls[0])->0;
    if !known_key(k) {
        lemma_line_parts(ls[0]);
        lemma_tail_back(ls, s);
        assert(step(k, v, rest) == Step::Tail(seq![EntryView::CatalogueEntry(k, v)] + catalogue_tail(rest))) by {
            reveal(step);
        }
        assert(catalogue_tail(ls) == seq![EntryView::CatalogueEntry(k, v)] + catalogue_tail(rest));
        return;
    }
    if k == "catalogue".spec_bytes() || k == "shortdesc".spec_bytes() || k == "relocated".spec_bytes() {
        lemma_field_simple(ls, s, k, v);
    } else if k == "longdesc".spec_bytes() || k == "postaction".spec_bytes() || k == "depend".spec_bytes()
        || k == "execute".spec_bytes() {
        lemma_field_list(ls, s, k, v);
    } else if k == "containersize".spec_bytes() || k == "doccontainersize".spec_bytes() || k
        == "srccontainersize".spec_bytes() {
        lemma_field_container(ls, s, k, v);
    } else {
        lemma_field_files(ls, s, k, v);
    }
    let (e, n) = match step(k, v, rest) {
        Step::Single(e, n) => (e, n),
        _ => (EntryView::Relocated, 0),
    };
    lemma_canonical_body(rest.skip(n as int), s);
    let tl = parse_body(rest.skip(n as int))->0;
    let es = seq![e] + tl;
    lemma_entries_front(es, s);
    assert(es.drop_first() =~= tl);
    assert(ls =~= seq![ls[0]] + rest.take(n as int) + rest.skip(n as int));
}

/// A block of lines with no carriage return, not ending in a line break,
/// is its lines, each followed by a line break.
proof fn lemma_join_lines_from(b: Seq<u8>, k: int)
    requires
        0 <= k < b.len(),
        forall|i: int| 0 <= i < b.len() ==> b[i] != 13u8,
        b.last() != 10u8,
    ensures
        join_lines(lines_from(b, k)) == b.subrange(k, b.len() as int) + seq![10u8],
    decreases b.len() - k,
{
    lemma_index_of_from_bounds(b, 10u8, k);
    let nl = index_of_from(b, 10u8, k);
    if nl < b.len() {
        let l = b.subrange(k, nl);
        assert(strip_cr(l) == l);
        assert(nl + 1 < b.len());
        lemma_join_lines_from(b, nl + 1);
        let ls = lines_from(b, k);
        assert(ls == seq![l] + lines_from(b, nl + 1));
        lemma_join_front(ls);
        assert(ls.drop_first() =~= lines_from(b, nl + 1));
        assert(b.subrange(k, b.len() as int) =~= l + seq![10u8] + b.subrange(nl + 1, b.len() as int));
    } else {
        lemma_one_line(b.subrange(k, b.len() as int));
        lemma_newline();
    }
}

/// `d` is the decimal writing, with no leading zero, of a `u32`.
pub open spec fn canonical_u32(d: Seq<u8>) -> bool {
    parse_u32(d) matches Some(n) && decimal(n as nat) == d
}

/// A block of the database in the writer's form: no carriage return in
/// it, no line break at its end, a `name` line, a `category` line and a
/// `revision` line with a canonical number, then lines in the writer's
/// form for a scheme exactly when the name starts with `scheme-`.
pub open spec fn canonical_block(b: Seq<u8>) -> bool {
    let ls = lines(b);
    &&& forall|i: int| 0 <= i < b.len() ==> b[i] != 13u8
    &&& b.len() > 0 && b.last() != 10u8
    &&& ls.len() >= 3
    &&& starts_with(ls[0], "name ".spec_bytes())
    &&& starts_with(ls[1], "category ".spec_bytes())
    &&& starts_with(ls[2], "revision ".spec_bytes())
    &&& canonical_u32(ls[2].subrange("revision ".spec_bytes().len() as int, ls[2].len() as int))
    &&& canonical_body(
        ls.skip(3),
        starts_with(ls[0].subrange("name ".spec_bytes().len() as int, ls[0].len() as int), "scheme-".spec_bytes()),
    )
}

/// A block in the writer's form is read as a record that is written back
/// as the block followed by a line break.
pub proof fn law_block_written_back(b: Seq<u8>, target_arch: Seq<u8>)
    requires
        canonical_block(b),
    ensures
        parse_package(b, target_arch, false) matches ParseOutcome::Record(v) && write_package(v) == b
            + "\n".spec_bytes(),
{
    let ls = lines(b);
    let name = ls[0].subrange("name ".spec_bytes().len() as int, ls[0].len() as int);
    let cat = ls[1].subrange("category ".spec_bytes().len() as int, ls[1].len() as int);
    let rd = ls[2].subrange("revision ".spec_bytes().len() as int, ls[2].len() as int);
    let s = starts_with(name, "scheme-".spec_bytes());
    assert(ls[0].subrange(0, "name ".spec_bytes().len() as int) == "name ".spec_bytes());
    assert(ls[0] =~= "name ".spec_bytes() + name);
    assert(ls[1].subrange(0, "category ".spec_bytes().len() as int) == "category ".spec_bytes());
    assert(ls[1] =~= "category ".spec_bytes() + cat);
    assert(ls[2].subrange(0, "revision ".spec_bytes().len() as int) == "revision ".spec_bytes());
    assert(ls[2] =~= "revision ".spec_bytes() + rd);
    let rev = parse_u32(rd)->0;
    lemma_canonical_body(ls.skip(3), s);
    let body = parse_body(ls.skip(3))->0;
    let v = PackageView {
        name,
        revision: rev,
        relocated: body.contains(EntryView::Relocated),
        entries: seq![EntryView::Category(cat), EntryView::Revision(rev)] + body,
    };
    assert(parse_package(b, target_arch, false) == ParseOutcome::Record(v));
    lemma_write_package(v);
    lemma_header_literals();
    let es = v.entries;
    lemma_entries_front(es, s);
    lemma_entries_front(es.drop_first(), s);
    assert(es.drop_first().drop_first() =~= body);
    assert(entry_lines(es[0], s) =~= seq![ls[1]]);
    assert(entry_lines(es.drop_first()[0], s) =~= seq![ls[2]]);
    assert(record_lines(v) =~= ls);
    lemma_join_lines_from(b, 0);
    assert(b.subrange(0, b.len() as int) =~= b);
    lemma_newline();
}

} // verus!
