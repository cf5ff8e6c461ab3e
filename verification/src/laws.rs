//! Properties that hold across the operations of the library.
use vstd::prelude::*;
use vstd::relations::*;
use vstd::string::*;
use crate::arch::{known_tl_archs, tl_arch_of_target};
use crate::database::{
    closed_under_deps, dependency_closure, holds_all, lemma_name_positions, lookup, package_names,
    DatabaseView,
};
use crate::order::{dedup, lemma_lex_total_ordering, lex_order, sorted_names};
use crate::package::{parse_u32, parse_u64, write_entry, EntryView};
use crate::text::{all_digits, decimal, digits_value, lemma_decimal_digits, parse_unsigned, unsigned_digits};
use crate::tree::{has_dir, is_prefix, listed_items, missing_dirs, depth_present, subdir, Node};

verus! {

/// Whether a record is written as a scheme only matters for its
/// `relocated` field: that field is written as `relocated 1` for a scheme
/// and not at all otherwise, and every other field is written the same
/// either way.
pub proof fn law_scheme_flag_only_touches_relocated(e: EntryView)
    ensures
        e is Relocated ==> write_entry(e, true) == "relocated 1\n".spec_bytes() && write_entry(
            e,
            false,
        ) == Seq::<u8>::empty(),
        !(e is Relocated) ==> write_entry(e, true) == write_entry(e, false),
{
}

/// The architecture found for a target triple is one that TeX Live
/// distributes binaries for.
pub proof fn law_target_arch_is_known(t: Seq<u8>)
    requires
        tl_arch_of_target(t) is Some,
    ensures
        known_tl_archs().contains(tl_arch_of_target(t)->0),
{
    let k = known_tl_archs();
    let a = tl_arch_of_target(t)->0;
    assert(k[0] == "windows"@);
    assert(k[1] == "x86_64-linux"@);
    assert(k[2] == "i386-freebsd"@);
    assert(k[4] == "i386-linux"@);
    assert(k[5] == "universal-darwin"@);
    assert(k[6] == "amd64-freebsd"@);
    assert(k[10] == "x86_64-linuxmusl"@);
    assert(k[12] == "aarch64-linux"@);
}

proof fn lemma_decimal_value(n: nat)
    ensures
        digits_value(decimal(n)) == n,
    decreases n,
{
    let d = decimal(n);
    if n >= 10 {
        lemma_decimal_value(n / 10);
        assert(d.drop_last() == decimal(n / 10));
        assert(d.last() == (48 + n % 10) as u8);
        assert(((48 + n % 10) as u8) as nat == 48 + n % 10);
        assert((n / 10) * 10 + n % 10 == n) by (nonlinear_arith);
        assert(digits_value(d) == digits_value(d.drop_last()) * 10 + (d.last() - 48) as nat);
    } else {
        assert(d.drop_last() =~= Seq::<u8>::empty());
        assert(d.last() == (48 + n) as u8);
        assert(digits_value(d) == digits_value(d.drop_last()) * 10 + (d.last() - 48) as nat);
    }
}

/// A number written in decimal reads back as itself, when it is within the
/// bound of the reading.
pub proof fn law_decimal_reads_back(n: nat, max: nat)
    requires
        n <= max,
    ensures
        parse_unsigned(decimal(n), max) == Some(n),
{
    lemma_decimal_digits(n);
    lemma_decimal_value(n);
    assert(unsigned_digits(decimal(n)) == decimal(n));
    assert(all_digits(decimal(n)));
}

/// The revisions and sizes that the writer puts in the database read back
/// as themselves.
pub proof fn law_numbers_read_back(r: u32, size: u64)
    ensures
        parse_u32(decimal(r as nat)) == Some(r),
        parse_u64(decimal(size as nat)) == Some(size),
{
    law_decimal_reads_back(r as nat, u32::MAX as nat);
    law_decimal_reads_back(size as nat, u64::MAX as nat);
}

/// The names that a set of packages needs are determined: two sets that
/// both satisfy the description of the result of `resolve_dep` are equal.
pub proof fn law_dependency_closure_unique(
    db: DatabaseView,
    entries: Seq<Seq<u8>>,
    s1: Set<Seq<u8>>,
    s2: Set<Seq<u8>>,
)
    requires
        dependency_closure(db, entries, s1),
        dependency_closure(db, entries, s2),
    ensures
        s1 == s2,
{
    assert(s1.subset_of(s2));
    assert(s2.subset_of(s1));
    assert(s1 =~= s2);
}

/// Asking for more packages never needs fewer names: when every package of
/// `e1` is among those that `e2` needs, all that `e1` needs is too.
pub proof fn law_dependency_closure_monotone(
    db: DatabaseView,
    e1: Seq<Seq<u8>>,
    e2: Seq<Seq<u8>>,
    s1: Set<Seq<u8>>,
    s2: Set<Seq<u8>>,
)
    requires
        dependency_closure(db, e1, s1),
        dependency_closure(db, e2, s2),
        holds_all(s2, e1),
    ensures
        s1.subset_of(s2),
{
    assert(closed_under_deps(db, s2));
}

/// Every package of the database is found by its name: the lookup gives a
/// package of that name, the last one of the database.
pub proof fn law_every_package_is_found(db: DatabaseView, i: int)
    requires
        0 <= i < db.packages.len(),
        db.packages.len() <= usize::MAX,
    ensures
        lookup(db, db.packages[i].name) matches Some(j) && i <= j < db.packages.len()
            && db.packages[j].name == db.packages[i].name,
{
    let ns = package_names(db.packages);
    let n = db.packages[i].name;
    assert(ns[i] == n);
    lemma_name_positions(ns, n);
    let j = lookup(db, n)->0;
    assert(ns[j] == db.packages[j].name);
    if j < i {
        assert(ns[i] != n);
    }
}

/// A name is found exactly when some package of the database has it, and
/// then the package found is the last one with that name.
pub proof fn law_lookup_finds_the_last_of_its_name(db: DatabaseView, n: Seq<u8>)
    requires
        db.packages.len() <= usize::MAX,
    ensures
        lookup(db, n) is Some <==> exists|i: int| 0 <= i < db.packages.len() && #[trigger] db.packages[i].name == n,
        lookup(db, n) matches Some(j) ==> 0 <= j < db.packages.len() && db.packages[j].name == n
            && forall|k: int| j < k < db.packages.len() ==> #[trigger] db.packages[k].name != n,
{
    let ns = package_names(db.packages);
    lemma_name_positions(ns, n);
    assert forall|i: int| 0 <= i < db.packages.len() implies ns[i] == #[trigger] db.packages[i].name by {}
    if ns.contains(n) {
        let i = choose|i: int| 0 <= i < ns.len() && ns[i] == n;
        assert(db.packages[i].name == n);
    }
    if exists|i: int| 0 <= i < db.packages.len() && #[trigger] db.packages[i].name == n {
        let i = choose|i: int| 0 <= i < db.packages.len() && #[trigger] db.packages[i].name == n;
        assert(ns[i] == n);
    }
}

proof fn lemma_depth_full(n: Node, p: Seq<Seq<char>>)
    requires
        has_dir(n, p),
    ensures
        depth_present(n, p) == p.len(),
    decreases p.len(),
{
    if p.len() > 0 {
        lemma_depth_full(subdir(n, p[0])->0, p.drop_first());
    }
}

/// A directory that the tree holds is never created again: once a
/// directory is added, adding it or a file in it again asks for no new
/// directory.
pub proof fn law_no_directory_created_twice(n: Node, p: Seq<Seq<char>>)
    requires
        has_dir(n, p),
    ensures
        missing_dirs(n, p).len() == 0,
{
    lemma_depth_full(n, p);
}

/// After `insert_dir(p)`, which the contract of `Node::insert_dir`
/// describes, the tree holds `p`, so a second `insert_dir(p)` creates
/// nothing.
pub proof fn law_insert_dir_twice(n1: Node, n2: Node, p: Seq<Seq<char>>)
    requires
        forall|q: Seq<Seq<char>>| #[trigger] has_dir(n2, q) <==> has_dir(n1, q) || is_prefix(q, p),
    ensures
        has_dir(n2, p),
        missing_dirs(n2, p).len() == 0,
{
    assert(p.take(p.len() as int) =~= p);
    assert(is_prefix(p, p));
    law_no_directory_created_twice(n2, p);
}

proof fn lemma_dedup_sorted(s: Seq<Seq<u8>>)
    requires
        sorted_by(s, lex_order()),
    ensures
        sorted_by(dedup(s), lex_order()),
        forall|i: int| 0 <= i < dedup(s).len() - 1 ==> #[trigger] dedup(s)[i] != dedup(s)[i + 1],
        dedup(s).len() > 0 ==> dedup(s).last() == s.last(),
        dedup(s).len() <= s.len(),
        forall|i: int| 0 <= i < dedup(s).len() ==> s.contains(#[trigger] dedup(s)[i]),
    decreases s.len(),
{
    lemma_lex_total_ordering();
    if s.len() > 1 {
        let t = s.drop_last();
        assert(sorted_by(t, lex_order())) by {
            assert forall|i: int, j: int| 0 <= i < j < t.len() implies #[trigger] lex_order()(t[i], t[j]) by {
                assert(t[i] == s[i] && t[j] == s[j]);
            }
        }
        lemma_dedup_sorted(t);
        let d = dedup(t);
        assert forall|i: int| 0 <= i < d.len() implies s.contains(#[trigger] d[i]) by {
            let k = choose|k: int| 0 <= k < t.len() && t[k] == d[i];
            assert(s[k] == d[i]);
        }
        if s[s.len() - 1] != s[s.len() - 2] {
            let e = d.push(s.last());
            assert forall|i: int, j: int| 0 <= i < j < e.len() implies #[trigger] lex_order()(e[i], e[j]) by {
                if j == e.len() - 1 {
                    let k = choose|k: int| 0 <= k < t.len() && t[k] == d[i];
                    assert(lex_order()(s[k], s[s.len() - 1]));
                } else {
                    assert(e[i] == d[i] && e[j] == d[j]);
                }
            }
            assert forall|i: int| 0 <= i < e.len() - 1 implies #[trigger] e[i] != e[i + 1] by {
                if i == e.len() - 2 {
                    assert(e[i] == t.last());
                } else {
                    assert(e[i] == d[i] && e[i + 1] == d[i + 1]);
                }
            }
            assert forall|i: int| 0 <= i < e.len() implies s.contains(#[trigger] e[i]) by {
                if i == e.len() - 1 {
                    assert(s[s.len() - 1] == e[i]);
                } else {
                    assert(e[i] == d[i]);
                }
            }
        }
    }
}

/// The names of a block of `ls-R` are in ascending order, and at the root,
/// where `ls-R` itself joins them, each is listed once.
pub proof fn law_ls_r_names_ascending(n: Node, is_root: bool)
    ensures
        sorted_by(listed_items(n, is_root), lex_order()),
        is_root ==> forall|i: int|
            0 <= i < listed_items(n, is_root).len() - 1 ==> #[trigger] listed_items(n, is_root)[i]
                != listed_items(n, is_root)[i + 1],
{
    lemma_lex_total_ordering();
    let s = crate::tree::item_names(n, is_root);
    s.lemma_sort_by_ensures(lex_order());
    if is_root {
        lemma_dedup_sorted(sorted_names(s));
    }
}

} // verus!
