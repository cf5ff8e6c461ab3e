//! The order of names in an `ls-R` index: byte-wise lexicographic order, as
//! `str` compares, and sorting by it.
use vstd::prelude::*;
use vstd::relations::*;
use vstd::multiset::*;

verus! {

broadcast use vstd::seq_lib::group_to_multiset_ensures;

/// `a` comes before `b` or equals it, comparing bytes from the left; a
/// proper prefix comes first.
pub open spec fn lex_le(a: Seq<u8>, b: Seq<u8>) -> bool
    decreases a.len(),
{
    if a.len() == 0 {
        true
    } else if b.len() == 0 {
        false
    } else if a[0] != b[0] {
        a[0] < b[0]
    } else {
        lex_le(a.drop_first(), b.drop_first())
    }
}

/// The order as a relation.
pub open spec fn lex_order() -> spec_fn(Seq<u8>, Seq<u8>) -> bool {
    |a: Seq<u8>, b: Seq<u8>| lex_le(a, b)
}

proof fn lemma_lex_reflexive(a: Seq<u8>)
    ensures
        lex_le(a, a),
    decreases a.len(),
{
    if a.len() > 0 {
        lemma_lex_reflexive(a.drop_first());
    }
}

proof fn lemma_lex_total(a: Seq<u8>, b: Seq<u8>)
    ensures
        lex_le(a, b) || lex_le(b, a),
    decreases a.len(),
{
    if a.len() > 0 && b.len() > 0 && a[0] == b[0] {
        lemma_lex_total(a.drop_first(), b.drop_first());
    }
}

proof fn lemma_lex_antisymmetric(a: Seq<u8>, b: Seq<u8>)
    requires
        lex_le(a, b),
        lex_le(b, a),
    ensures
        a == b,
    decreases a.len(),
{
    if a.len() == 0 {
        assert(b.len() == 0);
        assert(a =~= b);
    } else {
        lemma_lex_antisymmetric(a.drop_first(), b.drop_first());
        assert(a =~= seq![a[0]] + a.drop_first());
        assert(b =~= seq![b[0]] + b.drop_first());
    }
}

proof fn lemma_lex_transitive(a: Seq<u8>, b: Seq<u8>, c: Seq<u8>)
    requires
        lex_le(a, b),
        lex_le(b, c),
    ensures
        lex_le(a, c),
    decreases a.len(),
{
    if a.len() > 0 && b.len() > 0 && c.len() > 0 && a[0] == b[0] && b[0] == c[0] {
        lemma_lex_transitive(a.drop_first(), b.drop_first(), c.drop_first());
    }
}

/// The byte-wise lexicographic order is a total order.
pub proof fn lemma_lex_total_ordering()
    ensures
        total_ordering(lex_order()),
{
    assert forall|a: Seq<u8>| #[trigger] lex_order()(a, a) by {
        lemma_lex_reflexive(a);
    }
    assert forall|a: Seq<u8>, b: Seq<u8>| #[trigger]
        lex_order()(a, b) && #[trigger] lex_order()(b, a) implies a == b by {
        lemma_lex_antisymmetric(a, b);
    }
    assert forall|a: Seq<u8>, b: Seq<u8>, c: Seq<u8>| #[trigger]
        lex_order()(a, b) && #[trigger] lex_order()(b, c) implies lex_order()(a, c) by {
        lemma_lex_transitive(a, b, c);
    }
    assert forall|a: Seq<u8>, b: Seq<u8>| #[trigger] lex_order()(a, b) || lex_order()(b, a) by {
        lemma_lex_total(a, b);
    }
}

/// `s` in ascending order.
pub open spec fn sorted_names(s: Seq<Seq<u8>>) -> Seq<Seq<u8>> {
    s.sort_by(lex_order())
}

/// The position at which `x` goes into the ascending `s`: before the first
/// element that it does not exceed.
pub open spec fn insert_pos(s: Seq<Seq<u8>>, x: Seq<u8>) -> int
    decreases s.len(),
{
    if s.len() == 0 {
        0
    } else if lex_le(x, s[0]) {
        0
    } else {
        1 + insert_pos(s.drop_first(), x)
    }
}

pub proof fn lemma_insert_pos(s: Seq<Seq<u8>>, x: Seq<u8>)
    ensures
        0 <= insert_pos(s, x) <= s.len(),
        forall|i: int| 0 <= i < insert_pos(s, x) ==> !lex_le(x, #[trigger] s[i]),
        insert_pos(s, x) < s.len() ==> lex_le(x, s[insert_pos(s, x)]),
    decreases s.len(),
{
    if s.len() > 0 && !lex_le(x, s[0]) {
        lemma_insert_pos(s.drop_first(), x);
        assert forall|i: int| 0 <= i < insert_pos(s, x) implies !lex_le(x, #[trigger] s[i]) by {
            if i > 0 {
                assert(s[i] == s.drop_first()[i - 1]);
            }
        }
    }
}

/// Inserting `x` at its position keeps an ascending sequence ascending.
pub proof fn lemma_insert_sorted(s: Seq<Seq<u8>>, x: Seq<u8>)
    requires
        sorted_by(s, lex_order()),
    ensures
        sorted_by(s.insert(insert_pos(s, x), x), lex_order()),
        s.insert(insert_pos(s, x), x).to_multiset() == s.to_multiset().insert(x),
{
    lemma_lex_total_ordering();
    lemma_insert_pos(s, x);
    let p = insert_pos(s, x);
    let t = s.insert(p, x);
    assert forall|i: int, j: int| 0 <= i < j < t.len() implies #[trigger] lex_order()(t[i], t[j]) by {
        if j < p {
            assert(t[i] == s[i] && t[j] == s[j]);
        } else if j == p {
            assert(t[i] == s[i]);
            lemma_lex_total(x, s[i]);
        } else if i < p {
            assert(t[i] == s[i] && t[j] == s[j - 1]);
            if i < j - 1 {
            } else {
                lemma_lex_reflexive(s[i]);
            }
        } else if i == p {
            assert(t[j] == s[j - 1]);
            if p < j - 1 {
                assert(lex_order()(s[p], s[j - 1]));
                lemma_lex_transitive(x, s[p], s[j - 1]);
            }
        } else {
            assert(t[i] == s[i - 1] && t[j] == s[j - 1]);
        }
    }
    vstd::seq_lib::lemma_seq_union_to_multiset_commutative(s.take(p), seq![x]);
    assert(t =~= s.take(p) + seq![x] + s.skip(p));
    assert(s =~= s.take(p) + s.skip(p));
    vstd::seq_lib::lemma_multiset_commutative(s.take(p), s.skip(p));
    vstd::seq_lib::lemma_multiset_commutative(s.take(p) + seq![x], s.skip(p));
    vstd::seq_lib::lemma_multiset_commutative(s.take(p), seq![x]);
    assert(seq![x].to_multiset() =~= Multiset::empty().insert(x)) by {
        assert(seq![x] =~= Seq::<Seq<u8>>::empty().push(x));
    }
}

/// Two ascending sequences with the same elements, counted with their
/// repetitions, are the same sequence.
pub proof fn lemma_sorted_unique(a: Seq<Seq<u8>>, b: Seq<Seq<u8>>)
    requires
        sorted_by(a, lex_order()),
        sorted_by(b, lex_order()),
        a.to_multiset() == b.to_multiset(),
    ensures
        a == b,
    decreases a.len(),
{
    lemma_lex_total_ordering();
    if a.len() == 0 {
        assert(b.to_multiset().len() == 0);
        assert(b =~= a);
    } else {
        assert(a.to_multiset().len() == a.len());
        assert(b.to_multiset().len() == b.len());
        assert(b.len() == a.len());
        let x = a[0];
        let y = b[0];
        assert(a.to_multiset().count(y) > 0);
        assert(a.contains(y));
        let i = choose|i: int| 0 <= i < a.len() && a[i] == y;
        if i > 0 {
            assert(lex_order()(a[0], a[i]));
        }
        assert(a.contains(x)) by {
            assert(a[0] == x);
        }
        assert(a.to_multiset().count(x) > 0);
        assert(b.to_multiset().count(x) > 0);
        assert(b.contains(x));
        let j = choose|j: int| 0 <= j < b.len() && b[j] == x;
        if j > 0 {
            assert(lex_order()(b[0], b[j]));
        }
        lemma_lex_reflexive(x);
        lemma_lex_antisymmetric(x, y);
        assert(a =~= a.remove(0).insert(0, x));
        assert(b =~= b.remove(0).insert(0, x));
        assert(a.remove(0).to_multiset() == a.to_multiset().remove(x));
        assert(b.remove(0).to_multiset() == b.to_multiset().remove(x));
        assert(sorted_by(a.remove(0), lex_order())) by {
            assert forall|p: int, q: int| 0 <= p < q < a.remove(0).len() implies #[trigger] lex_order()(
                a.remove(0)[p],
                a.remove(0)[q],
            ) by {
                assert(a.remove(0)[p] == a[p + 1] && a.remove(0)[q] == a[q + 1]);
            }
        }
        assert(sorted_by(b.remove(0), lex_order())) by {
            assert forall|p: int, q: int| 0 <= p < q < b.remove(0).len() implies #[trigger] lex_order()(
                b.remove(0)[p],
                b.remove(0)[q],
            ) by {
                assert(b.remove(0)[p] == b[p + 1] && b.remove(0)[q] == b[q + 1]);
            }
        }
        lemma_sorted_unique(a.remove(0), b.remove(0));
    }
}

/// An ascending sequence with the elements of `s` is `s` sorted.
pub proof fn lemma_is_sorted_names(s: Seq<Seq<u8>>, t: Seq<Seq<u8>>)
    requires
        sorted_by(t, lex_order()),
        t.to_multiset() == s.to_multiset(),
    ensures
        t == sorted_names(s),
{
    lemma_lex_total_ordering();
    s.lemma_sort_by_ensures(lex_order());
    lemma_sorted_unique(t, sorted_names(s));
}

/// `s` without the elements that equal the one before them.
pub open spec fn dedup(s: Seq<Seq<u8>>) -> Seq<Seq<u8>>
    decreases s.len(),
{
    if s.len() <= 1 {
        s
    } else if s[s.len() - 1] == s[s.len() - 2] {
        dedup(s.drop_last())
    } else {
        dedup(s.drop_last()).push(s.last())
    }
}

} // verus!
