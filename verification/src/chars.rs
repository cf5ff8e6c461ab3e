//! Character-level text primitives, for the short directive strings whose
//! words are separated by any Unicode white space.
use vstd::prelude::*;
use vstd::string::*;

verus! {

/// True for the characters that `char::is_whitespace` accepts (the Unicode
/// `White_Space` property).
pub open spec fn is_ws(c: char) -> bool {
    ||| ('\u{9}' <= c <= '\u{d}')
    ||| c == ' '
    ||| c == '\u{85}'
    ||| c == '\u{a0}'
    ||| c == '\u{1680}'
    ||| ('\u{2000}' <= c <= '\u{200a}')
    ||| c == '\u{2028}'
    ||| c == '\u{2029}'
    ||| c == '\u{202f}'
    ||| c == '\u{205f}'
    ||| c == '\u{3000}'
}

/// Whether `c` is white space.
pub fn is_ws_exec(c: char) -> (r: bool)
    ensures
        r == is_ws(c),
{
    ('\u{9}' <= c && c <= '\u{d}') || c == ' ' || c == '\u{85}' || c == '\u{a0}' || c == '\u{1680}'
        || ('\u{2000}' <= c && c <= '\u{200a}') || c == '\u{2028}' || c == '\u{2029}' || c
        == '\u{202f}' || c == '\u{205f}' || c == '\u{3000}'
}

/// The characters of `s`.
pub fn to_chars(s: &str) -> (v: Vec<char>)
    ensures
        v@ == s@,
{
    let mut v: Vec<char> = Vec::new();
    for c in it: s.chars()
        invariant
            v@ == it.seq().take(it.index() as int),
            it.seq() == s@,
    {
        v.push(c);
    }
    v
}

/// The first offset `j >= i` at which `s` holds white space, or `s.len()`.
pub open spec fn word_end(s: Seq<char>, i: int) -> int
    decreases s.len() - i,
{
    if i >= s.len() {
        s.len() as int
    } else if i >= 0 && is_ws(s[i]) {
        i
    } else {
        word_end(s, i + 1)
    }
}

pub proof fn lemma_word_end(s: Seq<char>, i: int)
    requires
        0 <= i <= s.len(),
    ensures
        i <= word_end(s, i) <= s.len(),
        word_end(s, i) < s.len() ==> is_ws(s[word_end(s, i)]),
        forall|k: int| i <= k < word_end(s, i) ==> !is_ws(s[k]),
    decreases s.len() - i,
{
    if i < s.len() && !is_ws(s[i]) {
        lemma_word_end(s, i + 1);
    }
}

/// The words of `s`: its maximal runs of characters other than white
/// space, as `str::split_whitespace` gives them.
pub open spec fn words(s: Seq<char>) -> Seq<Seq<char>>
    decreases s.len(),
{
    if s.len() == 0 {
        seq![]
    } else if is_ws(s[0]) {
        words(s.drop_first())
    } else {
        let k = word_end(s, 0);
        proof {
            lemma_word_end(s, 0);
        }
        seq![s.take(k)] + words(s.skip(k))
    }
}

/// The first offset of `c` in `s`, or `s.len()`.
pub open spec fn char_index(s: Seq<char>, c: char) -> int
    decreases s.len(),
{
    if s.len() == 0 {
        0
    } else if s[0] == c {
        0
    } else {
        1 + char_index(s.drop_first(), c)
    }
}

pub proof fn lemma_char_index(s: Seq<char>, c: char)
    ensures
        0 <= char_index(s, c) <= s.len(),
        char_index(s, c) < s.len() ==> s[char_index(s, c)] == c,
        forall|k: int| 0 <= k < char_index(s, c) ==> s[k] != c,
    decreases s.len(),
{
    if s.len() > 0 && s[0] != c {
        lemma_char_index(s.drop_first(), c);
        assert forall|k: int| 0 <= k < char_index(s, c) implies s[k] != c by {
            if k > 0 {
                assert(s[k] == s.drop_first()[k - 1]);
            }
        }
    }
}

/// `s` split at its first `c`, or `None` when `c` does not occur.
pub open spec fn split_once_char(s: Seq<char>, c: char) -> Option<(Seq<char>, Seq<char>)> {
    let i = char_index(s, c);
    if i < s.len() {
        Some((s.take(i), s.skip(i + 1)))
    } else {
        None
    }
}

/// The pieces of `s` between the occurrences of `c` (`str::split`).
pub open spec fn split_char(s: Seq<char>, c: char) -> Seq<Seq<char>>
    decreases s.len(),
{
    let i = char_index(s, c);
    if i < s.len() {
        proof {
            lemma_char_index(s, c);
        }
        seq![s.take(i)] + split_char(s.skip(i + 1), c)
    } else {
        seq![s]
    }
}

/// `s` without its leading and trailing white space (`str::trim`).
pub open spec fn trim(s: Seq<char>) -> Seq<char>
    decreases s.len(),
{
    if s.len() > 0 && is_ws(s[0]) {
        trim(s.drop_first())
    } else if s.len() > 0 && is_ws(s.last()) {
        trim(s.drop_last())
    } else {
        s
    }
}

/// Whether `v[s..e]` is the text `t`.
pub fn chars_eq(v: &Vec<char>, s: usize, e: usize, t: &str) -> (r: bool)
    requires
        s <= e <= v@.len(),
    ensures
        r == (v@.subrange(s as int, e as int) == t@),
{
    let tc = to_chars(t);
    if e - s != tc.len() {
        return false;
    }
    let mut i: usize = 0;
    while i < tc.len()
        invariant
            e - s == tc@.len(),
            s <= e <= v@.len(),
            tc@ == t@,
            i <= tc@.len(),
            forall|j: int| 0 <= j < i ==> v@[s + j] == tc@[j],
        decreases tc@.len() - i,
    {
        if v[s + i] != tc[i] {
            assert(v@.subrange(s as int, e as int)[i as int] != t@[i as int]);
            return false;
        }
        i = i + 1;
    }
    assert(v@.subrange(s as int, e as int) =~= t@);
    true
}

/// The offset of the first `c` in `v[s..e]`, as an absolute offset, or `e`.
pub fn find_char(v: &Vec<char>, c: char, s: usize, e: usize) -> (r: usize)
    requires
        s <= e <= v@.len(),
    ensures
        s <= r <= e,
        r - s == char_index(v@.subrange(s as int, e as int), c),
{
    let ghost t = v@.subrange(s as int, e as int);
    proof {
        lemma_char_index(t, c);
    }
    let mut i = s;
    while i < e
        invariant
            s <= i <= e <= v@.len(),
            t == v@.subrange(s as int, e as int),
            forall|k: int| s <= k < i ==> v@[k] != c,
            0 <= char_index(t, c) <= t.len(),
            char_index(t, c) < t.len() ==> t[char_index(t, c)] == c,
            forall|k: int| 0 <= k < char_index(t, c) ==> t[k] != c,
        decreases e - i,
    {
        if v[i] == c {
            proof {
                assert(t[i - s] == c);
                if char_index(t, c) < i - s {
                    assert(v@[s + char_index(t, c)] == c);
                }
            }
            return i;
        }
        i = i + 1;
    }
    proof {
        if char_index(t, c) < e - s {
            assert(v@[s + char_index(t, c)] == c);
        }
    }
    i
}

/// The words of `v[s..]`, as offset pairs.
pub fn word_ranges(v: &Vec<char>) -> (r: Vec<(usize, usize)>)
    ensures
        r@.len() == words(v@).len(),
        forall|i: int|
            0 <= i < r@.len() ==> r@[i].0 <= r@[i].1 <= v@.len() && v@.subrange(
                r@[i].0 as int,
                r@[i].1 as int,
            ) == #[trigger] words(v@)[i],
{
    let mut out: Vec<(usize, usize)> = Vec::new();
    let mut i: usize = 0;
    let n = v.len();
    assert(v@.skip(0) =~= v@);
    assert(out@.map_values(|p: (usize, usize)| v@.subrange(p.0 as int, p.1 as int)) + words(v@)
        =~= words(v@));
    while i < n
        invariant
            n == v@.len(),
            i <= n,
            words(v@) == out@.map_values(|p: (usize, usize)| v@.subrange(p.0 as int, p.1 as int))
                + words(v@.skip(i as int)),
            forall|k: int| 0 <= k < out@.len() ==> (#[trigger] out@[k]).0 <= out@[k].1 <= n,
        decreases n - i,
    {
        let ghost rest = v@.skip(i as int);
        let ghost before = out@.map_values(|p: (usize, usize)| v@.subrange(p.0 as int, p.1 as int));
        if is_ws_exec(v[i]) {
            assert(rest.drop_first() =~= v@.skip(i + 1));
            i = i + 1;
        } else {
            let start = i;
            while i < n && !is_ws_exec(v[i])
                invariant
                    n == v@.len(),
                    start < n,
                    start <= i <= n,
                    forall|k: int| start <= k < i ==> !is_ws(v@[k]),
                decreases n - i,
            {
                i = i + 1;
            }
            proof {
                lemma_word_end(rest, 0);
                let k = word_end(rest, 0);
                assert forall|j: int| 0 <= j < i - start implies !is_ws(#[trigger] rest[j]) by {
                    assert(rest[j] == v@[start + j]);
                }
                if k < i - start {
                    assert(rest[k] == v@[start + k]);
                }
                if i < n && k > i - start {
                    assert(rest[i - start] == v@[i as int]);
                }
                assert(k == i - start);
                assert(rest.take(k) =~= v@.subrange(start as int, i as int));
                assert(rest.skip(k) =~= v@.skip(i as int));
            }
            out.push((start, i));
            assert(out@.map_values(|p: (usize, usize)| v@.subrange(p.0 as int, p.1 as int)) =~= before.push(
                v@.subrange(start as int, i as int),
            ));
        }
    }
    assert(v@.skip(n as int) =~= Seq::<char>::empty());
    assert(words(v@) =~= out@.map_values(|p: (usize, usize)| v@.subrange(p.0 as int, p.1 as int)));
    out
}

/// The offsets that delimit the trimmed text of `v`.
pub fn trim_range(v: &Vec<char>) -> (r: (usize, usize))
    ensures
        r.0 <= r.1 <= v@.len(),
        v@.subrange(r.0 as int, r.1 as int) == trim(v@),
{
    let n = v.len();
    let mut i: usize = 0;
    assert(v@.subrange(0, n as int) =~= v@);
    while i < n && is_ws_exec(v[i])
        invariant
            n == v@.len(),
            i <= n,
            trim(v@) == trim(v@.subrange(i as int, n as int)),
        decreases n - i,
    {
        assert(v@.subrange(i as int, n as int).drop_first() =~= v@.subrange(i + 1, n as int));
        i = i + 1;
    }
    let mut j = n;
    while j > i && is_ws_exec(v[j - 1])
        invariant
            n == v@.len(),
            i <= j <= n,
            i < n ==> !is_ws(v@[i as int]),
            trim(v@) == trim(v@.subrange(i as int, j as int)),
        decreases j - i,
    {
        assert(v@.subrange(i as int, j as int).drop_last() =~= v@.subrange(i as int, j - 1));
        j = j - 1;
    }
    (i, j)
}

/// The pieces of `v[s..e]` between the occurrences of `c`, as offset pairs.
pub fn split_ranges(v: &Vec<char>, c: char, s: usize, e: usize) -> (r: Vec<(usize, usize)>)
    requires
        s <= e <= v@.len(),
    ensures
        r@.len() == split_char(v@.subrange(s as int, e as int), c).len(),
        forall|i: int|
            0 <= i < r@.len() ==> (#[trigger] r@[i]).0 <= r@[i].1 <= v@.len() && v@.subrange(
                r@[i].0 as int,
                r@[i].1 as int,
            ) == split_char(v@.subrange(s as int, e as int), c)[i],
{
    let mut out: Vec<(usize, usize)> = Vec::new();
    let mut i = s;
    let ghost whole = split_char(v@.subrange(s as int, e as int), c);
    assert(out@.map_values(|p: (usize, usize)| v@.subrange(p.0 as int, p.1 as int)) + whole =~= whole);
    loop
        invariant
            s <= i <= e <= v@.len(),
            whole == split_char(v@.subrange(s as int, e as int), c),
            whole == out@.map_values(|p: (usize, usize)| v@.subrange(p.0 as int, p.1 as int))
                + split_char(v@.subrange(i as int, e as int), c),
            forall|k: int| 0 <= k < out@.len() ==> (#[trigger] out@[k]).0 <= out@[k].1 <= v@.len(),
        decreases e - i,
    {
        let ghost rest = v@.subrange(i as int, e as int);
        let ghost before = out@.map_values(|p: (usize, usize)| v@.subrange(p.0 as int, p.1 as int));
        let k = find_char(v, c, i, e);
        proof {
            lemma_char_index(rest, c);
        }
        if k == e {
            out.push((i, e));
            assert(split_char(rest, c) =~= seq![rest]);
            assert(out@.map_values(|p: (usize, usize)| v@.subrange(p.0 as int, p.1 as int)) =~= before.push(rest));
            assert(whole =~= out@.map_values(|p: (usize, usize)| v@.subrange(p.0 as int, p.1 as int)));
            return out;
        }
        out.push((i, k));
        assert(rest.take(k - i) =~= v@.subrange(i as int, k as int));
        assert(rest.skip(k - i + 1) =~= v@.subrange(k + 1, e as int));
        assert(out@.map_values(|p: (usize, usize)| v@.subrange(p.0 as int, p.1 as int)) =~= before.push(
            v@.subrange(i as int, k as int),
        ));
        assert(whole =~= out@.map_values(|p: (usize, usize)| v@.subrange(p.0 as int, p.1 as int))
            + split_char(v@.subrange(k + 1, e as int), c));
        i = k + 1;
    }
}

/// `s` without its leading and trailing white space (`str::trim`).
pub fn trim_str<'a>(s: &'a str) -> (r: &'a str)
    ensures
        r@ == trim(s@),
{
    let v = to_chars(s);
    let (a, b) = trim_range(&v);
    s.substring_char(a, b)
}

/// The words of `v`.
pub fn split_words<'a>(v: &'a str) -> (r: Vec<&'a str>)
    ensures
        crate::addformat::strs_chars(r@) == words(v@),
{
    let vc = to_chars(v);
    let ws = word_ranges(&vc);
    let mut out: Vec<&'a str> = Vec::new();
    let mut i: usize = 0;
    assert(words(v@).take(0) =~= Seq::<Seq<char>>::empty());
    assert(crate::addformat::strs_chars(out@) =~= Seq::<Seq<char>>::empty());
    assert forall|k: int| 0 <= k < ws@.len() implies (#[trigger] ws@[k]).0 <= ws@[k].1 <= vc@.len()
        && vc@.subrange(ws@[k].0 as int, ws@[k].1 as int) == words(vc@)[k] by {
        assert(vc@.subrange(ws@[k].0 as int, ws@[k].1 as int) == words(vc@)[k]);
    }
    while i < ws.len()
        invariant
            vc@ == v@,
            ws@.len() == words(vc@).len(),
            forall|k: int|
                0 <= k < ws@.len() ==> (#[trigger] ws@[k]).0 <= ws@[k].1 <= vc@.len() && vc@.subrange(
                    ws@[k].0 as int,
                    ws@[k].1 as int,
                ) == words(vc@)[k],
            i <= ws@.len(),
            crate::addformat::strs_chars(out@) == words(v@).take(i as int),
        decreases ws@.len() - i,
    {
        let (a, b) = ws[i];
        let w = v.substring_char(a, b);
        let ghost before = out@;
        out.push(w);
        assert(crate::addformat::strs_chars(out@) =~= crate::addformat::strs_chars(before).push(w@));
        assert(words(v@).take(i + 1) =~= words(v@).take(i as int).push(w@));
        i = i + 1;
    }
    assert(words(v@).take(i as int) =~= words(v@));
    out
}

} // verus!
