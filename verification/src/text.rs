//! Byte-level text primitives over the UTF-8 encoding of `str` values.
//!
//! The database format is line oriented and every delimiter it uses is an
//! ASCII byte, so the parsers scan `s.as_bytes()` and cut `&str` slices at
//! positions next to ASCII bytes, which are always character boundaries.
use vstd::prelude::*;
use vstd::string::*;
use vstd::utf8::*;

verus! {

broadcast use vstd::utf8::encode_utf8_valid_utf8, vstd::utf8::encode_utf8_decode_utf8;

/// The bytes of an ASCII text, one byte per character.
pub open spec fn lit(s: Seq<char>) -> Seq<u8> {
    Seq::new(s.len(), |i: int| s[i] as u8)
}

/// True when `b` is the encoding of an ASCII character.
pub open spec fn is_ascii_byte(b: u8) -> bool {
    b < 0x80
}

/// The bytes of an ASCII string literal are the literal's characters.
pub proof fn lemma_ascii_bytes(s: &str)
    requires
        is_ascii(s),
    ensures
        s.spec_bytes() == lit(s@),
{
    broadcast use vstd::string::is_ascii_spec_bytes;
    assert(s.spec_bytes() =~= lit(s@));
}

/// Two strings with the same bytes are the same string.
pub proof fn lemma_same_bytes_same_str(a: Seq<char>, b: Seq<char>)
    ensures
        (encode_utf8(a) == encode_utf8(b)) <==> (a == b),
{
    if encode_utf8(a) == encode_utf8(b) {
        assert(decode_utf8(encode_utf8(a)) == a);
        assert(decode_utf8(encode_utf8(b)) == b);
    }
}

/// An index that is an end of a valid UTF-8 sequence, or that has an ASCII
/// byte on either side, is a character boundary.
pub proof fn lemma_boundary(bytes: Seq<u8>, i: int)
    requires
        valid_utf8(bytes),
        0 <= i <= bytes.len(),
        i == 0 || i == bytes.len() || is_ascii_byte(bytes[i]) || is_ascii_byte(bytes[i - 1]),
    ensures
        is_char_boundary(bytes, i),
    decreases bytes.len(),
{
    if i == 0 || i == bytes.len() {
        vstd::utf8::is_char_boundary_start_end_of_seq(bytes);
    } else if is_ascii_byte(bytes[i]) {
        vstd::utf8::is_char_boundary_iff_not_is_continuation_byte(bytes, i);
    } else {
        let n = length_of_first_scalar(bytes);
        let tail = pop_first_scalar(bytes);
        reveal_with_fuel(is_char_boundary, 2);
        if i - 1 < n {
            if i - 1 > 0 {
                assert(is_continuation_byte(bytes[i - 1]));
                assert(false);
            }
        } else {
            assert(tail.len() == bytes.len() - n);
            assert(tail[i - 1 - n] == bytes[i - 1]);
            lemma_boundary(tail, i - n);
        }
    }
}

/// The slice of `s` between byte offsets `start` and `end`.
pub fn sub_str<'a>(s: &'a str, start: usize, end: usize) -> (r: &'a str)
    requires
        start <= end <= s.spec_bytes().len(),
        start == 0 || start == s.spec_bytes().len() || is_ascii_byte(s.spec_bytes()[start as int])
            || is_ascii_byte(s.spec_bytes()[start - 1]),
        end == 0 || end == s.spec_bytes().len() || is_ascii_byte(s.spec_bytes()[end as int])
            || is_ascii_byte(s.spec_bytes()[end - 1]),
    ensures
        r.spec_bytes() == s.spec_bytes().subrange(start as int, end as int),
{
    let ghost b = s.spec_bytes();
    proof {
        lemma_boundary(b, start as int);
        lemma_boundary(b, end as int);
    }
    let (_, tail) = s.split_at(start);
    let ghost t = tail.spec_bytes();
    proof {
        assert(t =~= b.subrange(start as int, b.len() as int));
        let k = end - start;
        if k != 0 && k != t.len() {
            assert(t[k as int] == b[end as int]);
            assert(t[k - 1] == b[end - 1]);
        }
        lemma_boundary(t, k as int);
    }
    let (head, _) = tail.split_at(end - start);
    assert(head.spec_bytes() =~= b.subrange(start as int, end as int));
    head
}

/// Byte-wise equality of two byte slices.
pub fn bytes_eq(a: &[u8], b: &[u8]) -> (r: bool)
    ensures
        r == (a@ == b@),
{
    if a.len() != b.len() {
        return false;
    }
    let mut i: usize = 0;
    while i < a.len()
        invariant
            a@.len() == b@.len(),
            i <= a@.len(),
            forall|j: int| 0 <= j < i ==> a@[j] == b@[j],
        decreases a@.len() - i,
    {
        if a[i] != b[i] {
            return false;
        }
        i = i + 1;
    }
    assert(a@ =~= b@);
    true
}

/// Equality of two strings, decided on their UTF-8 bytes.
pub fn str_eq(a: &str, b: &str) -> (r: bool)
    ensures
        r == (a@ == b@),
{
    let r = bytes_eq(a.as_bytes(), b.as_bytes());
    proof {
        lemma_same_bytes_same_str(a@, b@);
    }
    r
}

/// True when `b` begins with `p`.
pub open spec fn starts_with(b: Seq<u8>, p: Seq<u8>) -> bool {
    p.len() <= b.len() && b.subrange(0, p.len() as int) == p
}

/// True when `b` ends with `p`.
pub open spec fn ends_with(b: Seq<u8>, p: Seq<u8>) -> bool {
    p.len() <= b.len() && b.subrange(b.len() - p.len(), b.len() as int) == p
}

/// True when `p` occurs in `b` at byte offset `i`.
pub open spec fn occurs_at(b: Seq<u8>, p: Seq<u8>, i: int) -> bool {
    0 <= i && i + p.len() <= b.len() && b.subrange(i, i + p.len()) == p
}

/// True when `p` occurs somewhere in `b`.
pub open spec fn contains_bytes(b: Seq<u8>, p: Seq<u8>) -> bool {
    exists|i: int| occurs_at(b, p, i)
}

/// Whether `p` occurs in `b` at offset `i`.
pub fn occurs_at_exec(b: &[u8], p: &[u8], i: usize) -> (r: bool)
    ensures
        r == occurs_at(b@, p@, i as int),
{
    if i > b.len() || p.len() > b.len() - i {
        return false;
    }
    let n = b.len();
    let mut k: usize = 0;
    while k < p.len()
        invariant
            n == b@.len(),
            i + p@.len() <= b@.len(),
            k <= p@.len(),
            forall|j: int| 0 <= j < k ==> b@[i + j] == p@[j],
        decreases p@.len() - k,
    {
        assert(i + k < n);
        if b[i + k] != p[k] {
            assert(b@.subrange(i as int, i + p@.len())[k as int] != p@[k as int]);
            return false;
        }
        k = k + 1;
    }
    assert(b@.subrange(i as int, i + p@.len()) =~= p@);
    true
}

/// Whether `b` begins with `p`.
pub fn starts_with_exec(b: &[u8], p: &[u8]) -> (r: bool)
    ensures
        r == starts_with(b@, p@),
{
    occurs_at_exec(b, p, 0)
}

/// Whether `p` occurs somewhere in `b`.
pub fn contains_exec(b: &[u8], p: &[u8]) -> (r: bool)
    ensures
        r == contains_bytes(b@, p@),
{
    if p.len() > b.len() {
        assert(forall|i: int| !occurs_at(b@, p@, i));
        return false;
    }
    let last = b.len() - p.len();
    let mut i: usize = 0;
    while i < last
        invariant
            p@.len() <= b@.len(),
            last == b@.len() - p@.len(),
            i <= last,
            forall|j: int| 0 <= j < i ==> !occurs_at(b@, p@, j),
        decreases last - i,
    {
        if occurs_at_exec(b, p, i) {
            return true;
        }
        i = i + 1;
    }
    if occurs_at_exec(b, p, last) {
        return true;
    }
    assert forall|j: int| !occurs_at(b@, p@, j) by {
        if 0 <= j < i {
        }
    }
    false
}

/// The first offset `k >= i` with `b[k] == x`, or `b.len()` when there is none.
pub open spec fn index_of_from(b: Seq<u8>, x: u8, i: int) -> int
    decreases b.len() - i,
{
    if i >= b.len() {
        b.len() as int
    } else if i >= 0 && b[i] == x {
        i
    } else {
        index_of_from(b, x, i + 1)
    }
}

/// The first offset of `x` in `b`, or `b.len()` when `x` does not occur.
pub open spec fn index_of(b: Seq<u8>, x: u8) -> int {
    index_of_from(b, x, 0)
}

pub proof fn lemma_index_of_from_bounds(b: Seq<u8>, x: u8, i: int)
    requires
        0 <= i <= b.len(),
    ensures
        i <= index_of_from(b, x, i) <= b.len(),
        index_of_from(b, x, i) < b.len() ==> b[index_of_from(b, x, i)] == x,
        forall|k: int| i <= k < index_of_from(b, x, i) ==> b[k] != x,
    decreases b.len() - i,
{
    if i < b.len() && b[i] != x {
        lemma_index_of_from_bounds(b, x, i + 1);
    }
}

/// The offset of the first `x` in `b[start..end]`, counted from `start`
/// and returned as an absolute offset (`end` when there is none).
pub fn find_byte(b: &[u8], x: u8, start: usize, end: usize) -> (r: usize)
    requires
        start <= end <= b@.len(),
    ensures
        start <= r <= end,
        r - start == index_of(b@.subrange(start as int, end as int), x),
        r < end ==> b@[r as int] == x,
{
    let ghost l = b@.subrange(start as int, end as int);
    let mut i = start;
    while i < end
        invariant
            start <= i <= end <= b@.len(),
            l == b@.subrange(start as int, end as int),
            index_of(l, x) == index_of_from(l, x, i - start),
        decreases end - i,
    {
        if b[i] == x {
            assert(l[i - start] == x);
            return i;
        }
        assert(l[i - start] != x);
        i = i + 1;
    }
    i
}

/// A line without its `\r` terminator, if it has one.
pub open spec fn strip_cr(l: Seq<u8>) -> Seq<u8> {
    if l.len() > 0 && l.last() == 13u8 {
        l.drop_last()
    } else {
        l
    }
}

/// The lines of `b[pos..]`, split as `str::lines` splits them: at each `\n`,
/// with a `\r` right before the `\n` removed, and no empty line after a
/// final `\n`.
pub open spec fn lines_from(b: Seq<u8>, pos: int) -> Seq<Seq<u8>>
    decreases b.len() - pos,
{
    if pos < 0 || pos >= b.len() {
        seq![]
    } else {
        let nl = index_of_from(b, 10u8, pos);
        if nl < b.len() {
            proof {
                lemma_index_of_from_bounds(b, 10u8, pos);
            }
            seq![strip_cr(b.subrange(pos, nl))] + lines_from(b, nl + 1)
        } else {
            seq![b.subrange(pos, b.len() as int)]
        }
    }
}

/// The lines of `b`, as `str::lines` gives them.
pub open spec fn lines(b: Seq<u8>) -> Seq<Seq<u8>> {
    lines_from(b, 0)
}

/// The next line of `b` at offset `pos`: its start and end offsets and the
/// offset where the line after it begins.
pub fn next_line(b: &[u8], pos: usize) -> (r: Option<(usize, usize, usize)>)
    requires
        pos <= b@.len(),
    ensures
        r is None <==> pos == b@.len(),
        r matches Some((s, e, n)) ==> {
            &&& s == pos
            &&& s <= e <= n <= b@.len()
            &&& s < n
            &&& lines_from(b@, pos as int) == seq![b@.subrange(s as int, e as int)] + lines_from(
                b@,
                n as int,
            )
            &&& (e == b@.len() || b@[e as int] == 10u8 || b@[e as int] == 13u8)
            &&& (n == b@.len() || b@[n - 1] == 10u8)
            &&& forall|k: int| s <= k < e ==> b@[k] != 10u8
        },
{
    let len = b.len();
    if pos == len {
        return None;
    }
    let nl = find_byte(b, 10u8, pos, len);
    proof {
        lemma_index_of_from_bounds(b@, 10u8, pos as int);
        lemma_index_of_subrange(b@, 10u8, pos as int);
    }
    if nl < len {
        let mut e = nl;
        if nl > pos && b[nl - 1] == 13u8 {
            e = nl - 1;
        }
        assert(b@.subrange(pos as int, e as int) == strip_cr(b@.subrange(pos as int, nl as int)));
        Some((pos, e, nl + 1))
    } else {
        assert(lines_from(b@, len as int) =~= Seq::<Seq<u8>>::empty());
        assert(lines_from(b@, pos as int) =~= seq![b@.subrange(pos as int, len as int)] + lines_from(b@, len as int));
        Some((pos, len, len))
    }
}

/// The first offset of `x` in a slice of `b` is the first offset of `x` in
/// `b` from the slice's start.
pub proof fn lemma_index_of_subrange(b: Seq<u8>, x: u8, start: int)
    requires
        0 <= start <= b.len(),
    ensures
        start + index_of(b.subrange(start, b.len() as int), x) == index_of_from(b, x, start),
{
    let l = b.subrange(start, b.len() as int);
    lemma_index_of_from_bounds(b, x, start);
    lemma_index_of_from_bounds(l, x, 0);
    let a = index_of_from(b, x, start);
    let c = index_of(l, x);
    if start + c < a {
        assert(l[c] == b[start + c]);
    } else if start + c > a {
        assert(l[a - start] == b[a]);
    }
}

/// The value of a sequence of decimal digits.
pub open spec fn digits_value(d: Seq<u8>) -> nat
    decreases d.len(),
{
    if d.len() == 0 {
        0
    } else {
        digits_value(d.drop_last()) * 10 + (d.last() - 48) as nat
    }
}

/// True when every byte of `d` is an ASCII decimal digit.
pub open spec fn all_digits(d: Seq<u8>) -> bool {
    forall|i: int| 0 <= i < d.len() ==> 48 <= #[trigger] d[i] <= 57
}

/// The digits of an unsigned integer text: an optional leading `+` removed.
pub open spec fn unsigned_digits(s: Seq<u8>) -> Seq<u8> {
    if s.len() >= 1 && s[0] == 43u8 {
        s.drop_first()
    } else {
        s
    }
}

/// The value of `s` read as an unsigned integer no greater than `max`, as
/// `str::parse` reads one: an optional `+`, then at least one decimal
/// digit and nothing else; `None` when the text is malformed or the value is
/// greater than `max`.
pub open spec fn parse_unsigned(s: Seq<u8>, max: nat) -> Option<nat> {
    let d = unsigned_digits(s);
    if d.len() == 0 || !all_digits(d) || digits_value(d) > max {
        None
    } else {
        Some(digits_value(d))
    }
}

proof fn lemma_digits_value_prefix(d: Seq<u8>, k: int)
    requires
        all_digits(d),
        0 <= k <= d.len(),
    ensures
        digits_value(d.subrange(0, k)) <= digits_value(d),
    decreases d.len(),
{
    if k < d.len() {
        assert(all_digits(d.drop_last()));
        lemma_digits_value_prefix(d.drop_last(), k);
        assert(d.drop_last().subrange(0, k) =~= d.subrange(0, k));
    } else {
        assert(d.subrange(0, k) =~= d);
    }
}

/// Reads `b[start..end]` as an unsigned integer no greater than `max`.
pub fn parse_unsigned_exec(b: &[u8], start: usize, end: usize, max: u64) -> (r: Option<u64>)
    requires
        start <= end <= b@.len(),
    ensures
        match r {
            Some(v) => parse_unsigned(b@.subrange(start as int, end as int), max as nat) == Some(
                v as nat,
            ),
            None => parse_unsigned(b@.subrange(start as int, end as int), max as nat) is None,
        },
{
    let ghost s = b@.subrange(start as int, end as int);
    let mut i = start;
    if i < end && b[i] == 43u8 {
        i = i + 1;
    }
    let ghost d = b@.subrange(i as int, end as int);
    assert(d =~= unsigned_digits(s));
    if i == end {
        return None;
    }
    let mut v: u64 = 0;
    let first = i;
    while i < end
        invariant
            first <= i <= end <= b@.len(),
            s == b@.subrange(start as int, end as int),
            d == unsigned_digits(s),
            d.len() > 0,
            d == b@.subrange(first as int, end as int),
            all_digits(d.subrange(0, i - first)),
            v as nat == digits_value(d.subrange(0, i - first)),
            v <= max,
        decreases end - i,
    {
        let c = b[i];
        assert(d[i - first] == c);
        if c < 48u8 || c > 57u8 {
            assert(!all_digits(d));
            return None;
        }
        let ghost pre = d.subrange(0, i - first);
        let ghost next = d.subrange(0, i - first + 1);
        assert(next.drop_last() =~= pre);
        assert(all_digits(next));
        let m = v.checked_mul(10);
        match m {
            None => {
                proof {
                    assert(digits_value(next) > max);
                    if all_digits(d) {
                        lemma_digits_value_prefix(d, i - first + 1);
                    }
                }
                return None;
            },
            Some(m) => {
                let a = m.checked_add((c - 48u8) as u64);
                match a {
                    None => {
                        proof {
                            if all_digits(d) {
                                lemma_digits_value_prefix(d, i - first + 1);
                            }
                        }
                        return None;
                    },
                    Some(a) => {
                        if a > max {
                            proof {
                                if all_digits(d) {
                                    lemma_digits_value_prefix(d, i - first + 1);
                                }
                            }
                            return None;
                        }
                        v = a;
                    },
                }
            },
        }
        i = i + 1;
    }
    assert(d.subrange(0, i - first) =~= d);
    Some(v)
}

/// The decimal text of `n`, without leading zeros.
pub open spec fn decimal(n: nat) -> Seq<u8>
    decreases n,
{
    if n < 10 {
        seq![(48 + n) as u8]
    } else {
        decimal(n / 10).push((48 + n % 10) as u8)
    }
}

/// Appends `b` to `out`.
pub fn push_bytes(out: &mut Vec<u8>, b: &[u8])
    ensures
        final(out)@ == old(out)@ + b@,
{
    let ghost o = out@;
    let mut i: usize = 0;
    while i < b.len()
        invariant
            i <= b@.len(),
            out@ == o + b@.subrange(0, i as int),
        decreases b@.len() - i,
    {
        out.push(b[i]);
        i = i + 1;
        assert(out@ =~= o + b@.subrange(0, i as int));
    }
    assert(b@.subrange(0, b@.len() as int) =~= b@);
}

/// Appends the decimal text of `n` to `out`.
pub fn push_decimal(out: &mut Vec<u8>, n: u64)
    ensures
        final(out)@ == old(out)@ + decimal(n as nat),
    decreases n,
{
    if n < 10 {
        out.push((48 + n) as u8);
        assert(decimal(n as nat) =~= seq![(48 + n) as u8]);
    } else {
        push_decimal(out, n / 10);
        out.push((48 + n % 10) as u8);
        assert(out@ =~= old(out)@ + decimal(n as nat));
    }
}

/// The bytes of an ASCII text joined from two ASCII texts are the two
/// byte sequences joined.
pub proof fn lemma_ascii_concat(a: &str, b: &str, c: &str)
    requires
        is_ascii(b),
        is_ascii(c),
        a@ == b@ + c@,
    ensures
        is_ascii(a),
        a.spec_bytes() == b.spec_bytes() + c.spec_bytes(),
{
    assert forall|i: int| 0 <= i < a@.len() implies '\0' <= #[trigger] a@[i] <= '\u{7f}' by {
        if i < b@.len() {
            assert(a@[i] == b@[i]);
        } else {
            assert(a@[i] == c@[i - b@.len()]);
        }
    }
    lemma_ascii_bytes(a);
    lemma_ascii_bytes(b);
    lemma_ascii_bytes(c);
    assert(lit(a@) =~= lit(b@) + lit(c@));
}

/// A sequence of ASCII bytes is valid UTF-8.
pub proof fn lemma_ascii_valid_utf8(b: Seq<u8>)
    requires
        forall|i: int| 0 <= i < b.len() ==> #[trigger] b[i] < 0x80,
    ensures
        valid_utf8(b),
{
    assert(b.subrange(0, 0) =~= Seq::<u8>::empty());
    assert(partial_valid_utf8(b, 0));
    assert forall|i: int| 0 <= 0 <= i < b.len() <= b.len() implies #[trigger] is_leading_byte_width_1(
        b[i],
    ) by {
        assert(b[i] < 0x80);
    }
    vstd::utf8::partial_valid_utf8_extend_ascii_block(b, 0, b.len() as int);
    assert(b.subrange(0, b.len() as int) =~= b);
}

/// The digits of a decimal text are ASCII.
pub proof fn lemma_decimal_digits(n: nat)
    ensures
        forall|i: int| 0 <= i < decimal(n).len() ==> 48 <= #[trigger] decimal(n)[i] <= 57,
        decimal(n).len() >= 1,
        valid_utf8(decimal(n)),
    decreases n,
{
    if n >= 10 {
        lemma_decimal_digits(n / 10);
    }
    lemma_ascii_valid_utf8(decimal(n));
}

/// The string whose UTF-8 encoding is `v` (`String::from_utf8`), or `None`
/// when `v` is not valid UTF-8; the standard library documents that the
/// conversion fails exactly on invalid UTF-8 and otherwise keeps the bytes.
#[verifier::external_body]
pub(crate) fn string_from_utf8(v: Vec<u8>) -> (r: Option<String>)
    ensures
        r is Some <==> valid_utf8(v@),
        r matches Some(s) ==> encode_utf8(s@) == v@,
{
    String::from_utf8(v).ok()
}

/// Appends `s` to `out`, which holds `p` after `o`.
pub fn push_after(out: &mut Vec<u8>, s: &str, Ghost(o): Ghost<Seq<u8>>, Ghost(p): Ghost<Seq<u8>>)
    requires
        old(out)@ == o + p,
    ensures
        final(out)@ == o + (p + s.spec_bytes()),
{
    push_bytes(out, s.as_bytes());
    proof {
        vstd::seq_lib::lemma_concat_associative(o, p, s.spec_bytes());
    }
}

/// Appends the decimal text of `n` to `out`, which holds `p` after `o`.
pub fn push_decimal_after(out: &mut Vec<u8>, n: u64, Ghost(o): Ghost<Seq<u8>>, Ghost(p): Ghost<Seq<u8>>)
    requires
        old(out)@ == o + p,
    ensures
        final(out)@ == o + (p + decimal(n as nat)),
{
    push_decimal(out, n);
    proof {
        vstd::seq_lib::lemma_concat_associative(o, p, decimal(n as nat));
    }
}

} // verus!
