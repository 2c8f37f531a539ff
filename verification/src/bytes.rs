//! Byte-string helpers shared by the codecs: copying, searching, and decimal
//! numbers in ASCII.

use vstd::prelude::*;

verus! {

pub const SPACE: u8 = 32;

pub const NEWLINE: u8 = 10;

pub const NUL: u8 = 0;

/// Appends `src` to `dst`.
pub fn push_all(dst: &mut Vec<u8>, src: &[u8])
    ensures
        final(dst)@ == old(dst)@ + src@,
{
    let mut i: usize = 0;
    while i < src.len()
        invariant
            0 <= i <= src@.len(),
            dst@ == old(dst)@ + src@.subrange(0, i as int),
        decreases src@.len() - i,
    {
        dst.push(src[i]);
        i = i + 1;
        assert(dst@ =~= old(dst)@ + src@.subrange(0, i as int));
    }
    assert(src@.subrange(0, i as int) =~= src@);
}

/// Copies `src[from..to]` into a new vector.
pub fn copy_range(src: &[u8], from: usize, to: usize) -> (out: Vec<u8>)
    requires
        from <= to <= src@.len(),
    ensures
        out@ == src@.subrange(from as int, to as int),
{
    let mut out: Vec<u8> = Vec::new();
    let mut i: usize = from;
    while i < to
        invariant
            from <= i <= to <= src@.len(),
            out@ == src@.subrange(from as int, i as int),
        decreases to - i,
    {
        out.push(src[i]);
        i = i + 1;
        assert(out@ =~= src@.subrange(from as int, i as int));
    }
    out
}

/// An owned copy of a byte string.
pub fn own(s: &[u8]) -> (out: Vec<u8>)
    ensures
        out@ == s@,
{
    let out = copy_range(s, 0, s.len());
    assert(out@ =~= s@);
    out
}

/// `s` starts with `p`.
pub open spec fn has_prefix(s: Seq<u8>, p: Seq<u8>) -> bool {
    p.len() <= s.len() && s.subrange(0, p.len() as int) == p
}

/// Whether `s` starts with `p`.
pub fn starts_with(s: &[u8], p: &[u8]) -> (r: bool)
    ensures
        r == has_prefix(s@, p@),
{
    if p.len() > s.len() {
        return false;
    }
    same_bytes(vstd::slice::slice_subrange(s, 0, p.len()), p)
}

/// Whether two byte strings hold the same bytes.
pub fn same_bytes(a: &[u8], b: &[u8]) -> (r: bool)
    ensures
        r == (a@ == b@),
{
    if a.len() != b.len() {
        return false;
    }
    let mut i: usize = 0;
    while i < a.len()
        invariant
            0 <= i <= a@.len(),
            a@.len() == b@.len(),
            a@.subrange(0, i as int) == b@.subrange(0, i as int),
        decreases a@.len() - i,
    {
        if a[i] != b[i] {
            return false;
        }
        i = i + 1;
        assert(a@.subrange(0, i as int) =~= a@.subrange(0, i - 1).push(a@[i - 1]));
        assert(b@.subrange(0, i as int) =~= b@.subrange(0, i - 1).push(b@[i - 1]));
    }
    assert(a@.subrange(0, i as int) =~= a@);
    assert(b@.subrange(0, i as int) =~= b@);
    true
}

/// The position of the first `needle` at or after `from`, measured from
/// `from`; `None` when there is none.
pub open spec fn find_from(s: Seq<u8>, from: int, needle: u8) -> Option<int> {
    s.subrange(from, s.len() as int).index_of_first(needle)
}

/// `i` is the first position of `needle` in `s`.
pub open spec fn is_first<A>(s: Seq<A>, needle: A, i: int) -> bool {
    &&& 0 <= i < s.len()
    &&& s[i] == needle
    &&& forall|j: int| 0 <= j < i ==> s[j] != needle
}

/// The first occurrence is the only position that `is_first` accepts.
pub proof fn lemma_first_is<A>(s: Seq<A>, needle: A, i: int)
    requires
        is_first(s, needle, i),
    ensures
        s.index_of_first(needle) == Some(i),
{
    s.index_of_first_ensures(needle);
    assert(s.contains(needle));
    let k = s.index_of_first(needle).unwrap();
    assert(!(k < i));
    assert(!(i < k));
}

/// What `index_of_first` finds is a first occurrence, and it finds one
/// whenever the needle occurs.
pub proof fn lemma_first_found<A>(s: Seq<A>, needle: A)
    ensures
        match s.index_of_first(needle) {
            Some(i) => is_first(s, needle, i),
            None => forall|j: int| 0 <= j < s.len() ==> s[j] != needle,
        },
{
    s.index_of_first_ensures(needle);
}

/// Finds the first `needle` in `s[from..]`; the index returned is into `s`.
pub fn find_byte(s: &[u8], from: usize, needle: u8) -> (r: Option<usize>)
    requires
        from <= s@.len(),
    ensures
        match r {
            Some(i) => find_from(s@, from as int, needle) == Some(i - from) && from <= i < s@.len(),
            None => find_from(s@, from as int, needle) is None,
        },
{
    let ghost tail = s@.subrange(from as int, s@.len() as int);
    let mut i: usize = from;
    while i < s.len()
        invariant
            from <= i <= s@.len(),
            tail == s@.subrange(from as int, s@.len() as int),
            forall|j: int| 0 <= j < i - from ==> tail[j] != needle,
        decreases s@.len() - i,
    {
        if s[i] == needle {
            proof {
                lemma_first_is(tail, needle, i - from);
            }
            return Some(i);
        }
        i = i + 1;
    }
    proof {
        lemma_first_found(tail, needle);
    }
    None
}

pub open spec fn is_digit(b: u8) -> bool {
    48 <= b <= 57
}

pub open spec fn all_digits(s: Seq<u8>) -> bool {
    forall|i: int| 0 <= i < s.len() ==> is_digit(#[trigger] s[i])
}

/// The number that a string of ASCII digits spells, most significant first.
pub open spec fn digits_value(s: Seq<u8>) -> nat
    decreases s.len(),
{
    if s.len() == 0 {
        0
    } else {
        digits_value(s.drop_last()) * 10 + (s.last() - 48) as nat
    }
}

/// The shortest string of ASCII digits that spells `n`.
pub open spec fn decimal(n: nat) -> Seq<u8>
    decreases n,
{
    if n < 10 {
        seq![(48 + n) as u8]
    } else {
        decimal(n / 10).push((48 + n % 10) as u8)
    }
}

/// A number in decimal as `decimal` writes it: digits, at least one, and no
/// zero in front of another digit.
pub open spec fn is_canonical_decimal(s: Seq<u8>) -> bool {
    &&& s.len() >= 1
    &&& all_digits(s)
    &&& (s.len() == 1 || s[0] != 48)
}

/// `decimal` writes a canonical number that spells its argument.
pub proof fn lemma_decimal_value(n: nat)
    ensures
        is_canonical_decimal(decimal(n)),
        digits_value(decimal(n)) == n,
    decreases n,
{
    if n < 10 {
        let s = decimal(n);
        assert(s.drop_last() =~= Seq::<u8>::empty());
        assert(digits_value(s.drop_last()) == 0);
    } else {
        lemma_decimal_value(n / 10);
        let t = decimal(n / 10);
        let s = decimal(n);
        assert(s.drop_last() =~= t);
        assert(s[0] == t[0]);
        if t.len() == 1 {
            assert(t.drop_last() =~= Seq::<u8>::empty());
            assert(digits_value(t.drop_last()) == 0);
            assert(t[0] != 48);
        }
    }
}

/// A digit string that does not start with zero spells a positive number.
proof fn lemma_value_positive(s: Seq<u8>)
    requires
        s.len() >= 1,
        all_digits(s),
        s[0] != 48,
    ensures
        digits_value(s) >= 1,
    decreases s.len(),
{
    if s.len() == 1 {
        assert(s.drop_last() =~= Seq::<u8>::empty());
        assert(digits_value(s.drop_last()) == 0);
    } else {
        lemma_value_positive(s.drop_last());
    }
}

/// A canonical number is what `decimal` writes for its value.
pub proof fn lemma_canonical_decimal(s: Seq<u8>)
    requires
        is_canonical_decimal(s),
    ensures
        decimal(digits_value(s)) == s,
    decreases s.len(),
{
    let t = s.drop_last();
    if s.len() == 1 {
        assert(t =~= Seq::<u8>::empty());
        assert(digits_value(t) == 0);
        assert(decimal(digits_value(s)) =~= s);
    } else {
        lemma_value_positive(t);
        lemma_canonical_decimal(t);
        let v = digits_value(s);
        let d = (s.last() - 48) as nat;
        assert(v == digits_value(t) * 10 + d);
        assert(v / 10 == digits_value(t) && v % 10 == d) by (nonlinear_arith)
            requires
                v == digits_value(t) * 10 + d,
                d < 10,
        ;
        assert(decimal(v) =~= s);
    }
}

/// Writes `n` in decimal.
pub fn write_decimal(n: usize) -> (out: Vec<u8>)
    ensures
        out@ == decimal(n as nat),
    decreases n,
{
    if n < 10 {
        let mut out: Vec<u8> = Vec::new();
        out.push(48u8 + (n as u8));
        assert(out@ =~= decimal(n as nat));
        out
    } else {
        let mut out = write_decimal(n / 10);
        out.push(48u8 + ((n % 10) as u8));
        out
    }
}

/// A prefix of a digit string spells no more than the whole string.
proof fn lemma_value_prefix(s: Seq<u8>, k: int)
    requires
        0 <= k <= s.len(),
    ensures
        digits_value(s.subrange(0, k)) <= digits_value(s),
    decreases s.len() - k,
{
    if k == s.len() {
        assert(s.subrange(0, k) =~= s);
    } else {
        lemma_value_prefix(s, k + 1);
        assert(s.subrange(0, k + 1).drop_last() =~= s.subrange(0, k));
    }
}

/// Whether `s[from..to]` is `want` written in decimal the one canonical way:
/// digits only, at least one, and no zero in front of another digit.
pub fn spells(s: &[u8], from: usize, to: usize, want: usize) -> (r: bool)
    requires
        from <= to <= s@.len(),
    ensures
        r == (s@.subrange(from as int, to as int) == decimal(want as nat)),
{
    let ghost d = s@.subrange(from as int, to as int);
    proof {
        lemma_decimal_value(want as nat);
    }
    if from == to {
        return false;
    }
    assert(d[0] == s@[from as int]);
    if to - from > 1 && s[from] == 48 {
        return false;
    }
    let mut acc: usize = 0;
    let mut i: usize = from;
    while i < to
        invariant
            from <= i <= to <= s@.len(),
            d == s@.subrange(from as int, to as int),
            all_digits(d.subrange(0, i - from)),
            acc == digits_value(d.subrange(0, i - from)),
            acc <= want,
            d.len() == 1 || d[0] != 48,
            is_canonical_decimal(decimal(want as nat)),
            digits_value(decimal(want as nat)) == want,
        decreases to - i,
    {
        let b: u8 = s[i];
        let ghost pre = d.subrange(0, i - from);
        let ghost cur = d.subrange(0, i - from + 1);
        proof {
            assert(cur.drop_last() =~= pre);
            assert(cur.last() == b);
            assert(d[i - from] == b);
        }
        if b < 48 || b > 57 {
            assert(!all_digits(d));
            return false;
        }
        let digit: usize = (b - 48) as usize;
        if digit > want || acc > (want - digit) / 10 {
            proof {
                assert(acc * 10 + digit > want) by (nonlinear_arith)
                    requires
                        digit > want || acc > (want - digit) / 10,
                        digit < 10,
                        acc >= 0,
                ;
                lemma_value_prefix(d, i - from + 1);
            }
            return false;
        }
        proof {
            assert(acc * 10 + digit <= want) by (nonlinear_arith)
                requires
                    acc <= (want - digit) / 10,
                    digit <= want,
            ;
        }
        acc = acc * 10 + digit;
        i = i + 1;
        proof {
            assert forall|j: int| 0 <= j < cur.len() implies is_digit(#[trigger] cur[j]) by {
                if j < pre.len() {
                    assert(cur[j] == pre[j]);
                }
            }
        }
    }
    assert(d.subrange(0, i - from) =~= d);
    proof {
        lemma_canonical_decimal(d);
    }
    acc == want
}

} // verus!
