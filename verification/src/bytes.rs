//! Byte strings: the lexicographic order that sorts index keys, prefixes,
//! decimal numbers and big-endian words.

use vstd::prelude::*;
use vstd::string::*;

verus! {

/// The first position at or after `i` where `a` and `b` differ, or where
/// one of them ends.
pub open spec fn first_diff(a: Seq<u8>, b: Seq<u8>, i: int) -> int
    decreases a.len() - i,
{
    if 0 <= i < a.len() && i < b.len() && a[i] == b[i] {
        first_diff(a, b, i + 1)
    } else {
        i
    }
}

/// Strict byte-wise lexicographic order: a proper prefix comes first,
/// otherwise the first differing byte decides.
pub open spec fn lex_lt(a: Seq<u8>, b: Seq<u8>) -> bool {
    let k = first_diff(a, b, 0);
    k < b.len() && (k >= a.len() || a[k] < b[k])
}

/// `p` is a prefix of `s`.
pub open spec fn has_prefix(s: Seq<u8>, p: Seq<u8>) -> bool {
    p.len() <= s.len() && s.subrange(0, p.len() as int) == p
}

/// `p` is a suffix of `s`.
pub open spec fn has_suffix(s: Seq<u8>, p: Seq<u8>) -> bool {
    p.len() <= s.len() && s.subrange(s.len() - p.len(), s.len() as int) == p
}

/// `p` occurs in `s` at position `i`.
pub open spec fn occurs_at(s: Seq<u8>, p: Seq<u8>, i: int) -> bool {
    0 <= i && i + p.len() <= s.len() && s.subrange(i, i + p.len()) == p
}

/// `p` occurs somewhere in `s`.
pub open spec fn has_infix(s: Seq<u8>, p: Seq<u8>) -> bool {
    exists|i: int| occurs_at(s, p, i)
}

/// The position of the first `b` in `s` at or after `from`, or the length
/// of `s` when there is none.
pub open spec fn index_of(s: Seq<u8>, b: u8, from: int) -> int
    decreases s.len() - from,
{
    if 0 <= from < s.len() && s[from] != b {
        index_of(s, b, from + 1)
    } else if from < 0 || from > s.len() {
        s.len() as int
    } else {
        from
    }
}

/// The position of the last `b` in the first `upto` bytes of `s`, or -1.
pub open spec fn last_index_of(s: Seq<u8>, b: u8, upto: int) -> int
    decreases upto,
{
    if upto <= 0 || upto > s.len() {
        -1
    } else if s[upto - 1] == b {
        upto - 1
    } else {
        last_index_of(s, b, upto - 1)
    }
}

pub open spec fn is_digit(b: u8) -> bool {
    0x30 <= b <= 0x39
}

pub open spec fn all_digits(s: Seq<u8>) -> bool {
    forall|i: int| 0 <= i < s.len() ==> is_digit(#[trigger] s[i])
}

/// The decimal digits of `n`, most significant first, without padding.
pub open spec fn decimal(n: nat) -> Seq<u8>
    decreases n,
{
    if n < 10 {
        seq![(0x30 + n) as u8]
    } else {
        decimal(n / 10).push((0x30 + n % 10) as u8)
    }
}

/// The octal digits of `n`, most significant first, without padding.
pub open spec fn octal(n: nat) -> Seq<u8>
    decreases n,
{
    if n < 8 {
        seq![(0x30 + n) as u8]
    } else {
        octal(n / 8).push((0x30 + n % 8) as u8)
    }
}

/// The number that a string of decimal digits denotes.
pub open spec fn decimal_value(s: Seq<u8>) -> nat
    decreases s.len(),
{
    if s.len() == 0 {
        0
    } else {
        (10 * decimal_value(s.drop_last()) + (s.last() - 0x30)) as nat
    }
}

/// The four bytes of `x`, most significant first.
pub open spec fn be32(x: u32) -> Seq<u8> {
    seq![(x >> 24) as u8, ((x >> 16) & 0xff) as u8, ((x >> 8) & 0xff) as u8, (x & 0xff) as u8]
}

/// The word that four bytes denote, most significant first.
pub open spec fn from_be32(b: Seq<u8>) -> u32 {
    ((b[0] as u32) << 24) | ((b[1] as u32) << 16) | ((b[2] as u32) << 8) | (b[3] as u32)
}

/// The two bytes of `x`, most significant first.
pub open spec fn be16(x: u16) -> Seq<u8> {
    seq![(x >> 8) as u8, (x & 0xff) as u8]
}

pub open spec fn from_be16(b: Seq<u8>) -> u16 {
    ((b[0] as u16) << 8) | (b[1] as u16)
}

pub proof fn lemma_first_diff(a: Seq<u8>, b: Seq<u8>, i: int)
    requires
        0 <= i <= a.len(),
        i <= b.len(),
        forall|j: int| 0 <= j < i ==> a[j] == b[j],
    ensures
        i <= first_diff(a, b, i) <= a.len(),
        first_diff(a, b, i) <= b.len(),
        forall|j: int| 0 <= j < first_diff(a, b, i) ==> a[j] == b[j],
        first_diff(a, b, i) < a.len() && first_diff(a, b, i) < b.len() ==> a[first_diff(a, b, i)]
            != b[first_diff(a, b, i)],
    decreases a.len() - i,
{
    if i < a.len() && i < b.len() && a[i] == b[i] {
        lemma_first_diff(a, b, i + 1);
    }
}

pub proof fn lemma_first_diff_is(a: Seq<u8>, b: Seq<u8>, i: int, k: int)
    requires
        0 <= i <= k <= a.len(),
        k <= b.len(),
        forall|j: int| 0 <= j < k ==> a[j] == b[j],
        k < a.len() && k < b.len() ==> a[k] != b[k],
    ensures
        first_diff(a, b, i) == k,
    decreases k - i,
{
    if i < k {
        lemma_first_diff_is(a, b, i + 1, k);
    }
}

/// The order is irreflexive.
pub proof fn lemma_lex_irreflexive(a: Seq<u8>)
    ensures
        !lex_lt(a, a),
{
    lemma_first_diff(a, a, 0);
}

/// Two byte strings are equal, or exactly one comes before the other.
pub proof fn lemma_lex_total(a: Seq<u8>, b: Seq<u8>)
    ensures
        lex_lt(a, b) || lex_lt(b, a) || a == b,
        !(lex_lt(a, b) && lex_lt(b, a)),
        a == b ==> !lex_lt(a, b),
{
    lemma_first_diff(a, b, 0);
    let k = first_diff(a, b, 0);
    lemma_first_diff_is(b, a, 0, k);
    if !lex_lt(a, b) && !lex_lt(b, a) {
        assert(a =~= b);
    }
    if a == b {
        lemma_lex_irreflexive(a);
    }
}

/// The order is transitive.
pub proof fn lemma_lex_transitive(a: Seq<u8>, b: Seq<u8>, c: Seq<u8>)
    requires
        lex_lt(a, b),
        lex_lt(b, c),
    ensures
        lex_lt(a, c),
{
    lemma_first_diff(a, b, 0);
    lemma_first_diff(b, c, 0);
    let k1 = first_diff(a, b, 0);
    let k2 = first_diff(b, c, 0);
    let k = if k1 <= k2 {
        k1
    } else {
        k2
    };
    lemma_first_diff_is(a, c, 0, k);
}

/// A proper prefix comes before the string it starts.
pub proof fn lemma_prefix_lex_lt(p: Seq<u8>, s: Seq<u8>)
    requires
        has_prefix(s, p),
        p.len() < s.len(),
    ensures
        lex_lt(p, s),
{
    assert forall|j: int| 0 <= j < p.len() implies p[j] == s[j] by {
        assert(s.subrange(0, p.len() as int)[j] == s[j]);
    }
    lemma_first_diff_is(p, s, 0, p.len() as int);
}

pub proof fn lemma_index_of(s: Seq<u8>, b: u8, from: int)
    requires
        0 <= from <= s.len(),
    ensures
        from <= index_of(s, b, from) <= s.len(),
        forall|j: int| from <= j < index_of(s, b, from) ==> s[j] != b,
        index_of(s, b, from) < s.len() ==> s[index_of(s, b, from)] == b,
    decreases s.len() - from,
{
    if from < s.len() && s[from] != b {
        lemma_index_of(s, b, from + 1);
    }
}

pub proof fn lemma_index_of_is(s: Seq<u8>, b: u8, from: int, k: int)
    requires
        0 <= from <= k <= s.len(),
        forall|j: int| from <= j < k ==> s[j] != b,
        k < s.len() ==> s[k] == b,
    ensures
        index_of(s, b, from) == k,
    decreases k - from,
{
    if from < k {
        lemma_index_of_is(s, b, from + 1, k);
    }
}

pub proof fn lemma_last_index_of(s: Seq<u8>, b: u8, upto: int)
    requires
        0 <= upto <= s.len(),
    ensures
        -1 <= last_index_of(s, b, upto) < upto,
        forall|j: int| last_index_of(s, b, upto) < j < upto ==> s[j] != b,
        last_index_of(s, b, upto) >= 0 ==> s[last_index_of(s, b, upto)] == b,
    decreases upto,
{
    if upto > 0 && s[upto - 1] != b {
        lemma_last_index_of(s, b, upto - 1);
    }
}

pub proof fn lemma_decimal(n: nat)
    ensures
        decimal(n).len() >= 1,
        all_digits(decimal(n)),
        decimal_value(decimal(n)) == n,
        n < 10 <==> decimal(n).len() == 1,
        n > 0 ==> decimal(n)[0] != 0x30,
        decimal(n).len() <= 20 || n > u64::MAX,
    decreases n,
{
    if n < 10 {
        let s = decimal(n);
        assert(s.drop_last() =~= Seq::<u8>::empty());
        assert(decimal_value(s.drop_last()) == 0);
    } else {
        lemma_decimal(n / 10);
        let s = decimal(n);
        assert(s.drop_last() =~= decimal(n / 10));
        assert(s[0] == decimal(n / 10)[0]);
        lemma_decimal_len(n);
    }
}

proof fn lemma_decimal_len(n: nat)
    ensures
        n <= u64::MAX ==> decimal(n).len() <= 20,
{
    if n <= u64::MAX {
        reveal_with_fuel(decimal, 21);
    }
}

pub proof fn lemma_be32_round(x: u32)
    ensures
        be32(x).len() == 4,
        from_be32(be32(x)) == x,
{
    let b = be32(x);
    assert(((((x >> 24) as u8) as u32) << 24) | (((((x >> 16) & 0xff) as u8) as u32) << 16) | (((((x
        >> 8) & 0xff) as u8) as u32) << 8) | (((x & 0xff) as u8) as u32) == x) by (bit_vector);
}

pub proof fn lemma_be16_round(x: u16)
    ensures
        be16(x).len() == 2,
        from_be16(be16(x)) == x,
{
    assert(((((x >> 8) as u8) as u16) << 8) | (((x & 0xff) as u8) as u16) == x) by (bit_vector);
}

pub proof fn lemma_from_be16_round(b: Seq<u8>)
    requires
        b.len() == 2,
    ensures
        be16(from_be16(b)) == b,
{
    let b0 = b[0];
    let b1 = b[1];
    let x = from_be16(b);
    assert((x >> 8) as u8 == b0 && (x & 0xff) as u8 == b1) by (bit_vector)
        requires
            x == ((b0 as u16) << 8) | (b1 as u16),
    ;
    assert(be16(x) =~= b);
}

/// The bytes of ASCII text: each character as one byte.
pub open spec fn text(s: Seq<char>) -> Seq<u8> {
    Seq::new(s.len(), |i: int| s[i] as u8)
}

/// The bytes of an ASCII string.
pub fn lit(s: &str) -> (out: Vec<u8>)
    requires
        is_ascii(s),
    ensures
        out@ == text(s@),
{
    broadcast use is_ascii_spec_bytes;

    let v = vstd::slice::slice_to_vec(s.as_bytes());
    assert(v@ =~= text(s@));
    v
}

/// Whether `a` and `b` hold the same bytes.
pub fn bytes_eq(a: &[u8], b: &[u8]) -> (r: bool)
    ensures
        r == (a@ == b@),
{
    if a.len() != b.len() {
        return false;
    }
    let mut i: usize = 0;
    while i < a.len()
        invariant
            a@.len() == b@.len(),
            i <= a@.len(),
            forall|j: int| 0 <= j < i ==> a@[j] == b@[j],
        decreases a@.len() - i,
    {
        if a[i] != b[i] {
            return false;
        }
        i += 1;
    }
    assert(a@ =~= b@);
    true
}

/// Whether `a` comes strictly before `b` in byte-wise lexicographic order.
pub fn bytes_lt(a: &[u8], b: &[u8]) -> (r: bool)
    ensures
        r == lex_lt(a@, b@),
{
    let mut i: usize = 0;
    while i < a.len() && i < b.len() && a[i] == b[i]
        invariant
            i <= a@.len(),
            i <= b@.len(),
            forall|j: int| 0 <= j < i ==> a@[j] == b@[j],
        decreases a@.len() - i,
    {
        i += 1;
    }
    proof {
        lemma_first_diff_is(a@, b@, 0, i as int);
    }
    i < b.len() && (i >= a.len() || a[i] < b[i])
}

/// Whether `s` begins with `p`.
pub fn starts_with(s: &[u8], p: &[u8]) -> (r: bool)
    ensures
        r == has_prefix(s@, p@),
{
    if p.len() > s.len() {
        return false;
    }
    let mut i: usize = 0;
    while i < p.len()
        invariant
            p@.len() <= s@.len(),
            i <= p@.len(),
            forall|j: int| 0 <= j < i ==> s@[j] == p@[j],
        decreases p@.len() - i,
    {
        if s[i] != p[i] {
            assert(s@.subrange(0, p@.len() as int)[i as int] != p@[i as int]);
            return false;
        }
        i += 1;
    }
    assert(s@.subrange(0, p@.len() as int) =~= p@);
    true
}

/// Whether `p` occurs in `s` at position `at`.
pub fn matches_at(s: &[u8], p: &[u8], at: usize) -> (r: bool)
    ensures
        r == occurs_at(s@, p@, at as int),
{
    if at > s.len() || p.len() > s.len() - at {
        return false;
    }
    let mut i: usize = 0;
    while i < p.len()
        invariant
            at + p@.len() <= s@.len(),
            s@.len() <= usize::MAX,
            i <= p@.len(),
            forall|j: int| 0 <= j < i ==> s@[at + j] == p@[j],
        decreases p@.len() - i,
    {
        if s[at + i] != p[i] {
            assert(s@.subrange(at as int, at + p@.len())[i as int] != p@[i as int]);
            return false;
        }
        i += 1;
    }
    assert(s@.subrange(at as int, at + p@.len()) =~= p@);
    true
}

/// Whether `s` ends with `p`.
pub fn ends_with(s: &[u8], p: &[u8]) -> (r: bool)
    ensures
        r == has_suffix(s@, p@),
{
    if p.len() > s.len() {
        return false;
    }
    matches_at(s, p, s.len() - p.len())
}

/// Whether `p` occurs anywhere in `s`.
pub fn contains_seq(s: &[u8], p: &[u8]) -> (r: bool)
    ensures
        r == has_infix(s@, p@),
{
    if p.len() > s.len() {
        assert forall|i: int| !occurs_at(s@, p@, i) by {}
        return false;
    }
    let last: usize = s.len() - p.len();
    let mut i: usize = 0;
    while i < last
        invariant
            last == s@.len() - p@.len(),
            i <= last,
            forall|j: int| 0 <= j < i ==> !occurs_at(s@, p@, j),
        decreases last - i,
    {
        if matches_at(s, p, i) {
            return true;
        }
        i += 1;
    }
    let found = matches_at(s, p, last);
    if !found {
        assert forall|j: int| !occurs_at(s@, p@, j) by {}
    }
    found
}

/// The position of the first `b` in `s` at or after `from`; the length of
/// `s` when there is none.
pub fn find_byte(s: &[u8], b: u8, from: usize) -> (r: usize)
    requires
        from <= s@.len(),
    ensures
        r == index_of(s@, b, from as int),
        from <= r <= s@.len(),
        forall|j: int| from <= j < r ==> s@[j] != b,
        r < s@.len() ==> s@[r as int] == b,
{
    let mut i: usize = from;
    while i < s.len() && s[i] != b
        invariant
            from <= i <= s@.len(),
            forall|j: int| from <= j < i ==> s@[j] != b,
        decreases s@.len() - i,
    {
        i += 1;
    }
    proof {
        lemma_index_of_is(s@, b, from as int, i as int);
    }
    i
}

/// The bytes of `s` from `from` up to `to`.
pub fn slice_range(s: &[u8], from: usize, to: usize) -> (r: Vec<u8>)
    requires
        from <= to <= s@.len(),
    ensures
        r@ == s@.subrange(from as int, to as int),
{
    let mut out: Vec<u8> = Vec::new();
    let mut i: usize = from;
    while i < to
        invariant
            from <= i <= to <= s@.len(),
            out@ == s@.subrange(from as int, i as int),
        decreases to - i,
    {
        out.push(s[i]);
        proof {
            assert(out@ =~= s@.subrange(from as int, i + 1));
        }
        i += 1;
    }
    out
}

/// A copy of `s`.
pub fn copy_bytes(s: &[u8]) -> (r: Vec<u8>)
    ensures
        r@ == s@,
{
    let r = slice_range(s, 0, s.len());
    assert(s@.subrange(0, s@.len() as int) =~= s@);
    r
}

/// The decimal digits of `n`.
pub fn decimal_bytes(n: u64) -> (r: Vec<u8>)
    ensures
        r@ == decimal(n as nat),
{
    let mut digits: Vec<u8> = Vec::new();
    let mut m: u64 = n;
    // Collect the digits least significant first, then turn them round.
    while m >= 10
        invariant
            decimal(n as nat) == decimal(m as nat) + rev(digits@),
        decreases m,
    {
        let d: u8 = (m % 10) as u8;
        proof {
            let ghost old_digits = digits@;
            assert(decimal(m as nat) == decimal((m / 10) as nat).push((0x30 + m % 10) as u8));
            lemma_rev_push(old_digits, (0x30 + d) as u8);
            assert(decimal((m / 10) as nat).push((0x30 + d) as u8) + rev(old_digits) =~= decimal(
                (m / 10) as nat,
            ) + (seq![(0x30 + d) as u8] + rev(old_digits)));
        }
        digits.push(0x30 + d);
        m = m / 10;
    }
    let mut out: Vec<u8> = Vec::new();
    out.push(0x30 + (m as u8));
    assert(out@ =~= decimal(m as nat));
    assert(digits@.subrange(0, digits@.len() as int) =~= digits@);
    let mut i: usize = digits.len();
    while i > 0
        invariant
            i <= digits@.len(),
            out@ + rev(digits@.subrange(0, i as int)) == decimal(n as nat),
        decreases i,
    {
        i -= 1;
        proof {
            let s = digits@.subrange(0, i + 1);
            assert(s.drop_last() =~= digits@.subrange(0, i as int));
            assert(s.last() == digits@[i as int]);
            assert(out@.push(digits@[i as int]) + rev(digits@.subrange(0, i as int)) =~= out@ + (
            seq![digits@[i as int]] + rev(digits@.subrange(0, i as int))));
        }
        out.push(digits[i]);
    }
    assert(digits@.subrange(0, 0) =~= Seq::<u8>::empty());
    assert(out@ + Seq::<u8>::empty() =~= out@);
    out
}

/// The octal digits of `n`.
pub fn octal_bytes(n: u32) -> (r: Vec<u8>)
    ensures
        r@ == octal(n as nat),
{
    let mut digits: Vec<u8> = Vec::new();
    let mut m: u32 = n;
    // Collect the digits least significant first, then turn them round.
    while m >= 8
        invariant
            octal(n as nat) == octal(m as nat) + rev(digits@),
        decreases m,
    {
        let d: u8 = (m % 8) as u8;
        proof {
            let ghost old_digits = digits@;
            assert(octal(m as nat) == octal((m / 8) as nat).push((0x30 + m % 8) as u8));
            lemma_rev_push(old_digits, (0x30 + d) as u8);
            assert(octal((m / 8) as nat).push((0x30 + d) as u8) + rev(old_digits) =~= octal(
                (m / 8) as nat,
            ) + (seq![(0x30 + d) as u8] + rev(old_digits)));
        }
        digits.push(0x30 + d);
        m = m / 8;
    }
    let mut out: Vec<u8> = Vec::new();
    out.push(0x30 + (m as u8));
    assert(out@ =~= octal(m as nat));
    assert(digits@.subrange(0, digits@.len() as int) =~= digits@);
    let mut i: usize = digits.len();
    while i > 0
        invariant
            i <= digits@.len(),
            out@ + rev(digits@.subrange(0, i as int)) == octal(n as nat),
        decreases i,
    {
        i -= 1;
        proof {
            let s = digits@.subrange(0, i + 1);
            assert(s.drop_last() =~= digits@.subrange(0, i as int));
            assert(s.last() == digits@[i as int]);
            assert(out@.push(digits@[i as int]) + rev(digits@.subrange(0, i as int)) =~= out@ + (
            seq![digits@[i as int]] + rev(digits@.subrange(0, i as int))));
        }
        out.push(digits[i]);
    }
    assert(digits@.subrange(0, 0) =~= Seq::<u8>::empty());
    assert(out@ + Seq::<u8>::empty() =~= out@);
    out
}

/// `s` back to front.
pub open spec fn rev(s: Seq<u8>) -> Seq<u8>
    decreases s.len(),
{
    if s.len() == 0 {
        Seq::empty()
    } else {
        seq![s.last()] + rev(s.drop_last())
    }
}

proof fn lemma_rev_push(s: Seq<u8>, b: u8)
    ensures
        rev(s.push(b)) == seq![b] + rev(s),
{
    assert(s.push(b).drop_last() =~= s);
}

/// Appends the four big-endian bytes of `x` to `out`.
pub fn push_be32(out: &mut Vec<u8>, x: u32)
    ensures
        final(out)@ == old(out)@ + be32(x),
{
    let b0: u8 = (x >> 24) as u8;
    let b1: u8 = ((x >> 16) & 0xff) as u8;
    let b2: u8 = ((x >> 8) & 0xff) as u8;
    let b3: u8 = (x & 0xff) as u8;
    let ghost before = out@;
    out.push(b0);
    out.push(b1);
    out.push(b2);
    out.push(b3);
    assert(out@ =~= before + be32(x));
}

/// Reads the big-endian word at `at`.
pub fn read_be32(s: &[u8], at: usize) -> (x: u32)
    requires
        at + 4 <= s@.len(),
    ensures
        x == from_be32(s@.subrange(at as int, at + 4)),
{
    let b0: u8 = s[at];
    let b1: u8 = s[at + 1];
    let b2: u8 = s[at + 2];
    let b3: u8 = s[at + 3];
    ((b0 as u32) << 24) | ((b1 as u32) << 16) | ((b2 as u32) << 8) | (b3 as u32)
}

} // verus!
