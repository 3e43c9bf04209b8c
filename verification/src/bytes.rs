//! Byte-string utilities shared by the whole crate: lexicographic order on
//! raw name bytes, decimal rendering of node ids and coordinates, and
//! decimal parsing of coordinate fields.

use vstd::prelude::*;

verus! {

/// Strict lexicographic order on byte strings: `a` comes before `b`.
pub open spec fn lex_lt(a: Seq<u8>, b: Seq<u8>) -> bool
    decreases a.len(),
{
    if b.len() == 0 {
        false
    } else if a.len() == 0 {
        true
    } else if a[0] < b[0] {
        true
    } else if a[0] > b[0] {
        false
    } else {
        lex_lt(a.drop_first(), b.drop_first())
    }
}

/// Non-strict lexicographic order.
pub open spec fn lex_leq(a: Seq<u8>, b: Seq<u8>) -> bool {
    lex_lt(a, b) || a == b
}

/// A shared prefix does not affect the comparison of the remainders.
pub proof fn lemma_lex_lt_common_prefix(a: Seq<u8>, b: Seq<u8>, i: int)
    requires
        0 <= i <= a.len(),
        i <= b.len(),
        a.subrange(0, i) == b.subrange(0, i),
    ensures
        lex_lt(a, b) == lex_lt(a.skip(i), b.skip(i)),
    decreases i,
{
    if i > 0 {
        assert(a.subrange(0, i)[0] == a[0]);
        assert(b.subrange(0, i)[0] == b[0]);
        assert(a.len() > 0 && b.len() > 0);
        let a1 = a.drop_first();
        let b1 = b.drop_first();
        assert(a1.subrange(0, i - 1) =~= b1.subrange(0, i - 1)) by {
            assert(forall|j: int| 0 <= j < i - 1 ==> #[trigger] a1[j] == a.subrange(0, i)[j + 1]);
            assert(forall|j: int| 0 <= j < i - 1 ==> #[trigger] b1[j] == b.subrange(0, i)[j + 1]);
        }
        lemma_lex_lt_common_prefix(a1, b1, i - 1);
        assert(a.skip(i) =~= a1.skip(i - 1));
        assert(b.skip(i) =~= b1.skip(i - 1));
    } else {
        assert(a.skip(0) =~= a);
        assert(b.skip(0) =~= b);
    }
}

/// Exactly one of `a < b`, `a == b`, `b < a` holds.
pub proof fn lemma_lex_trichotomy(a: Seq<u8>, b: Seq<u8>)
    ensures
        lex_lt(a, b) || lex_lt(b, a) || a == b,
        lex_lt(a, b) ==> !lex_lt(b, a) && a != b,
    decreases a.len() + b.len(),
{
    if a.len() == 0 && b.len() == 0 {
        assert(a =~= b);
    } else if a.len() > 0 && b.len() > 0 && a[0] == b[0] {
        lemma_lex_trichotomy(a.drop_first(), b.drop_first());
        if a.drop_first() == b.drop_first() && a[0] == b[0] {
            assert forall|j: int| 0 <= j < a.len() implies a[j] == b[j] by {
                if j > 0 {
                    assert(a[j] == a.drop_first()[j - 1]);
                    assert(b[j] == b.drop_first()[j - 1]);
                }
            }
            assert(a =~= b);
        }
    }
}

/// Compares two byte strings lexicographically.
pub fn bytes_lt(a: &Vec<u8>, b: &Vec<u8>) -> (r: bool)
    ensures
        r == lex_lt(a@, b@),
{
    let n: usize = if a.len() < b.len() {
        a.len()
    } else {
        b.len()
    };
    let mut i: usize = 0;
    while i < n
        invariant
            0 <= i <= n,
            n <= a@.len(),
            n <= b@.len(),
            n == if a@.len() < b@.len() {
                a@.len()
            } else {
                b@.len()
            },
            a@.subrange(0, i as int) =~= b@.subrange(0, i as int),
        decreases n - i,
    {
        let ca = a[i];
        let cb = b[i];
        if ca != cb {
            proof {
                lemma_lex_lt_common_prefix(a@, b@, i as int);
                lemma_lex_lt_common_prefix(b@, a@, i as int);
            }
            return ca < cb;
        }
        assert(a@.subrange(0, i + 1) =~= b@.subrange(0, i + 1));
        i += 1;
    }
    proof {
        lemma_lex_lt_common_prefix(a@, b@, n as int);
        lemma_lex_lt_common_prefix(b@, a@, n as int);
    }
    a.len() < b.len()
}

/// Tests two byte strings for equality.
pub fn bytes_eq(a: &Vec<u8>, b: &Vec<u8>) -> (r: bool)
    ensures
        r == (a@ == b@),
{
    if a.len() != b.len() {
        return false;
    }
    let mut i: usize = 0;
    while i < a.len()
        invariant
            0 <= i <= a@.len(),
            a@.len() == b@.len(),
            a@.subrange(0, i as int) =~= b@.subrange(0, i as int),
        decreases a@.len() - i,
    {
        if a[i] != b[i] {
            return false;
        }
        assert(a@.subrange(0, i + 1) =~= b@.subrange(0, i + 1));
        i += 1;
    }
    proof {
        assert(a@.subrange(0, a@.len() as int) =~= a@);
        assert(b@.subrange(0, b@.len() as int) =~= b@);
    }
    true
}

/// Appends all of `src` to `dst`.
pub fn push_all_bytes(dst: &mut Vec<u8>, src: &Vec<u8>)
    ensures
        final(dst)@ == old(dst)@ + src@,
{
    let mut i: usize = 0;
    while i < src.len()
        invariant
            0 <= i <= src@.len(),
            dst@ =~= old(dst)@ + src@.subrange(0, i as int),
        decreases src@.len() - i,
    {
        dst.push(src[i]);
        i += 1;
    }
    proof {
        assert(src@.subrange(0, src@.len() as int) =~= src@);
    }
}

/// Copies `v[from..to]` into a fresh vector.
pub fn sub_bytes(v: &Vec<u8>, from: usize, to: usize) -> (r: Vec<u8>)
    requires
        from <= to <= v@.len(),
    ensures
        r@ == v@.subrange(from as int, to as int),
{
    let mut r: Vec<u8> = Vec::new();
    let mut i: usize = from;
    while i < to
        invariant
            from <= i <= to <= v@.len(),
            r@ =~= v@.subrange(from as int, i as int),
        decreases to - i,
    {
        r.push(v[i]);
        assert(r@ =~= v@.subrange(from as int, i + 1));
        i += 1;
    }
    r
}

/// The decimal digit string of `n`, most significant digit first.
pub open spec fn dec_digits(n: nat) -> Seq<u8>
    decreases n,
{
    if n < 10 {
        seq![(48 + n) as u8]
    } else {
        dec_digits(n / 10).push((48 + n % 10) as u8)
    }
}

/// Appends the decimal digits of `n` to `out`.
pub fn push_u64_dec(out: &mut Vec<u8>, n: u64)
    ensures
        final(out)@ == old(out)@ + dec_digits(n as nat),
    decreases n,
{
    if n < 10 {
        out.push(48 + n as u8);
        proof {
            assert(old(out)@.push((48 + n as nat) as u8) =~= old(out)@ + dec_digits(n as nat));
        }
    } else {
        push_u64_dec(out, n / 10);
        out.push(48 + (n % 10) as u8);
        proof {
            assert(old(out)@ + dec_digits((n / 10) as nat) + seq![(48 + (n as nat) % 10) as u8]
                =~= old(out)@ + dec_digits(n as nat));
        }
    }
}

/// Appends the decimal digits of a coordinate to `out`.
pub fn push_usize_dec(out: &mut Vec<u8>, n: usize)
    ensures
        final(out)@ == old(out)@ + dec_digits(n as nat),
{
    push_u64_dec(out, n as u64);
}

/// `c` is an ASCII decimal digit.
pub open spec fn is_dec_digit(c: u8) -> bool {
    48 <= c <= 57
}

/// Every byte of `s` is an ASCII decimal digit.
pub open spec fn all_digits(s: Seq<u8>) -> bool {
    forall|i: int| 0 <= i < s.len() ==> is_dec_digit(#[trigger] s[i])
}

/// The value of a digit string read as a base-10 number.
pub open spec fn digits_val(s: Seq<u8>) -> int
    decreases s.len(),
{
    if s.len() == 0 {
        0
    } else {
        digits_val(s.drop_last()) * 10 + (s.last() - 48)
    }
}

/// Printing a number in decimal and reading the digits back yields the
/// same number: coordinates written into a split path's name are exact.
pub proof fn lemma_dec_digits_value(n: nat)
    ensures
        all_digits(dec_digits(n)),
        digits_val(dec_digits(n)) == n,
    decreases n,
{
    if n < 10 {
        let s = dec_digits(n);
        assert(s.drop_last() =~= Seq::<u8>::empty());
        assert(s.last() == (48 + n) as u8);
        assert(all_digits(s)) by {
            assert(s.len() == 1 && s[0] == (48 + n) as u8);
        }
        assert(digits_val(s) == digits_val(s.drop_last()) * 10 + (s.last() - 48));
        assert(digits_val(s.drop_last()) == 0);
        assert(digits_val(s) == n);
    } else {
        lemma_dec_digits_value(n / 10);
        let s = dec_digits(n);
        assert(s.drop_last() =~= dec_digits(n / 10));
        assert(s.last() == (48 + n % 10) as u8);
        assert(digits_val(s) == (n / 10) * 10 + n % 10);
        assert(n == (n / 10) * 10 + n % 10) by (nonlinear_arith);
        assert forall|i: int| 0 <= i < s.len() implies is_dec_digit(s[i]) by {
            if i < s.len() - 1 {
                assert(s[i] == dec_digits(n / 10)[i]);
            }
        }
    }
}

/// Under `all_digits` the value is non-negative.
pub proof fn lemma_digits_val_nonneg(s: Seq<u8>)
    requires
        all_digits(s),
    ensures
        digits_val(s) >= 0,
    decreases s.len(),
{
    if s.len() > 0 {
        assert(all_digits(s.drop_last()));
        lemma_digits_val_nonneg(s.drop_last());
    }
}

/// Extending a digit string to the right never decreases its value.
pub proof fn lemma_digits_val_take_monotone(s: Seq<u8>, k: int)
    requires
        all_digits(s),
        0 <= k <= s.len(),
    ensures
        digits_val(s.take(k)) <= digits_val(s),
    decreases s.len() - k,
{
    if k < s.len() {
        let t = s.take(k + 1);
        assert(t.drop_last() =~= s.take(k));
        assert(all_digits(s.take(k)));
        lemma_digits_val_nonneg(s.take(k));
        assert(digits_val(t) == digits_val(s.take(k)) * 10 + (t.last() - 48));
        assert(digits_val(s.take(k)) <= digits_val(t));
        lemma_digits_val_take_monotone(s, k + 1);
    } else {
        assert(s.take(k) =~= s);
    }
}

/// Parses `v[from..to]` as a base-10 number. Returns `None` exactly when the
/// slice is empty, holds a non-digit byte, or encodes a value above
/// `usize::MAX`.
pub fn parse_usize(v: &Vec<u8>, from: usize, to: usize) -> (r: Option<usize>)
    requires
        from <= to <= v@.len(),
    ensures
        match r {
            Some(n) => {
                let s = v@.subrange(from as int, to as int);
                s.len() > 0 && all_digits(s) && digits_val(s) == n as int
            },
            None => {
                let s = v@.subrange(from as int, to as int);
                s.len() == 0 || !all_digits(s) || digits_val(s) > usize::MAX
            },
        },
{
    let ghost s = v@.subrange(from as int, to as int);
    if from == to {
        return None;
    }
    let mut acc: usize = 0;
    let mut i: usize = from;
    while i < to
        invariant
            from <= i <= to <= v@.len(),
            s == v@.subrange(from as int, to as int),
            all_digits(s.take(i - from)),
            acc as int == digits_val(s.take(i - from)),
        decreases to - i,
    {
        let c = v[i];
        assert(s[i - from] == c);
        if c < 48 || c > 57 {
            assert(!is_dec_digit(s[i - from]));
            return None;
        }
        let d: usize = (c - 48) as usize;
        assert(s.take(i - from + 1).drop_last() =~= s.take(i - from));
        if acc > (usize::MAX - d) / 10 {
            proof {
                assert(acc as int * 10 + d > usize::MAX) by (nonlinear_arith)
                    requires
                        acc as int > (usize::MAX - d) as int / 10,
                        0 <= d <= 9,
                ;
                if all_digits(s) {
                    lemma_digits_val_take_monotone(s, i - from + 1);
                }
            }
            return None;
        }
        proof {
            assert(acc as int * 10 + d <= usize::MAX) by (nonlinear_arith)
                requires
                    acc as int <= (usize::MAX - d) as int / 10,
                    0 <= d <= 9,
            ;
        }
        acc = acc * 10 + d;
        i += 1;
    }
    proof {
        assert(s.take(to - from) =~= s);
    }
    Some(acc)
}

} // verus!
