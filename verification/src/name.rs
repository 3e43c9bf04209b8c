//! Extraction of the locus key and coordinate range from a path name of the
//! form `sample#haplotype#contig:start-end`. A name that does not match the
//! pattern is not an error: the path is simply left out of reconciliation.

use vstd::prelude::*;

use crate::bytes::{all_digits, digits_val, parse_usize, sub_bytes};

verus! {

/// Index of the first occurrence of `b` in `s`, or `-1` if there is none.
pub open spec fn find_byte(s: Seq<u8>, b: u8) -> int
    decreases s.len(),
{
    if s.len() == 0 {
        -1
    } else if s[0] == b {
        0
    } else {
        let r = find_byte(s.drop_first(), b);
        if r < 0 {
            -1
        } else {
            r + 1
        }
    }
}

pub proof fn lemma_find_byte_none(s: Seq<u8>, b: u8)
    requires
        forall|j: int| 0 <= j < s.len() ==> s[j] != b,
    ensures
        find_byte(s, b) == -1,
    decreases s.len(),
{
    if s.len() > 0 {
        assert(forall|j: int| 0 <= j < s.drop_first().len() ==> s.drop_first()[j] == s[j + 1]);
        lemma_find_byte_none(s.drop_first(), b);
    }
}

pub proof fn lemma_find_byte_at(s: Seq<u8>, b: u8, i: int)
    requires
        0 <= i < s.len(),
        s[i] == b,
        forall|j: int| 0 <= j < i ==> s[j] != b,
    ensures
        find_byte(s, b) == i,
    decreases s.len(),
{
    if i > 0 {
        assert(forall|j: int| 0 <= j < s.drop_first().len() ==> s.drop_first()[j] == s[j + 1]);
        lemma_find_byte_at(s.drop_first(), b, i - 1);
    }
}

/// What the found index means: no occurrence at all, or the first one.
pub proof fn lemma_find_byte_props(s: Seq<u8>, b: u8)
    ensures
        find_byte(s, b) == -1 ==> forall|j: int| 0 <= j < s.len() ==> s[j] != b,
        find_byte(s, b) >= 0 ==> 0 <= find_byte(s, b) < s.len() && s[find_byte(s, b)] == b && (
        forall|j: int| 0 <= j < find_byte(s, b) ==> s[j] != b),
    decreases s.len(),
{
    if s.len() > 0 && s[0] != b {
        let t = s.drop_first();
        lemma_find_byte_props(t, b);
        let r = find_byte(t, b);
        if r == -1 {
            assert forall|j: int| 0 <= j < s.len() implies s[j] != b by {
                if j >= 1 {
                    assert(t[j - 1] != b);
                    assert(s[j] == t[j - 1]);
                }
            }
        } else {
            assert(s[r + 1] == t[r]);
            assert forall|j: int| 0 <= j < r + 1 implies s[j] != b by {
                if j >= 1 {
                    assert(t[j - 1] != b);
                    assert(s[j] == t[j - 1]);
                }
            }
        }
    }
}

/// Finds the first occurrence of `b` in `v` at or after `from`, reported as
/// an absolute index.
#[verifier::loop_isolation(false)]
fn find_from(v: &Vec<u8>, from: usize, b: u8) -> (r: Option<usize>)
    requires
        from <= v@.len(),
    ensures
        match r {
            Some(i) => from <= i < v@.len() && find_byte(v@.skip(from as int), b) == i - from,
            None => find_byte(v@.skip(from as int), b) == -1,
        },
{
    let mut i: usize = from;
    while i < v.len()
        invariant
            from <= i <= v@.len(),
            forall|j: int| from <= j < i ==> v@[j] != b,
        decreases v@.len() - i,
    {
        if v[i] == b {
            proof {
                let s = v@.skip(from as int);
                assert(forall|j: int| 0 <= j < s.len() ==> s[j] == v@[j + from]);
                lemma_find_byte_at(s, b, i - from);
            }
            return Some(i);
        }
        i += 1;
    }
    proof {
        let s = v@.skip(from as int);
        assert(forall|j: int| 0 <= j < s.len() ==> s[j] == v@[j + from]);
        lemma_find_byte_none(s, b);
    }
    None
}

/// The parse of a path name: `Some((key, start, end))` when the name has
/// exactly the shape `sample#haplotype#contig:start-end` with base-10
/// bounds that fit a `usize`, and `None` otherwise. The key is the whole
/// name up to the colon.
pub open spec fn spec_split_path_name(s: Seq<u8>) -> Option<(Seq<u8>, int, int)> {
    let h1 = find_byte(s, 35u8);
    if h1 < 0 {
        None
    } else {
        let h2r = find_byte(s.skip(h1 + 1), 35u8);
        if h2r < 0 {
            None
        } else {
            let h2 = h1 + 1 + h2r;
            if find_byte(s.skip(h2 + 1), 35u8) >= 0 {
                None
            } else {
                let cr = find_byte(s.skip(h2 + 1), 58u8);
                if cr < 0 {
                    None
                } else {
                    let c = h2 + 1 + cr;
                    if find_byte(s.skip(c + 1), 58u8) >= 0 {
                        None
                    } else {
                        let dr = find_byte(s.skip(c + 1), 45u8);
                        if dr < 0 {
                            None
                        } else {
                            let d = c + 1 + dr;
                            if find_byte(s.skip(d + 1), 45u8) >= 0 {
                                None
                            } else {
                                let sd = s.subrange(c + 1, d);
                                let ed = s.subrange(d + 1, s.len() as int);
                                if sd.len() == 0 || ed.len() == 0 || !all_digits(sd)
                                    || !all_digits(ed) || digits_val(sd) > usize::MAX
                                    || digits_val(ed) > usize::MAX {
                                    None
                                } else {
                                    Some((s.subrange(0, c), digits_val(sd), digits_val(ed)))
                                }
                            }
                        }
                    }
                }
            }
        }
    }
}

/// Splits a path name into its locus key and half-open coordinate range.
/// Returns `None` exactly when the name does not have three `#`-separated
/// fields, the last field does not hold exactly one `:` followed by exactly
/// one `-`, or a bound is empty, non-numeric or too large for `usize`.
pub fn split_path_name(name: &Vec<u8>) -> (r: Option<(Vec<u8>, usize, usize)>)
    ensures
        match r {
            Some(p) => spec_split_path_name(name@) == Some((p.0@, p.1 as int, p.2 as int)),
            None => spec_split_path_name(name@) == None::<(Seq<u8>, int, int)>,
        },
{
    let len = name.len();
    proof {
        assert(name@.skip(0) =~= name@);
        assert(name@.len() == len);
    }
    let h1 = match find_from(name, 0, 35u8) {
        Some(i) => i,
        None => {
            return None;
        },
    };
    let h2 = match find_from(name, h1 + 1, 35u8) {
        Some(i) => i,
        None => {
            return None;
        },
    };
    if let Some(_) = find_from(name, h2 + 1, 35u8) {
        return None;
    }
    let c = match find_from(name, h2 + 1, 58u8) {
        Some(i) => i,
        None => {
            return None;
        },
    };
    if let Some(_) = find_from(name, c + 1, 58u8) {
        return None;
    }
    let d = match find_from(name, c + 1, 45u8) {
        Some(i) => i,
        None => {
            return None;
        },
    };
    if let Some(_) = find_from(name, d + 1, 45u8) {
        return None;
    }
    let start = match parse_usize(name, c + 1, d) {
        Some(n) => n,
        None => {
            return None;
        },
    };
    let end = match parse_usize(name, d + 1, name.len()) {
        Some(n) => n,
        None => {
            return None;
        },
    };
    let key = sub_bytes(name, 0, c);
    Some((key, start, end))
}

} // verus!
