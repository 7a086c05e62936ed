//! Scalar coercion: turning one decoded value's bytes into what a typed
//! consumer asks for. Integers take digits only (a leading `-` for the
//! signed kind); booleans take the literals `true` and `false` and nothing
//! else; enumerated unit values match a variant name set case-sensitively.
//! Every failed coercion is `InvalidType`, carrying the offending bytes.

use vstd::prelude::*;
use vstd::slice::slice_to_vec;

use crate::entries::bytes_eq;
use crate::error::{Error, ErrorKind};

verus! {

/// Is `b` an ASCII digit?
pub open spec fn is_digit(b: u8) -> bool {
    48 <= b && b <= 57
}

/// The number a digit string writes, most significant digit first.
pub open spec fn digits_value(s: Seq<u8>) -> nat
    decreases s.len(),
{
    if s.len() == 0 {
        0
    } else {
        digits_value(s.drop_last()) * 10 + (s.last() - 48) as nat
    }
}

/// Does `s` write a `u64`: at least one digit, digits only, value in range?
pub open spec fn is_u64_text(s: Seq<u8>) -> bool {
    s.len() > 0 && (forall|i: int| 0 <= i < s.len() ==> is_digit(#[trigger] s[i]))
        && digits_value(s) <= u64::MAX
}

/// A digit string's value only grows as digits are appended.
proof fn lemma_digits_prefix(s: Seq<u8>, m: int)
    requires
        0 <= m <= s.len(),
    ensures
        digits_value(s.take(m)) <= digits_value(s),
    decreases s.len() - m,
{
    if m < s.len() {
        lemma_digits_prefix(s, m + 1);
        assert(s.take(m + 1).drop_last() =~= s.take(m));
        assert(digits_value(s.take(m + 1)) == digits_value(s.take(m)) * 10 + (s.take(
            m + 1,
        ).last() - 48) as nat);
        assert(digits_value(s.take(m)) * 10 >= digits_value(s.take(m))) by (nonlinear_arith);
    } else {
        assert(s.take(m) =~= s);
    }
}

/// Parses an unsigned integer; `InvalidType` exactly when the text is not
/// the decimal writing of a `u64`.
#[verifier::loop_isolation(false)]
pub fn parse_u64(s: &[u8]) -> (r: Result<u64, Error>)
    ensures
        match r {
            Ok(n) => is_u64_text(s@) && n == digits_value(s@),
            Err(e) => !is_u64_text(s@) && e.kind == ErrorKind::InvalidType && e.context@ == s@,
        },
{
    if s.len() == 0 {
        return Err(Error::new(ErrorKind::InvalidType, slice_to_vec(s)));
    }
    let mut n: u64 = 0;
    let mut i: usize = 0;
    proof {
        assert(s@.take(0) =~= Seq::<u8>::empty());
    }
    while i < s.len()
        invariant
            0 <= i <= s@.len(),
            forall|j: int| 0 <= j < i ==> is_digit(#[trigger] s@[j]),
            n == digits_value(s@.take(i as int)),
        decreases s@.len() - i,
    {
        let b = s[i];
        if b < 48 || b > 57 {
            return Err(Error::new(ErrorKind::InvalidType, slice_to_vec(s)));
        }
        let d = (b - 48) as u64;
        proof {
            assert(s@.take(i + 1).drop_last() =~= s@.take(i as int));
            assert(s@.take(i + 1).last() == s@[i as int]);
        }
        if n > (u64::MAX - d) / 10 {
            proof {
                assert(n * 10 + d > u64::MAX) by (nonlinear_arith)
                    requires
                        n > (u64::MAX - d) / 10,
                        d <= 9,
                ;
                assert(digits_value(s@.take(i + 1)) > u64::MAX);
                if forall|j: int| 0 <= j < s@.len() ==> is_digit(#[trigger] s@[j]) {
                    lemma_digits_prefix(s@, i + 1);
                }
            }
            return Err(Error::new(ErrorKind::InvalidType, slice_to_vec(s)));
        }
        proof {
            assert(n * 10 + d <= u64::MAX) by (nonlinear_arith)
                requires
                    n <= (u64::MAX - d) / 10,
                    d <= 9,
            ;
        }
        n = n * 10 + d;
        i = i + 1;
    }
    proof {
        assert(s@.take(s@.len() as int) =~= s@);
    }
    Ok(n)
}

/// The byte `-`.
pub const MINUS: u8 = 45;

/// Does `s` write an `i64`: an optional leading `-`, then digits whose
/// value fits the signed range?
pub open spec fn is_i64_text(s: Seq<u8>) -> bool {
    if s.len() > 0 && s[0] == MINUS {
        let m = s.skip(1);
        m.len() > 0 && (forall|i: int| 0 <= i < m.len() ==> is_digit(#[trigger] m[i]))
            && digits_value(m) <= 0x8000_0000_0000_0000
    } else {
        is_u64_text(s) && digits_value(s) <= i64::MAX
    }
}

/// The signed value an `i64` text writes.
pub open spec fn i64_text_value(s: Seq<u8>) -> int {
    if s.len() > 0 && s[0] == MINUS {
        -(digits_value(s.skip(1)) as int)
    } else {
        digits_value(s) as int
    }
}

/// Parses a signed integer; `InvalidType` exactly when the text is not the
/// decimal writing of an `i64`.
pub fn parse_i64(s: &[u8]) -> (r: Result<i64, Error>)
    ensures
        match r {
            Ok(n) => is_i64_text(s@) && n == i64_text_value(s@),
            Err(e) => !is_i64_text(s@) && e.kind == ErrorKind::InvalidType,
        },
{
    if s.len() > 0 && s[0] == MINUS {
        let rest = slice_to_vec(s);
        let mag = parse_u64(vstd::slice::slice_subrange(s, 1, s.len()));
        proof {
            assert(s@.subrange(1, s@.len() as int) =~= s@.skip(1));
        }
        match mag {
            Err(_) => {
                proof {
                    if !is_u64_text(s@.skip(1)) {
                        if s@.skip(1).len() > 0 && (forall|i: int|
                            0 <= i < s@.skip(1).len() ==> is_digit(#[trigger] s@.skip(1)[i]))
                            && digits_value(s@.skip(1)) <= 0x8000_0000_0000_0000 {
                            assert(digits_value(s@.skip(1)) <= u64::MAX);
                        }
                    }
                }
                Err(Error::new(ErrorKind::InvalidType, rest))
            },
            Ok(m) => {
                if m > 0x8000_0000_0000_0000u64 {
                    Err(Error::new(ErrorKind::InvalidType, rest))
                } else if m == 0x8000_0000_0000_0000u64 {
                    Ok(i64::MIN)
                } else {
                    Ok(-(m as i64))
                }
            },
        }
    } else {
        match parse_u64(s) {
            Err(e) => Err(e),
            Ok(n) => {
                if n <= i64::MAX as u64 {
                    Ok(n as i64)
                } else {
                    Err(Error::new(ErrorKind::InvalidType, slice_to_vec(s)))
                }
            },
        }
    }
}

/// The bytes of the literal `true`.
pub open spec fn true_text() -> Seq<u8> {
    seq![116u8, 114u8, 117u8, 101u8]
}

/// The bytes of the literal `false`.
pub open spec fn false_text() -> Seq<u8> {
    seq![102u8, 97u8, 108u8, 115u8, 101u8]
}

/// Parses a boolean: the literals `true` and `false` only, never `1` or
/// `0`; anything else is `InvalidType`.
pub fn parse_bool(s: &[u8]) -> (r: Result<bool, Error>)
    ensures
        match r {
            Ok(b) => s@ == if b {
                true_text()
            } else {
                false_text()
            },
            Err(e) => s@ != true_text() && s@ != false_text() && e.kind == ErrorKind::InvalidType
                && e.context@ == s@,
        },
{
    if s.len() == 4 && s[0] == 116 && s[1] == 114 && s[2] == 117 && s[3] == 101 {
        proof {
            assert(s@ =~= true_text());
        }
        Ok(true)
    } else if s.len() == 5 && s[0] == 102 && s[1] == 97 && s[2] == 108 && s[3] == 115 && s[4]
        == 101 {
        proof {
            assert(s@ =~= false_text());
        }
        Ok(false)
    } else {
        proof {
            if s@ == true_text() {
                assert(false);
            }
            if s@ == false_text() {
                assert(false);
            }
        }
        Err(Error::new(ErrorKind::InvalidType, slice_to_vec(s)))
    }
}

/// Index of the first name equal to `t`.
pub open spec fn find_text(vs: Seq<Seq<u8>>, t: Seq<u8>) -> Option<int>
    decreases vs.len(),
{
    if vs.len() == 0 {
        None
    } else if vs[0] == t {
        Some(0int)
    } else {
        match find_text(vs.skip(1), t) {
            Some(i) => Some(i + 1),
            None => None,
        }
    }
}

/// What `find_text` returns: the first name equal to `t`, if any.
pub proof fn lemma_find_text(vs: Seq<Seq<u8>>, t: Seq<u8>)
    ensures
        match find_text(vs, t) {
            Some(i) => 0 <= i < vs.len() && vs[i] == t && (forall|j: int|
                0 <= j < i ==> vs[j] != t),
            None => forall|j: int| 0 <= j < vs.len() ==> vs[j] != t,
        },
    decreases vs.len(),
{
    if vs.len() == 0 {
    } else if vs[0] == t {
    } else {
        lemma_find_text(vs.skip(1), t);
        match find_text(vs.skip(1), t) {
            Some(i) => {
                assert(vs[i + 1] == vs.skip(1)[i]);
                assert forall|j: int| 0 <= j < i + 1 implies vs[j] != t by {
                    if j > 0 {
                        assert(vs[j] == vs.skip(1)[j - 1]);
                    }
                }
            },
            None => {
                assert forall|j: int| 0 <= j < vs.len() implies vs[j] != t by {
                    if j > 0 {
                        assert(vs[j] == vs.skip(1)[j - 1]);
                    }
                }
            },
        }
    }
}

/// Matches decoded text against a set of unit-variant names,
/// case-sensitively and with no other normalization: the index of the first
/// matching name, or `InvalidType` when none matches.
#[verifier::loop_isolation(false)]
pub fn match_unit_variant(text: &[u8], variants: &Vec<Vec<u8>>) -> (r: Result<usize, Error>)
    ensures
        match r {
            Ok(i) => find_text(variants.deep_view(), text@) == Some(i as int),
            Err(e) => find_text(variants.deep_view(), text@) is None && e.kind
                == ErrorKind::InvalidType && e.context@ == text@,
        },
{
    let ghost vs = variants.deep_view();
    let mut i: usize = 0;
    while i < variants.len()
        invariant
            0 <= i <= vs.len(),
            forall|j: int| 0 <= j < i ==> vs[j] != text@,
        decreases vs.len() - i,
    {
        if bytes_eq(variants[i].as_slice(), text) {
            proof {
                crate::split::lemma_bytes_deep_view(variants@[i as int]);
                assert(vs[i as int] == variants@[i as int].deep_view());
                lemma_find_text(vs, text@);
                match find_text(vs, text@) {
                    Some(m) => {
                        assert(m == i as int);
                    },
                    None => {
                        assert(false);
                    },
                }
            }
            return Ok(i);
        }
        proof {
            crate::split::lemma_bytes_deep_view(variants@[i as int]);
            assert(vs[i as int] == variants@[i as int].deep_view());
        }
        i = i + 1;
    }
    proof {
        lemma_find_text(vs, text@);
        match find_text(vs, text@) {
            Some(m) => {
                assert(false);
            },
            None => {},
        }
    }
    Err(Error::new(ErrorKind::InvalidType, slice_to_vec(text)))
}

} // verus!
