//! The slice model: a raw query-string token, flagged when it still holds
//! percent-escapes or `+`, and decoded on demand.
//!
//! Percent-decoding turns each `%XX` triple (two hex digits) into one byte
//! and each `+` into a space; a `%` not followed by two hex digits is a
//! malformed escape and fails the whole decode.

use vstd::prelude::*;
use vstd::slice::slice_to_vec;

use crate::error::{Error, ErrorKind};

verus! {

/// The byte `%`, which opens an escape.
pub const PERCENT: u8 = 37;

/// The byte `+`, decoded as a space.
pub const PLUS: u8 = 43;

/// The space byte that `+` stands for.
pub const SPACE: u8 = 32;

/// Is `b` an ASCII hex digit?
pub open spec fn is_hex_digit(b: u8) -> bool {
    (48 <= b && b <= 57) || (97 <= b && b <= 102) || (65 <= b && b <= 70)
}

/// Numeric value of an ASCII hex digit.
pub open spec fn hex_value(b: u8) -> int {
    if 48 <= b && b <= 57 {
        b - 48
    } else if 97 <= b && b <= 102 {
        b - 97 + 10
    } else {
        b - 65 + 10
    }
}

/// Does the token contain a byte that percent-decoding would rewrite?
pub open spec fn needs_decoding(s: Seq<u8>) -> bool {
    exists|i: int| 0 <= i < s.len() && (s[i] == PERCENT || s[i] == PLUS)
}

/// The meaning of percent-decoding: `Some(decoded)`, or `None` when a `%` is
/// not followed by two hex digits.
pub open spec fn pct_decode(s: Seq<u8>) -> Option<Seq<u8>>
    decreases s.len(),
{
    if s.len() == 0 {
        Some(Seq::empty())
    } else if s[0] == PERCENT {
        if s.len() >= 3 && is_hex_digit(s[1]) && is_hex_digit(s[2]) {
            match pct_decode(s.skip(3)) {
                Some(rest) => Some(seq![(16 * hex_value(s[1]) + hex_value(s[2])) as u8] + rest),
                None => None,
            }
        } else {
            None
        }
    } else {
        let b = if s[0] == PLUS {
            SPACE
        } else {
            s[0]
        };
        match pct_decode(s.skip(1)) {
            Some(rest) => Some(seq![b] + rest),
            None => None,
        }
    }
}

/// A token with nothing to rewrite decodes to itself.
pub proof fn lemma_plain_decode_identity(s: Seq<u8>)
    requires
        !needs_decoding(s),
    ensures
        pct_decode(s) == Some(s),
    decreases s.len(),
{
    if s.len() == 0 {
        assert(s =~= Seq::<u8>::empty());
    } else {
        assert(!(s[0] == PERCENT || s[0] == PLUS));
        assert(forall|i: int|
            0 <= i < s.skip(1).len() ==> #[trigger] s.skip(1)[i] == s[i + 1]);
        lemma_plain_decode_identity(s.skip(1));
        assert(seq![s[0]] + s.skip(1) =~= s);
    }
}

/// Hex digit to its value; `None` on any other byte.
fn hex_val(b: u8) -> (r: Option<u8>)
    ensures
        match r {
            Some(v) => is_hex_digit(b) && v == hex_value(b) && v < 16,
            None => !is_hex_digit(b),
        },
{
    if 48 <= b && b <= 57 {
        Some(b - 48)
    } else if 97 <= b && b <= 102 {
        Some(b - 97 + 10)
    } else if 65 <= b && b <= 70 {
        Some(b - 65 + 10)
    } else {
        None
    }
}

/// Does the token contain `%` or `+`?
fn contains_escape(s: &[u8]) -> (r: bool)
    ensures
        r == needs_decoding(s@),
{
    let mut i: usize = 0;
    while i < s.len()
        invariant
            0 <= i <= s@.len(),
            forall|j: int| 0 <= j < i ==> !(s@[j] == PERCENT || s@[j] == PLUS),
        decreases s@.len() - i,
    {
        if s[i] == PERCENT || s[i] == PLUS {
            return true;
        }
        i = i + 1;
    }
    false
}

/// Percent-decodes a whole token; fails with `InvalidEncoding` (carrying the
/// token) exactly when the token holds a malformed escape.
pub fn percent_decode(s: &[u8]) -> (r: Result<Vec<u8>, Error>)
    ensures
        match r {
            Ok(d) => pct_decode(s@) == Some(d@),
            Err(e) => pct_decode(s@) is None && e.kind == ErrorKind::InvalidEncoding
                && e.context@ == s@,
        },
{
    let mut out: Vec<u8> = Vec::new();
    let mut i: usize = 0;
    proof {
        assert(s@.skip(0) =~= s@);
    }
    while i < s.len()
        invariant
            0 <= i <= s@.len(),
            pct_decode(s@) == match pct_decode(s@.skip(i as int)) {
                Some(rest) => Some(out@ + rest),
                None => None::<Seq<u8>>,
            },
        decreases s@.len() - i,
    {
        let ghost t = s@.skip(i as int);
        proof {
            assert(t[0] == s@[i as int]);
        }
        if s[i] == PERCENT {
            if s.len() - i >= 3 {
                let v1 = hex_val(s[i + 1]);
                let v2 = hex_val(s[i + 2]);
                proof {
                    assert(t[1] == s@[i + 1]);
                    assert(t[2] == s@[i + 2]);
                }
                match (v1, v2) {
                    (Some(h), Some(l)) => {
                        let ghost prev = out@;
                        out.push(16 * h + l);
                        proof {
                            assert(t.skip(3) =~= s@.skip(i + 3));
                            let d = (16 * hex_value(t[1]) + hex_value(t[2])) as u8;
                            assert(out@ == prev.push(d));
                            if pct_decode(t.skip(3)) is Some {
                                let rest = pct_decode(t.skip(3)).unwrap();
                                assert(pct_decode(t) == Some(seq![d] + rest));
                                assert(out@ + rest =~= prev + (seq![d] + rest));
                            }
                        }
                        i = i + 3;
                    },
                    _ => {
                        return Err(Error::new(ErrorKind::InvalidEncoding, slice_to_vec(s)));
                    },
                }
            } else {
                return Err(Error::new(ErrorKind::InvalidEncoding, slice_to_vec(s)));
            }
        } else {
            let b = if s[i] == PLUS {
                SPACE
            } else {
                s[i]
            };
            let ghost prev = out@;
            out.push(b);
            proof {
                assert(t.skip(1) =~= s@.skip(i + 1));
                if pct_decode(t.skip(1)) is Some {
                    let rest = pct_decode(t.skip(1)).unwrap();
                    assert(pct_decode(t) == Some(seq![b] + rest));
                    assert(out@ + rest =~= prev + (seq![b] + rest));
                }
            }
            i = i + 1;
        }
    }
    proof {
        assert(s@.skip(s@.len() as int) =~= Seq::<u8>::empty());
        assert(out@ + Seq::<u8>::empty() =~= out@);
    }
    Ok(out)
}

/// Copies a byte slice into an owned buffer.
pub fn copy_bytes(s: &[u8]) -> (r: Vec<u8>)
    ensures
        r@ == s@,
{
    slice_to_vec(s)
}

/// A raw token of the input: its undecoded bytes, plus a flag that records
/// whether decoding would rewrite anything (so a plain token can be handed
/// out without a second scan).
#[derive(Debug)]
pub struct RawSlice {
    bytes: Vec<u8>,
    escaped: bool,
}

impl View for RawSlice {
    type V = Seq<u8>;

    closed spec fn view(&self) -> Seq<u8> {
        self.bytes@
    }
}

impl RawSlice {
    /// The flag always tells the truth about the bytes.
    #[verifier::type_invariant]
    spec fn wf(self) -> bool {
        self.escaped == needs_decoding(self.bytes@)
    }

    /// Wraps raw token bytes, computing the escape flag.
    pub fn new(bytes: Vec<u8>) -> (r: RawSlice)
        ensures
            r@ == bytes@,
    {
        let escaped = contains_escape(bytes.as_slice());
        RawSlice { bytes, escaped }
    }

    /// The raw, undecoded bytes.
    pub fn as_raw(&self) -> (r: &Vec<u8>)
        ensures
            r@ == self@,
    {
        &self.bytes
    }

    /// Gives the raw bytes up.
    pub fn into_bytes(self) -> (r: Vec<u8>)
        ensures
            r@ == self@,
    {
        self.bytes
    }

    /// Percent-decodes the token: `Ok` with the decoded bytes, or
    /// `InvalidEncoding` exactly when the token holds a malformed escape.
    /// A token without escapes is returned as it is, without a scan.
    pub fn decode(&self) -> (r: Result<Vec<u8>, Error>)
        ensures
            match r {
                Ok(d) => pct_decode(self@) == Some(d@),
                Err(e) => pct_decode(self@) is None && e.kind == ErrorKind::InvalidEncoding
                    && e.context@ == self@,
            },
    {
        proof {
            use_type_invariant(self);
        }
        if !self.escaped {
            proof {
                lemma_plain_decode_identity(self.bytes@);
            }
            Ok(copy_bytes(self.bytes.as_slice()))
        } else {
            percent_decode(self.bytes.as_slice())
        }
    }
}

/// A field's value: a key written without `=` has an absent value, which is
/// not the same as the empty value of a key with a trailing `=`.
#[derive(Debug)]
pub enum OptSlice {
    Absent,
    Value(RawSlice),
}

impl View for OptSlice {
    type V = Option<Seq<u8>>;

    open spec fn view(&self) -> Option<Seq<u8>> {
        match self {
            OptSlice::Absent => None,
            OptSlice::Value(t) => Some(t@),
        }
    }
}

impl DeepView for OptSlice {
    type V = Option<Seq<u8>>;

    open spec fn deep_view(&self) -> Option<Seq<u8>> {
        self.view()
    }
}

} // verus!
