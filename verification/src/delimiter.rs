//! The Delimiter mode: one value per key, as in the plain mode, but the
//! value can later be read as a sequence by splitting it at a separator byte
//! the caller chooses (the byte is configuration, never derived from data).

use vstd::prelude::*;

use crate::entries::FlatEntry;
use crate::error::{Error, ErrorKind};
use crate::split::parse_raw_pairs;
use crate::urlencoded::{fold_flat, urlencoded_model};

verus! {

/// The Delimiter mode keeps pairs exactly as the plain mode does; the
/// separator only matters when a value is read as a sequence.
pub open spec fn delimiter_model(input: Seq<u8>) -> Option<Seq<(Seq<u8>, Option<Seq<u8>>)>> {
    urlencoded_model(input)
}

/// The parsed collection of the Delimiter mode: the plain-mode entries plus
/// the separator byte the values will be split at.
pub struct DelimiterQS {
    entries: Vec<FlatEntry>,
    separator: u8,
}

impl View for DelimiterQS {
    type V = (Seq<(Seq<u8>, Option<Seq<u8>>)>, u8);

    closed spec fn view(&self) -> (Seq<(Seq<u8>, Option<Seq<u8>>)>, u8) {
        (self.entries.deep_view(), self.separator)
    }
}

impl DelimiterQS {
    /// Parses the input, remembering the separator for consumption. Fails
    /// with `InvalidEncoding` exactly when some key holds a malformed escape.
    pub fn parse(input: &[u8], separator: u8) -> (r: Result<DelimiterQS, Error>)
        ensures
            match r {
                Ok(qs) => delimiter_model(input@) == Some(qs@.0) && qs@.1 == separator,
                Err(e) => delimiter_model(input@) is None && e.kind == ErrorKind::InvalidEncoding,
            },
    {
        let rp = parse_raw_pairs(input);
        match fold_flat(rp) {
            Ok(entries) => Ok(DelimiterQS { entries, separator }),
            Err(e) => Err(e),
        }
    }

    /// Hands the entries and the separator to the collection's one consumer.
    pub fn into_entries(self) -> (r: (Vec<FlatEntry>, u8))
        ensures
            r.0.deep_view() == self@.0,
            r.1 == self@.1,
    {
        (self.entries, self.separator)
    }
}

} // verus!
