//! The variant selector: which producer variant a configuration value names,
//! and what that choice implies for the rest of the pipeline — the wire shape
//! of the records and whether the consumer aggregates or merely tallies.
//!
//! An unrecognised variant name is a fatal configuration error at startup;
//! the caller must not proceed with a half-initialised pipeline.

use crate::records::{FromBytes, PreadQueryRecord, RawPreadRecord};
use vstd::prelude::*;
use vstd::string::StrSliceExecFns;

verus! {

/// The three interchangeable producer variants.
#[derive(Clone, Copy, Debug, PartialEq, Eq, Structural)]
pub enum ProbeVariant {
    /// Pre-aggregates inside the producer (compiled query form).
    Ebql,
    /// Pre-aggregates inside the producer (hand-optimised form).
    Opt,
    /// Emits one raw record per observed event; the consumer aggregates.
    Unopt,
}

/// Which variant a configuration value selects, if any.
pub open spec fn spec_parse_variant(s: Seq<char>) -> Option<ProbeVariant> {
    if s == "ebql"@ {
        Some(ProbeVariant::Ebql)
    } else if s == "opt"@ {
        Some(ProbeVariant::Opt)
    } else if s == "unopt"@ {
        Some(ProbeVariant::Unopt)
    } else {
        None
    }
}

/// Character-for-character string equality.
fn str_eq(a: &str, b: &str) -> (r: bool)
    ensures
        r == (a@ == b@),
{
    let na = a.unicode_len();
    let nb = b.unicode_len();
    if na != nb {
        proof {
            if a@ == b@ {
                assert(a@.len() == b@.len());
            }
        }
        return false;
    }
    let mut i: usize = 0;
    while i < na
        invariant
            i <= na,
            na == a@.len(),
            nb == b@.len(),
            na == nb,
            forall|j: int| 0 <= j < i ==> a@[j] == b@[j],
        decreases na - i,
    {
        let ca = a.get_char(i);
        let cb = b.get_char(i);
        if ca != cb {
            return false;
        }
        i = i + 1;
    }
    proof {
        assert(a@ =~= b@);
    }
    true
}

/// Parse a configuration value into the variant it names: exactly "ebql",
/// "opt" and "unopt" are recognised; everything else is `None`, a fatal
/// configuration error for the caller.
pub fn parse_variant(s: &str) -> (v: Option<ProbeVariant>)
    ensures
        v == spec_parse_variant(s@),
{
    if str_eq(s, "ebql") {
        Some(ProbeVariant::Ebql)
    } else if str_eq(s, "opt") {
        Some(ProbeVariant::Opt)
    } else if str_eq(s, "unopt") {
        Some(ProbeVariant::Unopt)
    } else {
        None
    }
}

/// Whether the variant's producer pre-aggregates, leaving the consumer a
/// mere pass-through tally.
pub open spec fn spec_is_preaggregated(v: ProbeVariant) -> bool {
    match v {
        ProbeVariant::Ebql => true,
        ProbeVariant::Opt => true,
        ProbeVariant::Unopt => false,
    }
}

/// The executable form of `spec_is_preaggregated`.
pub fn is_preaggregated(v: ProbeVariant) -> (r: bool)
    ensures
        r == spec_is_preaggregated(v),
{
    match v {
        ProbeVariant::Ebql => true,
        ProbeVariant::Opt => true,
        ProbeVariant::Unopt => false,
    }
}

/// The wire size of the records the variant's producer emits.
pub open spec fn spec_variant_record_size(v: ProbeVariant) -> int {
    if spec_is_preaggregated(v) {
        PreadQueryRecord::spec_size()
    } else {
        RawPreadRecord::spec_size()
    }
}

/// The executable form of `spec_variant_record_size`.
pub fn variant_record_size(v: ProbeVariant) -> (n: usize)
    ensures
        n as int == spec_variant_record_size(v),
{
    if is_preaggregated(v) {
        PreadQueryRecord::wire_size()
    } else {
        RawPreadRecord::wire_size()
    }
}

} // verus!
