//! Streaming search, skip, take and replace over byte sequences, driven by a
//! fixed-length pattern of per-bit masked wildcards.
//!
//! The heart of the crate is the [`Searcher`] state machine, which consumes one
//! unit of input at a time and reports matches and non-matches as
//! [`PatternSearchType`] events.  The [`Replacer`], [`Skipper`] and [`Taker`]
//! engines ride on that event stream, sharing the [`OptFifo`] single-slot
//! buffer for outputs that span several pulls.

use vstd::prelude::*;

pub mod laws;
pub mod masked_byte;
pub mod opt_fifo;
pub mod pattern;
pub mod replacer;
pub mod searcher;
pub mod skipper;
pub mod taker;

pub use crate::masked_byte::MaskedByte;
pub use crate::opt_fifo::OptFifo;
pub use crate::pattern::Pattern;
pub use crate::replacer::Replacer;
pub use crate::searcher::Searcher;
pub use crate::skipper::Skipper;
pub use crate::taker::Taker;

verus! {

/// Crate-level error: a pattern literal that does not parse, or a replacement
/// that would have to invent bits it does not know.
#[derive(Debug, PartialEq)]
pub enum Error {
    /// A unit literal could not be parsed; carries the offending literal and
    /// the reason.
    ParseError { string: String, source: crate::masked_byte::Error },
    /// A replacement pattern overhangs its data and the overhanging unit is
    /// not fully defined.
    ReplaceNotDefined,
}

/// One event of the match stream: either a full match (its data and the
/// zero-based unit offset of its start) or a single unit that is not part of
/// any match.
#[derive(Debug, PartialEq)]
pub enum PatternSearchType<T> {
    Match { data: Vec<T>, index: usize },
    NonMatch(T),
}

/// Mathematical model of one stream event, used by the contracts.
pub ghost enum SpecEvent<T> {
    Match { data: Seq<T>, index: int },
    NonMatch(T),
}

/// A verified element-wise copy of a unit run.
pub(crate) fn copy_units(v: &Vec<u8>) -> (r: Vec<u8>)
    ensures
        r@ == v@,
{
    let mut r: Vec<u8> = Vec::new();
    let mut k: usize = 0;
    while k < v.len()
        invariant
            0 <= k <= v@.len(),
            r@ == v@.take(k as int),
        decreases v@.len() - k,
    {
        r.push(v[k]);
        proof {
            assert(v@.take(k + 1) =~= v@.take(k as int).push(v@[k as int]));
        }
        k = k + 1;
    }
    proof {
        assert(v@.take(v@.len() as int) =~= v@);
    }
    r
}

/// The model of an executable event.
pub open spec fn event_view<T>(e: PatternSearchType<T>) -> SpecEvent<T> {
    match e {
        PatternSearchType::Match { data, index } => SpecEvent::Match {
            data: data@,
            index: index as int,
        },
        PatternSearchType::NonMatch(t) => SpecEvent::NonMatch(t),
    }
}

} // verus!
