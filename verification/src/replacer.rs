//! The replace engine: non-matches pass through, matches are rewritten under
//! the pattern, and the tail of each rewrite is handed out one unit at a time
//! through the single-slot buffer.

use vstd::prelude::*;

use crate::PatternSearchType;
use crate::SpecEvent;
use crate::event_view;
use crate::masked_byte::MaskedByte;
use crate::opt_fifo::OptFifo;
use crate::pattern::Pattern;
use crate::pattern::replace_defined_ok;
use crate::pattern::replace_result;

verus! {

/// The outputs one event contributes to the replaced stream: a non-match
/// passes through unchanged, a match is replaced under the pattern, and a
/// failed replacement contributes exactly one error.
pub open spec fn replace_event(p: Seq<MaskedByte>, e: SpecEvent<u8>) -> Seq<
    Result<u8, crate::Error>,
> {
    match e {
        SpecEvent::NonMatch(b) => seq![Ok(b)],
        SpecEvent::Match { data, index } => {
            if replace_defined_ok(p, data) {
                replace_result(p, data).map_values(|b: u8| Ok::<u8, crate::Error>(b))
            } else {
                seq![Err(crate::Error::ReplaceNotDefined)]
            }
        },
    }
}

/// The whole replaced stream of an event sequence, in order.
pub open spec fn replace_stream(p: Seq<MaskedByte>, events: Seq<SpecEvent<u8>>) -> Seq<
    Result<u8, crate::Error>,
>
    decreases events.len(),
{
    if events.len() == 0 {
        Seq::empty()
    } else {
        replace_event(p, events[0]) + replace_stream(p, events.drop_first())
    }
}

/// The replace engine: a borrowed pattern and the single pending rewrite
/// tail.
pub struct Replacer<'a> {
    pattern: &'a Pattern,
    data: OptFifo<u8>,
}

impl<'a> Replacer<'a> {
    /// The pattern rewrites are made under.
    pub closed spec fn pat(&self) -> Seq<MaskedByte> {
        self.pattern@
    }

    /// The pending tail of the last rewrite, if any.
    pub closed spec fn pending(&self) -> Option<Seq<u8>> {
        self.data@
    }

    pub fn new(pattern: &'a Pattern) -> (r: Self)
        ensures
            r.pat() == pattern@,
            r.pending() is None,
    {
        Self { pattern, data: OptFifo::new() }
    }

    /// Empties an existing rewrite tail one unit per call; `None` once it is
    /// used up, after which new input may be handled.
    pub fn handle_existing_data(&mut self) -> (r: Option<u8>)
        ensures
            final(self).pat() == old(self).pat(),
            match old(self).pending() {
                None => r is None && final(self).pending() is None,
                Some(s) => {
                    if s.len() == 0 {
                        r is None && final(self).pending() is None
                    } else {
                        r == Some(s[0]) && final(self).pending() == Some(s.drop_first())
                    }
                },
            },
    {
        self.data.get()
    }

    /// Handles one event: a non-match is returned unchanged; a match is
    /// replaced under the pattern, its first unit returned at once and the
    /// rest installed as the pending tail.  A replacement that is not fully
    /// defined fails this one step and leaves the engine usable.
    pub fn handle_next(&mut self, search_type: PatternSearchType<u8>) -> (r: Result<
        u8,
        crate::Error,
    >)
        requires
            event_view(search_type) matches SpecEvent::Match { data, .. } ==> old(
                self,
            ).pending() is None && (old(self).pat().len() > 0 || data.len() > 0),
        ensures
            final(self).pat() == old(self).pat(),
            match event_view(search_type) {
                SpecEvent::NonMatch(b) => r == Ok::<u8, crate::Error>(b) && final(self).pending()
                    == old(self).pending(),
                SpecEvent::Match { data, index } => {
                    if replace_defined_ok(old(self).pat(), data) {
                        let out = replace_result(old(self).pat(), data);
                        &&& r == Ok::<u8, crate::Error>(out[0])
                        &&& final(self).pending() == Some(out.drop_first())
                    } else {
                        &&& r == Err::<u8, crate::Error>(crate::Error::ReplaceNotDefined)
                        &&& final(self).pending() == old(self).pending()
                    }
                },
            },
    {
        match search_type {
            PatternSearchType::NonMatch(byte) => Ok(byte),
            PatternSearchType::Match { data, index: _ } => match self.pattern.replace(data) {
                Ok(mut item) => {
                    let byte = item.remove(0);
                    self.data.set(item);
                    Ok(byte)
                },
                Err(error) => Err(error),
            },
        }
    }
}

/// Runs the replace engine over a whole event stream: every pending rewrite
/// tail is drained before the next event is handled, and each output unit or
/// error is collected in order.
pub fn replace_all(pattern: &Pattern, events: &Vec<PatternSearchType<u8>>) -> (out: Vec<
    Result<u8, crate::Error>,
>)
    requires
        pattern@.len() > 0,
    ensures
        out@ == replace_stream(
            pattern@,
            events@.map_values(|e: PatternSearchType<u8>| event_view(e)),
        ),
{
    let ghost evs = events@.map_values(|e: PatternSearchType<u8>| event_view(e));
    let ghost total = replace_stream(pattern@, evs);
    let mut out: Vec<Result<u8, crate::Error>> = Vec::new();
    let mut rep = Replacer::new(pattern);
    let mut i: usize = 0;
    let n = events.len();
    proof {
        assert(evs.skip(0) =~= evs);
    }
    while i < n
        invariant
            0 <= i <= n,
            n == events@.len(),
            rep.pat() == pattern@,
            pattern@.len() > 0,
            rep.pending() is None,
            evs == events@.map_values(|e: PatternSearchType<u8>| event_view(e)),
            total == replace_stream(pattern@, evs),
            out@ + replace_stream(pattern@, evs.skip(i as int)) == total,
        decreases n - i,
    {
        proof {
            assert(evs[i as int] == event_view(events@[i as int]));
            assert(evs.skip(i as int)[0] == evs[i as int]);
            assert(evs.skip(i as int).drop_first() =~= evs.skip(i + 1));
        }
        match &events[i] {
            PatternSearchType::NonMatch(b) => {
                let r = rep.handle_next(PatternSearchType::NonMatch(*b));
                proof {
                    assert(out@.push(r) + replace_stream(pattern@, evs.skip(i + 1)) =~= out@ + (
                    replace_event(pattern@, evs[i as int]) + replace_stream(
                        pattern@,
                        evs.skip(i + 1),
                    )));
                }
                out.push(r);
            },
            PatternSearchType::Match { data, index } => {
                let d2 = crate::copy_units(data);
                let r = rep.handle_next(PatternSearchType::Match { data: d2, index: *index });
                proof {
                    let dv = evs[i as int]->Match_data;
                    if replace_defined_ok(pattern@, dv) {
                        let rr = replace_result(pattern@, dv);
                        assert(rr.map_values(|b: u8| Ok::<u8, crate::Error>(b)) =~= seq![
                            Ok::<u8, crate::Error>(rr[0]),
                        ] + rr.drop_first().map_values(|b: u8| Ok::<u8, crate::Error>(b)));
                        assert(out@.push(r) + (rr.drop_first().map_values(
                            |b: u8| Ok::<u8, crate::Error>(b),
                        ) + replace_stream(pattern@, evs.skip(i + 1))) =~= out@ + (replace_event(
                            pattern@,
                            evs[i as int],
                        ) + replace_stream(pattern@, evs.skip(i + 1))));
                    } else {
                        assert(out@.push(r) + replace_stream(pattern@, evs.skip(i + 1)) =~= out@
                            + (replace_event(pattern@, evs[i as int]) + replace_stream(
                            pattern@,
                            evs.skip(i + 1),
                        )));
                    }
                }
                out.push(r);
                loop
                    invariant_except_break
                        rep.pat() == pattern@,
                        out@ + (match rep.pending() {
                            None => Seq::<Result<u8, crate::Error>>::empty(),
                            Some(s) => s.map_values(|b: u8| Ok::<u8, crate::Error>(b)),
                        }) + replace_stream(pattern@, evs.skip(i + 1)) == total,
                    ensures
                        rep.pat() == pattern@,
                        rep.pending() is None,
                        out@ + replace_stream(pattern@, evs.skip(i + 1)) == total,
                    decreases (match rep.pending() {
                        Some(s) => s.len() as int + 1,
                        None => 0,
                    }),
                {
                    let ghost pend = rep.pending();
                    let r2 = match rep.handle_existing_data() {
                        Some(b2) => Ok(b2),
                        None => { break },
                    };
                    proof {
                        let s = pend->0;
                        assert(s.map_values(|b: u8| Ok::<u8, crate::Error>(b)) =~= seq![
                            Ok::<u8, crate::Error>(s[0]),
                        ] + s.drop_first().map_values(|b: u8| Ok::<u8, crate::Error>(b)));
                        assert(out@.push(r2) + s.drop_first().map_values(
                            |b: u8| Ok::<u8, crate::Error>(b),
                        ) =~= out@ + s.map_values(|b: u8| Ok::<u8, crate::Error>(b)));
                    }
                    out.push(r2);
                }
            },
        }
        i = i + 1;
    }
    proof {
        assert(evs.skip(n as int) =~= Seq::<SpecEvent<u8>>::empty());
        assert(out@ =~= total);
    }
    out
}

} // verus!
