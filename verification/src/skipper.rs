//! The skip engine: the first `count` matches of the stream are demoted to
//! their constituent units, handed out one per pull as non-matches; every
//! later match passes through unchanged.  The exact complement of the take
//! engine.  Non-matches never touch the counter.

use vstd::prelude::*;

use crate::PatternSearchType;
use crate::SpecEvent;
use crate::event_view;
use crate::opt_fifo::OptFifo;

verus! {

/// The stream a skip engine produces from `events` when `found` matches were
/// already seen: matches with ordinal up to `count` are demoted to their
/// units, all else passes through.
pub open spec fn skip_stream<T>(events: Seq<SpecEvent<T>>, found: nat, count: nat) -> Seq<
    SpecEvent<T>,
>
    decreases events.len(),
{
    if events.len() == 0 {
        Seq::empty()
    } else {
        let rest = events.drop_first();
        match events[0] {
            SpecEvent::NonMatch(b) => seq![events[0]] + skip_stream(rest, found, count),
            SpecEvent::Match { data, index } => {
                if found + 1 <= count {
                    data.map_values(|b: T| SpecEvent::NonMatch(b)) + skip_stream(
                        rest,
                        found + 1,
                        count,
                    )
                } else {
                    seq![events[0]] + skip_stream(rest, found + 1, count)
                }
            },
        }
    }
}

/// The skip engine: how many matches were seen, how many are to be demoted,
/// and the pending units of a demoted match.
pub struct Skipper<T> {
    found: usize,
    count: usize,
    data: OptFifo<T>,
}

impl<T> Skipper<T> {
    /// How many matches were seen so far.
    pub closed spec fn found_spec(&self) -> nat {
        self.found as nat
    }

    /// How many matches are demoted before the rest pass through.
    pub closed spec fn count_spec(&self) -> nat {
        self.count as nat
    }

    /// The pending units of a demoted match, if any.
    pub closed spec fn pending(&self) -> Option<Seq<T>> {
        self.data@
    }

    pub fn new(count: usize) -> (r: Self)
        ensures
            r.found_spec() == 0,
            r.count_spec() == count,
            r.pending() is None,
    {
        Self { found: 0, count, data: OptFifo::new() }
    }

    /// Hands out the pending units of a demoted match one per call; `None`
    /// once they are used up.
    pub fn handle_existing_data(&mut self) -> (r: Option<T>)
        ensures
            final(self).found_spec() == old(self).found_spec(),
            final(self).count_spec() == old(self).count_spec(),
            match old(self).pending() {
                None => r is None && final(self).pending() is None,
                Some(s) => {
                    if s.len() == 0 {
                        r is None && final(self).pending() is None
                    } else {
                        r == Some(s[0]) && final(self).pending() == Some(s.drop_first())
                    }
                },
            },
    {
        self.data.get()
    }

    /// Handles one event: non-matches pass through untouched; each match
    /// raises the counter, and while the counter has not passed the target
    /// the match is demoted — its first unit returned as a non-match, the
    /// rest installed as pending units.
    pub fn handle_next(&mut self, search_type: PatternSearchType<T>) -> (r: PatternSearchType<T>)
        requires
            event_view(search_type) matches SpecEvent::Match { data, .. } ==> old(
                self,
            ).found_spec() < usize::MAX && (old(self).found_spec() + 1 <= old(self).count_spec()
                ==> data.len() > 0 && old(self).pending() is None),
        ensures
            final(self).count_spec() == old(self).count_spec(),
            match event_view(search_type) {
                SpecEvent::NonMatch(b) => {
                    &&& event_view(r) == SpecEvent::<T>::NonMatch(b)
                    &&& final(self).found_spec() == old(self).found_spec()
                    &&& final(self).pending() == old(self).pending()
                },
                SpecEvent::Match { data, index } => {
                    &&& final(self).found_spec() == old(self).found_spec() + 1
                    &&& if old(self).found_spec() + 1 <= old(self).count_spec() {
                        &&& event_view(r) == SpecEvent::<T>::NonMatch(data[0])
                        &&& final(self).pending() == Some(data.drop_first())
                    } else {
                        &&& event_view(r) == SpecEvent::Match { data, index }
                        &&& final(self).pending() == old(self).pending()
                    }
                },
            },
    {
        match search_type {
            PatternSearchType::Match { mut data, index } => {
                self.found = self.found + 1;
                if self.found <= self.count {
                    let byte = data.remove(0);
                    self.data.set(data);
                    PatternSearchType::NonMatch(byte)
                } else {
                    PatternSearchType::Match { data, index }
                }
            },
            PatternSearchType::NonMatch(b) => PatternSearchType::NonMatch(b),
        }
    }
}

/// Runs the skip engine over a whole event stream: the pending units of each
/// demoted match are drained as non-matches before the next event is
/// handled, and every output event is collected in order.
pub fn skip_all(events: &Vec<PatternSearchType<u8>>, count: usize) -> (out: Vec<
    PatternSearchType<u8>,
>)
    requires
        forall|i: int|
            0 <= i < events@.len() ==> match event_view(#[trigger] events@[i]) {
                SpecEvent::Match { data, index } => data.len() > 0,
                SpecEvent::NonMatch(b) => true,
            },
    ensures
        out@.map_values(|e: PatternSearchType<u8>| event_view(e)) == skip_stream(
            events@.map_values(|e: PatternSearchType<u8>| event_view(e)),
            0,
            count as nat,
        ),
{
    let ghost evmap = |e: PatternSearchType<u8>| event_view(e);
    let ghost evs = events@.map_values(|e: PatternSearchType<u8>| event_view(e));
    let ghost total = skip_stream(evs, 0, count as nat);
    let mut out: Vec<PatternSearchType<u8>> = Vec::new();
    let mut skipper = Skipper::<u8>::new(count);
    let mut i: usize = 0;
    let n = events.len();
    proof {
        assert(evs.skip(0) =~= evs);
    }
    while i < n
        invariant
            0 <= i <= n,
            n == events@.len(),
            skipper.count_spec() == count,
            skipper.found_spec() <= i,
            skipper.pending() is None,
            evmap == (|e: PatternSearchType<u8>| event_view(e)),
            evs == events@.map_values(evmap),
            total == skip_stream(evs, 0, count as nat),
            forall|j: int|
                0 <= j < events@.len() ==> match event_view(#[trigger] events@[j]) {
                    SpecEvent::Match { data, index } => data.len() > 0,
                    SpecEvent::NonMatch(b) => true,
                },
            out@.map_values(evmap) + skip_stream(
                evs.skip(i as int),
                skipper.found_spec(),
                count as nat,
            ) == total,
        decreases n - i,
    {
        let ghost f0 = skipper.found_spec();
        proof {
            assert(evs[i as int] == event_view(events@[i as int]));
            assert(evs.skip(i as int)[0] == evs[i as int]);
            assert(evs.skip(i as int).drop_first() =~= evs.skip(i + 1));
        }
        match &events[i] {
            PatternSearchType::NonMatch(b) => {
                let r = skipper.handle_next(PatternSearchType::NonMatch(*b));
                proof {
                    assert(out@.push(r).map_values(evmap) =~= out@.map_values(evmap).push(
                        event_view(r),
                    ));
                    assert(out@.map_values(evmap).push(event_view(r)) + skip_stream(evs.skip(i + 1), f0, count as nat) =~= out@.map_values(evmap) + (seq![evs[i as int]] + skip_stream(evs.skip(i + 1), f0, count as nat)));
                }
                out.push(r);
            },
            PatternSearchType::Match { data, index } => {
                let d2 = crate::copy_units(data);
                let r = skipper.handle_next(PatternSearchType::Match { data: d2, index: *index });
                let ghost dv = evs[i as int]->Match_data;
                proof {
                    assert(out@.push(r).map_values(evmap) =~= out@.map_values(evmap).push(
                        event_view(r),
                    ));
                    if f0 + 1 <= count {
                        assert(dv.map_values(|b: u8| SpecEvent::NonMatch(b)) =~= seq![
                            SpecEvent::<u8>::NonMatch(dv[0]),
                        ] + dv.drop_first().map_values(|b: u8| SpecEvent::NonMatch(b)));
                        assert(out@.map_values(evmap).push(event_view(r)) + (dv.drop_first()
                            .map_values(|b: u8| SpecEvent::NonMatch(b)) + skip_stream(evs.skip(i + 1), f0 + 1, count as nat)) =~= out@.map_values(evmap) + (dv.map_values(
                            |b: u8| SpecEvent::NonMatch(b),
                        ) + skip_stream(evs.skip(i + 1), f0 + 1, count as nat)));
                    } else {
                        assert(out@.map_values(evmap).push(event_view(r)) + skip_stream(evs.skip(i + 1), f0 + 1, count as nat) =~= out@.map_values(evmap) + (seq![evs[i as int]] + skip_stream(evs.skip(i + 1), f0 + 1, count as nat)));
                    }
                }
                out.push(r);
                loop
                    invariant_except_break
                        skipper.count_spec() == count,
                        skipper.found_spec() == f0 + 1,
                        evmap == (|e: PatternSearchType<u8>| event_view(e)),
                        out@.map_values(evmap) + (match skipper.pending() {
                            None => Seq::<SpecEvent<u8>>::empty(),
                            Some(s) => s.map_values(|b: u8| SpecEvent::NonMatch(b)),
                        }) + skip_stream(evs.skip(i + 1), f0 + 1, count as nat) == total,
                    ensures
                        skipper.count_spec() == count,
                        skipper.found_spec() == f0 + 1,
                        skipper.pending() is None,
                        out@.map_values(evmap) + skip_stream(evs.skip(i + 1), f0 + 1, count as nat) == total,
                    decreases (match skipper.pending() {
                        Some(s) => s.len() as int + 1,
                        None => 0,
                    }),
                {
                    let ghost pend = skipper.pending();
                    let r2 = match skipper.handle_existing_data() {
                        Some(b2) => PatternSearchType::NonMatch(b2),
                        None => { break },
                    };
                    proof {
                        let s = pend->0;
                        assert(s.map_values(|b: u8| SpecEvent::NonMatch(b)) =~= seq![
                            SpecEvent::<u8>::NonMatch(s[0]),
                        ] + s.drop_first().map_values(|b: u8| SpecEvent::NonMatch(b)));
                        assert(out@.push(r2).map_values(evmap) =~= out@.map_values(evmap).push(
                            event_view(r2),
                        ));
                        assert(out@.map_values(evmap).push(event_view(r2)) + s.drop_first()
                            .map_values(|b: u8| SpecEvent::NonMatch(b)) =~= out@.map_values(evmap)
                            + s.map_values(|b: u8| SpecEvent::NonMatch(b)));
                    }
                    out.push(r2);
                }
            },
        }
        i = i + 1;
    }
    proof {
        assert(evs.skip(n as int) =~= Seq::<SpecEvent<u8>>::empty());
        assert(out@.map_values(evmap) =~= total);
    }
    out
}

} // verus!
