//! The streaming match state machine.  It consumes one unit at a time into a
//! scan window, reports full matches and expelled non-matching units as
//! events, and leaves leftover window units to an explicit drain.

use vstd::prelude::*;

use crate::PatternSearchType;
use crate::SpecEvent;
use crate::event_view;
use crate::masked_byte::MaskedByte;
use crate::pattern::Pattern;

verus! {

/// The events a scan produces from window `w` and consumed count `taken` on
/// the remaining `input`, drained to the very end.
///
/// On a mismatch the whole window is expelled as non-matches and the scan
/// resumes behind it: the expelled units are never compared against earlier
/// pattern positions again, so a match that starts inside an expelled window
/// of a self-overlapping pattern is missed.  This mirrors the engine
/// deliberately; see [`Searcher`].
pub open spec fn scan_events(
    p: Seq<MaskedByte>,
    w: Seq<u8>,
    taken: nat,
    input: Seq<u8>,
) -> Seq<SpecEvent<u8>>
    decreases input.len(),
{
    if input.len() == 0 {
        w.map_values(|b: u8| SpecEvent::NonMatch(b))
    } else {
        let b = input[0];
        let w1 = w.push(b);
        let rest = input.drop_first();
        if p[w1.len() - 1].spec_matches(b) {
            if w1.len() == p.len() {
                seq![SpecEvent::Match { data: w1, index: taken + 1 - p.len() }] + scan_events(
                    p,
                    Seq::empty(),
                    taken + 1,
                    rest,
                )
            } else {
                scan_events(p, w1, taken + 1, rest)
            }
        } else {
            w1.map_values(|b2: u8| SpecEvent::NonMatch(b2)) + scan_events(
                p,
                Seq::empty(),
                taken + 1,
                rest,
            )
        }
    }
}

/// The streaming matcher: a borrowed pattern, the scan window of tentatively
/// consumed units, and the running count of units consumed.
///
/// Callers must exhaust leftover window contents through
/// [`Searcher::handle_existing_data`] before presenting new input, and must
/// drain once more after the last input unit: leftover units are not flushed
/// by themselves.
pub struct Searcher<'a> {
    pattern: &'a Pattern,
    data: Vec<u8>,
    taken: usize,
}

impl<'a> Searcher<'a> {
    /// The pattern this searcher scans for.
    pub closed spec fn pat(&self) -> Seq<MaskedByte> {
        self.pattern@
    }

    /// The scan window of tentatively consumed units.
    pub closed spec fn window(&self) -> Seq<u8> {
        self.data@
    }

    /// How many units of input were consumed so far.
    pub closed spec fn consumed(&self) -> nat {
        self.taken as nat
    }

    /// The window never outgrows the pattern, and never holds more than was
    /// consumed.
    pub open spec fn wf(&self) -> bool {
        self.window().len() <= self.pat().len() && self.window().len() <= self.consumed()
    }

    pub fn new(pattern: &'a Pattern) -> (r: Self)
        ensures
            r.pat() == pattern@,
            r.window() == Seq::<u8>::empty(),
            r.consumed() == 0,
            r.wf(),
    {
        let capacity = pattern.len();
        Self { pattern, data: Vec::with_capacity(capacity), taken: 0 }
    }

    /// Hands out the remaining units of a partial match, one per call, as
    /// non-matches; `None` once the window is empty.
    pub fn handle_existing_data(&mut self) -> (r: Option<PatternSearchType<u8>>)
        ensures
            final(self).pat() == old(self).pat(),
            final(self).consumed() == old(self).consumed(),
            match r {
                None => old(self).window().len() == 0 && final(self).window() == old(
                    self,
                ).window(),
                Some(e) => {
                    &&& old(self).window().len() > 0
                    &&& event_view(e) == SpecEvent::<u8>::NonMatch(old(self).window()[0])
                    &&& final(self).window() == old(self).window().drop_first()
                },
            },
    {
        if self.data.len() > 0 {
            let byte = self.data.remove(0);
            Some(PatternSearchType::NonMatch(byte))
        } else {
            None
        }
    }

    /// Handles the next input unit.  Must only be called once
    /// `handle_existing_data` has returned `None`; returns `None` when the
    /// unit is eaten as part of a possible match.
    pub fn handle_next(&mut self, byte: u8) -> (r: Option<PatternSearchType<u8>>)
        requires
            old(self).wf(),
            old(self).window().len() < old(self).pat().len(),
            old(self).consumed() < usize::MAX,
        ensures
            final(self).pat() == old(self).pat(),
            final(self).consumed() == old(self).consumed() + 1,
            final(self).wf(),
            ({
                let p = old(self).pat();
                let w1 = old(self).window().push(byte);
                if p[w1.len() - 1].spec_matches(byte) {
                    if w1.len() == p.len() {
                        &&& r matches Some(e) && event_view(e) == SpecEvent::Match {
                            data: w1,
                            index: old(self).consumed() + 1 - p.len(),
                        }
                        &&& final(self).window() == Seq::<u8>::empty()
                    } else {
                        r is None && final(self).window() == w1
                    }
                } else {
                    &&& r matches Some(e) && event_view(e) == SpecEvent::<u8>::NonMatch(w1[0])
                    &&& final(self).window() == w1.drop_first()
                }
            }),
    {
        self.taken = self.taken + 1;
        self.data.push(byte);
        let idx = self.data.len() - 1;
        let mb = *self.pattern.get(idx).unwrap();
        if mb.matches(byte) {
            if self.data.len() == self.pattern.len() {
                let mut other: Vec<u8> = Vec::new();
                core::mem::swap(&mut other, &mut self.data);
                let index = self.taken - self.pattern.len();
                Some(PatternSearchType::Match { data: other, index })
            } else {
                None
            }
        } else {
            let b0 = self.data.remove(0);
            Some(PatternSearchType::NonMatch(b0))
        }
    }
}

/// Runs a whole scan: feeds every unit of `input` into a fresh [`Searcher`],
/// drains after every event and once more at the end, and collects the
/// events in order.
pub fn scan(pattern: &Pattern, input: &Vec<u8>) -> (events: Vec<PatternSearchType<u8>>)
    requires
        pattern@.len() > 0,
    ensures
        events@.map_values(|e: PatternSearchType<u8>| event_view(e)) == scan_events(
            pattern@,
            Seq::empty(),
            0,
            input@,
        ),
{
    let ghost total = scan_events(pattern@, Seq::empty(), 0, input@);
    let n = input.len();
    let mut events: Vec<PatternSearchType<u8>> = Vec::new();
    let mut searcher = Searcher::new(pattern);
    let mut i: usize = 0;
    proof {
        assert(input@.skip(0) =~= input@);
    }
    while i < n
        invariant
            0 <= i <= n,
            n == input@.len(),
            searcher.wf(),
            searcher.pat() == pattern@,
            pattern@.len() > 0,
            searcher.window().len() < pattern@.len(),
            searcher.consumed() == i,
            total == scan_events(pattern@, Seq::empty(), 0, input@),
            events@.map_values(|e: PatternSearchType<u8>| event_view(e)) + scan_events(
                pattern@,
                searcher.window(),
                searcher.consumed(),
                input@.skip(i as int),
            ) == total,
        decreases n - i,
    {
        let ghost w0 = searcher.window();
        let ghost t0 = searcher.consumed();
        let b = input[i];
        proof {
            assert(input@.skip(i as int)[0] == b);
            assert(input@.skip(i as int).drop_first() =~= input@.skip(i + 1));
        }
        let r = searcher.handle_next(b);
        proof {
            let w1 = w0.push(b);
            let rem1 = input@.skip(i + 1);
            if pattern@[w1.len() - 1].spec_matches(b) && w1.len() != pattern@.len() {
                assert(scan_events(pattern@, w0, t0, input@.skip(i as int)) == scan_events(
                    pattern@,
                    w1,
                    t0 + 1,
                    rem1,
                ));
            }
        }
        match r {
            Some(e) => {
                proof {
                    let evmap = |e: PatternSearchType<u8>| event_view(e);
                    let w1 = w0.push(b);
                    let rem1 = input@.skip(i + 1);
                    if pattern@[w1.len() - 1].spec_matches(b) {
                        assert(events@.map_values(evmap).push(event_view(e)) + scan_events(
                            pattern@,
                            Seq::empty(),
                            t0 + 1,
                            rem1,
                        ) =~= events@.map_values(evmap) + (seq![
                            SpecEvent::Match { data: w1, index: t0 + 1 - pattern@.len() },
                        ] + scan_events(pattern@, Seq::empty(), t0 + 1, rem1)));
                    } else {
                        assert(w1.map_values(|b2: u8| SpecEvent::NonMatch(b2)) =~= seq![
                            SpecEvent::<u8>::NonMatch(w1[0]),
                        ] + w1.drop_first().map_values(|b2: u8| SpecEvent::NonMatch(b2)));
                        assert(events@.map_values(evmap).push(event_view(e))
                            + (w1.drop_first().map_values(|b2: u8| SpecEvent::NonMatch(b2))
                            + scan_events(pattern@, Seq::empty(), t0 + 1, rem1)) =~= events@
                            .map_values(evmap) + (w1.map_values(|b2: u8| SpecEvent::NonMatch(b2))
                            + scan_events(pattern@, Seq::empty(), t0 + 1, rem1)));
                    }
                    assert(events@.push(e).map_values(evmap) =~= events@.map_values(evmap).push(
                        event_view(e),
                    ));
                }
                events.push(e);
                loop
                    invariant_except_break
                        searcher.wf(),
                        searcher.pat() == pattern@,
                        pattern@.len() > 0,
                        searcher.window().len() < pattern@.len(),
                        searcher.consumed() == i + 1,
                        i < n == input@.len(),
                        total == scan_events(pattern@, Seq::empty(), 0, input@),
                        events@.map_values(|e: PatternSearchType<u8>| event_view(e))
                            + (searcher.window().map_values(|b2: u8| SpecEvent::NonMatch(b2))
                            + scan_events(
                            pattern@,
                            Seq::empty(),
                            searcher.consumed(),
                            input@.skip(i + 1),
                        )) == total,
                    ensures
                        searcher.wf(),
                        searcher.pat() == pattern@,
                        searcher.window().len() == 0,
                        searcher.consumed() == i + 1,
                        events@.map_values(|e: PatternSearchType<u8>| event_view(e))
                            + (searcher.window().map_values(|b2: u8| SpecEvent::NonMatch(b2))
                            + scan_events(
                            pattern@,
                            Seq::empty(),
                            searcher.consumed(),
                            input@.skip(i + 1),
                        )) == total,
                    decreases searcher.window().len(),
                {
                    let ghost wd = searcher.window();
                    let r2 = searcher.handle_existing_data();
                    let e2 = match r2 {
                        Some(ev) => ev,
                        None => { break },
                    };
                    proof {
                        let evmap = |e: PatternSearchType<u8>| event_view(e);
                        assert(wd.map_values(|b2: u8| SpecEvent::NonMatch(b2)) =~= seq![
                            SpecEvent::<u8>::NonMatch(wd[0]),
                        ] + wd.drop_first().map_values(|b2: u8| SpecEvent::NonMatch(b2)));
                        assert(events@.map_values(evmap).push(event_view(e2)) + (wd.drop_first()
                            .map_values(|b2: u8| SpecEvent::NonMatch(b2)) + scan_events(
                            pattern@,
                            Seq::empty(),
                            searcher.consumed(),
                            input@.skip(i + 1),
                        )) =~= events@.map_values(evmap) + (wd.map_values(
                            |b2: u8| SpecEvent::NonMatch(b2),
                        ) + scan_events(
                            pattern@,
                            Seq::empty(),
                            searcher.consumed(),
                            input@.skip(i + 1),
                        )));
                        assert(events@.push(e2).map_values(evmap) =~= events@.map_values(
                            evmap,
                        ).push(event_view(e2)));
                    }
                    events.push(e2);
                }
                proof {
                    assert(searcher.window().map_values(|b2: u8| SpecEvent::NonMatch(b2))
                        =~= Seq::<SpecEvent<u8>>::empty());
                    assert(Seq::<SpecEvent<u8>>::empty() + scan_events(
                        pattern@,
                        Seq::empty(),
                        searcher.consumed(),
                        input@.skip(i + 1),
                    ) =~= scan_events(pattern@, Seq::empty(), searcher.consumed(), input@.skip(i + 1)));
                    assert(searcher.window() =~= Seq::<u8>::empty());
                }
            },
            None => {
            },
        }
        i = i + 1;
    }
    proof {
        assert(input@.skip(n as int) =~= Seq::<u8>::empty());
    }
    loop
        invariant_except_break
            searcher.wf(),
            searcher.pat() == pattern@,
            total == scan_events(pattern@, Seq::empty(), 0, input@),
            events@.map_values(|e: PatternSearchType<u8>| event_view(e)) + searcher.window()
                .map_values(|b2: u8| SpecEvent::NonMatch(b2)) == total,
        ensures
            searcher.window().len() == 0,
            events@.map_values(|e: PatternSearchType<u8>| event_view(e)) + searcher.window()
                .map_values(|b2: u8| SpecEvent::NonMatch(b2)) == total,
        decreases searcher.window().len(),
    {
        let ghost wd = searcher.window();
        let r2 = searcher.handle_existing_data();
        let e2 = match r2 {
            Some(ev) => ev,
            None => { break },
        };
        proof {
            let evmap = |e: PatternSearchType<u8>| event_view(e);
            assert(wd.map_values(|b2: u8| SpecEvent::NonMatch(b2)) =~= seq![
                SpecEvent::<u8>::NonMatch(wd[0]),
            ] + wd.drop_first().map_values(|b2: u8| SpecEvent::NonMatch(b2)));
            assert(events@.map_values(evmap).push(event_view(e2)) + wd.drop_first().map_values(
                |b2: u8| SpecEvent::NonMatch(b2),
            ) =~= events@.map_values(evmap) + wd.map_values(|b2: u8| SpecEvent::NonMatch(b2)));
            assert(events@.push(e2).map_values(evmap) =~= events@.map_values(evmap).push(
                event_view(e2),
            ));
        }
        events.push(e2);
    }
    proof {
        let evmap = |e: PatternSearchType<u8>| event_view(e);
        assert(searcher.window().map_values(|b2: u8| SpecEvent::NonMatch(b2))
            =~= Seq::<SpecEvent<u8>>::empty());
        assert(events@.map_values(evmap) + Seq::<SpecEvent<u8>>::empty() =~= events@.map_values(
            evmap,
        ));
    }
    events
}

/// Every match event of a stream carries a data run of length `n`.
pub open spec fn match_data_sized<T>(events: Seq<SpecEvent<T>>, n: nat) -> bool {
    forall|j: int|
        0 <= j < events.len() ==> ((#[trigger] events[j]) matches SpecEvent::Match { data, .. }
            ==> data.len() == n)
}

proof fn lemma_match_data_sized_add<T>(a: Seq<SpecEvent<T>>, b: Seq<SpecEvent<T>>, n: nat)
    requires
        match_data_sized(a, n),
        match_data_sized(b, n),
    ensures
        match_data_sized(a + b, n),
{
    assert forall|j: int| 0 <= j < (a + b).len() implies ((#[trigger] (a + b)[j]) matches SpecEvent::Match {
        data,
        ..
    } ==> data.len() == n) by {
        if j < a.len() {
            assert((a + b)[j] == a[j]);
        } else {
            assert((a + b)[j] == b[j - a.len()]);
        }
    }
}

/// Every match a scan reports holds exactly one pattern's worth of units, so
/// downstream engines may demote it unit by unit.
pub proof fn lemma_scan_events_match_sized(p: Seq<MaskedByte>, w: Seq<u8>, taken: nat, input: Seq<u8>)
    ensures
        match_data_sized(scan_events(p, w, taken, input), p.len()),
    decreases input.len(),
{
    if input.len() == 0 {
        let drained = w.map_values(|b: u8| SpecEvent::NonMatch(b));
        assert(match_data_sized(drained, p.len()));
    } else {
        let b = input[0];
        let w1 = w.push(b);
        let rest = input.drop_first();
        if p[w1.len() - 1].spec_matches(b) {
            if w1.len() == p.len() {
                lemma_scan_events_match_sized(p, Seq::empty(), taken + 1, rest);
                lemma_match_data_sized_add(
                    seq![SpecEvent::Match { data: w1, index: taken + 1 - p.len() }],
                    scan_events(p, Seq::empty(), taken + 1, rest),
                    p.len(),
                );
            } else {
                lemma_scan_events_match_sized(p, w1, taken + 1, rest);
            }
        } else {
            lemma_scan_events_match_sized(p, Seq::empty(), taken + 1, rest);
            lemma_match_data_sized_add(
                w1.map_values(|b2: u8| SpecEvent::NonMatch(b2)),
                scan_events(p, Seq::empty(), taken + 1, rest),
                p.len(),
            );
        }
    }
}

} // verus!
