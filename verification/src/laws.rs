//! Laws that tie the engines together: the replace/rescan round trip, and
//! the exact complement between the skip and take engines.

use vstd::prelude::*;

use crate::SpecEvent;
use crate::masked_byte::MaskedByte;
use crate::pattern::replace_defined_ok;
use crate::pattern::replace_result;
use crate::searcher::scan_events;
use crate::skipper::skip_stream;
use crate::taker::take_stream;

verus! {

/// The ordered sub-sequence of match events of a stream.
pub open spec fn matches_of<T>(events: Seq<SpecEvent<T>>) -> Seq<SpecEvent<T>>
    decreases events.len(),
{
    if events.len() == 0 {
        Seq::empty()
    } else {
        let rest = matches_of(events.drop_first());
        if events[0] is Match {
            seq![events[0]] + rest
        } else {
            rest
        }
    }
}

/// The constituent units of a stream, in order: a match contributes its data
/// run, a non-match its single unit.
pub open spec fn units_of<T>(events: Seq<SpecEvent<T>>) -> Seq<T>
    decreases events.len(),
{
    if events.len() == 0 {
        Seq::empty()
    } else {
        (match events[0] {
            SpecEvent::Match { data, index } => data,
            SpecEvent::NonMatch(b) => seq![b],
        }) + units_of(events.drop_first())
    }
}

proof fn lemma_matches_of_add<T>(a: Seq<SpecEvent<T>>, b: Seq<SpecEvent<T>>)
    ensures
        matches_of(a + b) == matches_of(a) + matches_of(b),
    decreases a.len(),
{
    if a.len() == 0 {
        assert(a + b =~= b);
        assert(matches_of(a) + matches_of(b) =~= matches_of(b));
    } else {
        assert((a + b).drop_first() =~= a.drop_first() + b);
        lemma_matches_of_add(a.drop_first(), b);
        if a[0] is Match {
            assert(seq![a[0]] + (matches_of(a.drop_first()) + matches_of(b)) =~= (seq![a[0]]
                + matches_of(a.drop_first())) + matches_of(b));
        }
    }
}

proof fn lemma_units_of_add<T>(a: Seq<SpecEvent<T>>, b: Seq<SpecEvent<T>>)
    ensures
        units_of(a + b) == units_of(a) + units_of(b),
    decreases a.len(),
{
    if a.len() == 0 {
        assert(a + b =~= b);
        assert(units_of(a) + units_of(b) =~= units_of(b));
    } else {
        assert((a + b).drop_first() =~= a.drop_first() + b);
        lemma_units_of_add(a.drop_first(), b);
        let h = match a[0] {
            SpecEvent::Match { data, index } => data,
            SpecEvent::NonMatch(b2) => seq![b2],
        };
        assert(h + (units_of(a.drop_first()) + units_of(b)) =~= (h + units_of(a.drop_first()))
            + units_of(b));
    }
}

proof fn lemma_of_singleton<T>(e: SpecEvent<T>)
    ensures
        matches_of(seq![e]) == if e is Match {
            seq![e]
        } else {
            Seq::<SpecEvent<T>>::empty()
        },
        units_of(seq![e]) == (match e {
            SpecEvent::Match { data, index } => data,
            SpecEvent::NonMatch(b) => seq![b],
        }),
{
    assert(seq![e].drop_first() =~= Seq::<SpecEvent<T>>::empty());
    assert(seq![e][0] == e);
    assert(matches_of(Seq::<SpecEvent<T>>::empty()) == Seq::<SpecEvent<T>>::empty());
    assert(units_of(Seq::<SpecEvent<T>>::empty()) == Seq::<T>::empty());
    if e is Match {
        assert(seq![e] + Seq::<SpecEvent<T>>::empty() =~= seq![e]);
    }
    let h = match e {
        SpecEvent::Match { data, index } => data,
        SpecEvent::NonMatch(b) => seq![b],
    };
    assert(h + Seq::<T>::empty() =~= h);
}

proof fn lemma_demoted_has_no_matches<T>(data: Seq<T>)
    ensures
        matches_of(data.map_values(|b: T| SpecEvent::NonMatch(b)))
            == Seq::<SpecEvent<T>>::empty(),
        units_of(data.map_values(|b: T| SpecEvent::NonMatch(b))) == data,
    decreases data.len(),
{
    let m = data.map_values(|b: T| SpecEvent::NonMatch(b));
    if data.len() == 0 {
        assert(m =~= Seq::<SpecEvent<T>>::empty());
        assert(units_of(m) =~= data);
    } else {
        assert(m.drop_first() =~= data.drop_first().map_values(|b: T| SpecEvent::NonMatch(b)));
        lemma_demoted_has_no_matches(data.drop_first());
        assert(m.len() != 0);
        assert(m[0] == SpecEvent::<T>::NonMatch(data[0]));
        assert(seq![data[0]] + data.drop_first() =~= data);
    }
}

/// The number of matches a skip or take engine with target `count` and
/// counter `found` will still demote or pass: `count - found`, clamped to the
/// matches the stream holds.
pub open spec fn clamped_quota<T>(events: Seq<SpecEvent<T>>, found: nat, count: nat) -> int {
    if count <= found {
        0
    } else if count - found <= matches_of(events).len() {
        count - found
    } else {
        matches_of(events).len() as int
    }
}

/// The skip engine drops exactly the first `count - found` matches from the
/// match sub-sequence and keeps the rest, in order.
pub proof fn lemma_skip_stream_matches<T>(events: Seq<SpecEvent<T>>, found: nat, count: nat)
    ensures
        matches_of(skip_stream(events, found, count)) == matches_of(events).skip(
            clamped_quota(events, found, count),
        ),
    decreases events.len(),
{
    let m = matches_of(events);
    let d = clamped_quota(events, found, count);
    if events.len() == 0 {
        assert(matches_of(skip_stream(events, found, count)) =~= m.skip(d));
    } else {
        let rest = events.drop_first();
        match events[0] {
            SpecEvent::NonMatch(b) => {
                lemma_skip_stream_matches(rest, found, count);
                lemma_matches_of_add(seq![events[0]], skip_stream(rest, found, count));
                lemma_of_singleton(events[0]);
                assert(matches_of(seq![events[0]]) =~= Seq::<SpecEvent<T>>::empty());
                assert(matches_of(seq![events[0]]) + matches_of(skip_stream(rest, found, count))
                    =~= matches_of(skip_stream(rest, found, count)));
            },
            SpecEvent::Match { data, index } => {
                lemma_skip_stream_matches(rest, found + 1, count);
                if found + 1 <= count {
                    lemma_matches_of_add(
                        data.map_values(|b2: T| SpecEvent::NonMatch(b2)),
                        skip_stream(rest, found + 1, count),
                    );
                    lemma_demoted_has_no_matches(data);
                    assert(Seq::<SpecEvent<T>>::empty() + matches_of(
                        skip_stream(rest, found + 1, count),
                    ) =~= matches_of(skip_stream(rest, found + 1, count)));
                    assert(m == seq![events[0]] + matches_of(rest));
                    assert(d >= 1);
                    assert(m.skip(d) =~= matches_of(rest).skip(
                        clamped_quota(rest, found + 1, count),
                    ));
                } else {
                    lemma_matches_of_add(seq![events[0]], skip_stream(rest, found + 1, count));
                    lemma_of_singleton(events[0]);
                    assert(clamped_quota(rest, found + 1, count) == 0);
                    assert(matches_of(rest).skip(0) =~= matches_of(rest));
                    assert(d == 0);
                    assert(m.skip(0) =~= m);
                    assert(m == seq![events[0]] + matches_of(rest));
                }
            },
        }
    }
}

/// The take engine keeps exactly the first `count - found` matches of the
/// match sub-sequence and demotes the rest, in order.
pub proof fn lemma_take_stream_matches<T>(events: Seq<SpecEvent<T>>, found: nat, count: nat)
    ensures
        matches_of(take_stream(events, found, count)) == matches_of(events).take(
            clamped_quota(events, found, count),
        ),
    decreases events.len(),
{
    let m = matches_of(events);
    let d = clamped_quota(events, found, count);
    if events.len() == 0 {
        assert(matches_of(take_stream(events, found, count)) =~= m.take(d));
    } else {
        let rest = events.drop_first();
        match events[0] {
            SpecEvent::NonMatch(b) => {
                lemma_take_stream_matches(rest, found, count);
                lemma_matches_of_add(seq![events[0]], take_stream(rest, found, count));
                lemma_of_singleton(events[0]);
                assert(matches_of(seq![events[0]]) =~= Seq::<SpecEvent<T>>::empty());
                assert(matches_of(seq![events[0]]) + matches_of(take_stream(rest, found, count))
                    =~= matches_of(take_stream(rest, found, count)));
            },
            SpecEvent::Match { data, index } => {
                lemma_take_stream_matches(rest, found + 1, count);
                if found + 1 > count {
                    lemma_matches_of_add(
                        data.map_values(|b2: T| SpecEvent::NonMatch(b2)),
                        take_stream(rest, found + 1, count),
                    );
                    lemma_demoted_has_no_matches(data);
                    assert(Seq::<SpecEvent<T>>::empty() + matches_of(
                        take_stream(rest, found + 1, count),
                    ) =~= matches_of(take_stream(rest, found + 1, count)));
                    assert(clamped_quota(rest, found + 1, count) == 0);
                    assert(matches_of(rest).take(0) =~= Seq::<SpecEvent<T>>::empty());
                    assert(d == 0);
                    assert(m.take(0) =~= Seq::<SpecEvent<T>>::empty());
                } else {
                    lemma_matches_of_add(seq![events[0]], take_stream(rest, found + 1, count));
                    lemma_of_singleton(events[0]);
                    assert(m == seq![events[0]] + matches_of(rest));
                    assert(d >= 1);
                    assert(m.take(d) =~= seq![events[0]] + matches_of(rest).take(
                        clamped_quota(rest, found + 1, count),
                    ));
                }
            },
        }
    }
}

/// Skip and take are exact complements: on any stream, the matches the take
/// engine lets through and the matches the skip engine lets through split the
/// stream's matches in two, in order and without loss.
pub proof fn lemma_skip_take_complement<T>(events: Seq<SpecEvent<T>>, count: nat)
    ensures
        matches_of(take_stream(events, 0, count)) + matches_of(skip_stream(events, 0, count))
            == matches_of(events),
{
    lemma_skip_stream_matches(events, 0, count);
    lemma_take_stream_matches(events, 0, count);
    let m = matches_of(events);
    let d = clamped_quota(events, 0, count);
    assert(m.take(d) + m.skip(d) =~= m);
}

/// Neither engine loses or reorders a unit: a demoted match contributes its
/// constituent units in their original places.
pub proof fn lemma_skip_stream_units<T>(events: Seq<SpecEvent<T>>, found: nat, count: nat)
    ensures
        units_of(skip_stream(events, found, count)) == units_of(events),
    decreases events.len(),
{
    if events.len() == 0 {
    } else {
        let rest = events.drop_first();
        match events[0] {
            SpecEvent::NonMatch(b) => {
                lemma_skip_stream_units(rest, found, count);
                lemma_units_of_add(seq![events[0]], skip_stream(rest, found, count));
                lemma_of_singleton(events[0]);
                assert(units_of(seq![events[0]]) =~= seq![b]);
                assert(units_of(events) =~= seq![b] + units_of(rest));
            },
            SpecEvent::Match { data, index } => {
                lemma_skip_stream_units(rest, found + 1, count);
                if found + 1 <= count {
                    lemma_units_of_add(
                        data.map_values(|b2: T| SpecEvent::NonMatch(b2)),
                        skip_stream(rest, found + 1, count),
                    );
                    lemma_demoted_has_no_matches(data);
                } else {
                    lemma_units_of_add(seq![events[0]], skip_stream(rest, found + 1, count));
                    lemma_of_singleton(events[0]);
                    assert(units_of(seq![events[0]]) =~= data);
                }
                assert(units_of(events) =~= data + units_of(rest));
            },
        }
    }
}

/// The take engine counterpart of [`lemma_skip_stream_units`].
pub proof fn lemma_take_stream_units<T>(events: Seq<SpecEvent<T>>, found: nat, count: nat)
    ensures
        units_of(take_stream(events, found, count)) == units_of(events),
    decreases events.len(),
{
    if events.len() == 0 {
    } else {
        let rest = events.drop_first();
        match events[0] {
            SpecEvent::NonMatch(b) => {
                lemma_take_stream_units(rest, found, count);
                lemma_units_of_add(seq![events[0]], take_stream(rest, found, count));
                lemma_of_singleton(events[0]);
                assert(units_of(seq![events[0]]) =~= seq![b]);
                assert(units_of(events) =~= seq![b] + units_of(rest));
            },
            SpecEvent::Match { data, index } => {
                lemma_take_stream_units(rest, found + 1, count);
                if found + 1 > count {
                    lemma_units_of_add(
                        data.map_values(|b2: T| SpecEvent::NonMatch(b2)),
                        take_stream(rest, found + 1, count),
                    );
                    lemma_demoted_has_no_matches(data);
                } else {
                    lemma_units_of_add(seq![events[0]], take_stream(rest, found + 1, count));
                    lemma_of_singleton(events[0]);
                    assert(units_of(seq![events[0]]) =~= data);
                }
                assert(units_of(events) =~= data + units_of(rest));
            },
        }
    }
}

/// A scan over input that matches the pattern position by position, with the
/// window still `input` short of full, yields exactly one match holding the
/// whole run.
proof fn lemma_scan_all_match(p: Seq<MaskedByte>, w: Seq<u8>, taken: nat, input: Seq<u8>)
    requires
        p.len() > 0,
        w.len() + input.len() == p.len(),
        input.len() > 0,
        forall|i: int|
            0 <= i < input.len() ==> (#[trigger] p[w.len() + i]).spec_matches(input[i]),
    ensures
        scan_events(p, w, taken, input) == seq![
            SpecEvent::Match { data: w + input, index: taken + input.len() - p.len() },
        ],
    decreases input.len(),
{
    let b = input[0];
    let w1 = w.push(b);
    assert(p[w.len() as int + 0].spec_matches(input[0]));
    assert(p[w1.len() - 1].spec_matches(b));
    if w1.len() == p.len() {
        assert(input.drop_first().len() == 0);
        assert(scan_events(p, Seq::empty(), taken + 1, input.drop_first())
            =~= Seq::<SpecEvent<u8>>::empty());
        assert(w + input =~= w1);
        assert(seq![SpecEvent::Match { data: w1, index: taken + 1 - p.len() }]
            + Seq::<SpecEvent<u8>>::empty() =~= seq![
            SpecEvent::Match { data: w + input, index: taken + input.len() - p.len() },
        ]);
    } else {
        assert forall|i: int| 0 <= i < input.drop_first().len() implies (#[trigger] p[w1.len()
            + i]).spec_matches(input.drop_first()[i]) by {
            assert(input.drop_first()[i] == input[i + 1]);
            assert(p[w.len() + (i + 1)].spec_matches(input[i + 1]));
            assert(w1.len() + i == w.len() + (i + 1));
        }
        lemma_scan_all_match(p, w1, taken + 1, input.drop_first());
        assert(w1 + input.drop_first() =~= w + input);
    }
}

/// The round trip: when every unit of the pattern is fully defined, replacing
/// a reported match's data and rescanning the result reproduces a match with
/// the replaced run as its content, at the same index the original match was
/// reported at.
pub proof fn lemma_replace_rescan(p: Seq<MaskedByte>, data: Seq<u8>, start: nat)
    requires
        p.len() > 0,
        data.len() == p.len(),
        forall|i: int| 0 <= i < p.len() ==> (#[trigger] p[i]).is_defined(),
    ensures
        replace_defined_ok(p, data),
        scan_events(p, Seq::empty(), start, replace_result(p, data)) == seq![
            SpecEvent::Match { data: replace_result(p, data), index: start as int },
        ],
{
    let out = replace_result(p, data);
    assert forall|i: int| 0 <= i < out.len() implies (#[trigger] p[0 + i]).spec_matches(
        out[i],
    ) by {
        assert(out[i] == p[i].spec_set(data[i]));
        let v = p[i].value;
        let m = p[i].mask;
        let d = data[i];
        assert(m == 0xff ==> ((d & !m) | (v & m)) & m == v & m) by (bit_vector);
    }
    assert(forall|i: int|
        0 <= i < out.len() ==> (#[trigger] p[Seq::<u8>::empty().len() + i]).spec_matches(out[i]));
    lemma_scan_all_match(p, Seq::empty(), start, out);
    assert(Seq::<u8>::empty() + out =~= out);
}

/// A skip engine whose quota is used up forwards the stream unchanged.
pub proof fn lemma_skip_exhausted_is_identity<T>(events: Seq<SpecEvent<T>>, found: nat, count: nat)
    requires
        count <= found,
    ensures
        skip_stream(events, found, count) == events,
    decreases events.len(),
{
    if events.len() != 0 {
        let rest = events.drop_first();
        match events[0] {
            SpecEvent::NonMatch(b) => {
                lemma_skip_exhausted_is_identity(rest, found, count);
            },
            SpecEvent::Match { data, index } => {
                lemma_skip_exhausted_is_identity(rest, found + 1, count);
            },
        }
        assert(seq![events[0]] + rest =~= events);
    }
}

/// A take engine with quota for every match left in the stream forwards it
/// unchanged.
pub proof fn lemma_take_unexhausted_is_identity<T>(events: Seq<SpecEvent<T>>, found: nat, count: nat)
    requires
        found + matches_of(events).len() <= count,
    ensures
        take_stream(events, found, count) == events,
    decreases events.len(),
{
    if events.len() != 0 {
        let rest = events.drop_first();
        match events[0] {
            SpecEvent::NonMatch(b) => {
                lemma_take_unexhausted_is_identity(rest, found, count);
            },
            SpecEvent::Match { data, index } => {
                assert(matches_of(events) == seq![events[0]] + matches_of(rest));
                lemma_take_unexhausted_is_identity(rest, found + 1, count);
            },
        }
        assert(seq![events[0]] + rest =~= events);
    }
}

} // verus!
