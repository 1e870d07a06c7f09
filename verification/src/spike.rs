//! Spike trains and the events that carry them from layer to layer.

use vstd::prelude::*;
use crate::error::InputContractError;

verus! {

/// Every value of `spikes` is 0 or 1.
pub open spec fn is_binary(spikes: Seq<u8>) -> bool {
    forall|i: int| 0 <= i < spikes.len() ==> spikes[i] == 0 || spikes[i] == 1
}

/// No value of `spikes` is a spike.
pub open spec fn is_silent(spikes: Seq<u8>) -> bool {
    forall|i: int| 0 <= i < spikes.len() ==> spikes[i] == 0
}

/// What a spike event holds.
pub struct SpikeEventView {
    /// The instant.
    pub ts: u64,
    /// One value per neuron, 0 or 1.
    pub spikes: Seq<u8>,
}

/// The spikes of one instant: one value per neuron of the layer that emitted them.
#[derive(Debug)]
pub struct SpikeEvent {
    ts: u64,
    spikes: Vec<u8>,
}

impl View for SpikeEvent {
    type V = SpikeEventView;

    closed spec fn view(&self) -> SpikeEventView {
        SpikeEventView { ts: self.ts, spikes: self.spikes@ }
    }
}

impl DeepView for SpikeEvent {
    type V = SpikeEventView;

    open spec fn deep_view(&self) -> SpikeEventView {
        self@
    }
}

/// Tells whether every value of `spikes` is 0 or 1.
pub fn check_binary(spikes: &Vec<u8>) -> (ok: bool)
    ensures
        ok == is_binary(spikes@),
{
    let mut i: usize = 0;
    while i < spikes.len()
        invariant
            i <= spikes@.len(),
            forall|k: int| 0 <= k < i ==> spikes@[k] == 0 || spikes@[k] == 1,
        decreases spikes@.len() - i,
    {
        if spikes[i] > 1 {
            return false;
        }
        i += 1;
    }
    true
}

/// Tells whether `spikes` holds no spike at all.
pub fn check_silent(spikes: &Vec<u8>) -> (silent: bool)
    ensures
        silent == is_silent(spikes@),
{
    let mut i: usize = 0;
    while i < spikes.len()
        invariant
            i <= spikes@.len(),
            forall|k: int| 0 <= k < i ==> spikes@[k] == 0,
        decreases spikes@.len() - i,
    {
        if spikes[i] != 0 {
            return false;
        }
        i += 1;
    }
    true
}

impl SpikeEvent {
    #[verifier::type_invariant]
    spec fn well_formed(self) -> bool {
        is_binary(self.spikes@)
    }

    /// An event for instant `ts`. Spike values other than 0 and 1 are rejected.
    pub fn new(ts: u64, spikes: Vec<u8>) -> (res: Result<Self, InputContractError>)
        ensures
            res is Ok <==> is_binary(spikes@),
            res matches Ok(event) ==> event@ == (SpikeEventView { ts, spikes: spikes@ }),
            res matches Err(e) ==> e == InputContractError::NonBinarySpike,
    {
        if check_binary(&spikes) {
            Ok(Self { ts, spikes })
        } else {
            Err(InputContractError::NonBinarySpike)
        }
    }

    /// An event for instant `ts` that carries spikes known to be 0 or 1.
    pub(crate) fn from_binary(ts: u64, spikes: Vec<u8>) -> (event: Self)
        requires
            is_binary(spikes@),
        ensures
            event@ == (SpikeEventView { ts, spikes: spikes@ }),
    {
        Self { ts, spikes }
    }

    /// The instant of the event.
    pub fn ts(&self) -> (ts: u64)
        ensures
            ts == self@.ts,
    {
        self.ts
    }

    /// The spikes of the event, in neuron order.
    pub fn spikes(&self) -> (spikes: &Vec<u8>)
        ensures
            spikes@ == self@.spikes,
            is_binary(spikes@),
    {
        proof {
            use_type_invariant(self);
        }
        &self.spikes
    }
}

/// The events of `events` that carry a spike, in their order.
pub open spec fn audible(events: Seq<SpikeEventView>) -> Seq<SpikeEventView> {
    events.filter(|e: SpikeEventView| !is_silent(e.spikes))
}

/// The events of `events` that are heard: all of them, or those that carry a spike.
pub open spec fn heard(events: Seq<SpikeEventView>, skip_silent: bool) -> Seq<SpikeEventView> {
    if skip_silent {
        audible(events)
    } else {
        events
    }
}

/// One more event is heard after the others if it carries a spike, and not at all if not.
pub proof fn lemma_audible_push(events: Seq<SpikeEventView>, e: SpikeEventView)
    ensures
        audible(events.push(e)) == if is_silent(e.spikes) {
            audible(events)
        } else {
            audible(events).push(e)
        },
{
    reveal(Seq::filter);
    assert(events.push(e).drop_last() =~= events);
    assert(events.push(e).last() == e);
}

/// Of no events none is heard.
pub proof fn lemma_audible_none()
    ensures
        audible(Seq::<SpikeEventView>::empty()) == Seq::<SpikeEventView>::empty(),
{
    reveal(Seq::filter);
}

/// Dropping the silent events keeps whatever holds of every event.
pub proof fn lemma_heard_keeps(
    events: Seq<SpikeEventView>,
    skip_silent: bool,
    holds: spec_fn(SpikeEventView) -> bool,
)
    requires
        forall|k: int| 0 <= k < events.len() ==> holds(#[trigger] events[k]),
    ensures
        forall|k: int|
            0 <= k < heard(events, skip_silent).len() ==> holds(
                #[trigger] heard(events, skip_silent)[k],
            ),
    decreases events.len(),
{
    if skip_silent && events.len() > 0 {
        let rest = events.drop_last();
        lemma_heard_keeps(rest, skip_silent, holds);
        assert(events =~= rest.push(events.last()));
        lemma_audible_push(rest, events.last());
        assert(heard(rest, skip_silent) == audible(rest));
    } else if skip_silent {
        lemma_audible_none();
        assert(events =~= Seq::empty());
    }
}

/// Every event that is left when the silent ones are dropped carries a spike.
pub proof fn lemma_audible_carry_spikes(events: Seq<SpikeEventView>)
    ensures
        forall|k: int|
            0 <= k < audible(events).len() ==> !is_silent((#[trigger] audible(events)[k]).spikes),
    decreases events.len(),
{
    if events.len() > 0 {
        let rest = events.drop_last();
        lemma_audible_carry_spikes(rest);
        assert(events =~= rest.push(events.last()));
        lemma_audible_push(rest, events.last());
    } else {
        lemma_audible_none();
        assert(events =~= Seq::empty());
    }
}

/// Drops the events without a spike from `events` where `skip_silent` asks for it.
pub fn retain_heard(events: Vec<SpikeEvent>, skip_silent: bool) -> (kept: Vec<SpikeEvent>)
    ensures
        kept.deep_view() == heard(events.deep_view(), skip_silent),
{
    if !skip_silent {
        return events;
    }
    let ghost items = events@;
    let ghost all = events.deep_view();
    let mut kept: Vec<SpikeEvent> = Vec::new();
    for event in it: events
        invariant
            it.seq() == items,
            all.len() == items.len(),
            forall|k: int| 0 <= k < items.len() ==> #[trigger] all[k] == items[k]@,
            kept.deep_view() == audible(all.take(it.index() as int)),
    {
        let ghost k = it.index() as int;
        let ghost before = kept.deep_view();
        let ghost e = event@;
        assert(event == items[k]);
        proof {
            assert(all.take(k + 1) =~= all.take(k).push(e));
            lemma_audible_push(all.take(k), e);
        }
        if !check_silent(event.spikes()) {
            kept.push(event);
            assert(kept.deep_view() =~= before.push(e));
        }
    }
    assert(all.take(all.len() as int) =~= all);
    kept
}

} // verus!
