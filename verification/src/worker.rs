//! What the worker of one layer does with what reaches it.
//!
//! A worker waits on the channel before its layer. An event that arrives is processed by
//! the layer, and what the layer emits is sent on; when the channel has been closed and
//! holds no more, the worker closes the channel after it and stops.

use vstd::prelude::*;
use crate::layer::Layer;
use crate::neuron::Neuron;
use crate::spike::{SpikeEvent, SpikeEventView};

verus! {

/// What the channel before a worker gives it.
#[derive(Debug)]
pub enum Incoming {
    /// The next event.
    Event(SpikeEvent),
    /// Nothing more: the channel is empty, and its sender has closed it.
    Closed,
}

/// What a worker does with the channel after it.
#[derive(Debug)]
pub enum Outgoing {
    /// It sends this event.
    Event(SpikeEvent),
    /// It closes the channel, and stops.
    Close,
}

/// The reaction of the worker of `layer`: an event is processed and what the layer emits
/// for it is sent on, under the same instant; the end of the input is passed on as the end
/// of the output, and leaves the layer as it is.
pub fn react<N: Neuron>(layer: &mut Layer<N>, incoming: Incoming) -> (outgoing: Outgoing)
    requires
        incoming matches Incoming::Event(event) ==> event@.spikes.len() == old(layer)@.input_dim,
    ensures
        match incoming {
            Incoming::Event(event) => {
                &&& outgoing matches Outgoing::Event(emitted) && emitted@ == (SpikeEventView {
                    ts: event@.ts,
                    spikes: old(layer)@.output(event@.ts, event@.spikes),
                })
                &&& final(layer)@ == old(layer)@.step(event@.ts, event@.spikes)
            },
            Incoming::Closed => outgoing is Close && final(layer)@ == old(layer)@,
        },
{
    match incoming {
        Incoming::Event(event) => Outgoing::Event(layer.process_event(&event)),
        Incoming::Closed => Outgoing::Close,
    }
}

} // verus!
