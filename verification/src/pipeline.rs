//! The pipeline of workers: a model of a run in which every layer works on its own.
//!
//! One worker per layer, and a channel before each worker and after the last. A channel has
//! one sender and keeps the order of what is sent. The feeder sends the events of the run
//! into the first channel and closes it. A worker receives an event from the channel before
//! it, lets its layer process the event and sends what the layer emits into the channel
//! after it; when the channel before it is empty and closed, the worker closes the channel
//! after it and stops. What is in the last channel when every worker has stopped is the
//! result of the run.
//!
//! The workers move in any order. Whatever the order, a move is possible until every
//! worker has stopped, the number of moves is the same, and so is the result: that of
//! sending the events through the layers one layer after the other.
//!
//! The two moves of a worker are the two reactions of [`crate::worker::react`].

use vstd::prelude::*;
use crate::layer::LayerView;
use crate::network::{layers_after, stream_through};
use crate::neuron::Neuron;
use crate::spike::SpikeEventView;

verus! {

/// One move of the pipeline.
pub enum Move {
    /// The feeder sends the next event into the first channel.
    Feed,
    /// The feeder closes the first channel.
    CloseEntry,
    /// The worker of this index receives an event, processes it and sends what its layer
    /// emits.
    Receive(int),
    /// The worker of this index closes the channel after it and stops.
    Stop(int),
}

/// The pipeline at one moment of a run.
pub struct PipelineView<N> {
    /// The events that the run feeds, in their order.
    pub fed: Seq<SpikeEventView>,
    /// How many of them the feeder has sent.
    pub pushed: nat,
    /// The layer of each worker.
    pub workers: Seq<LayerView<N>>,
    /// How many events each worker has received.
    pub received: Seq<nat>,
    /// What waits in each channel: channel `l` lies before worker `l`, and the last
    /// channel after the last worker.
    pub channels: Seq<Seq<SpikeEventView>>,
    /// Whether the sender of each channel has closed it.
    pub closed: Seq<bool>,
    /// Whether each worker has stopped.
    pub stopped: Seq<bool>,
}

/// The number of events in every stream of the pipeline: that of the events that entered.
pub proof fn lemma_stream_through_len<N: Neuron>(
    layers: Seq<LayerView<N>>,
    events: Seq<SpikeEventView>,
    k: int,
)
    ensures
        stream_through(layers, events, k).len() == events.len(),
    decreases k,
{
    if k > 0 {
        lemma_stream_through_len(layers, events, k - 1);
    }
}

impl<N: Neuron> PipelineView<N> {
    /// The pipeline before the first move: nothing sent, no channel closed, every worker
    /// running on its layer as it is.
    pub open spec fn start(layers: Seq<LayerView<N>>, fed: Seq<SpikeEventView>) -> Self {
        PipelineView {
            fed,
            pushed: 0,
            workers: layers,
            received: Seq::new(layers.len(), |l: int| 0nat),
            channels: Seq::new(layers.len() + 1, |l: int| Seq::<SpikeEventView>::empty()),
            closed: Seq::new(layers.len() + 1, |l: int| false),
            stopped: Seq::new(layers.len(), |l: int| false),
        }
    }

    /// Whether the move is possible now.
    pub open spec fn can(self, m: Move) -> bool {
        match m {
            Move::Feed => self.pushed < self.fed.len() && !self.closed[0],
            Move::CloseEntry => self.pushed == self.fed.len() && !self.closed[0],
            Move::Receive(l) => 0 <= l < self.workers.len() && !self.stopped[l]
                && self.channels[l].len() > 0,
            Move::Stop(l) => 0 <= l < self.workers.len() && !self.stopped[l]
                && self.channels[l].len() == 0 && self.closed[l],
        }
    }

    /// The pipeline after the move.
    pub open spec fn after(self, m: Move) -> Self {
        match m {
            Move::Feed => PipelineView {
                pushed: self.pushed + 1,
                channels: self.channels.update(
                    0,
                    self.channels[0].push(self.fed[self.pushed as int]),
                ),
                ..self
            },
            Move::CloseEntry => PipelineView { closed: self.closed.update(0, true), ..self },
            Move::Receive(l) => {
                let event = self.channels[l].first();
                let layer = self.workers[l];
                let emitted = SpikeEventView {
                    ts: event.ts,
                    spikes: layer.output(event.ts, event.spikes),
                };
                PipelineView {
                    workers: self.workers.update(l, layer.step(event.ts, event.spikes)),
                    received: self.received.update(l, self.received[l] + 1),
                    channels: self.channels.update(l, self.channels[l].drop_first()).update(
                        l + 1,
                        self.channels[l + 1].push(emitted),
                    ),
                    ..self
                }
            },
            Move::Stop(l) => PipelineView {
                stopped: self.stopped.update(l, true),
                closed: self.closed.update(l + 1, true),
                ..self
            },
        }
    }

    /// The feeder has closed the first channel, and every worker has stopped.
    pub open spec fn done(self) -> bool {
        &&& self.closed[0]
        &&& forall|l: int| 0 <= l < self.workers.len() ==> #[trigger] self.stopped[l]
    }

    /// What is in the channel after the last worker.
    pub open spec fn exit(self) -> Seq<SpikeEventView> {
        self.channels.last()
    }

    /// How many events have been sent into channel `l`.
    pub open spec fn produced(self, l: int) -> nat {
        if l <= 0 {
            self.pushed
        } else {
            self.received[l - 1]
        }
    }

    /// The pipeline is where a run of `layers` on its events can be: every worker holds its
    /// layer as the events that it has received left it, and every channel holds, in their
    /// order, the events that were sent into it and not yet received.
    pub open spec fn agrees(self, layers: Seq<LayerView<N>>) -> bool {
        let n = layers.len() as int;
        &&& self.workers.len() == n
        &&& self.received.len() == n
        &&& self.stopped.len() == n
        &&& self.channels.len() == n + 1
        &&& self.closed.len() == n + 1
        &&& self.pushed <= self.fed.len()
        &&& (self.closed[0] ==> self.pushed == self.fed.len())
        &&& forall|l: int|
            0 <= l < n ==> (#[trigger] self.received[l]) <= self.produced(l) && self.received[l]
                <= self.fed.len()
        &&& forall|l: int|
            0 <= l < n ==> #[trigger] self.workers[l] == layers[l].after(
                stream_through(layers, self.fed, l),
                self.received[l] as int,
            )
        &&& forall|l: int|
            0 <= l < n ==> #[trigger] self.channels[l] == stream_through(
                layers,
                self.fed,
                l,
            ).subrange(self.received[l] as int, self.produced(l) as int)
        &&& self.channels[n] == stream_through(layers, self.fed, n).take(self.produced(n) as int)
        &&& forall|l: int| 0 <= l < n ==> (#[trigger] self.stopped[l]) == self.closed[l + 1]
        &&& forall|l: int|
            0 <= l < n ==> ((#[trigger] self.stopped[l]) ==> self.closed[l] && self.received[l]
                == self.fed.len())
    }

    /// The moves that worker `l` has still to make: one for each event that it has not
    /// received, and one to stop.
    pub open spec fn worker_moves_left(self, l: int) -> int {
        (self.fed.len() - self.received[l]) + if self.stopped[l] {
            0int
        } else {
            1int
        }
    }

    /// The moves that the first `k` workers have still to make.
    pub open spec fn workers_moves_left(self, k: int) -> int
        decreases k,
    {
        if k <= 0 {
            0
        } else {
            self.workers_moves_left(k - 1) + self.worker_moves_left(k - 1)
        }
    }

    /// The moves that are still to be made: those of the feeder, one for each event not
    /// sent and one to close the first channel, and those of the workers.
    pub open spec fn moves_left(self) -> int {
        (self.fed.len() - self.pushed) + (if self.closed[0] {
            0int
        } else {
            1int
        }) + self.workers_moves_left(self.workers.len() as int)
    }

    /// The moves of a whole run: each of the feeder and the workers handles every event and
    /// then closes its channel.
    pub open spec fn moves_of_a_run(layers: Seq<LayerView<N>>, fed: Seq<SpikeEventView>) -> int {
        (fed.len() + 1) as int * (layers.len() + 1) as int
    }

    /// Every move of `schedule` is possible when its turn comes.
    pub open spec fn allows(self, schedule: Seq<Move>) -> bool
        decreases schedule.len(),
    {
        schedule.len() == 0 || (self.can(schedule.first()) && self.after(
            schedule.first(),
        ).allows(schedule.drop_first()))
    }

    /// The pipeline after the moves of `schedule`, one after the other.
    pub open spec fn after_all(self, schedule: Seq<Move>) -> Self
        decreases schedule.len(),
    {
        if schedule.len() == 0 {
            self
        } else {
            self.after(schedule.first()).after_all(schedule.drop_first())
        }
    }

    /// Before the first move the pipeline is where a run can be, with all its moves to make.
    pub proof fn lemma_start_agrees(layers: Seq<LayerView<N>>, fed: Seq<SpikeEventView>)
        ensures
            Self::start(layers, fed).agrees(layers),
            Self::start(layers, fed).moves_left() == Self::moves_of_a_run(layers, fed),
    {
        let p = Self::start(layers, fed);
        let n = layers.len() as int;
        assert forall|l: int| 0 <= l < n implies #[trigger] p.channels[l] == stream_through(
            layers,
            fed,
            l,
        ).subrange(p.received[l] as int, p.produced(l) as int) by {
            lemma_stream_through_len(layers, fed, l);
            assert(stream_through(layers, fed, l).subrange(0, 0) =~= Seq::empty());
        }
        lemma_stream_through_len(layers, fed, n);
        assert(stream_through(layers, fed, n).take(0) =~= Seq::empty());
        assert(p.produced(n) == 0);
        Self::lemma_moves_left_at_start(layers, fed, n);
        assert((fed.len() + 1) * (n + 1) == (fed.len() + 1) * n + (fed.len() + 1))
            by (nonlinear_arith);
    }

    /// Before the first move each of the first `k` workers has one move to make for every
    /// event, and one to stop.
    proof fn lemma_moves_left_at_start(layers: Seq<LayerView<N>>, fed: Seq<SpikeEventView>, k: int)
        requires
            0 <= k <= layers.len(),
        ensures
            Self::start(layers, fed).workers_moves_left(k) == (fed.len() + 1) * k,
        decreases k,
    {
        if k > 0 {
            let p = Self::start(layers, fed);
            Self::lemma_moves_left_at_start(layers, fed, k - 1);
            assert(p.received[k - 1] == 0);
            assert(!p.stopped[k - 1]);
            assert(p.worker_moves_left(k - 1) == fed.len() + 1);
            assert((fed.len() + 1) * k == (fed.len() + 1) * (k - 1) + (fed.len() + 1))
                by (nonlinear_arith);
        } else {
            assert((fed.len() + 1) * 0 == 0);
        }
    }

    /// A move leaves the pipeline where a run can be.
    pub proof fn lemma_move_keeps_agreement(self, layers: Seq<LayerView<N>>, m: Move)
        requires
            self.agrees(layers),
            self.can(m),
        ensures
            self.after(m).agrees(layers),
            self.after(m).fed == self.fed,
    {
        match m {
            Move::Feed => {
                self.lemma_feed_keeps_agreement(layers);
            },
            Move::CloseEntry => {
                self.lemma_close_keeps_agreement(layers);
            },
            Move::Receive(w) => {
                self.lemma_receive_keeps_agreement(layers, w);
            },
            Move::Stop(w) => {
                self.lemma_stop_keeps_agreement(layers, w);
            },
        }
    }

    /// No more events have been sent into a channel than the run feeds.
    proof fn lemma_produced_bound(self, layers: Seq<LayerView<N>>, l: int)
        requires
            self.agrees(layers),
            0 <= l <= layers.len(),
        ensures
            self.produced(l) <= self.fed.len(),
    {
        if l > 0 {
            assert(self.received[l - 1] <= self.fed.len());
        }
    }

    /// Sending an event leaves the pipeline where a run can be.
    proof fn lemma_feed_keeps_agreement(self, layers: Seq<LayerView<N>>)
        requires
            self.agrees(layers),
            self.can(Move::Feed),
        ensures
            self.after(Move::Feed).agrees(layers),
    {
        let n = layers.len() as int;
        let q = self.after(Move::Feed);
        let fed = self.fed;
        assert(stream_through(layers, fed, 0) == fed);
        assert forall|l: int| 0 <= l < n implies (#[trigger] q.received[l]) <= q.produced(l)
            && q.received[l] <= fed.len() by {
            assert(self.received[l] <= self.produced(l) && self.received[l] <= fed.len());
        }
        assert forall|l: int| 0 <= l < n implies #[trigger] q.workers[l] == layers[l].after(
            stream_through(layers, fed, l),
            q.received[l] as int,
        ) by {
            assert(self.workers[l] == layers[l].after(
                stream_through(layers, fed, l),
                self.received[l] as int,
            ));
        }
        assert forall|l: int| 0 <= l < n implies #[trigger] q.channels[l] == stream_through(
            layers,
            fed,
            l,
        ).subrange(q.received[l] as int, q.produced(l) as int) by {
            assert(self.channels[l] == stream_through(layers, fed, l).subrange(
                self.received[l] as int,
                self.produced(l) as int,
            ));
            assert(self.received[l] <= self.produced(l));
            if l == 0 {
                assert(q.channels[0] =~= fed.subrange(
                    self.received[0] as int,
                    self.pushed as int + 1,
                ));
            }
        }
        if n == 0 {
            assert(q.channels[0] =~= fed.take(self.pushed as int + 1));
        }
        assert forall|l: int| 0 <= l < n implies (#[trigger] q.stopped[l]) == q.closed[l + 1] by {
            assert(self.stopped[l] == self.closed[l + 1]);
        }
        assert forall|l: int| 0 <= l < n && #[trigger] q.stopped[l] implies q.closed[l]
            && q.received[l] == fed.len() by {
            assert(self.stopped[l] ==> self.closed[l] && self.received[l] == fed.len());
        }
    }

    /// Closing the first channel leaves the pipeline where a run can be.
    proof fn lemma_close_keeps_agreement(self, layers: Seq<LayerView<N>>)
        requires
            self.agrees(layers),
            self.can(Move::CloseEntry),
        ensures
            self.after(Move::CloseEntry).agrees(layers),
    {
        let n = layers.len() as int;
        let q = self.after(Move::CloseEntry);
        let fed = self.fed;
        assert forall|l: int| 0 <= l < n implies (#[trigger] q.received[l]) <= q.produced(l)
            && q.received[l] <= fed.len() by {
            assert(self.received[l] <= self.produced(l) && self.received[l] <= fed.len());
        }
        assert forall|l: int| 0 <= l < n implies #[trigger] q.workers[l] == layers[l].after(
            stream_through(layers, fed, l),
            q.received[l] as int,
        ) by {
            assert(self.workers[l] == layers[l].after(
                stream_through(layers, fed, l),
                self.received[l] as int,
            ));
        }
        assert forall|l: int| 0 <= l < n implies #[trigger] q.channels[l] == stream_through(
            layers,
            fed,
            l,
        ).subrange(q.received[l] as int, q.produced(l) as int) by {
            assert(self.channels[l] == stream_through(layers, fed, l).subrange(
                self.received[l] as int,
                self.produced(l) as int,
            ));
        }
        assert forall|l: int| 0 <= l < n implies (#[trigger] q.stopped[l]) == q.closed[l + 1] by {
            assert(self.stopped[l] == self.closed[l + 1]);
        }
        assert forall|l: int| 0 <= l < n && #[trigger] q.stopped[l] implies q.closed[l]
            && q.received[l] == fed.len() by {
            assert(self.stopped[l] ==> self.closed[l] && self.received[l] == fed.len());
        }
    }

    /// What a worker sends for the event that it receives is the next event of the stream
    /// that leaves its layer, and its layer is left as that event leaves it.
    proof fn lemma_receive_is_next(self, layers: Seq<LayerView<N>>, w: int)
        requires
            self.agrees(layers),
            self.can(Move::Receive(w)),
        ensures
            self.received[w] < self.produced(w) <= self.fed.len(),
            self.channels[w].first() == stream_through(layers, self.fed, w)[self.received[w] as int],
            stream_through(layers, self.fed, w + 1)[self.received[w] as int] == (SpikeEventView {
                ts: self.channels[w].first().ts,
                spikes: self.workers[w].output(
                    self.channels[w].first().ts,
                    self.channels[w].first().spikes,
                ),
            }),
            self.workers[w].step(self.channels[w].first().ts, self.channels[w].first().spikes)
                == layers[w].after(
                stream_through(layers, self.fed, w),
                self.received[w] as int + 1,
            ),
    {
        let fed = self.fed;
        let r = self.received[w] as int;
        let entering = stream_through(layers, fed, w);
        lemma_stream_through_len(layers, fed, w);
        self.lemma_produced_bound(layers, w);
        assert(self.channels[w] == entering.subrange(r, self.produced(w) as int));
        assert(self.received[w] <= self.produced(w));
        assert(self.workers[w] == layers[w].after(entering, r));
        assert(stream_through(layers, fed, w + 1) == layers[w].stream(entering));
    }

    /// Receiving an event leaves the pipeline where a run can be.
    proof fn lemma_receive_keeps_agreement(self, layers: Seq<LayerView<N>>, w: int)
        requires
            self.agrees(layers),
            self.can(Move::Receive(w)),
        ensures
            self.after(Move::Receive(w)).agrees(layers),
    {
        let n = layers.len() as int;
        let q = self.after(Move::Receive(w));
        let fed = self.fed;
        let r = self.received[w] as int;
        let entering = stream_through(layers, fed, w);
        let leaving = stream_through(layers, fed, w + 1);
        self.lemma_receive_is_next(layers, w);
        lemma_stream_through_len(layers, fed, w);
        lemma_stream_through_len(layers, fed, w + 1);
        assert forall|l: int| 0 <= l < n implies (#[trigger] q.received[l]) <= q.produced(l)
            && q.received[l] <= fed.len() by {
            assert(self.received[l] <= self.produced(l) && self.received[l] <= fed.len());
        }
        assert forall|l: int| 0 <= l < n implies #[trigger] q.workers[l] == layers[l].after(
            stream_through(layers, fed, l),
            q.received[l] as int,
        ) by {
            assert(self.workers[l] == layers[l].after(
                stream_through(layers, fed, l),
                self.received[l] as int,
            ));
        }
        assert forall|l: int| 0 <= l < n implies #[trigger] q.channels[l] == stream_through(
            layers,
            fed,
            l,
        ).subrange(q.received[l] as int, q.produced(l) as int) by {
            assert(self.channels[l] == stream_through(layers, fed, l).subrange(
                self.received[l] as int,
                self.produced(l) as int,
            ));
            assert(self.received[l] <= self.produced(l));
            if l == w {
                assert(self.channels[w] == entering.subrange(r, self.produced(w) as int));
                assert(q.channels[w] =~= entering.subrange(r + 1, self.produced(w) as int));
            } else if l == w + 1 {
                assert(self.channels[l] == leaving.subrange(self.received[l] as int, r));
                assert(q.channels[l] =~= leaving.subrange(self.received[l] as int, r + 1));
            }
        }
        if w + 1 == n {
            assert(self.channels[n] == leaving.take(r));
            assert(q.channels[n] =~= leaving.take(r + 1));
        }
        assert forall|l: int| 0 <= l < n implies (#[trigger] q.stopped[l]) == q.closed[l + 1] by {
            assert(self.stopped[l] == self.closed[l + 1]);
        }
        assert forall|l: int| 0 <= l < n && #[trigger] q.stopped[l] implies q.closed[l]
            && q.received[l] == fed.len() by {
            assert(self.stopped[l] ==> self.closed[l] && self.received[l] == fed.len());
        }
    }

    /// A worker that can stop has received every event of the run.
    proof fn lemma_stop_is_last(self, layers: Seq<LayerView<N>>, w: int)
        requires
            self.agrees(layers),
            self.can(Move::Stop(w)),
        ensures
            self.received[w] == self.fed.len(),
    {
        let fed = self.fed;
        lemma_stream_through_len(layers, fed, w);
        self.lemma_produced_bound(layers, w);
        assert(self.channels[w] == stream_through(layers, fed, w).subrange(
            self.received[w] as int,
            self.produced(w) as int,
        ));
        assert(self.received[w] <= self.produced(w));
        assert(self.received[w] == self.produced(w));
        if w > 0 {
            assert(self.stopped[w - 1] == self.closed[w]);
            assert(self.stopped[w - 1] ==> self.received[w - 1] == fed.len());
        }
    }

    /// Stopping leaves the pipeline where a run can be.
    proof fn lemma_stop_keeps_agreement(self, layers: Seq<LayerView<N>>, w: int)
        requires
            self.agrees(layers),
            self.can(Move::Stop(w)),
        ensures
            self.after(Move::Stop(w)).agrees(layers),
    {
        let n = layers.len() as int;
        let q = self.after(Move::Stop(w));
        let fed = self.fed;
        self.lemma_stop_is_last(layers, w);
        assert forall|l: int| 0 <= l < n implies (#[trigger] q.received[l]) <= q.produced(l)
            && q.received[l] <= fed.len() by {
            assert(self.received[l] <= self.produced(l) && self.received[l] <= fed.len());
        }
        assert forall|l: int| 0 <= l < n implies #[trigger] q.workers[l] == layers[l].after(
            stream_through(layers, fed, l),
            q.received[l] as int,
        ) by {
            assert(self.workers[l] == layers[l].after(
                stream_through(layers, fed, l),
                self.received[l] as int,
            ));
        }
        assert forall|l: int| 0 <= l < n implies #[trigger] q.channels[l] == stream_through(
            layers,
            fed,
            l,
        ).subrange(q.received[l] as int, q.produced(l) as int) by {
            assert(self.channels[l] == stream_through(layers, fed, l).subrange(
                self.received[l] as int,
                self.produced(l) as int,
            ));
        }
        assert forall|l: int| 0 <= l < n implies (#[trigger] q.stopped[l]) == q.closed[l + 1] by {
            assert(self.stopped[l] == self.closed[l + 1]);
        }
        assert forall|l: int| 0 <= l < n && #[trigger] q.stopped[l] implies q.closed[l]
            && q.received[l] == fed.len() by {
            assert(self.stopped[l] ==> self.closed[l] && self.received[l] == fed.len());
            if l > 0 {
                assert(self.stopped[l - 1] == self.closed[l]);
            }
        }
    }

    /// The moves that the first `k` workers have still to make depend on what they have
    /// received and on whether they have stopped, and on nothing else.
    proof fn lemma_workers_moves_left_same(self, other: Self, k: int)
        requires
            0 <= k <= self.received.len(),
            self.fed.len() == other.fed.len(),
            forall|l: int| 0 <= l < k ==> self.received[l] == other.received[l],
            forall|l: int| 0 <= l < k ==> self.stopped[l] == other.stopped[l],
        ensures
            self.workers_moves_left(k) == other.workers_moves_left(k),
        decreases k,
    {
        if k > 0 {
            self.lemma_workers_moves_left_same(other, k - 1);
        }
    }

    /// One move less of worker `w` is one move less of the first `k` workers, if `w` is
    /// among them.
    proof fn lemma_workers_moves_left_less(self, other: Self, w: int, k: int)
        requires
            0 <= k <= self.received.len(),
            0 <= w < self.received.len(),
            self.fed.len() == other.fed.len(),
            forall|l: int| 0 <= l < k && l != w ==> self.received[l] == other.received[l],
            forall|l: int| 0 <= l < k && l != w ==> self.stopped[l] == other.stopped[l],
            other.worker_moves_left(w) == self.worker_moves_left(w) - 1,
        ensures
            other.workers_moves_left(k) == self.workers_moves_left(k) - if w < k {
                1int
            } else {
                0int
            },
        decreases k,
    {
        if k > 0 {
            self.lemma_workers_moves_left_less(other, w, k - 1);
        }
    }

    /// A move is one move less to make.
    pub proof fn lemma_move_is_one_less(self, layers: Seq<LayerView<N>>, m: Move)
        requires
            self.agrees(layers),
            self.can(m),
        ensures
            self.after(m).moves_left() == self.moves_left() - 1,
    {
        let n = layers.len() as int;
        let q = self.after(m);
        match m {
            Move::Feed => {
                self.lemma_workers_moves_left_same(q, n);
            },
            Move::CloseEntry => {
                self.lemma_workers_moves_left_same(q, n);
            },
            Move::Receive(w) => {
                self.lemma_workers_moves_left_less(q, w, n);
            },
            Move::Stop(w) => {
                self.lemma_workers_moves_left_less(q, w, n);
            },
        }
    }

    /// No worker has more moves to make than none.
    proof fn lemma_workers_moves_left_bounds(self, layers: Seq<LayerView<N>>, k: int)
        requires
            self.agrees(layers),
            0 <= k <= layers.len(),
        ensures
            self.workers_moves_left(k) >= 0,
            self.workers_moves_left(k) == 0 <==> (forall|l: int|
                0 <= l < k ==> #[trigger] self.stopped[l]),
        decreases k,
    {
        if k > 0 {
            self.lemma_workers_moves_left_bounds(layers, k - 1);
            assert(self.received[k - 1] <= self.fed.len());
            assert(self.stopped[k - 1] ==> self.received[k - 1] == self.fed.len());
        }
    }

    /// The run is over exactly when no move is left to make.
    pub proof fn lemma_done_is_no_move_left(self, layers: Seq<LayerView<N>>)
        requires
            self.agrees(layers),
        ensures
            self.moves_left() >= 0,
            self.done() <==> self.moves_left() == 0,
    {
        self.lemma_workers_moves_left_bounds(layers, layers.len() as int);
    }

    /// The first worker that has not stopped, among the first `k`, if there is one.
    proof fn first_running(self, k: int) -> (w: int)
        requires
            0 <= k <= self.stopped.len(),
            exists|l: int| 0 <= l < k && !self.stopped[l],
        ensures
            0 <= w < k,
            !self.stopped[w],
            forall|l: int| 0 <= l < w ==> self.stopped[l],
        decreases k,
    {
        if exists|l: int| 0 <= l < k - 1 && !self.stopped[l] {
            self.first_running(k - 1)
        } else {
            k - 1
        }
    }

    /// The pipeline is never stuck: until the run is over, a move is possible. The move
    /// that is handed back is one.
    pub proof fn lemma_never_stuck(self, layers: Seq<LayerView<N>>) -> (m: Move)
        requires
            self.agrees(layers),
            !self.done(),
        ensures
            self.can(m),
    {
        if !self.closed[0] {
            if self.pushed < self.fed.len() {
                Move::Feed
            } else {
                Move::CloseEntry
            }
        } else {
            let w = self.first_running(layers.len() as int);
            assert(self.closed[w]) by {
                if w > 0 {
                    assert(self.stopped[w - 1] == self.closed[w]);
                }
            }
            if self.channels[w].len() > 0 {
                Move::Receive(w)
            } else {
                Move::Stop(w)
            }
        }
    }

    /// When the run is over, the last channel holds what leaves the last layer when the
    /// events are sent through the layers one layer after the other, and every worker
    /// holds its layer as that leaves it.
    pub proof fn lemma_done_gives_the_run(self, layers: Seq<LayerView<N>>)
        requires
            self.agrees(layers),
            self.done(),
        ensures
            self.exit() == stream_through(layers, self.fed, layers.len() as int),
            self.workers == layers_after(layers, self.fed),
    {
        let n = layers.len() as int;
        lemma_stream_through_len(layers, self.fed, n);
        assert(self.produced(n) == self.fed.len()) by {
            if n > 0 {
                assert(self.stopped[n - 1]);
            }
        }
        assert(stream_through(layers, self.fed, n).take(self.fed.len() as int)
            =~= stream_through(layers, self.fed, n));
        assert forall|l: int| 0 <= l < n implies #[trigger] self.workers[l] == layers_after(
            layers,
            self.fed,
        )[l] by {
            assert(self.stopped[l]);
        }
        assert(self.workers =~= layers_after(layers, self.fed));
    }

    /// Every run ends, and ends the same: whatever the order in which the feeder and the
    /// workers move, the moves of a run are never more than the events and the layers
    /// allow; with fewer moves made a further move is possible; and when all are made the
    /// run is over, with the result of sending the events through the layers one layer
    /// after the other.
    pub proof fn lemma_every_run_ends(
        layers: Seq<LayerView<N>>,
        fed: Seq<SpikeEventView>,
        schedule: Seq<Move>,
    )
        requires
            Self::start(layers, fed).allows(schedule),
        ensures
            schedule.len() <= Self::moves_of_a_run(layers, fed),
            Self::start(layers, fed).after_all(schedule).agrees(layers),
            schedule.len() < Self::moves_of_a_run(layers, fed) ==> exists|m: Move|
                Self::start(layers, fed).after_all(schedule).can(m),
            schedule.len() == Self::moves_of_a_run(layers, fed) ==> {
                &&& Self::start(layers, fed).after_all(schedule).done()
                &&& Self::start(layers, fed).after_all(schedule).exit() == stream_through(
                    layers,
                    fed,
                    layers.len() as int,
                )
                &&& Self::start(layers, fed).after_all(schedule).workers == layers_after(
                    layers,
                    fed,
                )
            },
    {
        let p = Self::start(layers, fed);
        Self::lemma_start_agrees(layers, fed);
        p.lemma_moves_add_up(layers, schedule);
        let q = p.after_all(schedule);
        q.lemma_done_is_no_move_left(layers);
        if schedule.len() < Self::moves_of_a_run(layers, fed) {
            let m = q.lemma_never_stuck(layers);
            assert(q.can(m));
        } else {
            q.lemma_done_gives_the_run(layers);
        }
    }

    /// The moves made and the moves left add up to what was left before.
    proof fn lemma_moves_add_up(self, layers: Seq<LayerView<N>>, schedule: Seq<Move>)
        requires
            self.agrees(layers),
            self.allows(schedule),
        ensures
            self.after_all(schedule).agrees(layers),
            self.after_all(schedule).fed == self.fed,
            self.after_all(schedule).moves_left() == self.moves_left() - schedule.len(),
        decreases schedule.len(),
    {
        if schedule.len() > 0 {
            let m = schedule.first();
            self.lemma_move_keeps_agreement(layers, m);
            self.lemma_move_is_one_less(layers, m);
            self.after(m).lemma_moves_add_up(layers, schedule.drop_first());
        }
    }
}

} // verus!
