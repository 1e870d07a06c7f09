//! Spike matrices, and how they become event streams and come back.
//!
//! A spike matrix has one row per neuron and one column per instant.

use vstd::prelude::*;
use crate::error::InputContractError;
use crate::spike::{is_binary, SpikeEvent, SpikeEventView};

verus! {

/// Every row of `matrix` spans `duration` instants.
pub open spec fn is_rectangular(matrix: Seq<Seq<u8>>, duration: nat) -> bool {
    forall|i: int| 0 <= i < matrix.len() ==> (#[trigger] matrix[i]).len() == duration
}

/// Every value of `matrix` is 0 or 1.
pub open spec fn is_binary_matrix(matrix: Seq<Seq<u8>>) -> bool {
    forall|i: int| 0 <= i < matrix.len() ==> is_binary(#[trigger] matrix[i])
}

/// The spikes of instant `t`: one value from each row.
pub open spec fn column(matrix: Seq<Seq<u8>>, t: int) -> Seq<u8> {
    Seq::new(matrix.len(), |i: int| matrix[i][t])
}

/// The event stream of a matrix: one event per instant, in the order of the instants.
pub open spec fn encode(matrix: Seq<Seq<u8>>, duration: nat) -> Seq<SpikeEventView> {
    Seq::new(duration, |t: int| SpikeEventView { ts: t as u64, spikes: column(matrix, t) })
}

/// The spike of neuron `i` at instant `t` according to `events`: that of the latest event
/// of instant `t` that has a value for the neuron, and 0 where there is none.
pub open spec fn spike_at(events: Seq<SpikeEventView>, i: int, t: int) -> u8
    decreases events.len(),
{
    if events.len() == 0 {
        0
    } else if events.last().ts == t && i < events.last().spikes.len() {
        events.last().spikes[i]
    } else {
        spike_at(events.drop_last(), i, t)
    }
}

/// The matrix of `width` rows and `duration` columns that holds the spikes of `events`,
/// each event in the column of its instant. A column for which no event came is all zero.
pub open spec fn decode(events: Seq<SpikeEventView>, width: nat, duration: nat) -> Seq<Seq<u8>> {
    Seq::new(width, |i: int| Seq::new(duration, |t: int| spike_at(events, i, t)))
}

/// Every event of `events` fits a matrix of `width` rows and `duration` columns.
pub open spec fn fits(events: Seq<SpikeEventView>, width: nat, duration: nat) -> bool {
    forall|k: int|
        0 <= k < events.len() ==> (#[trigger] events[k]).ts < duration && events[k].spikes.len()
            <= width
}

/// Events that carry only 0 and 1 decode to a matrix that holds only 0 and 1.
pub proof fn lemma_decode_is_binary(events: Seq<SpikeEventView>, width: nat, duration: nat)
    requires
        forall|k: int| 0 <= k < events.len() ==> is_binary((#[trigger] events[k]).spikes),
    ensures
        is_binary_matrix(decode(events, width, duration)),
{
    assert forall|i: int| 0 <= i < width implies is_binary(
        #[trigger] decode(events, width, duration)[i],
    ) by {
        assert forall|t: int| 0 <= t < duration implies decode(events, width, duration)[i][t] == 0
            || decode(events, width, duration)[i][t] == 1 by {
            lemma_spike_at_is_binary(events, i, t);
        }
    }
}

/// Events that carry only 0 and 1 give 0 or 1 for every neuron at every instant.
proof fn lemma_spike_at_is_binary(events: Seq<SpikeEventView>, i: int, t: int)
    requires
        forall|k: int| 0 <= k < events.len() ==> is_binary((#[trigger] events[k]).spikes),
        0 <= i,
    ensures
        spike_at(events, i, t) == 0 || spike_at(events, i, t) == 1,
    decreases events.len(),
{
    if events.len() > 0 {
        let rest = events.drop_last();
        assert forall|k: int| 0 <= k < rest.len() implies is_binary((#[trigger] rest[k]).spikes) by {
            assert(is_binary(events[k].spikes));
        }
        lemma_spike_at_is_binary(rest, i, t);
        assert(is_binary(events[events.len() - 1].spikes));
    }
}

/// The matrix that rows of one fixed length make up.
pub open spec fn rows_view<T, const D: usize>(rows: Seq<[T; D]>) -> Seq<Seq<T>> {
    Seq::new(rows.len(), |i: int| rows[i]@)
}

/// Copies rows of one fixed length into a matrix of vectors.
pub fn rows_of<const D: usize>(spikes: &[[u8; D]]) -> (rows: Vec<Vec<u8>>)
    ensures
        rows.deep_view() == rows_view(spikes@),
        is_rectangular(rows.deep_view(), D as nat),
{
    let mut rows: Vec<Vec<u8>> = Vec::new();
    let mut i: usize = 0;
    while i < spikes.len()
        invariant
            i <= spikes@.len(),
            rows@.len() == i,
            forall|r: int| 0 <= r < i ==> (#[trigger] rows@[r])@ == spikes@[r]@,
        decreases spikes@.len() - i,
    {
        let mut row: Vec<u8> = Vec::new();
        let mut t: usize = 0;
        while t < D
            invariant
                t <= D,
                i < spikes@.len(),
                row@.len() == t,
                forall|k: int| 0 <= k < t ==> row@[k] == spikes@[i as int]@[k],
            decreases D - t,
        {
            row.push(spikes[i][t]);
            t += 1;
        }
        assert(row@ =~= spikes@[i as int]@);
        rows.push(row);
        i += 1;
    }
    assert(rows.deep_view() =~~= rows_view(spikes@));
    rows
}

/// Turns a matrix into its event stream. A value other than 0 and 1 is rejected.
pub fn encode_spikes(spikes: &Vec<Vec<u8>>, duration: usize) -> (res: Result<
    Vec<SpikeEvent>,
    InputContractError,
>)
    requires
        is_rectangular(spikes.deep_view(), duration as nat),
    ensures
        res is Ok <==> is_binary_matrix(spikes.deep_view()),
        res matches Ok(events) ==> events.deep_view() == encode(
            spikes.deep_view(),
            duration as nat,
        ),
        res matches Err(e) ==> e == InputContractError::NonBinarySpike,
{
    let ghost matrix = spikes.deep_view();
    assert(forall|i: int| 0 <= i < spikes@.len() ==> #[trigger] matrix[i] == spikes@[i]@);
    let mut events: Vec<SpikeEvent> = Vec::new();
    let mut t: usize = 0;
    while t < duration
        invariant
            t <= duration,
            matrix == spikes.deep_view(),
            is_rectangular(matrix, duration as nat),
            forall|i: int| 0 <= i < spikes@.len() ==> #[trigger] matrix[i] == spikes@[i]@,
            events@.len() == t,
            forall|k: int|
                0 <= k < t ==> (#[trigger] events@[k])@ == (SpikeEventView {
                    ts: k as u64,
                    spikes: column(matrix, k),
                }),
            forall|i: int, k: int|
                0 <= i < matrix.len() && 0 <= k < t ==> matrix[i][k] == 0 || matrix[i][k] == 1,
        decreases duration - t,
    {
        let mut spikes_at_t: Vec<u8> = Vec::new();
        let mut i: usize = 0;
        while i < spikes.len()
            invariant
                i <= spikes@.len(),
                t < duration,
                matrix == spikes.deep_view(),
                is_rectangular(matrix, duration as nat),
                forall|i: int| 0 <= i < spikes@.len() ==> #[trigger] matrix[i] == spikes@[i]@,
                spikes_at_t@.len() == i,
                forall|j: int| 0 <= j < i ==> spikes_at_t@[j] == matrix[j][t as int],
                forall|j: int| 0 <= j < i ==> matrix[j][t as int] == 0 || matrix[j][t as int] == 1,
            decreases spikes@.len() - i,
        {
            assert(matrix[i as int].len() == duration);
            let spike: u8 = spikes[i][t];
            if spike != 0 && spike != 1 {
                assert(!is_binary(matrix[i as int]));
                return Err(InputContractError::NonBinarySpike);
            }
            spikes_at_t.push(spike);
            i += 1;
        }
        assert(spikes_at_t@ =~= column(matrix, t as int));
        events.push(SpikeEvent::from_binary(t as u64, spikes_at_t));
        t += 1;
    }
    assert(events.deep_view() =~= encode(matrix, duration as nat));
    assert(is_binary_matrix(matrix)) by {
        assert forall|i: int| 0 <= i < matrix.len() implies is_binary(#[trigger] matrix[i]) by {
            assert(matrix[i].len() == duration);
        }
    }
    Ok(events)
}

/// Writing a value for neuron `i` at instant `t` into the matrix of `events` gives the
/// matrix of the events with one more.
proof fn lemma_spike_at_push(events: Seq<SpikeEventView>, e: SpikeEventView, i: int, t: int)
    ensures
        spike_at(events.push(e), i, t) == if e.ts == t && i < e.spikes.len() {
            e.spikes[i]
        } else {
            spike_at(events, i, t)
        },
{
    assert(events.push(e).drop_last() =~= events);
    assert(events.push(e).last() == e);
}

/// Scatters `events` into a matrix of `width` rows and `duration` columns, each event into
/// the column of its instant.
pub fn decode_spikes(events: &Vec<SpikeEvent>, width: usize, duration: usize) -> (matrix: Vec<
    Vec<u8>,
>)
    requires
        fits(events.deep_view(), width as nat, duration as nat),
    ensures
        matrix.deep_view() == decode(events.deep_view(), width as nat, duration as nat),
        matrix@.len() == width,
        is_rectangular(matrix.deep_view(), duration as nat),
{
    let ghost all = events.deep_view();
    let mut matrix: Vec<Vec<u8>> = Vec::new();
    let mut i: usize = 0;
    while i < width
        invariant
            i <= width,
            matrix@.len() == i,
            forall|r: int| 0 <= r < i ==> (#[trigger] matrix@[r])@.len() == duration,
            forall|r: int, t: int|
                0 <= r < i && 0 <= t < duration ==> #[trigger] matrix@[r]@[t] == 0,
        decreases width - i,
    {
        let mut row: Vec<u8> = Vec::new();
        let mut t: usize = 0;
        while t < duration
            invariant
                t <= duration,
                row@.len() == t,
                forall|k: int| 0 <= k < t ==> row@[k] == 0,
            decreases duration - t,
        {
            row.push(0);
            t += 1;
        }
        matrix.push(row);
        i += 1;
    }
    let mut k: usize = 0;
    while k < events.len()
        invariant
            k <= events@.len(),
            all == events.deep_view(),
            fits(all, width as nat, duration as nat),
            matrix@.len() == width,
            forall|r: int| 0 <= r < width ==> (#[trigger] matrix@[r])@.len() == duration,
            forall|r: int, t: int|
                0 <= r < width && 0 <= t < duration ==> #[trigger] matrix@[r]@[t] == spike_at(
                    all.take(k as int),
                    r,
                    t,
                ),
        decreases events@.len() - k,
    {
        let event = &events[k];
        let ghost e = all[k as int];
        assert(e == event@);
        let ts: usize = event.ts() as usize;
        let spikes = event.spikes();
        let ghost before = all.take(k as int);
        assert(all.take(k + 1) =~= before.push(e));
        let mut i: usize = 0;
        while i < spikes.len()
            invariant
                i <= spikes@.len(),
                spikes@ == e.spikes,
                spikes@.len() <= width,
                ts == e.ts,
                ts < duration,
                matrix@.len() == width,
                forall|r: int| 0 <= r < width ==> (#[trigger] matrix@[r])@.len() == duration,
                forall|r: int, t: int|
                    0 <= r < width && 0 <= t < duration ==> #[trigger] matrix@[r]@[t] == if r
                        < i && t == ts {
                        e.spikes[r]
                    } else {
                        spike_at(before, r, t)
                    },
            decreases spikes@.len() - i,
        {
            matrix[i][ts] = spikes[i];
            i += 1;
        }
        assert forall|r: int, t: int| 0 <= r < width && 0 <= t < duration implies #[trigger] matrix@[r]@[t]
            == spike_at(all.take(k + 1), r, t) by {
            lemma_spike_at_push(before, e, r, t);
        }
        k += 1;
    }
    assert(all.take(events@.len() as int) =~= all);
    assert(matrix.deep_view() =~~= decode(all, width as nat, duration as nat));
    matrix
}

/// Scatters `events` into a matrix of `W` rows and `D` columns, each event into the column
/// of its instant.
pub fn decode_spikes_fixed<const D: usize, const W: usize>(events: &Vec<SpikeEvent>) -> (matrix:
    [[u8; D]; W])
    requires
        fits(events.deep_view(), W as nat, D as nat),
    ensures
        rows_view(matrix@) == decode(events.deep_view(), W as nat, D as nat),
{
    let rows = decode_spikes(events, W, D);
    assert forall|r: int| 0 <= r < W implies (#[trigger] rows@[r])@.len() == D by {
        assert(rows.deep_view()[r] == rows@[r]@);
    }
    let mut matrix = [[0u8; D]; W];
    let mut i: usize = 0;
    while i < W
        invariant
            i <= W,
            rows@.len() == W,
            forall|r: int| 0 <= r < W ==> (#[trigger] rows@[r])@.len() == D,
            forall|r: int, t: int|
                0 <= r < i && 0 <= t < D ==> #[trigger] matrix@[r]@[t] == rows@[r]@[t],
        decreases W - i,
    {
        let mut t: usize = 0;
        while t < D
            invariant
                t <= D,
                i < W,
                rows@.len() == W,
                forall|r: int| 0 <= r < W ==> (#[trigger] rows@[r])@.len() == D,
                forall|r: int, k: int|
                    0 <= r < i && 0 <= k < D ==> #[trigger] matrix@[r]@[k] == rows@[r]@[k],
                forall|k: int| 0 <= k < t ==> #[trigger] matrix@[i as int]@[k] == rows@[i as int]@[k],
            decreases D - t,
        {
            matrix[i][t] = rows[i][t];
            t += 1;
        }
        i += 1;
    }
    assert(rows_view(matrix@) =~~= rows.deep_view());
    matrix
}

} // verus!
