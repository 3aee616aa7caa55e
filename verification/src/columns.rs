//! Columnar conversions: the computational halves of loading and storing
//! the parallel-array file layout. The storage layer itself only moves
//! these plain arrays in and out of a file.

use vstd::prelude::*;

use crate::{Clust, Event, Trigger};

verus! {

/// The smaller of two lengths.
pub open spec fn min2(a: nat, b: nat) -> nat {
    if a < b { a } else { b }
}

/// Zips the four parallel hit columns (`x`, `y`, `toa` = time of arrival,
/// `tot` = intensity) into events, stopping at the shortest column so that
/// mismatched lengths cannot be read out of bounds.
pub fn events_from_columns(xs: &Vec<u16>, ys: &Vec<u16>, toas: &Vec<i64>, tots: &Vec<u16>) -> (r: Vec<Event>)
    ensures
        r@.len() == min2(min2(xs@.len(), ys@.len()), min2(toas@.len(), tots@.len())),
        forall|j: int| 0 <= j < r@.len()
            ==> #[trigger] r@[j] == (Event { x: xs@[j], y: ys@[j], time: toas@[j], intens: tots@[j] }),
{
    let a = if xs.len() < ys.len() { xs.len() } else { ys.len() };
    let b = if toas.len() < tots.len() { toas.len() } else { tots.len() };
    let num_events = if a < b { a } else { b };
    let mut event_vec: Vec<Event> = Vec::new();
    let mut index: usize = 0;
    while index < num_events
        invariant
            index <= num_events,
            num_events == min2(min2(xs@.len(), ys@.len()), min2(toas@.len(), tots@.len())),
            event_vec@.len() == index,
            forall|j: int| 0 <= j < index as int
                ==> #[trigger] event_vec@[j] == (Event { x: xs@[j], y: ys@[j], time: toas@[j], intens: tots@[j] }),
        decreases num_events - index,
    {
        let st = Event { x: xs[index], y: ys[index], time: toas[index], intens: tots[index] };
        event_vec.push(st);
        index += 1;
    }
    event_vec
}

/// Zips the two parallel trigger columns into triggers, stopping at the
/// shorter column.
pub fn triggers_from_columns(times: &Vec<i64>, types: &Vec<u8>) -> (r: Vec<Trigger>)
    ensures
        r@.len() == min2(times@.len(), types@.len()),
        forall|j: int| 0 <= j < r@.len()
            ==> #[trigger] r@[j] == (Trigger { time: times@[j], type_: types@[j] }),
{
    let num_triggers = if times.len() < types.len() { times.len() } else { types.len() };
    let mut trig_vec: Vec<Trigger> = Vec::new();
    let mut index: usize = 0;
    while index < num_triggers
        invariant
            index <= num_triggers,
            num_triggers == min2(times@.len(), types@.len()),
            trig_vec@.len() == index,
            forall|j: int| 0 <= j < index as int
                ==> #[trigger] trig_vec@[j] == (Trigger { time: times@[j], type_: types@[j] }),
        decreases num_triggers - index,
    {
        let st = Trigger { time: times[index], type_: types[index] };
        trig_vec.push(st);
        index += 1;
    }
    trig_vec
}

/// The parallel output columns of a cluster sequence, one per field.
pub struct ClusterColumns {
    pub x: Vec<u16>,
    pub y: Vec<u16>,
    pub size: Vec<u16>,
    pub time: Vec<i64>,
    pub intens: Vec<u16>,
    pub sum: Vec<u16>,
}

/// Splits clusters into the parallel columns of the storage layout.
pub fn cluster_columns(clusters: &Vec<Clust>) -> (r: ClusterColumns)
    ensures
        r.x@.len() == clusters@.len(),
        r.y@.len() == clusters@.len(),
        r.size@.len() == clusters@.len(),
        r.time@.len() == clusters@.len(),
        r.intens@.len() == clusters@.len(),
        r.sum@.len() == clusters@.len(),
        forall|j: int| 0 <= j < clusters@.len()
            ==> r.x@[j] == (#[trigger] clusters@[j]).x && r.y@[j] == clusters@[j].y
                && r.size@[j] == clusters@[j].size && r.time@[j] == clusters@[j].time
                && r.intens@[j] == clusters@[j].intens && r.sum@[j] == clusters@[j].sum,
{
    let mut data_x: Vec<u16> = Vec::new();
    let mut data_y: Vec<u16> = Vec::new();
    let mut data_size: Vec<u16> = Vec::new();
    let mut data_time: Vec<i64> = Vec::new();
    let mut data_intens: Vec<u16> = Vec::new();
    let mut data_sum: Vec<u16> = Vec::new();
    let mut index: usize = 0;
    while index < clusters.len()
        invariant
            index <= clusters@.len(),
            data_x@.len() == index,
            data_y@.len() == index,
            data_size@.len() == index,
            data_time@.len() == index,
            data_intens@.len() == index,
            data_sum@.len() == index,
            forall|j: int| 0 <= j < index as int
                ==> data_x@[j] == (#[trigger] clusters@[j]).x && data_y@[j] == clusters@[j].y
                    && data_size@[j] == clusters@[j].size && data_time@[j] == clusters@[j].time
                    && data_intens@[j] == clusters@[j].intens && data_sum@[j] == clusters@[j].sum,
        decreases clusters@.len() - index,
    {
        let clust = clusters[index];
        data_x.push(clust.x);
        data_y.push(clust.y);
        data_size.push(clust.size);
        data_time.push(clust.time);
        data_intens.push(clust.intens);
        data_sum.push(clust.sum);
        index += 1;
    }
    ClusterColumns { x: data_x, y: data_y, size: data_size, time: data_time, intens: data_intens, sum: data_sum }
}

/// Splits triggers into the two parallel columns of the storage layout.
pub fn trigger_columns(triggers: &Vec<Trigger>) -> (r: (Vec<i64>, Vec<u8>))
    ensures
        r.0@.len() == triggers@.len(),
        r.1@.len() == triggers@.len(),
        forall|j: int| 0 <= j < triggers@.len()
            ==> r.0@[j] == (#[trigger] triggers@[j]).time && r.1@[j] == triggers@[j].type_,
{
    let mut data_time: Vec<i64> = Vec::new();
    let mut data_type: Vec<u8> = Vec::new();
    let mut index: usize = 0;
    while index < triggers.len()
        invariant
            index <= triggers@.len(),
            data_time@.len() == index,
            data_type@.len() == index,
            forall|j: int| 0 <= j < index as int
                ==> data_time@[j] == (#[trigger] triggers@[j]).time && data_type@[j] == triggers@[j].type_,
        decreases triggers@.len() - index,
    {
        let trig = triggers[index];
        data_time.push(trig.time);
        data_type.push(trig.type_);
        index += 1;
    }
    (data_time, data_type)
}

} // verus!
