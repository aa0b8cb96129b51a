//! The values of selected signals at one or two instants.

use std::collections::HashMap;

use vstd::prelude::*;

use crate::backend::WaveformBackend;
use crate::history::{value_at, RawValue, RawView};
use crate::model::{in_table, map_view, seen_of, values_at, Sid, Wave, WaveView};
use crate::report::{should_stream, STREAMING_BATCH};

verus! {

pub open spec fn opt_raw(v: Option<RawValue>) -> Option<RawView> {
    match v {
        Some(r) => Some(r@),
        None => None,
    }
}

pub open spec fn opt_raws(v: Seq<Option<RawValue>>) -> Seq<Option<RawView>> {
    v.map_values(|r: Option<RawValue>| opt_raw(r))
}

/// The value of each signal at `t`, if it has one.
pub open spec fn values_of(w: WaveView, sids: Seq<usize>, t: int) -> Seq<Option<RawView>> {
    sids.map_values(|s: usize| value_at(w.traces[s as int], t))
}

/// A snapshot has just the signals with a value, each with its value.
pub proof fn snapshot_entries(w: WaveView, sids: Seq<usize>, t: int, s: usize)
    ensures
        values_at(seen_of(w, sids), t).contains_key(s) <==> sids.contains(s) && value_at(
            w.traces[s as int],
            t,
        ) is Some,
        values_at(seen_of(w, sids), t).contains_key(s) ==> Some(
            values_at(seen_of(w, sids), t)[s],
        ) == value_at(w.traces[s as int], t),
    decreases sids.len(),
{
    let seen = seen_of(w, sids);
    if sids.len() > 0 {
        let less = sids.drop_last();
        snapshot_entries(w, less, t, s);
        assert(seen.drop_last() =~= seen_of(w, less));
        assert(seen.last() == (sids.last(), w.traces[sids.last() as int]));
        if less.contains(s) {
            let k = choose|k: int| 0 <= k < less.len() && less[k] == s;
            assert(sids[k] == s);
        }
        if sids.contains(s) && s != sids.last() {
            let k = choose|k: int| 0 <= k < sids.len() && sids[k] == s;
            assert(less[k] == s);
        }
        assert(sids[sids.len() - 1] == sids.last());
    }
}

fn look_up(
    state: &HashMap<Sid, RawValue>,
    sids: &Vec<Sid>,
    Ghost(w): Ghost<WaveView>,
    Ghost(t): Ghost<int>,
) -> (r: Vec<Option<RawValue>>)
    requires
        map_view(state@) == values_at(seen_of(w, sids@), t),
    ensures
        opt_raws(r@) == values_of(w, sids@, t),
        r.len() == sids.len(),
{
    broadcast use vstd::std_specs::hash::group_hash_axioms;

    let mut r: Vec<Option<RawValue>> = Vec::new();
    let mut i: usize = 0;
    while i < sids.len()
        invariant
            i <= sids.len(),
            map_view(state@) == values_at(seen_of(w, sids@), t),
            r.len() == i,
            forall|k: int|
                0 <= k < i ==> opt_raw(#[trigger] r@[k]) == value_at(w.traces[sids@[k] as int], t),
        decreases sids.len() - i,
    {
        broadcast use vstd::std_specs::hash::group_hash_axioms;

        let sid: Sid = sids[i];
        proof {
            snapshot_entries(w, sids@, t, sid);
            assert(sids@.contains(sid)) by {
                assert(sids@[i as int] == sid);
            }
            assert(map_view(state@).contains_key(sid) == state@.contains_key(sid));
            if state@.contains_key(sid) {
                assert(map_view(state@)[sid] == state@[sid]@);
            }
        }
        match state.get(&sid) {
            Some(v) => {
                r.push(Some(v.clone()));
            },
            None => {
                r.push(None);
            },
        }
        i += 1;
    }
    assert(opt_raws(r@) =~= values_of(w, sids@, t));
    r
}

/// The value of each signal at `t`.
pub fn values_now<B: WaveformBackend>(wave: &mut Wave<B>, sids: &Vec<Sid>, t: i64) -> (r: Vec<
    Option<RawValue>,
>)
    requires
        old(wave).wf(),
        in_table(sids@, old(wave).table().len()),
    ensures
        final(wave).wf(),
        final(wave).same_wave(old(wave)),
        opt_raws(r@) == values_of(old(wave).snap(), sids@, t as int),
        r.len() == sids.len(),
{
    let (a, _b) = values_twice(wave, sids, t, t);
    a
}

/// The value of each signal at `ta` and at `tb`.
pub fn values_twice<B: WaveformBackend>(
    wave: &mut Wave<B>,
    sids: &Vec<Sid>,
    ta: i64,
    tb: i64,
) -> (r: (Vec<Option<RawValue>>, Vec<Option<RawValue>>))
    requires
        old(wave).wf(),
        in_table(sids@, old(wave).table().len()),
        ta <= tb,
    ensures
        final(wave).wf(),
        final(wave).same_wave(old(wave)),
        opt_raws(r.0@) == values_of(old(wave).snap(), sids@, ta as int),
        opt_raws(r.1@) == values_of(old(wave).snap(), sids@, tb as int),
        r.0.len() == sids.len(),
        r.1.len() == sids.len(),
{
    let ghost w = old(wave).snap();
    proof {
        old(wave).sightings_of_snap(sids@);
    }
    let (sa, sb) = if should_stream(sids.len()) || wave.supports_windowed() {
        wave.snapshot_pair_streaming(ta, tb, Some(sids), STREAMING_BATCH)
    } else {
        wave.ensure_loaded(sids);
        proof {
            wave.same_snap(old(wave));
            wave.sightings_of_snap(sids@);
            assert forall|i: int| 0 <= i < sids@.len() implies wave.loaded(
                #[trigger] sids@[i] as int,
            ) by {
                assert(sids@[i] < old(wave).table().len());
                assert(sids@.contains(sids@[i]));
            }
        }
        wave.snapshot_pair(ta, tb, Some(sids))
    };
    (look_up(&sa, sids, Ghost(w), Ghost(ta as int)), look_up(&sb, sids, Ghost(w), Ghost(tb as int)))
}

} // verus!
