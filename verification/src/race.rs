//! The race engine: pick, among the candidate IPs probed for one hostname,
//! the one with the lowest observed latency.
//!
//! Probes run strictly one at a time, in candidate order, so that each probe
//! can be bounded by a timeout derived from the best time seen so far. The
//! engine here is the decision half of that loop: callers ask for the next
//! timeout, perform one probe, and hand the measured time back. A probe that
//! fails or times out is reported as a sentinel value too large to ever win.

use vstd::prelude::*;
use crate::lines::clone_bytes;
use crate::pool::IpCandidate;

verus! {

/// Ceiling, in milliseconds, for every probe timeout; also the initial best
/// time before any probe has run.
pub const PROBE_CEILING_MS: u64 = 5500;

/// How far, in milliseconds, a later probe may run past the best time seen
/// so far.
pub const TIMEOUT_STEP_MS: u64 = 200;

/// Time recorded for a probe that failed or timed out. It exceeds the
/// ceiling, so it can never become the best time.
pub const SENTINEL_MS: u64 = 99999;

/// The timeout granted to the next probe: the current best time plus the
/// step, capped at the ceiling.
pub open spec fn timeout_spec(best_time: u64) -> u64 {
    if best_time + TIMEOUT_STEP_MS <= PROBE_CEILING_MS {
        (best_time + TIMEOUT_STEP_MS) as u64
    } else {
        PROBE_CEILING_MS
    }
}

/// Selection state threaded through one race: the best time observed so far,
/// the index of the candidate that produced it, and how many candidates have
/// been probed.
pub struct RaceState {
    pub best_time: u64,
    pub best_index: usize,
    pub probed: usize,
}

/// One step of the race: record the time measured for the candidate at index
/// `s.probed`. A time equal to the current best also wins, so of two equally
/// fast candidates the later one is kept.
pub open spec fn step_spec(s: RaceState, measured: u64) -> RaceState {
    RaceState {
        best_time: if measured <= s.best_time {
            measured
        } else {
            s.best_time
        },
        best_index: if measured <= s.best_time {
            s.probed
        } else {
            s.best_index
        },
        probed: (s.probed + 1) as usize,
    }
}

/// The winning index and winning time of a whole race, as a fold of
/// `step_spec` over the measured times: the pair after all of `times` has
/// been recorded, starting from the ceiling and index 0.
pub open spec fn select_spec(times: Seq<u64>) -> (int, int)
    decreases times.len(),
{
    if times.len() == 0 {
        (0, PROBE_CEILING_MS as int)
    } else {
        let prev = select_spec(times.drop_last());
        if times.last() <= prev.1 {
            (times.len() - 1, times.last() as int)
        } else {
            prev
        }
    }
}

/// Fresh state for one race: the ceiling as the time to beat, the first
/// candidate as the nominal winner, nothing probed yet.
pub fn race_start() -> (s: RaceState)
    ensures
        s.best_time == PROBE_CEILING_MS,
        s.best_index == 0,
        s.probed == 0,
{
    RaceState { best_time: PROBE_CEILING_MS, best_index: 0, probed: 0 }
}

/// The timeout for the next probe, `min(best_time + 200, 5500)`.
pub fn next_timeout(best_time: u64) -> (t: u64)
    ensures
        t == timeout_spec(best_time),
{
    if best_time <= PROBE_CEILING_MS - TIMEOUT_STEP_MS {
        best_time + TIMEOUT_STEP_MS
    } else {
        PROBE_CEILING_MS
    }
}

/// Record the measured time of the candidate at index `s.probed`.
pub fn race_record(s: &mut RaceState, measured: u64)
    requires
        old(s).probed < usize::MAX,
    ensures
        *final(s) == step_spec(*old(s), measured),
{
    if measured <= s.best_time {
        s.best_time = measured;
        s.best_index = s.probed;
    }
    s.probed = s.probed + 1;
}

/// Map the outcome of one probe to a recorded time: the measured time on
/// success, the sentinel on failure or timeout.
pub fn probe_outcome(measured: Option<u64>) -> (t: u64)
    ensures
        measured matches Some(ms) ==> t == ms,
        measured is None ==> t == SENTINEL_MS,
{
    match measured {
        Some(ms) => ms,
        None => SENTINEL_MS,
    }
}

/// Run a whole race over the times measured for each candidate, in candidate
/// order, and return the winning index and time. An empty candidate list has
/// no winner and returns `None`: racing nothing is a caller error, not a
/// degenerate victory.
pub fn race_select(times: &Vec<u64>) -> (r: Option<(usize, u64)>)
    ensures
        r is Some <==> times@.len() > 0,
        r matches Some(w) ==> {
            &&& w.0 == select_spec(times@).0
            &&& w.1 == select_spec(times@).1
            &&& w.0 < times@.len()
            &&& w.1 <= PROBE_CEILING_MS
        },
{
    if times.len() == 0 {
        return None;
    }
    let mut st = race_start();
    let n = times.len();
    let mut i: usize = 0;
    while i < n
        invariant
            n == times@.len(),
            0 < n,
            i <= n,
            st.probed == i,
            st.best_index as int == select_spec(times@.take(i as int)).0,
            st.best_time as int == select_spec(times@.take(i as int)).1,
        decreases n - i,
    {
        let t = times[i];
        proof {
            assert(times@.take(i as int + 1).drop_last() =~= times@.take(i as int));
            assert(times@.take(i as int + 1).last() == times@[i as int]);
        }
        race_record(&mut st, t);
        i = i + 1;
    }
    proof {
        assert(times@.take(n as int) =~= times@);
        lemma_select_spec_bounds(times@);
    }
    Some((st.best_index, st.best_time))
}

/// What one race ends in: the winning IP, a human-readable location label
/// for it, and its probe time in milliseconds.
pub struct RaceOutcome {
    pub ip: Vec<u8>,
    pub label: Vec<u8>,
    pub time_ms: u64,
}

/// Assemble the outcome of a whole race from the candidates and the time
/// measured for each of them, in candidate order. When every probe failed,
/// nothing ever beat the initial state, so the first candidate is returned
/// as the nominal winner with the ceiling as its time. An empty candidate
/// list yields `None`.
pub fn race_outcome(candidates: &Vec<IpCandidate>, times: &Vec<u64>, label: Vec<u8>) -> (r: Option<
    RaceOutcome,
>)
    requires
        times@.len() == candidates@.len(),
    ensures
        r is Some <==> candidates@.len() > 0,
        r matches Some(o) ==> {
            &&& o.ip@ == candidates@[select_spec(times@).0].ip@
            &&& o.time_ms == select_spec(times@).1
            &&& o.label@ == label@
        },
{
    match race_select(times) {
        None => None,
        Some((idx, best)) => Some(
            RaceOutcome { ip: clone_bytes(&candidates[idx].ip), label, time_ms: best },
        ),
    }
}

/// Bounds on the outcome of a race: the winning index points into the list
/// (or is 0 for an empty one), the winning time never exceeds the ceiling
/// used for the first probe, never exceeds any measured time, and is either
/// a time actually measured for the winning candidate or the untouched
/// ceiling paired with index 0.
pub proof fn lemma_select_spec_bounds(times: Seq<u64>)
    ensures
        0 <= select_spec(times).0,
        times.len() == 0 ==> select_spec(times).0 == 0,
        times.len() > 0 ==> select_spec(times).0 < times.len(),
        select_spec(times).1 <= PROBE_CEILING_MS,
        forall|k: int| 0 <= k < times.len() ==> select_spec(times).1 <= times[k],
        times.len() > 0 ==> (times[select_spec(times).0] == select_spec(times).1 || (
        select_spec(times).0 == 0 && select_spec(times).1 == PROBE_CEILING_MS)),
    decreases times.len(),
{
    if times.len() > 0 {
        lemma_select_spec_bounds(times.drop_last());
        assert(forall|k: int|
            0 <= k < times.len() - 1 ==> times.drop_last()[k] == times[k]);
    }
}

/// After the winning index, every measured time is strictly worse than the
/// winning time: a candidate that merely matched the best so far would have
/// taken the win itself.
pub proof fn lemma_select_spec_last_argmin(times: Seq<u64>)
    ensures
        forall|k: int|
            0 <= k < times.len() && k > select_spec(times).0 ==> times[k]
                > select_spec(times).1,
    decreases times.len(),
{
    if times.len() > 0 {
        lemma_select_spec_last_argmin(times.drop_last());
        assert(forall|k: int|
            0 <= k < times.len() - 1 ==> times.drop_last()[k] == times[k]);
    }
}

/// Tie-break law: of two candidates that measured the same winning time, the
/// later one in iteration order wins, because a time equal to the current
/// best overwrites it.
pub proof fn lemma_tie_break(times: Seq<u64>, i: int, j: int)
    requires
        0 <= i < j < times.len(),
        times[i] == times[j],
        times[i] <= PROBE_CEILING_MS,
        forall|k: int| 0 <= k < times.len() ==> times[i] <= times[k],
    ensures
        select_spec(times).0 >= j,
{
    lemma_select_spec_bounds(times);
    lemma_select_spec_last_argmin(times);
    let idx = select_spec(times).0;
    let best = select_spec(times).1;
    if times[idx] == best {
        assert(best == times[i]);
        if idx < j {
            assert(times[j] > best);
        }
    } else {
        assert(idx == 0 && best == PROBE_CEILING_MS);
        assert(times[j] > best);
    }
}

/// When every probe fails, nothing ever beats the initial state: the race
/// still ends with the first candidate as the nominal winner and the ceiling
/// as its time.
pub proof fn lemma_all_probes_failed(times: Seq<u64>)
    requires
        forall|k: int| 0 <= k < times.len() ==> times[k] > PROBE_CEILING_MS,
    ensures
        select_spec(times).0 == 0,
        select_spec(times).1 == PROBE_CEILING_MS,
    decreases times.len(),
{
    if times.len() > 0 {
        assert(forall|k: int|
            0 <= k < times.len() - 1 ==> times.drop_last()[k] == times[k]);
        lemma_all_probes_failed(times.drop_last());
    }
}

/// The first probe of a race always gets the full ceiling: with the best
/// time still at the ceiling, the capped timeout is the ceiling itself.
pub proof fn lemma_first_timeout()
    ensures
        timeout_spec(PROBE_CEILING_MS) == PROBE_CEILING_MS,
{
}

} // verus!
