//! Tempo maps and the conversion of MIDI ticks into milliseconds.

use vstd::prelude::*;

verus! {

/// Tempo that holds until the first tempo event: 120 beats per minute.
pub const DEFAULT_TEMPO: u32 = 500000;

/// A tempo change at an absolute tick.
#[derive(Debug, Clone, Copy)]
pub struct TempoChange {
    /// Tick at which the new tempo starts.
    pub tick: u64,
    /// New tempo in microseconds per quarter note.
    pub tempo: u32,
}

/// The tempo changes of a song, in order, and its time division.
#[derive(Debug, Clone)]
pub struct TempoMap {
    /// Tempo changes, strictly increasing in tick, the first at tick zero.
    pub changes: Vec<TempoChange>,
    /// Number of ticks per quarter note.
    pub ticks_per_quarter: u32,
}

/// A ghost view of a tempo map.
pub ghost struct TempoModel {
    pub changes: Seq<TempoChange>,
    pub ticks_per_quarter: u32,
}

impl View for TempoMap {
    type V = TempoModel;

    open spec fn view(&self) -> TempoModel {
        TempoModel { changes: self.changes@, ticks_per_quarter: self.ticks_per_quarter }
    }
}

/// A map that holds: one change at tick zero, ticks strictly increasing,
/// and a non-zero time division.
pub open spec fn tempo_wf(m: TempoModel) -> bool {
    &&& m.changes.len() >= 1
    &&& m.changes[0].tick == 0
    &&& m.ticks_per_quarter > 0
    &&& forall|i: int, j: int|
        0 <= i < j < m.changes.len() ==> #[trigger] m.changes[i].tick < #[trigger] m.changes[j].tick
}

impl TempoMap {
    /// See [`tempo_wf`].
    pub open spec fn wf(&self) -> bool {
        tempo_wf(self@)
    }

    /// Creates a map with the default tempo of 120 BPM from tick zero.
    pub fn new(ticks_per_quarter: u32) -> (r: Self)
        ensures
            r.changes@ == seq![TempoChange { tick: 0, tempo: DEFAULT_TEMPO }],
            r.ticks_per_quarter == ticks_per_quarter,
            ticks_per_quarter > 0 ==> r.wf(),
    {
        TempoMap { changes: vec![TempoChange { tick: 0, tempo: DEFAULT_TEMPO }], ticks_per_quarter }
    }
}

/// Microseconds that segment `k` of the map contributes before tick `t`:
/// the ticks of `[start, min(next start, t))` times the segment's tempo,
/// divided by the time division.
pub open spec fn segment_micros(m: TempoModel, k: int, t: int) -> int {
    let start = m.changes[k].tick as int;
    let stop = if k + 1 < m.changes.len() {
        m.changes[k + 1].tick as int
    } else {
        t
    };
    let end = if stop < t {
        stop
    } else {
        t
    };
    if start < t {
        (end - start) * (m.changes[k].tempo as int) / (m.ticks_per_quarter as int)
    } else {
        0
    }
}

/// Sum of the contributions of the first `n` segments before tick `t`.
pub open spec fn micros_upto(m: TempoModel, n: int, t: int) -> int
    decreases n,
{
    if n <= 0 {
        0
    } else {
        micros_upto(m, n - 1, t) + segment_micros(m, n - 1, t)
    }
}

/// Microseconds elapsed from tick zero to tick `t`.
pub open spec fn ticks_to_micros(m: TempoModel, t: int) -> int {
    micros_upto(m, m.changes.len() as int, t)
}

/// Milliseconds elapsed from tick zero to tick `t`, rounded down once at the
/// end and held to the range of `u64`.
pub open spec fn ticks_to_ms_spec(m: TempoModel, t: int) -> int {
    let ms = ticks_to_micros(m, t) / 1000;
    if ms > u64::MAX {
        u64::MAX as int
    } else {
        ms
    }
}

proof fn lemma_segment_bounds(m: TempoModel, k: int, t: int)
    requires
        tempo_wf(m),
        0 <= k < m.changes.len(),
        0 <= t,
    ensures
        0 <= segment_micros(m, k, t),
        m.changes[k].tick < t ==> segment_micros(m, k, t) <= ((if boundary(m, k + 1, t) < t {
            boundary(m, k + 1, t)
        } else {
            t
        }) - m.changes[k].tick) * 0x1_0000_0000,
        m.changes[k].tick >= t ==> segment_micros(m, k, t) == 0,
{
    let start = m.changes[k].tick as int;
    if start < t {
        let stop = if k + 1 < m.changes.len() {
            m.changes[k + 1].tick as int
        } else {
            t
        };
        if k + 1 < m.changes.len() {
            assert(m.changes[k].tick < m.changes[k + 1].tick);
        }
        let end = if stop < t {
            stop
        } else {
            t
        };
        let tempo = m.changes[k].tempo as int;
        let q = m.ticks_per_quarter as int;
        assert(0 <= end - start <= t - start);
        assert(0 <= (end - start) * tempo) by (nonlinear_arith)
            requires
                0 <= end - start,
                0 <= tempo,
        ;
        assert((end - start) * tempo <= (end - start) * 0x1_0000_0000) by (nonlinear_arith)
            requires
                0 <= end - start,
                0 <= tempo < 0x1_0000_0000,
        ;
        assert((end - start) * tempo / q <= (end - start) * tempo) by (nonlinear_arith)
            requires
                0 <= (end - start) * tempo,
                q >= 1,
        ;
        assert(0 <= (end - start) * tempo / q) by (nonlinear_arith)
            requires
                0 <= (end - start) * tempo,
                q >= 1,
        ;
    }
}

/// Tick at which segment `n` starts, or `t` past the last segment.
spec fn boundary(m: TempoModel, n: int, t: int) -> int {
    if n < m.changes.len() {
        m.changes[n].tick as int
    } else {
        t
    }
}

proof fn lemma_micros_upto_bounds(m: TempoModel, n: int, t: int)
    requires
        tempo_wf(m),
        0 <= n <= m.changes.len(),
        0 <= t,
    ensures
        0 <= micros_upto(m, n, t),
        micros_upto(m, n, t) <= (if boundary(m, n, t) < t {
            boundary(m, n, t)
        } else {
            t
        }) * 0x1_0000_0000,
    decreases n,
{
    if n > 0 {
        lemma_micros_upto_bounds(m, n - 1, t);
        lemma_segment_bounds(m, n - 1, t);
        if n < m.changes.len() {
            assert(m.changes[n - 1].tick < m.changes[n].tick);
        }
    }
}

/// The elapsed microseconds never exceed the tick count times the largest tempo.
proof fn lemma_micros_bound(m: TempoModel, t: int)
    requires
        tempo_wf(m),
        0 <= t,
    ensures
        0 <= ticks_to_micros(m, t) <= t * 0x1_0000_0000,
{
    lemma_micros_upto_bounds(m, m.changes.len() as int, t);
}

/// Converts an absolute tick into milliseconds, walking the tempo segments and
/// summing microseconds, with a single division by 1000 at the end.
pub fn ticks_to_ms(ticks: u64, tempo_map: &TempoMap) -> (r: u64)
    requires
        tempo_map.wf(),
    ensures
        r == ticks_to_ms_spec(tempo_map@, ticks as int),
{
    let n = tempo_map.changes.len();
    let q = tempo_map.ticks_per_quarter as u128;
    let mut total_us: u128 = 0;
    let mut idx: usize = 0;
    proof {
        lemma_micros_bound(tempo_map@, ticks as int);
    }
    while idx < n
        invariant
            tempo_map.wf(),
            n == tempo_map.changes@.len(),
            q == tempo_map.ticks_per_quarter as u128,
            0 <= idx <= n,
            total_us == micros_upto(tempo_map@, idx as int, ticks as int),
            ticks_to_micros(tempo_map@, ticks as int) <= (ticks as int) * 0x1_0000_0000,
            forall|k: int|
                idx <= k < n && tempo_map.changes@[k].tick >= ticks ==> segment_micros(
                    tempo_map@,
                    k,
                    ticks as int,
                ) == 0,
        ensures
            total_us == ticks_to_micros(tempo_map@, ticks as int),
            total_us <= (ticks as int) * 0x1_0000_0000,
        decreases n - idx,
    {
        let start = tempo_map.changes[idx].tick;
        if start >= ticks {
            proof {
                assert forall|k: int| idx <= k < n implies segment_micros(
                    tempo_map@,
                    k,
                    ticks as int,
                ) == 0 by {
                    if k > idx {
                        assert(tempo_map.changes@[idx as int].tick < tempo_map.changes@[k].tick);
                    }
                }
                lemma_micros_upto_rest_zero(tempo_map@, idx as int, n as int, ticks as int);
                lemma_micros_bound(tempo_map@, ticks as int);
            }
            break;
        }
        let stop = if idx + 1 < n {
            tempo_map.changes[idx + 1].tick
        } else {
            ticks
        };
        let end = if stop < ticks {
            stop
        } else {
            ticks
        };
        proof {
            if idx + 1 < n {
                assert(tempo_map.changes@[idx as int].tick < tempo_map.changes@[idx + 1].tick);
            }
            lemma_segment_bounds(tempo_map@, idx as int, ticks as int);
            lemma_micros_upto_bounds(tempo_map@, idx as int, ticks as int);
            lemma_micros_upto_monotone_n(tempo_map@, idx as int + 1, n as int, ticks as int);
        }
        let delta = (end - start) as u128;
        let tempo = tempo_map.changes[idx].tempo as u128;
        assert(delta * tempo <= 0xffff_ffff_ffff_ffff * 0xffff_ffff) by (nonlinear_arith)
            requires
                delta <= 0xffff_ffff_ffff_ffff,
                tempo <= 0xffff_ffff,
        ;
        total_us = total_us + delta * tempo / q;
        idx = idx + 1;
    }
    let ms = total_us / 1000;
    if ms > u64::MAX as u128 {
        u64::MAX
    } else {
        ms as u64
    }
}

proof fn lemma_micros_upto_rest_zero(m: TempoModel, i: int, n: int, t: int)
    requires
        0 <= i <= n,
        forall|k: int| i <= k < n ==> segment_micros(m, k, t) == 0,
    ensures
        micros_upto(m, n, t) == micros_upto(m, i, t),
    decreases n - i,
{
    if n > i {
        lemma_micros_upto_rest_zero(m, i, n - 1, t);
    }
}

proof fn lemma_micros_upto_monotone_n(m: TempoModel, i: int, n: int, t: int)
    requires
        tempo_wf(m),
        0 <= i <= n <= m.changes.len(),
        0 <= t,
    ensures
        micros_upto(m, i, t) <= micros_upto(m, n, t),
    decreases n - i,
{
    if n > i {
        lemma_micros_upto_monotone_n(m, i, n - 1, t);
        lemma_segment_bounds(m, n - 1, t);
    }
}

proof fn lemma_segment_monotone(m: TempoModel, k: int, a: int, b: int)
    requires
        tempo_wf(m),
        0 <= k < m.changes.len(),
        0 <= a <= b,
    ensures
        segment_micros(m, k, a) <= segment_micros(m, k, b),
{
    lemma_segment_bounds(m, k, a);
    lemma_segment_bounds(m, k, b);
    let start = m.changes[k].tick as int;
    if start < a {
        let stop_a = boundary(m, k + 1, a);
        let stop_b = boundary(m, k + 1, b);
        let end_a = if stop_a < a {
            stop_a
        } else {
            a
        };
        let end_b = if stop_b < b {
            stop_b
        } else {
            b
        };
        assert(end_a <= end_b);
        let tempo = m.changes[k].tempo as int;
        let q = m.ticks_per_quarter as int;
        assert((end_a - start) * tempo <= (end_b - start) * tempo) by (nonlinear_arith)
            requires
                end_a <= end_b,
                0 <= tempo,
        ;
        vstd::arithmetic::div_mod::lemma_div_is_ordered(
            (end_a - start) * tempo,
            (end_b - start) * tempo,
            q,
        );
    }
}

proof fn lemma_micros_upto_monotone_t(m: TempoModel, n: int, a: int, b: int)
    requires
        tempo_wf(m),
        0 <= n <= m.changes.len(),
        0 <= a <= b,
    ensures
        micros_upto(m, n, a) <= micros_upto(m, n, b),
    decreases n,
{
    if n > 0 {
        lemma_micros_upto_monotone_t(m, n - 1, a, b);
        lemma_segment_monotone(m, n - 1, a, b);
    }
}

/// The conversion from ticks to milliseconds never decreases as the tick
/// count grows, for every well-formed tempo map.
pub proof fn lemma_ticks_to_ms_monotone(m: TempoModel, a: u64, b: u64)
    requires
        tempo_wf(m),
        a <= b,
    ensures
        ticks_to_ms_spec(m, a as int) <= ticks_to_ms_spec(m, b as int),
{
    lemma_micros_upto_monotone_t(m, m.changes.len() as int, a as int, b as int);
    vstd::arithmetic::div_mod::lemma_div_is_ordered(
        ticks_to_micros(m, a as int),
        ticks_to_micros(m, b as int),
        1000,
    );
}

/// Under a single tempo, the elapsed microseconds are the tick count times the
/// tempo, divided by the time division.
pub proof fn lemma_constant_tempo_micros(m: TempoModel, t: int)
    requires
        tempo_wf(m),
        m.changes.len() == 1,
        0 <= t,
    ensures
        ticks_to_micros(m, t) == t * (m.changes[0].tempo as int) / (m.ticks_per_quarter as int),
{
    assert(micros_upto(m, 0, t) == 0);
    if t == 0 {
        assert(0 * (m.changes[0].tempo as int) == 0);
    }
}

/// Under a single tempo, doubling the tick count doubles the milliseconds, up to
/// one millisecond of rounding, wherever the result stays within `u64`.
pub proof fn lemma_constant_tempo_doubling(m: TempoModel, t: u64)
    requires
        tempo_wf(m),
        m.changes.len() == 1,
        2 * t <= u64::MAX,
        ticks_to_micros(m, 2 * t) / 1000 <= u64::MAX,
    ensures
        2 * ticks_to_ms_spec(m, t as int) <= ticks_to_ms_spec(m, 2 * t),
        ticks_to_ms_spec(m, 2 * t) <= 2 * ticks_to_ms_spec(m, t as int) + 1,
{
    let tempo = m.changes[0].tempo as int;
    let q = m.ticks_per_quarter as int;
    let ti = t as int;
    lemma_constant_tempo_micros(m, ti);
    lemma_constant_tempo_micros(m, 2 * ti);
    lemma_micros_upto_monotone_t(m, 1, ti, 2 * ti);
    let u = ti * tempo / q;
    let u2 = (2 * ti) * tempo / q;
    assert(2 * u <= u2 <= 2 * u + 1) by (nonlinear_arith)
        requires
            u == ti * tempo / q,
            u2 == (2 * ti) * tempo / q,
            q >= 1,
            ti >= 0,
            tempo >= 0,
    {
        let x = ti * tempo;
        assert((2 * ti) * tempo == 2 * x);
        assert(x == q * (x / q) + x % q);
        assert(0 <= x % q < q);
        assert(2 * x == q * (2 * (x / q)) + 2 * (x % q));
        assert(2 * x / q == 2 * (x / q) + (2 * (x % q)) / q);
    }
    assert(2 * (u / 1000) <= u2 / 1000 <= 2 * (u / 1000) + 1) by (nonlinear_arith)
        requires
            2 * u <= u2 <= 2 * u + 1,
            u >= 0,
    ;
}

} // verus!
