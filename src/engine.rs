use vstd::prelude::*;
use crate::config::{PyinConfig, PyinError, MAX_FRAME_LENGTH};
use crate::framing::{
    Framing, PadMode, frame_count, frame_count_spec, framing_ok, framed_len, pad_signal, padded_spec,
};
use crate::observe::{
    emission_cost, emission_costs, lemma_emission_cost, lemma_observe, lemma_observe_empty,
    observation, observe, voiced_mass, N_THRESHOLDS, PRIOR_TOTAL,
};
use crate::viterbi::{
    decode, emissions_ok, lemma_decoded_path_is_optimal, lemma_path_cost_covers,
    lemma_unvoiced_path_free, path_state, table,
};
use crate::yin::{
    Candidate, candidates_upto, cmnd, cmnd_spec, find_candidates, lemma_flat_no_candidates,
    lemma_silent_cmnd, ONE,
};

verus! {

/// Largest accepted waveform, in samples.
pub const MAX_SAMPLES: u64 = 0x100_0000_0000;

/// The result of tracking one waveform, one entry per frame in each field.
#[derive(Debug, Clone)]
pub struct PitchTrack {
    /// The frequency of the decoded pitch bin in millihertz, or `None` where unvoiced.
    pub f0_mhz: Vec<Option<u64>>,
    /// Whether the frame was decoded as voiced.
    pub voiced: Vec<bool>,
    /// The frame's voiced probability, as a mass out of `PRIOR_TOTAL`.
    pub voiced_mass: Vec<u64>,
}

/// Samples of padding at each end under `framing`.
pub open spec fn pad_len(frame_length: int, framing: Framing) -> int {
    match framing {
        Framing::Center(_) => frame_length / 2,
        Framing::Valid => 0,
    }
}

/// The padding mode in effect under `framing`.
pub open spec fn pad_mode(framing: Framing) -> PadMode {
    match framing {
        Framing::Center(m) => m,
        Framing::Valid => PadMode::Constant(0),
    }
}

/// The signal that frames are cut from.
pub open spec fn framed_signal(x: Seq<i16>, frame_length: int, framing: Framing) -> Seq<i16> {
    padded_spec(x, pad_len(frame_length, framing), pad_mode(framing))
}

/// The normalised difference function of frame `i`, over lags `0..=max_lag + 1`.
pub open spec fn frame_cmnd(xp: Seq<i16>, c: PyinConfig, i: int) -> Seq<u64> {
    Seq::new(
        (c.max_lag + 2) as nat,
        |t: int|
            cmnd_spec(xp, i * c.hop_length, c.frame_length as int, c.win_length as int, t) as u64,
    )
}

/// The candidates of frame `i`.
pub open spec fn frame_candidates(xp: Seq<i16>, c: PyinConfig, i: int) -> Seq<Candidate> {
    candidates_upto(
        frame_cmnd(xp, c, i),
        c.sample_rate as int,
        c.min_lag as int,
        c.max_lag as int,
        c.max_lag + 1,
    )
}

/// The observation of frame `i`.
pub open spec fn frame_observation(xp: Seq<i16>, c: PyinConfig, i: int) -> Seq<int> {
    observe(frame_candidates(xp, c, i), c.grid@, N_THRESHOLDS as int)
}

/// The emission costs of frame `i`, one per state.
pub open spec fn frame_emissions(xp: Seq<i16>, c: PyinConfig, i: int) -> Seq<u64> {
    Seq::new(
        (c.grid@.len() + 1) as nat,
        |s: int| emission_cost(frame_observation(xp, c, i)[s]) as u64,
    )
}

/// The emission costs of the first `n` frames.
pub open spec fn track_emissions(xp: Seq<i16>, c: PyinConfig, n: int) -> Seq<Seq<u64>> {
    Seq::new(n as nat, |i: int| frame_emissions(xp, c, i))
}

/// Number of frames of a waveform of `len` samples.
pub open spec fn n_frames(c: PyinConfig, len: int, framing: Framing) -> int {
    frame_count_spec(
        framed_len(len, c.frame_length as int, framing),
        c.frame_length as int,
        c.hop_length as int,
    )
}

/// Whether a waveform of shape `shape` holding `x` is accepted.
pub open spec fn input_ok(c: PyinConfig, shape: Seq<usize>, x: Seq<i16>, framing: Framing) -> bool {
    &&& shape.len() == 1
    &&& shape[0] == x.len()
    &&& x.len() <= MAX_SAMPLES
    &&& x.len() + MAX_FRAME_LENGTH <= usize::MAX
    &&& framing_ok(x.len() as int, c.frame_length as int, framing)
}

/// Whether `r` is the track of waveform `x`: per frame, the voiced mass of its
/// candidates, and the pitch bin or unvoiced state of the decoded path.
pub open spec fn track_matches(c: PyinConfig, x: Seq<i16>, framing: Framing, r: PitchTrack) -> bool {
    let xp = framed_signal(x, c.frame_length as int, framing);
    let n = n_frames(c, x.len() as int, framing);
    let kk = c.grid@.len() as int;
    let e = track_emissions(xp, c, n);
    &&& r.f0_mhz@.len() == n
    &&& r.voiced@.len() == n
    &&& r.voiced_mass@.len() == n
    &&& forall|i: int| 0 <= i < n ==> #[trigger] r.voiced_mass@[i] == voiced_mass(frame_candidates(xp, c, i), N_THRESHOLDS as int)
    &&& forall|i: int| 0 <= i < n ==> #[trigger] r.voiced@[i] == (path_state(e, kk, n, i) < kk)
    &&& forall|i: int| 0 <= i < n ==> #[trigger] r.f0_mhz@[i] == if path_state(e, kk, n, i) < kk {
        Some(c.grid@[path_state(e, kk, n, i)])
    } else {
        None
    }
}

/// Emission costs and voiced mass of frame `i` of the framed signal `xp`.
pub fn analyse_frame(c: &PyinConfig, xp: &Vec<i16>, i: usize) -> (r: (Vec<u64>, u64))
    requires
        c.wf(),
        i * c.hop_length + c.frame_length <= xp@.len(),
    ensures
        r.0@ == frame_emissions(xp@, *c, i as int),
        r.1 == voiced_mass(frame_candidates(xp@, *c, i as int), N_THRESHOLDS as int),
        r.1 <= PRIOR_TOTAL,
        forall|s: int| 0 <= s < r.0@.len() ==> #[trigger] r.0@[s] <= 240,
{
    let len = xp.len();
    let start: usize = i * c.hop_length;
    let q = cmnd(xp, start, c.frame_length, c.win_length, c.max_lag + 1);
    assert(q@ =~= frame_cmnd(xp@, *c, i as int));
    assert forall|t: int| 0 <= t < q@.len() implies #[trigger] q@[t] <= 0x1_0000_0000_0000 by {
        assert(t * ONE <= 0x1_0000_0000_0000) by (nonlinear_arith)
            requires 0 <= t <= 65536;
    }
    let cands = find_candidates(&q, c.sample_rate, c.min_lag, c.max_lag);
    let obs = observation(&cands, &c.grid);
    proof {
        lemma_observe(cands@, c.grid@, N_THRESHOLDS as int);
    }
    let costs = emission_costs(&obs);
    assert(costs@ =~= frame_emissions(xp@, *c, i as int));
    let kk = c.grid.len();
    (costs, PRIOR_TOTAL - obs[kk])
}

/// Validates a waveform given with its shape, pads it for `framing`, and
/// returns the framed signal with its number of frames.
///
/// Fails with `InvalidInputShape` where the shape is not one-dimensional or
/// disagrees with the samples, the waveform is longer than `MAX_SAMPLES`, or
/// the framing yields no frame.
pub fn prepare(c: &PyinConfig, shape: &Vec<usize>, x: &Vec<i16>, framing: Framing) -> (r: Result<
    (Vec<i16>, usize),
    PyinError,
>)
    requires
        c.wf(),
    ensures
        r is Ok <==> input_ok(*c, shape@, x@, framing),
        r is Err ==> r == Err::<(Vec<i16>, usize), PyinError>(PyinError::InvalidInputShape),
        r matches Ok((xp, n)) ==> {
            &&& xp@ == framed_signal(x@, c.frame_length as int, framing)
            &&& n == n_frames(*c, x@.len() as int, framing)
            &&& 1 <= n <= xp@.len() <= MAX_SAMPLES + 65536
            &&& forall|i: int| 0 <= i < n ==> #[trigger] (i * c.hop_length) + c.frame_length <= xp@.len()
        },
{
    if shape.len() != 1 || shape[0] != x.len() || x.len() as u64 > MAX_SAMPLES
        || x.len() > usize::MAX - MAX_FRAME_LENGTH {
        return Err(PyinError::InvalidInputShape);
    }
    let fl = c.frame_length;
    let n = match frame_count(x.len(), fl, c.hop_length, framing) {
        Ok(n) => n,
        Err(e) => {
            return Err(e);
        },
    };
    let (pad, mode) = match framing {
        Framing::Center(m) => (fl / 2, m),
        Framing::Valid => (0, PadMode::Constant(0)),
    };
    let xp = pad_signal(x, pad, mode);
    proof {
        let h = c.hop_length as int;
        let len = xp@.len() as int;
        assert(n <= len) by (nonlinear_arith)
            requires n == 1 + (len - fl) / h, h > 0, fl >= 3, len >= fl;
        assert forall|i: int| 0 <= i < n implies #[trigger] (i * c.hop_length) + c.frame_length <= xp@.len() by {
            assert(i * h <= len - fl) by (nonlinear_arith)
                requires 0 <= i < n, n == 1 + (len - fl) / h, h > 0, len >= fl;
        }
    }
    Ok((xp, n))
}

/// Decodes the frames' emission costs into a track, with `vm` as the
/// frames' voiced masses.
pub fn assemble(c: &PyinConfig, e: &Vec<Vec<u64>>, vm: Vec<u64>) -> (r: PitchTrack)
    requires
        c.wf(),
        emissions_ok(table(e@), c.grid@.len() as int),
        vm@.len() == e@.len(),
    ensures
        r.voiced_mass@ == vm@,
        r.f0_mhz@.len() == e@.len(),
        r.voiced@.len() == e@.len(),
        forall|i: int| 0 <= i < e@.len() ==> #[trigger] r.voiced@[i] == (path_state(
            table(e@),
            c.grid@.len() as int,
            e@.len() as int,
            i,
        ) < c.grid@.len()),
        forall|i: int| 0 <= i < e@.len() ==> #[trigger] r.f0_mhz@[i] == if path_state(
            table(e@),
            c.grid@.len() as int,
            e@.len() as int,
            i,
        ) < c.grid@.len() {
            Some(c.grid@[path_state(table(e@), c.grid@.len() as int, e@.len() as int, i)])
        } else {
            None
        },
{
    let ghost et = table(e@);
    let kk = c.grid.len();
    let n = e.len();
    let path = decode(e, kk);
    let mut f0: Vec<Option<u64>> = Vec::with_capacity(n);
    let mut voiced: Vec<bool> = Vec::with_capacity(n);
    let mut j: usize = 0;
    while j < n
        invariant
            c.wf(),
            kk == c.grid@.len(),
            n == e@.len(),
            et == table(e@),
            path@.len() == n,
            forall|k: int| 0 <= k < n ==> #[trigger] path@[k] == path_state(et, kk as int, n as int, k),
            forall|k: int| 0 <= k < n ==> #[trigger] path@[k] <= kk,
            j <= n,
            f0@.len() == j,
            voiced@.len() == j,
            forall|k: int| 0 <= k < j ==> #[trigger] voiced@[k] == (path_state(et, kk as int, n as int, k) < kk),
            forall|k: int| 0 <= k < j ==> #[trigger] f0@[k] == if path_state(et, kk as int, n as int, k) < kk {
                Some(c.grid@[path_state(et, kk as int, n as int, k)])
            } else {
                None
            },
        decreases n - j,
    {
        let st = path[j];
        if st < kk {
            f0.push(Some(c.grid[st]));
            voiced.push(true);
        } else {
            f0.push(None);
            voiced.push(false);
        }
        j += 1;
    }
    PitchTrack { f0_mhz: f0, voiced, voiced_mass: vm }
}

/// Tracks the pitch of a waveform given with its shape: `prepare`, then
/// `analyse_frame` on each frame in order, then `assemble`.
pub fn track(c: &PyinConfig, shape: &Vec<usize>, x: &Vec<i16>, framing: Framing) -> (r: Result<
    PitchTrack,
    PyinError,
>)
    requires
        c.wf(),
    ensures
        r is Ok <==> input_ok(*c, shape@, x@, framing),
        r is Err ==> r == Err::<PitchTrack, PyinError>(PyinError::InvalidInputShape),
        r matches Ok(t) ==> {
            &&& track_matches(*c, x@, framing, t)
            &&& t.f0_mhz@.len() == n_frames(*c, x@.len() as int, framing)
            &&& t.voiced@.len() == t.f0_mhz@.len()
            &&& t.voiced_mass@.len() == t.f0_mhz@.len()
            &&& forall|i: int| 0 <= i < t.voiced@.len() ==> #[trigger] t.voiced@[i] == t.f0_mhz@[i] is Some
            &&& forall|i: int| 0 <= i < t.voiced@.len() ==> #[trigger] t.voiced_mass@[i] <= PRIOR_TOTAL
        },
{
    let (xp, n) = match prepare(c, shape, x, framing) {
        Ok(p) => p,
        Err(e) => {
            return Err(e);
        },
    };
    let ghost xs = framed_signal(x@, c.frame_length as int, framing);
    let kk = c.grid.len();
    let mut e: Vec<Vec<u64>> = Vec::with_capacity(n);
    let mut vm: Vec<u64> = Vec::with_capacity(n);
    let mut i: usize = 0;
    while i < n
        invariant
            c.wf(),
            kk == c.grid@.len(),
            xp@ == xs,
            1 <= n <= xp@.len() <= MAX_SAMPLES + 65536,
            forall|k: int| 0 <= k < n ==> #[trigger] (k * c.hop_length) + c.frame_length <= xp@.len(),
            i <= n,
            e@.len() == i,
            vm@.len() == i,
            forall|k: int| 0 <= k < i ==> #[trigger] table(e@)[k] == frame_emissions(xs, *c, k),
            forall|k: int| 0 <= k < i ==> #[trigger] vm@[k] == voiced_mass(frame_candidates(xs, *c, k), N_THRESHOLDS as int),
            forall|k: int| 0 <= k < i ==> #[trigger] vm@[k] <= PRIOR_TOTAL,
            forall|k: int, s: int| 0 <= k < i && 0 <= s <= kk ==> #[trigger] table(e@)[k][s] <= 240,
        decreases n - i,
    {
        assert((i as int * c.hop_length) + c.frame_length <= xp@.len());
        let (row, m) = analyse_frame(c, &xp, i);
        let ghost old_e = e@;
        e.push(row);
        vm.push(m);
        proof {
            assert forall|k: int| 0 <= k < i + 1 implies #[trigger] table(e@)[k] == frame_emissions(xs, *c, k) by {
                if k < i {
                    assert(table(e@)[k] == table(old_e)[k]);
                }
            }
            assert forall|k: int, s: int| 0 <= k < i + 1 && 0 <= s <= kk implies #[trigger] table(e@)[k][s] <= 240 by {
                if k < i {
                    assert(table(e@)[k] == table(old_e)[k]);
                } else {
                    assert(table(e@)[k] == row@);
                }
            }
        }
        i += 1;
    }
    let ghost et = track_emissions(xs, *c, n as int);
    assert(table(e@) =~= et);
    let t = assemble(c, &e, vm);
    Ok(t)
}

/// Tracking is deterministic: two results that both meet the contract of
/// `track` for the same configuration, waveform and framing are identical.
pub proof fn lemma_track_deterministic(
    c: PyinConfig,
    x: Seq<i16>,
    framing: Framing,
    r1: PitchTrack,
    r2: PitchTrack,
)
    requires
        track_matches(c, x, framing, r1),
        track_matches(c, x, framing, r2),
    ensures
        r1.f0_mhz@ == r2.f0_mhz@,
        r1.voiced@ == r2.voiced@,
        r1.voiced_mass@ == r2.voiced_mass@,
{
    assert(r1.f0_mhz@ =~= r2.f0_mhz@);
    assert(r1.voiced@ =~= r2.voiced@);
    assert(r1.voiced_mass@ =~= r2.voiced_mass@);
}

/// Silence is unvoiced: where the waveform and its padding are all zeros,
/// every frame is decoded as unvoiced, with no frequency and a voiced
/// probability of zero.
pub proof fn lemma_silence_is_unvoiced(c: PyinConfig, x: Seq<i16>, framing: Framing, r: PitchTrack)
    requires
        c.wf(),
        x.len() <= MAX_SAMPLES,
        framing_ok(x.len() as int, c.frame_length as int, framing),
        forall|i: int| 0 <= i < x.len() ==> #[trigger] x[i] == 0,
        pad_mode(framing) != PadMode::Constant(0) ==> pad_mode(framing) == PadMode::Reflect,
        track_matches(c, x, framing, r),
    ensures
        forall|i: int| 0 <= i < r.voiced@.len() ==> !(#[trigger] r.voiced@[i]),
        forall|i: int| 0 <= i < r.f0_mhz@.len() ==> #[trigger] r.f0_mhz@[i] is None,
        forall|i: int| 0 <= i < r.voiced_mass@.len() ==> #[trigger] r.voiced_mass@[i] == 0,
{
    let fl = c.frame_length as int;
    let h = c.hop_length as int;
    let xp = framed_signal(x, fl, framing);
    let n = n_frames(c, x.len() as int, framing);
    let kk = c.grid@.len() as int;
    let e = track_emissions(xp, c, n);
    let empty = Seq::<Candidate>::empty();
    assert forall|k: int| 0 <= k < xp.len() implies #[trigger] xp[k] == 0 by {
        let pad = pad_len(fl, framing);
        if !(pad <= k < pad + x.len()) && pad_mode(framing) == PadMode::Reflect {
            if k < pad {
                assert(x[pad - k] == 0);
            } else {
                assert(x[2 * x.len() - 2 - (k - pad)] == 0);
            }
        }
    }
    assert(n <= xp.len()) by (nonlinear_arith)
        requires n == 1 + (xp.len() - fl) / h, h > 0, fl >= 3, xp.len() >= fl;
    assert forall|i: int| 0 <= i < n implies #[trigger] frame_candidates(xp, c, i) == empty by {
        assert(i * h + fl <= xp.len()) by (nonlinear_arith)
            requires 0 <= i < n, n == 1 + (xp.len() - fl) / h, h > 0, xp.len() >= fl;
        assert(0 <= i * h) by (nonlinear_arith)
            requires 0 <= i, h > 0;
        let q = frame_cmnd(xp, c, i);
        assert forall|t: int| 0 <= t < q.len() implies #[trigger] q[t] == ONE by {
            lemma_silent_cmnd(xp, i * h, fl, c.win_length as int, t);
        }
        lemma_flat_no_candidates(q, c.sample_rate as int, c.min_lag as int, c.max_lag as int, c.max_lag + 1);
    }
    lemma_observe_empty(c.grid@, N_THRESHOLDS as int);
    lemma_emission_cost(0);
    lemma_emission_cost(PRIOR_TOTAL as int);
    let o = observe(empty, c.grid@, N_THRESHOLDS as int);
    assert forall|i: int, s: int| 0 <= i < n && 0 <= s <= kk implies #[trigger] e[i][s] == if s < kk { 240u64 } else { 0u64 } by {
        assert(frame_candidates(xp, c, i) == empty);
        assert(frame_observation(xp, c, i) == o);
    }
    assert(emissions_ok(e, kk));
    assert forall|u: int| 0 <= u < e.len() implies #[trigger] e[u][kk] == 0 by {
        assert(e[u][kk] == 0u64);
    }
    let allu = Seq::new(e.len(), |u: int| kk);
    let d = Seq::new(e.len(), |u: int| path_state(e, kk, e.len() as int, u));
    lemma_decoded_path_is_optimal(e, kk, allu);
    lemma_unvoiced_path_free(e, kk, n - 1);
    assert forall|i: int| 0 <= i < n implies !(path_state(e, kk, n, i) < kk) by {
        if path_state(e, kk, n, i) < kk {
            lemma_path_cost_covers(e, kk, d, n - 1, i);
            assert(d[i] == path_state(e, kk, n, i));
            assert(e[i][d[i]] == 240u64);
        }
    }
    assert forall|i: int| 0 <= i < n implies #[trigger] r.voiced_mass@[i] == 0 by {
        assert(frame_candidates(xp, c, i) == empty);
    }
}

} // verus!
