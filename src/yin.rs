use vstd::prelude::*;

verus! {

/// One in the Q16 fixed-point scale of normalised difference values.
pub const ONE: u64 = 65536;

/// Sum over `j < m` of `(x[s + j] - x[s + j + tau])^2`.
pub open spec fn sq_diff_sum(x: Seq<i16>, s: int, m: int, tau: int) -> int
    decreases m,
{
    if m <= 0 {
        0
    } else {
        let d = x[s + m - 1] - x[s + m - 1 + tau];
        sq_diff_sum(x, s, m - 1, tau) + d * d
    }
}

/// Number of sample pairs compared at lag `tau`.
pub open spec fn overlap(frame_length: int, win: int, tau: int) -> int {
    if win < frame_length - tau { win } else { frame_length - tau }
}

/// The difference function of the frame starting at `s`, at lag `tau`.
pub open spec fn diff_spec(x: Seq<i16>, s: int, fl: int, win: int, tau: int) -> int {
    sq_diff_sum(x, s, overlap(fl, win, tau), tau)
}

/// Sum of the difference function over lags `1..=tau`.
pub open spec fn cum_diff(x: Seq<i16>, s: int, fl: int, win: int, tau: int) -> int
    decreases tau,
{
    if tau <= 0 {
        0
    } else {
        cum_diff(x, s, fl, win, tau - 1) + diff_spec(x, s, fl, win, tau)
    }
}

/// Cumulative-mean-normalised difference at lag `tau`, in Q16: `tau * d(tau) /
/// sum(d(1..=tau))`, taken as one at lag zero and wherever the sum is zero.
pub open spec fn cmnd_spec(x: Seq<i16>, s: int, fl: int, win: int, tau: int) -> int {
    let c = cum_diff(x, s, fl, win, tau);
    if tau == 0 || c == 0 {
        ONE as int
    } else {
        (tau * diff_spec(x, s, fl, win, tau) * ONE) / c
    }
}

proof fn lemma_sq_diff_bounds(x: Seq<i16>, s: int, m: int, tau: int)
    requires
        0 <= m,
    ensures
        0 <= sq_diff_sum(x, s, m, tau) <= m * 0x1_0000_0000,
    decreases m,
{
    if m > 0 {
        lemma_sq_diff_bounds(x, s, m - 1, tau);
        let a = x[s + m - 1] as int;
        let b = x[s + m - 1 + tau] as int;
        let d = a - b;
        assert(-65536 <= d <= 65536);
        assert(0 <= d * d <= 0x1_0000_0000) by (nonlinear_arith)
            requires -65536 <= d <= 65536;
    }
}

proof fn lemma_cum_bounds(x: Seq<i16>, s: int, fl: int, win: int, tau: int)
    requires
        0 <= tau < fl,
        0 < win,
        fl <= 65536,
    ensures
        0 <= diff_spec(x, s, fl, win, tau) <= cum_diff(x, s, fl, win, tau) || tau == 0,
        0 <= diff_spec(x, s, fl, win, tau) <= 0x1_0000_0000_0000,
        0 <= cum_diff(x, s, fl, win, tau) <= tau * 0x1_0000_0000_0000,
    decreases tau,
{
    let m = overlap(fl, win, tau);
    lemma_sq_diff_bounds(x, s, m, tau);
    assert(m * 0x1_0000_0000 <= 0x1_0000_0000_0000) by (nonlinear_arith)
        requires 0 <= m <= 65536;
    if tau > 0 {
        lemma_cum_bounds(x, s, fl, win, tau - 1);
        assert(m * 0x1_0000_0000 <= 0x1_0000_0000_0000) by (nonlinear_arith)
            requires 0 <= m <= 65536;
    }
}

/// Difference function value at `tau` for the frame at `s`.
fn difference_at(x: &Vec<i16>, s: usize, fl: usize, win: usize, tau: usize) -> (r: u64)
    requires
        0 < win <= fl <= 65536,
        tau < fl,
        s + fl <= x@.len(),
    ensures
        r == diff_spec(x@, s as int, fl as int, win as int, tau as int),
{
    let n = x.len();
    let m: usize = if win < fl - tau { win } else { fl - tau };
    let mut acc: u64 = 0;
    let mut j: usize = 0;
    while j < m
        invariant
            m == overlap(fl as int, win as int, tau as int),
            m + tau <= fl,
            s + fl <= n,
            n == x@.len(),
            m <= 65536,
            j <= m,
            acc == sq_diff_sum(x@, s as int, j as int, tau as int),
        decreases m - j,
    {
        proof {
            lemma_sq_diff_bounds(x@, s as int, j as int + 1, tau as int);
            assert((j as int + 1) * 0x1_0000_0000 <= 0x1_0000_0000_0000) by (nonlinear_arith)
                requires j < 65536;
        }
        let i0: usize = s + j;
        let i1: usize = i0 + tau;
        let a: i64 = x[i0] as i64;
        let b: i64 = x[i1] as i64;
        let d: i64 = a - b;
        assert(0 <= d * d <= 0x1_0000_0000) by (nonlinear_arith)
            requires -65536 <= d <= 65536;
        let dd: i64 = d * d;
        assert(sq_diff_sum(x@, s as int, j as int + 1, tau as int) == acc + dd);
        acc = acc + dd as u64;
        j += 1;
    }
    acc
}

/// Normalised difference function of the frame starting at `s`, for every lag
/// in `0..=last`.
pub fn cmnd(x: &Vec<i16>, s: usize, fl: usize, win: usize, last: usize) -> (r: Vec<u64>)
    requires
        0 < win <= fl <= 65536,
        last < fl,
        s + fl <= x@.len(),
    ensures
        r@.len() == last + 1,
        forall|t: int| 0 <= t <= last ==> #[trigger] r@[t] == cmnd_spec(x@, s as int, fl as int, win as int, t),
        forall|t: int| 0 <= t <= last ==> #[trigger] r@[t] <= t * ONE || t == 0 && r@[t] == ONE,
{
    let mut r: Vec<u64> = Vec::with_capacity(last + 1);
    r.push(ONE);
    let mut cum: u128 = 0;
    let mut tau: usize = 1;
    while tau <= last
        invariant
            0 < win <= fl <= 65536,
            last < fl,
            s + fl <= x@.len(),
            1 <= tau <= last + 1,
            r@.len() == tau,
            r@[0] == ONE,
            cum == cum_diff(x@, s as int, fl as int, win as int, tau - 1),
            forall|t: int| 0 <= t < tau ==> #[trigger] r@[t] == cmnd_spec(x@, s as int, fl as int, win as int, t),
            forall|t: int| 0 < t < tau ==> #[trigger] r@[t] <= t * ONE,
        decreases last + 1 - tau,
    {
        let d = difference_at(x, s, fl, win, tau);
        proof {
            lemma_cum_bounds(x@, s as int, fl as int, win as int, tau as int);
        }
        cum = cum + d as u128;
        let v: u64 = if cum == 0 {
            ONE
        } else {
            assert(tau * d <= 0x1_0000_0000_0000_0000) by (nonlinear_arith)
                requires tau <= 65536, d <= 0x1_0000_0000_0000;
            let td: u128 = (tau as u128) * (d as u128);
            let num: u128 = td * (ONE as u128);
            assert(num == tau * d * ONE);
            proof {
                let t = tau as int;
                let di = d as int;
                let c = cum as int;
                assert(t * di * 65536 <= t * 65536 * c) by (nonlinear_arith)
                    requires 0 <= di <= c, 0 <= t;
                assert((t * di * 65536) / c <= t * 65536) by (nonlinear_arith)
                    requires t * di * 65536 <= t * 65536 * c, 0 < c, 0 <= t * di * 65536;
                assert(t * di * 65536 <= 65536 * 0x1_0000_0000_0000 * 65536) by (nonlinear_arith)
                    requires 0 <= t <= 65536, 0 <= di <= 0x1_0000_0000_0000;
            }
            (num / cum) as u64
        };
        proof {
            assert(tau as int * ONE >= ONE) by (nonlinear_arith)
                requires tau >= 1;
        }
        r.push(v);
        tau += 1;
    }
    r
}

/// A local minimum of the normalised difference function.
#[derive(Debug, Clone, Copy, PartialEq, Eq, Structural)]
pub struct Candidate {
    /// The lag, in samples.
    pub lag: usize,
    /// The normalised difference value there, in Q16.
    pub value: u64,
    /// The frequency of the parabolically refined lag, in millihertz.
    pub freq_mhz: u64,
}

/// Whether lag `t` is a candidate: inside `[lo, hi]`, strictly below its left
/// neighbour, not above its right one, and below one.
pub open spec fn is_trough(q: Seq<u64>, lo: int, hi: int, t: int) -> bool {
    &&& lo <= t <= hi
    &&& q[t] < q[t - 1]
    &&& q[t] <= q[t + 1]
    &&& q[t] < ONE
}

/// The refined lag, in Q8, of the vertex of the parabola through
/// `(t - 1, a)`, `(t, b)`, `(t + 1, c)`.
pub open spec fn refined_lag_q8(a: int, b: int, c: int, t: int) -> int {
    let den = a - 2 * b + c;
    if a >= c {
        256 * t + (128 * (a - c)) / den
    } else {
        256 * t - (128 * (c - a)) / den
    }
}

/// The frequency, in millihertz, of a lag given in Q8 at sample rate `sr`.
pub open spec fn lag_freq_mhz(sr: int, lag_q8: int) -> int {
    (sr * 256000) / lag_q8
}

/// The candidate at trough `t` of `q`.
pub open spec fn candidate_at(q: Seq<u64>, sr: int, t: int) -> Candidate {
    Candidate {
        lag: t as usize,
        value: q[t],
        freq_mhz: lag_freq_mhz(sr, refined_lag_q8(q[t - 1] as int, q[t] as int, q[t + 1] as int, t)) as u64,
    }
}

/// The candidates of `q` with lags in `[lo, t)`, by increasing lag.
pub open spec fn candidates_upto(q: Seq<u64>, sr: int, lo: int, hi: int, t: int) -> Seq<Candidate>
    decreases t - lo,
{
    if t <= lo {
        Seq::empty()
    } else {
        let p = candidates_upto(q, sr, lo, hi, t - 1);
        if is_trough(q, lo, hi, t - 1) {
            p.push(candidate_at(q, sr, t - 1))
        } else {
            p
        }
    }
}

/// Refines trough `t` and returns its candidate.
fn refine(q: &Vec<u64>, sr: u32, t: usize) -> (r: Candidate)
    requires
        1 <= t,
        t + 1 < q@.len(),
        t <= 65536,
        q@[t as int] < q@[t - 1],
        q@[t as int] <= q@[t + 1],
        q@[t - 1] <= 0x1_0000_0000_0000,
        q@[t + 1] <= 0x1_0000_0000_0000,
    ensures
        r == candidate_at(q@, sr as int, t as int),
        r.freq_mhz <= sr * 2000,
{
    let a = q[t - 1];
    let b = q[t];
    let c = q[t + 1];
    let den: u64 = (a - b) + (c - b);
    let lag_q8: u64 = if a >= c {
        let sh: u64 = (128 * (a - c)) / den;
        256 * (t as u64) + sh
    } else {
        let sh: u64 = (128 * (c - a)) / den;
        proof {
            assert(128 * (c - a) <= 128 * den) by (nonlinear_arith)
                requires c - a <= den;
            assert((128 * (c - a)) / (den as int) <= 128) by (nonlinear_arith)
                requires 128 * (c - a) <= 128 * den, den > 0;
        }
        256 * (t as u64) - sh
    };
    assert(lag_q8 as int == refined_lag_q8(a as int, b as int, c as int, t as int));
    let num: u64 = (sr as u64) * 256000;
    let f: u64 = num / lag_q8;
    proof {
        assert(lag_q8 >= 128);
        assert((num as int) / (lag_q8 as int) <= (num as int) / 128) by (nonlinear_arith)
            requires lag_q8 >= 128, num >= 0;
    }
    Candidate { lag: t, value: b, freq_mhz: f }
}

/// The candidates of a normalised difference function `q`, by increasing lag:
/// every trough in `[lo, hi]`, each refined.
pub fn find_candidates(q: &Vec<u64>, sr: u32, lo: usize, hi: usize) -> (r: Vec<Candidate>)
    requires
        1 <= lo <= hi,
        hi + 1 < q@.len(),
        hi <= 65536,
        forall|t: int| 0 <= t < q@.len() ==> #[trigger] q@[t] <= 0x1_0000_0000_0000,
    ensures
        r@ == candidates_upto(q@, sr as int, lo as int, hi as int, hi + 1),
        forall|i: int| 0 <= i < r@.len() ==> is_trough(q@, lo as int, hi as int, #[trigger] r@[i].lag as int)
            && r@[i] == candidate_at(q@, sr as int, r@[i].lag as int),
        forall|i: int, j: int| 0 <= i < j < r@.len() ==> r@[i].lag < r@[j].lag,
        forall|t: int| is_trough(q@, lo as int, hi as int, t) ==> exists|i: int| 0 <= i < r@.len() && #[trigger] r@[i].lag == t,
        forall|i: int| 0 <= i < r@.len() ==> #[trigger] r@[i].value < ONE && r@[i].freq_mhz <= sr * 2000,
{
    let mut r: Vec<Candidate> = Vec::new();
    let mut t: usize = lo;
    while t <= hi
        invariant
            1 <= lo,
            hi + 1 < q@.len(),
            hi <= 65536,
            forall|k: int| 0 <= k < q@.len() ==> #[trigger] q@[k] <= 0x1_0000_0000_0000,
            lo <= t <= hi + 1,
            r@ == candidates_upto(q@, sr as int, lo as int, hi as int, t as int),
            forall|i: int| 0 <= i < r@.len() ==> is_trough(q@, lo as int, hi as int, #[trigger] r@[i].lag as int)
                && r@[i] == candidate_at(q@, sr as int, r@[i].lag as int) && r@[i].lag < t,
            forall|i: int, j: int| 0 <= i < j < r@.len() ==> r@[i].lag < r@[j].lag,
            forall|u: int| lo <= u < t && is_trough(q@, lo as int, hi as int, u) ==> exists|i: int| 0 <= i < r@.len() && #[trigger] r@[i].lag == u,
            forall|i: int| 0 <= i < r@.len() ==> #[trigger] r@[i].value < ONE && r@[i].freq_mhz <= sr * 2000,
        decreases hi + 1 - t,
    {
        if q[t] < q[t - 1] && q[t] <= q[t + 1] && q[t] < ONE {
            let c = refine(q, sr, t);
            let ghost old_r = r@;
            r.push(c);
            proof {
                assert(r@[old_r.len() as int].lag == t);
                assert forall|u: int| lo <= u < t + 1 && is_trough(q@, lo as int, hi as int, u) implies exists|i: int| 0 <= i < r@.len() && #[trigger] r@[i].lag == u by {
                    if u < t {
                        let i = choose|i: int| 0 <= i < old_r.len() && #[trigger] old_r[i].lag == u;
                        assert(r@[i].lag == u);
                    } else {
                        assert(r@[old_r.len() as int].lag == u);
                    }
                }
            }
        }
        t += 1;
    }
    r
}


proof fn lemma_silent_sums(x: Seq<i16>, s: int, fl: int, win: int, tau: int)
    requires
        0 <= s,
        s + fl <= x.len(),
        0 <= tau < fl,
        0 < win <= fl,
        forall|k: int| s <= k < s + fl ==> #[trigger] x[k] == 0,
    ensures
        cum_diff(x, s, fl, win, tau) == 0,
    decreases tau,
{
    if tau > 0 {
        lemma_silent_sums(x, s, fl, win, tau - 1);
        lemma_silent_sq(x, s, overlap(fl, win, tau), tau, fl);
    }
}

proof fn lemma_silent_sq(x: Seq<i16>, s: int, m: int, tau: int, fl: int)
    requires
        0 <= s,
        0 <= tau,
        m + tau <= fl,
        forall|k: int| s <= k < s + fl ==> #[trigger] x[k] == 0,
    ensures
        sq_diff_sum(x, s, m, tau) == 0,
    decreases m,
{
    if m > 0 {
        lemma_silent_sq(x, s, m - 1, tau, fl);
        assert(x[s + m - 1] == 0);
        assert(x[s + m - 1 + tau] == 0);
    }
}

/// A frame of zeros has a normalised difference of one at every lag.
pub(crate) proof fn lemma_silent_cmnd(x: Seq<i16>, s: int, fl: int, win: int, tau: int)
    requires
        0 <= s,
        s + fl <= x.len(),
        0 <= tau < fl,
        0 < win <= fl,
        forall|k: int| s <= k < s + fl ==> #[trigger] x[k] == 0,
    ensures
        cmnd_spec(x, s, fl, win, tau) == ONE,
{
    lemma_silent_sums(x, s, fl, win, tau);
}

/// A flat difference function has no candidates.
pub(crate) proof fn lemma_flat_no_candidates(q: Seq<u64>, sr: int, lo: int, hi: int, t: int)
    requires
        1 <= lo,
        hi + 1 < q.len(),
        forall|k: int| 0 <= k < q.len() ==> #[trigger] q[k] == ONE,
    ensures
        candidates_upto(q, sr, lo, hi, t) == Seq::<Candidate>::empty(),
    decreases t - lo,
{
    if t > lo {
        lemma_flat_no_candidates(q, sr, lo, hi, t - 1);
        if lo <= t - 1 <= hi {
            assert(q[t - 1] == ONE);
            assert(q[t - 2] == ONE);
        }
    }
}
} // verus!
