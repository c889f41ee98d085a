use vstd::prelude::*;

verus! {

/// Largest accepted frame length, in samples.
pub const MAX_FRAME_LENGTH: usize = 65536;

/// Largest accepted frequency, in millihertz.
pub const MAX_FREQ_MHZ: u64 = 1_000_000_000;

/// The failures that the engine reports to its caller.
#[derive(Debug, Clone, Copy, PartialEq, Eq, Structural)]
pub enum PyinError {
    /// A parameter, or a combination of parameters, is out of range.
    InvalidParameters,
    /// The waveform is not one-dimensional, or too short for the framing.
    InvalidInputShape,
}

/// Validated engine parameters.
#[derive(Debug, Clone)]
pub struct PyinConfig {
    pub sample_rate: u32,
    pub frame_length: usize,
    pub hop_length: usize,
    pub win_length: usize,
    pub fmin_mhz: u64,
    pub fmax_mhz: u64,
    /// Smallest lag searched: `max(floor(sr / fmax), 1)`.
    pub min_lag: usize,
    /// Largest lag searched: `min(ceil(sr / fmin), frame_length - 2)`.
    pub max_lag: usize,
    /// Bin-centre frequencies of the pitch grid, in millihertz, increasing.
    pub grid: Vec<u64>,
}

pub open spec fn grid_ok(g: Seq<u64>) -> bool {
    &&& 0 < g.len() < MAX_FRAME_LENGTH
    &&& forall|i: int| 0 <= i < g.len() ==> 0 < #[trigger] g[i] <= MAX_FREQ_MHZ
    &&& forall|i: int, j: int| 0 <= i < j < g.len() ==> g[i] < g[j]
}

/// Smallest lag for the highest frequency.
pub open spec fn min_lag_of(sr: u32, fmax_mhz: u64) -> int {
    let l = (sr as int * 1000) / (fmax_mhz as int);
    if l < 1 { 1 } else { l }
}

/// Largest lag for the lowest frequency, kept two below the frame length.
pub open spec fn max_lag_of(sr: u32, fmin_mhz: u64, frame_length: usize) -> int {
    let l = (sr as int * 1000 + fmin_mhz as int - 1) / (fmin_mhz as int);
    if l > frame_length as int - 2 { frame_length as int - 2 } else { l }
}

/// The hop length in effect: a quarter of the frame unless given.
pub open spec fn hop_of(frame_length: usize, hop: Option<usize>) -> int {
    match hop {
        Some(h) => h as int,
        None => frame_length as int / 4,
    }
}

/// The window length in effect: the frame length unless given.
pub open spec fn win_of(frame_length: usize, win: Option<usize>) -> int {
    match win {
        Some(w) => w as int,
        None => frame_length as int,
    }
}

/// Whether a parameter set is acceptable.
pub open spec fn params_ok(
    sr: u32,
    frame_length: usize,
    fmin_mhz: u64,
    fmax_mhz: u64,
    hop: Option<usize>,
    win: Option<usize>,
    grid: Seq<u64>,
) -> bool {
    &&& sr > 0
    &&& 3 <= frame_length <= MAX_FRAME_LENGTH
    &&& 0 < fmin_mhz
    &&& fmin_mhz < fmax_mhz
    &&& 2 * (fmax_mhz as int) < (sr as int) * 1000
    &&& 0 < hop_of(frame_length, hop)
    &&& 0 < win_of(frame_length, win) <= frame_length
    &&& min_lag_of(sr, fmax_mhz) <= max_lag_of(sr, fmin_mhz, frame_length)
    &&& grid_ok(grid)
    &&& fmin_mhz <= grid[0]
    &&& grid.last() <= fmax_mhz
}

impl PyinConfig {
    pub open spec fn wf(&self) -> bool {
        &&& self.sample_rate > 0
        &&& 3 <= self.frame_length <= MAX_FRAME_LENGTH
        &&& 0 < self.hop_length
        &&& 0 < self.win_length <= self.frame_length
        &&& 1 <= self.min_lag <= self.max_lag
        &&& self.max_lag + 2 <= self.frame_length
        &&& grid_ok(self.grid@)
        &&& forall|i: int| 0 <= i < self.grid@.len() ==> self.fmin_mhz <= #[trigger] self.grid@[i] <= self.fmax_mhz
    }

    /// Validates the parameters and derives the defaults (hop: a quarter of
    /// the frame; window: the whole frame) and the lag range.
    pub fn new(
        sample_rate: u32,
        frame_length: usize,
        fmin_mhz: u64,
        fmax_mhz: u64,
        hop_length: Option<usize>,
        win_length: Option<usize>,
        grid: Vec<u64>,
    ) -> (r: Result<PyinConfig, PyinError>)
        ensures
            params_ok(sample_rate, frame_length, fmin_mhz, fmax_mhz, hop_length, win_length, grid@)
                <==> r is Ok,
            r is Err ==> r == Err::<PyinConfig, PyinError>(PyinError::InvalidParameters),
            r matches Ok(c) ==> {
                &&& c.wf()
                &&& c.sample_rate == sample_rate
                &&& c.frame_length == frame_length
                &&& c.fmin_mhz == fmin_mhz
                &&& c.fmax_mhz == fmax_mhz
                &&& c.hop_length == hop_of(frame_length, hop_length)
                &&& c.win_length == win_of(frame_length, win_length)
                &&& c.min_lag == min_lag_of(sample_rate, fmax_mhz)
                &&& c.max_lag == max_lag_of(sample_rate, fmin_mhz, frame_length)
                &&& c.grid@ == grid@
            },
    {
        if sample_rate == 0 || frame_length < 3 || frame_length > MAX_FRAME_LENGTH || fmin_mhz == 0
            || fmin_mhz >= fmax_mhz || 2 * (fmax_mhz as u128) >= (sample_rate as u128) * 1000 {
            return Err(PyinError::InvalidParameters);
        }
        let hop: usize = match hop_length {
            Some(h) => h,
            None => frame_length / 4,
        };
        let win: usize = match win_length {
            Some(w) => w,
            None => frame_length,
        };
        if hop == 0 || win == 0 || win > frame_length {
            return Err(PyinError::InvalidParameters);
        }
        let sr1000: u64 = (sample_rate as u64) * 1000;
        let lo: u64 = sr1000 / fmax_mhz;
        let min_lag: u64 = if lo < 1 { 1 } else { lo };
        let hi: u64 = (sr1000 + fmin_mhz - 1) / fmin_mhz;
        let cap: u64 = (frame_length - 2) as u64;
        let max_lag: u64 = if hi > cap { cap } else { hi };
        if min_lag > max_lag {
            return Err(PyinError::InvalidParameters);
        }
        if !check_grid(&grid) {
            return Err(PyinError::InvalidParameters);
        }
        if grid[0] < fmin_mhz || grid[grid.len() - 1] > fmax_mhz {
            return Err(PyinError::InvalidParameters);
        }
        assert forall|i: int| 0 <= i < grid@.len() implies fmin_mhz <= #[trigger] grid@[i] <= fmax_mhz by {
            if i > 0 {
                assert(grid@[0] < grid@[i]);
            }
            if i < grid@.len() - 1 {
                assert(grid@[i] < grid@[grid@.len() - 1]);
            }
        }
        Ok(PyinConfig {
            sample_rate,
            frame_length,
            hop_length: hop,
            win_length: win,
            fmin_mhz,
            fmax_mhz,
            min_lag: min_lag as usize,
            max_lag: max_lag as usize,
            grid,
        })
    }
}

/// Bins per semitone when no resolution is given.
pub const DEFAULT_BINS_PER_SEMITONE: u32 = 10;

/// The resolution in effect, in bins per semitone.
pub open spec fn bins_of(b: Option<u32>) -> u32 {
    match b {
        Some(v) => v,
        None => DEFAULT_BINS_PER_SEMITONE,
    }
}

impl PyinConfig {
    /// Validates the parameters as `new` does, with the pitch grid built by
    /// `pitch_grid` from `fmin_mhz`, `fmax_mhz` and the resolution in bins per
    /// semitone (`DEFAULT_BINS_PER_SEMITONE` unless given).
    pub fn with_resolution(
        sample_rate: u32,
        frame_length: usize,
        fmin_mhz: u64,
        fmax_mhz: u64,
        hop_length: Option<usize>,
        win_length: Option<usize>,
        bins_per_semitone: Option<u32>,
    ) -> (r: Result<PyinConfig, PyinError>)
        ensures
            r is Ok <==> {
                &&& grid_args_ok(fmin_mhz, fmax_mhz, bins_of(bins_per_semitone))
                &&& params_ok(
                    sample_rate,
                    frame_length,
                    fmin_mhz,
                    fmax_mhz,
                    hop_length,
                    win_length,
                    grid_spec(fmin_mhz, fmax_mhz, bins_of(bins_per_semitone)),
                )
            },
            r is Err ==> r == Err::<PyinConfig, PyinError>(PyinError::InvalidParameters),
            r matches Ok(c) ==> {
                &&& c.grid@ == grid_spec(fmin_mhz, fmax_mhz, bins_of(bins_per_semitone))
                &&& params_ok(sample_rate, frame_length, fmin_mhz, fmax_mhz, hop_length, win_length, c.grid@)
                &&& c.wf()
                &&& c.sample_rate == sample_rate
                &&& c.frame_length == frame_length
                &&& c.fmin_mhz == fmin_mhz
                &&& c.fmax_mhz == fmax_mhz
                &&& c.hop_length == hop_of(frame_length, hop_length)
                &&& c.win_length == win_of(frame_length, win_length)
                &&& c.min_lag == min_lag_of(sample_rate, fmax_mhz)
                &&& c.max_lag == max_lag_of(sample_rate, fmin_mhz, frame_length)
                &&& c.grid@[0] == fmin_mhz
                &&& forall|i: int| 0 <= i < c.grid@.len() ==> #[trigger] c.grid@[i] <= fmax_mhz
            },
    {
        let bins: u32 = match bins_per_semitone {
            Some(b) => b,
            None => DEFAULT_BINS_PER_SEMITONE,
        };
        let grid = match pitch_grid(fmin_mhz, fmax_mhz, bins) {
            Ok(g) => g,
            Err(e) => {
                return Err(e);
            },
        };
        let ghost gv = grid@;
        let r = PyinConfig::new(sample_rate, frame_length, fmin_mhz, fmax_mhz, hop_length, win_length, grid);
        proof {
            if r is Ok {
                assert(r->Ok_0.grid@ == gv);
            }
        }
        r
    }
}

/// Whether `g` is a usable pitch grid: non-empty, positive, bounded and
/// strictly increasing.
pub fn check_grid(g: &Vec<u64>) -> (r: bool)
    ensures
        r == grid_ok(g@),
{
    if g.len() == 0 || g.len() >= MAX_FRAME_LENGTH {
        return false;
    }
    let mut i: usize = 0;
    while i < g.len()
        invariant
            0 < g.len() < MAX_FRAME_LENGTH,
            i <= g.len(),
            forall|k: int| 0 <= k < i ==> 0 < #[trigger] g@[k] <= MAX_FREQ_MHZ,
            forall|a: int, b: int| 0 <= a < b < i ==> g@[a] < g@[b],
        decreases g.len() - i,
    {
        if g[i] == 0 || g[i] > MAX_FREQ_MHZ {
            return false;
        }
        if i > 0 && g[i - 1] >= g[i] {
            return false;
        }
        i += 1;
        assert forall|a: int, b: int| 0 <= a < b < i implies g@[a] < g@[b] by {
            if b == i - 1 && a < b - 1 {
                assert(g@[a] < g@[b - 1]);
            }
        }
    }
    true
}

/// One in the Q32 fixed-point scale of frequency ratios.
pub const Q32_ONE: u64 = 0x1_0000_0000;

/// `y^k` in Q32, each product truncated.
pub open spec fn trunc_pow(y: int, k: nat) -> int
    decreases k,
{
    if k == 0 {
        Q32_ONE as int
    } else {
        (trunc_pow(y, (k - 1) as nat) * y) / (Q32_ONE as int)
    }
}

/// Whether the truncated `n`-th power of `y` is at most two.
pub open spec fn pow_ok(y: int, n: nat) -> bool {
    trunc_pow(y, n) <= 2 * Q32_ONE
}

/// Bisection on `[lo, hi)` for the largest `y` with `pow_ok(y, n)`, assuming
/// it holds at `lo` and fails at `hi`.
pub open spec fn bisect(lo: int, hi: int, n: nat) -> int
    decreases hi - lo,
{
    if hi - lo <= 1 {
        lo
    } else {
        let mid = lo + (hi - lo) / 2;
        if pow_ok(mid, n) { bisect(mid, hi, n) } else { bisect(lo, mid, n) }
    }
}

/// The ratio between adjacent bins for `n` bins per octave, in Q32.
pub open spec fn ratio_spec(n: nat) -> int {
    bisect(Q32_ONE as int, 2 * Q32_ONE as int, n)
}

/// The centre after `f` for ratio `ratio`: `f * ratio` in Q32, and at least
/// one millihertz above `f`.
pub open spec fn next_centre(f: int, ratio: int) -> int {
    let scaled = (f * ratio) / (Q32_ONE as int);
    if scaled > f { scaled } else { f + 1 }
}

/// The centres from `f` upwards, while at most `fmax`.
pub open spec fn grid_from(f: int, fmax: int, ratio: int) -> Seq<u64>
    decreases fmax - f,
{
    let nx = next_centre(f, ratio);
    if nx > fmax || nx <= f {
        seq![f as u64]
    } else {
        seq![f as u64] + grid_from(nx, fmax, ratio)
    }
}

/// The pitch grid with `bins` bins per semitone from `fmin` to `fmax`.
pub open spec fn grid_spec(fmin: u64, fmax: u64, bins: u32) -> Seq<u64> {
    grid_from(fmin as int, fmax as int, ratio_spec((12 * bins) as nat))
}

/// Whether `pitch_grid` accepts its arguments.
pub open spec fn grid_args_ok(fmin: u64, fmax: u64, bins: u32) -> bool {
    &&& 0 < fmin < fmax <= MAX_FREQ_MHZ
    &&& 0 < bins <= 1000
    &&& grid_spec(fmin, fmax, bins).len() < MAX_FRAME_LENGTH
}

proof fn lemma_trunc_pow_grows(y: int, a: nat, b: nat)
    requires
        Q32_ONE <= y,
        a <= b,
    ensures
        trunc_pow(y, a) <= trunc_pow(y, b),
    decreases b - a,
{
    if a < b {
        lemma_trunc_pow_grows(y, a, (b - 1) as nat);
        lemma_trunc_pow_pos(y, (b - 1) as nat);
        let p = trunc_pow(y, (b - 1) as nat);
        assert((p * y) / (Q32_ONE as int) >= p) by (nonlinear_arith)
            requires p >= 0, y >= 0x1_0000_0000;
    }
}

proof fn lemma_trunc_pow_pos(y: int, k: nat)
    requires
        Q32_ONE <= y,
    ensures
        trunc_pow(y, k) >= Q32_ONE,
    decreases k,
{
    if k > 0 {
        lemma_trunc_pow_pos(y, (k - 1) as nat);
        let p = trunc_pow(y, (k - 1) as nat);
        assert((p * y) / (Q32_ONE as int) >= p) by (nonlinear_arith)
            requires p >= 0, y >= 0x1_0000_0000;
    }
}

/// Whether `y^n`, in Q32 with each product truncated, stays at or below two.
fn pow_at_most_two(y: u64, n: u32) -> (r: bool)
    requires
        Q32_ONE <= y <= 2 * Q32_ONE,
    ensures
        r == pow_ok(y as int, n as nat),
{
    let mut acc: u128 = Q32_ONE as u128;
    let mut i: u32 = 0;
    while i < n
        invariant
            Q32_ONE <= y <= 2 * Q32_ONE,
            acc <= 2 * Q32_ONE,
            acc == trunc_pow(y as int, i as nat),
            i <= n,
        decreases n - i,
    {
        let yy: u128 = y as u128;
        assert(acc * yy <= 0x2_0000_0000 * 0x2_0000_0000) by (nonlinear_arith)
            requires acc <= 0x2_0000_0000, yy <= 0x2_0000_0000;
        let prod: u128 = acc * yy;
        acc = prod / (Q32_ONE as u128);
        if acc > 2 * (Q32_ONE as u128) {
            proof {
                lemma_trunc_pow_grows(y as int, (i + 1) as nat, n as nat);
            }
            return false;
        }
        i += 1;
    }
    true
}

/// The ratio between adjacent bins for `n` bins per octave, in Q32.
fn bin_ratio_q32(n: u32) -> (r: u64)
    ensures
        r == ratio_spec(n as nat),
        Q32_ONE <= r <= 2 * Q32_ONE,
{
    let mut lo: u64 = Q32_ONE;
    let mut hi: u64 = 2 * Q32_ONE;
    while hi - lo > 1
        invariant
            Q32_ONE <= lo < hi <= 2 * Q32_ONE,
            bisect(lo as int, hi as int, n as nat) == ratio_spec(n as nat),
        decreases hi - lo,
    {
        let mid: u64 = lo + (hi - lo) / 2;
        if pow_at_most_two(mid, n) {
            lo = mid;
        } else {
            hi = mid;
        }
    }
    lo
}

proof fn lemma_grid_from(f: int, fmax: int, ratio: int)
    requires
        0 < f <= fmax,
    ensures
        grid_from(f, fmax, ratio).len() >= 1,
        grid_from(f, fmax, ratio)[0] == f as u64,
    decreases fmax - f,
{
}

/// A log-frequency pitch grid from `fmin_mhz` up to `fmax_mhz` with
/// `bins_per_semitone` bins per semitone: each centre is the previous one
/// times `2^(1 / (12 * bins_per_semitone))` in Q32 fixed point, and at least
/// one millihertz above it. Fails with `InvalidParameters` where the range is
/// empty, the resolution is zero or above 1000, or the grid would have
/// `MAX_FRAME_LENGTH` bins or more.
pub fn pitch_grid(fmin_mhz: u64, fmax_mhz: u64, bins_per_semitone: u32) -> (r: Result<Vec<u64>, PyinError>)
    ensures
        r is Ok <==> grid_args_ok(fmin_mhz, fmax_mhz, bins_per_semitone),
        r is Err ==> r == Err::<Vec<u64>, PyinError>(PyinError::InvalidParameters),
        r matches Ok(g) ==> {
            &&& g@ == grid_spec(fmin_mhz, fmax_mhz, bins_per_semitone)
            &&& grid_ok(g@)
            &&& g@[0] == fmin_mhz
            &&& forall|i: int| 0 <= i < g@.len() ==> #[trigger] g@[i] <= fmax_mhz
        },
{
    if fmin_mhz == 0 || fmin_mhz >= fmax_mhz || fmax_mhz > MAX_FREQ_MHZ || bins_per_semitone == 0
        || bins_per_semitone > 1000 {
        return Err(PyinError::InvalidParameters);
    }
    let ratio = bin_ratio_q32(12 * bins_per_semitone);
    let ghost full = grid_spec(fmin_mhz, fmax_mhz, bins_per_semitone);
    let mut g: Vec<u64> = Vec::new();
    g.push(fmin_mhz);
    let mut f: u64 = fmin_mhz;
    proof {
        assert(full == grid_from(fmin_mhz as int, fmax_mhz as int, ratio as int));
        lemma_grid_from(fmin_mhz as int, fmax_mhz as int, ratio as int);
        assert(g@ + grid_from(f as int, fmax_mhz as int, ratio as int).drop_first() =~= full);
    }
    loop
        invariant
            0 < fmin_mhz < fmax_mhz <= MAX_FREQ_MHZ,
            0 < bins_per_semitone <= 1000,
            Q32_ONE <= ratio <= 2 * Q32_ONE,
            ratio == ratio_spec((12 * bins_per_semitone) as nat),
            full == grid_spec(fmin_mhz, fmax_mhz, bins_per_semitone),
            0 < g@.len() < MAX_FRAME_LENGTH,
            g@[0] == fmin_mhz,
            f == g@.last(),
            0 < f <= fmax_mhz,
            g@ + grid_from(f as int, fmax_mhz as int, ratio as int).drop_first() == full,
            forall|i: int| 0 <= i < g@.len() ==> 0 < #[trigger] g@[i] <= fmax_mhz,
            forall|i: int, j: int| 0 <= i < j < g@.len() ==> g@[i] < g@[j],
        decreases fmax_mhz - f,
    {
        assert((f as int) * (ratio as int) <= MAX_FREQ_MHZ * (2 * Q32_ONE)) by (nonlinear_arith)
            requires f <= MAX_FREQ_MHZ, ratio <= 2 * Q32_ONE;
        let scaled: u128 = (f as u128) * (ratio as u128) / (Q32_ONE as u128);
        let ghost nx = next_centre(f as int, ratio as int);
        let next: u64 = if scaled > f as u128 {
            if scaled > fmax_mhz as u128 {
                assert(g@ =~= full);
                return Ok(g);
            }
            scaled as u64
        } else {
            f + 1
        };
        assert(next == nx);
        if next > fmax_mhz {
            assert(g@ =~= full);
            return Ok(g);
        }
        let ghost rest = grid_from(next as int, fmax_mhz as int, ratio as int);
        proof {
            lemma_grid_from(next as int, fmax_mhz as int, ratio as int);
            assert(grid_from(f as int, fmax_mhz as int, ratio as int) == seq![f] + rest);
        }
        if g.len() + 1 >= MAX_FRAME_LENGTH {
            assert(full.len() == g@.len() + rest.len());
            return Err(PyinError::InvalidParameters);
        }
        let ghost old_g = g@;
        g.push(next);
        f = next;
        proof {
            assert(g@ + rest.drop_first() =~= old_g + (seq![old_g.last()] + rest).drop_first());
        }
        assert forall|i: int, j: int| 0 <= i < j < g@.len() implies g@[i] < g@[j] by {
            if j == g@.len() - 1 && i < j {
                assert(old_g[i] <= old_g.last());
            }
        }
    }
}

} // verus!
