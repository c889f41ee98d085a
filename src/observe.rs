use vstd::prelude::*;
use crate::yin::Candidate;

verus! {

/// Number of thresholds swept per frame.
pub const N_THRESHOLDS: usize = 16;

/// Probability one, as an integer mass.
pub const PRIOR_TOTAL: u64 = 1048576;

/// Threshold `j` of the sweep, in Q16: `(j + 1) / 16`.
pub open spec fn threshold(j: int) -> int {
    (j + 1) * 4096
}

/// Prior mass of threshold `j`: a Beta(2, 18) distribution over the sweep,
/// scaled to `PRIOR_TOTAL`.
pub open spec fn prior_weight(j: int) -> int {
    if j == 0 {
        351239
    } else if j == 1 {
        389281
    } else if j == 2 {
        198811
    } else if j == 3 {
        76731
    } else if j == 4 {
        24335
    } else if j == 5 {
        6458
    } else if j == 6 {
        1425
    } else if j == 7 {
        256
    } else if j == 8 {
        36
    } else if j == 9 {
        4
    } else {
        0
    }
}

/// Total prior mass of the first `n` thresholds.
pub open spec fn prior_sum(n: int) -> int
    decreases n,
{
    if n <= 0 {
        0
    } else {
        prior_sum(n - 1) + prior_weight(n - 1)
    }
}

fn prior_weight_exec(j: usize) -> (r: u64)
    ensures
        r == prior_weight(j as int),
{
    if j == 0 {
        351239
    } else if j == 1 {
        389281
    } else if j == 2 {
        198811
    } else if j == 3 {
        76731
    } else if j == 4 {
        24335
    } else if j == 5 {
        6458
    } else if j == 6 {
        1425
    } else if j == 7 {
        256
    } else if j == 8 {
        36
    } else if j == 9 {
        4
    } else {
        0
    }
}

proof fn lemma_prior_sum(n: int)
    requires
        0 <= n <= N_THRESHOLDS,
    ensures
        0 <= prior_sum(n) <= PRIOR_TOTAL,
        n == N_THRESHOLDS ==> prior_sum(n) == PRIOR_TOTAL,
    decreases n,
{
    reveal_with_fuel(prior_sum, 17);
    assert(prior_sum(16) == 1048576);
    if n < 16 {
        lemma_prior_sum_le(n, 16);
    }
}

proof fn lemma_prior_sum_le(a: int, b: int)
    requires
        0 <= a <= b,
    ensures
        0 <= prior_sum(a) <= prior_sum(b),
    decreases b - a,
{
    if a < b {
        lemma_prior_sum_le(a, b - 1);
    } else {
        lemma_prior_sum_nonneg(a);
    }
}

proof fn lemma_prior_sum_nonneg(n: int)
    ensures
        0 <= prior_sum(n),
    decreases n,
{
    if n > 0 {
        lemma_prior_sum_nonneg(n - 1);
    }
}

/// Index of the first candidate at or after `i` whose value is below `th`,
/// or the number of candidates if there is none.
pub open spec fn first_below(c: Seq<Candidate>, th: int, i: int) -> int
    decreases c.len() - i,
{
    if i < 0 || i >= c.len() {
        c.len() as int
    } else if (c[i].value as int) < th {
        i
    } else {
        first_below(c, th, i + 1)
    }
}

/// Number of bins below `f`: the `k` for which `f` lies at or above the
/// geometric midpoint of centres `k` and `k + 1`, among the first `n`.
pub open spec fn bins_below(g: Seq<u64>, f: int, n: int) -> int
    decreases n,
{
    if n <= 0 {
        0
    } else {
        bins_below(g, f, n - 1) + if (g[n - 1] as int) * (g[n] as int) <= f * f { 1int } else { 0int }
    }
}

/// The pitch bin whose centre is nearest to `f` on a log scale.
pub open spec fn bin_of(g: Seq<u64>, f: int) -> int {
    bins_below(g, f, g.len() - 1)
}

/// Voiced mass contributed by the first `n` thresholds: a threshold counts
/// where some candidate lies below it.
pub open spec fn voiced_mass(c: Seq<Candidate>, n: int) -> int
    decreases n,
{
    if n <= 0 {
        0
    } else {
        voiced_mass(c, n - 1) + if first_below(c, threshold(n - 1), 0) < c.len() {
            prior_weight(n - 1)
        } else {
            0
        }
    }
}

/// The observation after sweeping the first `n` thresholds: one mass per bin
/// of `g`, then the unvoiced mass. Each threshold gives its prior mass to the
/// bin of the first candidate below it, or leaves it unvoiced.
pub open spec fn observe(c: Seq<Candidate>, g: Seq<u64>, n: int) -> Seq<int>
    decreases n,
{
    if n <= 0 {
        Seq::new((g.len() + 1) as nat, |i: int| if i == g.len() { PRIOR_TOTAL as int } else { 0 })
    } else {
        let p = observe(c, g, n - 1);
        let k = first_below(c, threshold(n - 1), 0);
        let w = prior_weight(n - 1);
        if k < c.len() {
            let b = bin_of(g, c[k].freq_mhz as int);
            p.update(b, p[b] + w).update(g.len() as int, p[g.len() as int] - w)
        } else {
            p
        }
    }
}

/// Sum of a sequence of masses.
pub open spec fn total(s: Seq<int>) -> int
    decreases s.len(),
{
    if s.len() == 0 {
        0
    } else {
        total(s.drop_last()) + s.last()
    }
}

proof fn lemma_total_update(s: Seq<int>, i: int, v: int)
    requires
        0 <= i < s.len(),
    ensures
        total(s.update(i, v)) == total(s) - s[i] + v,
    decreases s.len(),
{
    let u = s.update(i, v);
    if i == s.len() - 1 {
        assert(u.drop_last() =~= s.drop_last());
    } else {
        lemma_total_update(s.drop_last(), i, v);
        assert(u.drop_last() =~= s.drop_last().update(i, v));
    }
}

proof fn lemma_bins_below(g: Seq<u64>, f: int, n: int)
    requires
        0 <= n,
    ensures
        0 <= bins_below(g, f, n) <= n,
    decreases n,
{
    if n > 0 {
        lemma_bins_below(g, f, n - 1);
    }
}

/// Facts about the observation after `n` thresholds: its length, the voiced
/// mass, the unvoiced mass and the sum of one.
pub proof fn lemma_observe(c: Seq<Candidate>, g: Seq<u64>, n: int)
    requires
        0 < g.len(),
        0 <= n <= N_THRESHOLDS,
    ensures
        observe(c, g, n).len() == g.len() + 1,
        0 <= voiced_mass(c, n) <= prior_sum(n),
        observe(c, g, n)[g.len() as int] == PRIOR_TOTAL - voiced_mass(c, n),
        forall|i: int| 0 <= i < g.len() ==> 0 <= #[trigger] observe(c, g, n)[i] <= voiced_mass(c, n),
        total(observe(c, g, n)) == PRIOR_TOTAL,
        total(observe(c, g, n).drop_last()) == voiced_mass(c, n),
    decreases n,
{
    let o = observe(c, g, n);
    let kk = g.len() as int;
    if n == 0 {
        assert(o.drop_last() =~= Seq::new(g.len(), |i: int| 0int));
        lemma_total_zero(g.len() as int);
    } else {
        lemma_observe(c, g, n - 1);
        lemma_prior_sum(n);
        lemma_prior_sum_le(n - 1, n);
        let p = observe(c, g, n - 1);
        let k = first_below(c, threshold(n - 1), 0);
        let w = prior_weight(n - 1);
        assert(0 <= w);
        if k < c.len() {
            let b = bin_of(g, c[k].freq_mhz as int);
            lemma_bins_below(g, c[k].freq_mhz as int, kk - 1);
            let p_bin = p.update(b, p[b] + w);
            lemma_total_update(p, b, p[b] + w);
            lemma_total_update(p_bin, kk, p_bin[kk] - w);
        }
    }
    assert(o.drop_last().len() == kk);
    assert(total(o) == total(o.drop_last()) + o[kk]);
}

proof fn lemma_total_zero(n: int)
    requires
        0 <= n,
    ensures
        total(Seq::new(n as nat, |i: int| 0int)) == 0,
    decreases n,
{
    if n > 0 {
        lemma_total_zero(n - 1);
        assert(Seq::new(n as nat, |i: int| 0int).drop_last() =~= Seq::new((n - 1) as nat, |i: int| 0int));
    }
}

/// Refining the pitch grid (a finer resolution) redistributes a frame's
/// voiced probability among bins but leaves its total, and so the unvoiced
/// probability, unchanged: for any candidate set and any two grids the voiced
/// masses are equal, and both equal the grid-free `voiced_mass`.
pub proof fn lemma_resolution_keeps_voiced_mass(c: Seq<Candidate>, g1: Seq<u64>, g2: Seq<u64>)
    requires
        0 < g1.len(),
        0 < g2.len(),
    ensures
        total(observe(c, g1, N_THRESHOLDS as int).drop_last()) == voiced_mass(c, N_THRESHOLDS as int),
        total(observe(c, g1, N_THRESHOLDS as int).drop_last())
            == total(observe(c, g2, N_THRESHOLDS as int).drop_last()),
        observe(c, g1, N_THRESHOLDS as int)[g1.len() as int]
            == observe(c, g2, N_THRESHOLDS as int)[g2.len() as int],
{
    lemma_observe(c, g1, N_THRESHOLDS as int);
    lemma_observe(c, g2, N_THRESHOLDS as int);
}

/// The bin of frequency `f` (millihertz) on grid `g`.
pub fn bin_index(g: &Vec<u64>, f: u64) -> (r: usize)
    requires
        0 < g@.len(),
    ensures
        r == bin_of(g@, f as int),
        r < g@.len(),
{
    assert((f as int) * (f as int) <= 0xffff_ffff_ffff_ffff * 0xffff_ffff_ffff_ffff) by (nonlinear_arith)
        requires 0 <= f <= 0xffff_ffff_ffff_ffff;
    let ff: u128 = (f as u128) * (f as u128);
    let mut n: usize = 0;
    let mut k: usize = 0;
    while k < g.len() - 1
        invariant
            0 < g@.len(),
            k < g@.len(),
            ff == f * f,
            n == bins_below(g@, f as int, k as int),
            n <= k,
        decreases g@.len() - k,
    {
        let a: u64 = g[k];
        let b: u64 = g[k + 1];
        assert((a as int) * (b as int) <= 0xffff_ffff_ffff_ffff * 0xffff_ffff_ffff_ffff) by (nonlinear_arith)
            requires 0 <= a <= 0xffff_ffff_ffff_ffff, 0 <= b <= 0xffff_ffff_ffff_ffff;
        let p: u128 = (a as u128) * (b as u128);
        if p <= ff {
            n += 1;
        }
        k += 1;
    }
    n
}

/// Index of the first candidate with a value below `th`, or their number.
fn first_below_exec(c: &Vec<Candidate>, th: u64) -> (r: usize)
    ensures
        r == first_below(c@, th as int, 0),
{
    let mut i: usize = 0;
    while i < c.len()
        invariant
            i <= c@.len(),
            first_below(c@, th as int, 0) == first_below(c@, th as int, i as int),
        decreases c@.len() - i,
    {
        if c[i].value < th {
            return i;
        }
        i += 1;
    }
    i
}

/// The observation of a frame with candidates `c` on grid `g`: the mass of
/// each pitch bin, then the unvoiced mass, out of `PRIOR_TOTAL`.
pub fn observation(c: &Vec<Candidate>, g: &Vec<u64>) -> (r: Vec<u64>)
    requires
        0 < g@.len() < usize::MAX,
    ensures
        r@.len() == g@.len() + 1,
        forall|i: int| 0 <= i <= g@.len() ==> #[trigger] r@[i] == observe(c@, g@, N_THRESHOLDS as int)[i],
        r@[g@.len() as int] == PRIOR_TOTAL - voiced_mass(c@, N_THRESHOLDS as int),
        forall|i: int| 0 <= i <= g@.len() ==> #[trigger] r@[i] <= PRIOR_TOTAL,
{
    let kk = g.len();
    let mut r: Vec<u64> = Vec::with_capacity(kk + 1);
    let mut i: usize = 0;
    while i < kk
        invariant
            kk == g@.len(),
            i <= kk,
            r@.len() == i,
            forall|t: int| 0 <= t < i ==> #[trigger] r@[t] == 0,
        decreases kk - i,
    {
        r.push(0);
        i += 1;
    }
    r.push(PRIOR_TOTAL);
    assert(r@ =~= observe(c@, g@, 0).map_values(|v: int| v as u64));
    let mut j: usize = 0;
    while j < N_THRESHOLDS
        invariant
            kk == g@.len(),
            0 < kk < usize::MAX,
            j <= N_THRESHOLDS,
            r@.len() == kk + 1,
            forall|t: int| 0 <= t <= kk ==> #[trigger] r@[t] == observe(c@, g@, j as int)[t],
        decreases N_THRESHOLDS - j,
    {
        proof {
            lemma_observe(c@, g@, j as int);
            lemma_observe(c@, g@, j as int + 1);
            lemma_prior_sum(j as int + 1);
        }
        let k = first_below_exec(c, (j as u64 + 1) * 4096);
        if k < c.len() {
            let w = prior_weight_exec(j);
            let b = bin_index(g, c[k].freq_mhz);
            let ghost p = observe(c@, g@, j as int);
            let vb = r[b];
            r.set(b, vb + w);
            let vu = r[kk];
            r.set(kk, vu - w);
            proof {
                let o = observe(c@, g@, j as int + 1);
                assert forall|t: int| 0 <= t <= kk implies #[trigger] r@[t] == o[t] by {}
            }
        }
        j += 1;
    }
    proof {
        lemma_observe(c@, g@, N_THRESHOLDS as int);
        lemma_prior_sum(N_THRESHOLDS as int);
    }
    r
}

/// Emission cost of an impossible observation.
pub const ZERO_COST: u64 = 240;

/// `floor(log2(x))`, and zero below two.
pub open spec fn log2_floor(x: int) -> int
    decreases x,
{
    if x <= 1 {
        0
    } else {
        1 + log2_floor(x / 2)
    }
}

/// Emission cost of a mass `m` out of `PRIOR_TOTAL`: `-log2(m / PRIOR_TOTAL)`
/// in sixths of a bit, rounded up, and `ZERO_COST` for a zero mass.
pub open spec fn emission_cost(m: int) -> int {
    if m <= 0 {
        ZERO_COST as int
    } else {
        120 - log2_floor(m * m * m * m * m * m)
    }
}

/// `2^k`.
spec fn two_pow(k: nat) -> int
    decreases k,
{
    if k == 0 {
        1
    } else {
        2 * two_pow((k - 1) as nat)
    }
}

proof fn lemma_two_pow_adds(a: nat, b: nat)
    ensures
        two_pow(a + b) == two_pow(a) * two_pow(b),
        two_pow(a) >= 1,
    decreases a,
{
    if a > 0 {
        lemma_two_pow_adds((a - 1) as nat, b);
        assert(two_pow(a + b) == 2 * two_pow((a - 1 + b) as nat));
        assert(2 * (two_pow((a - 1) as nat) * two_pow(b)) == (2 * two_pow((a - 1) as nat)) * two_pow(b)) by (nonlinear_arith);
    }
}

proof fn lemma_log2_two_pow(k: nat)
    ensures
        log2_floor(two_pow(k)) == k,
    decreases k,
{
    if k > 0 {
        lemma_log2_two_pow((k - 1) as nat);
        lemma_two_pow_adds((k - 1) as nat, 0);
        assert(two_pow(k) / 2 == two_pow((k - 1) as nat));
    }
}

proof fn lemma_log2_mono(x: int, y: int)
    requires
        x <= y,
    ensures
        0 <= log2_floor(x) <= log2_floor(y),
    decreases y,
{
    if x > 1 {
        lemma_log2_mono(x / 2, y / 2);
    } else if y > 1 {
        lemma_log2_mono(0, y / 2);
    }
}

pub(crate) proof fn lemma_emission_cost(m: int)
    requires
        0 <= m <= PRIOR_TOTAL,
    ensures
        0 <= emission_cost(m) <= ZERO_COST,
        m == PRIOR_TOTAL ==> emission_cost(m) == 0,
{
    let top: int = 1048576int * 1048576 * 1048576 * 1048576 * 1048576 * 1048576;
    reveal_with_fuel(two_pow, 21);
    assert(two_pow(20) == 1048576);
    lemma_two_pow_adds(20, 20);
    lemma_two_pow_adds(40, 20);
    lemma_two_pow_adds(60, 20);
    lemma_two_pow_adds(80, 20);
    lemma_two_pow_adds(100, 20);
    lemma_log2_two_pow(120);
    assert(log2_floor(top) == 120);
    if m > 0 {
        assert(m * m * m * m * m * m <= top) by (nonlinear_arith)
            requires 0 < m <= 1048576, top == 1048576int * 1048576 * 1048576 * 1048576 * 1048576 * 1048576;
        lemma_log2_mono(m * m * m * m * m * m, top);
    }
}

fn emission_cost_exec(m: u64) -> (r: u64)
    requires
        m <= PRIOR_TOTAL,
    ensures
        r == emission_cost(m as int),
        r <= ZERO_COST,
{
    proof {
        lemma_emission_cost(m as int);
    }
    if m == 0 {
        return ZERO_COST;
    }
    let ghost mi = m as int;
    assert(mi * mi * mi * mi * mi * mi <= 1048576int * 1048576 * 1048576 * 1048576 * 1048576 * 1048576) by (nonlinear_arith)
        requires 0 < mi <= 1048576;
    assert(mi * mi * mi <= 0x1000_0000_0000_0000) by (nonlinear_arith)
        requires 0 < mi <= 1048576;
    assert(mi * mi <= 0x100_0000_0000) by (nonlinear_arith)
        requires 0 < mi <= 1048576;
    let c2: u128 = (m as u128) * (m as u128);
    let c: u128 = c2 * (m as u128);
    assert(c <= 0x1000_0000_0000_0000);
    assert(c * c <= 0x1000_0000_0000_0000 * 0x1000_0000_0000_0000) by (nonlinear_arith)
        requires c <= 0x1000_0000_0000_0000;
    let x: u128 = c * c;
    assert(x == mi * mi * mi * mi * mi * mi) by (nonlinear_arith)
        requires x == c * c, c == mi * mi * mi;
    let mut v: u128 = x;
    let mut e: u64 = 0;
    proof {
        lemma_log2_mono(0, x as int);
    }
    while v > 1
        invariant
            log2_floor(x as int) == e + log2_floor(v as int),
            log2_floor(x as int) <= 120,
            0 <= log2_floor(v as int),
        decreases v,
    {
        proof {
            lemma_log2_mono(0, v as int / 2);
        }
        v = v / 2;
        e = e + 1;
    }
    120 - e
}

/// Emission costs of an observation, state by state.
pub fn emission_costs(obs: &Vec<u64>) -> (r: Vec<u64>)
    requires
        forall|i: int| 0 <= i < obs@.len() ==> #[trigger] obs@[i] <= PRIOR_TOTAL,
    ensures
        r@.len() == obs@.len(),
        forall|i: int| 0 <= i < obs@.len() ==> #[trigger] r@[i] == emission_cost(obs@[i] as int),
        forall|i: int| 0 <= i < obs@.len() ==> #[trigger] r@[i] <= ZERO_COST,
{
    let mut r: Vec<u64> = Vec::with_capacity(obs.len());
    let mut i: usize = 0;
    while i < obs.len()
        invariant
            i <= obs@.len(),
            r@.len() == i,
            forall|k: int| 0 <= k < obs@.len() ==> #[trigger] obs@[k] <= PRIOR_TOTAL,
            forall|k: int| 0 <= k < i ==> #[trigger] r@[k] == emission_cost(obs@[k] as int),
            forall|k: int| 0 <= k < i ==> #[trigger] r@[k] <= ZERO_COST,
        decreases obs@.len() - i,
    {
        let c = emission_cost_exec(obs[i]);
        r.push(c);
        i += 1;
    }
    r
}


/// With no candidates every threshold's mass stays unvoiced.
pub(crate) proof fn lemma_observe_empty(g: Seq<u64>, n: int)
    requires
        0 <= n,
    ensures
        observe(Seq::<Candidate>::empty(), g, n) == observe(Seq::<Candidate>::empty(), g, 0),
        voiced_mass(Seq::<Candidate>::empty(), n) == 0,
    decreases n,
{
    if n > 0 {
        lemma_observe_empty(g, n - 1);
    }
}
} // verus!
