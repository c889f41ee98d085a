use vstd::prelude::*;

verus! {

/// Cost of entering or leaving the unvoiced state between two frames.
pub const SWITCH_COST: u64 = 40;

/// Cost of moving one pitch bin between two frames.
pub const JUMP_COST: u64 = 1;

/// Largest accepted emission cost.
pub const MAX_EMISSION: u64 = 1048576;

/// Largest accepted number of frames.
pub const MAX_FRAMES: u64 = 0x200_0000_0000;

/// Cost of moving from state `i` to state `j`, where states below `kk` are
/// pitch bins and `kk` is the unvoiced state.
pub open spec fn trans(i: int, j: int, kk: int) -> int {
    if i == kk && j == kk {
        0
    } else if i == kk || j == kk {
        SWITCH_COST as int
    } else if i <= j {
        JUMP_COST * (j - i)
    } else {
        JUMP_COST * (i - j)
    }
}

/// The least of `prev[i] + trans(i, s)` over `i < n`.
pub open spec fn min_from(prev: Seq<int>, s: int, kk: int, n: int) -> int
    decreases n,
{
    if n <= 1 {
        prev[0] + trans(0, s, kk)
    } else {
        let m = min_from(prev, s, kk, n - 1);
        let v = prev[n - 1] + trans(n - 1, s, kk);
        if v < m { v } else { m }
    }
}

/// The first `i < n` at which `prev[i] + trans(i, s)` is least.
pub open spec fn arg_from(prev: Seq<int>, s: int, kk: int, n: int) -> int
    decreases n,
{
    if n <= 1 {
        0
    } else {
        let m = min_from(prev, s, kk, n - 1);
        let v = prev[n - 1] + trans(n - 1, s, kk);
        if v < m { n - 1 } else { arg_from(prev, s, kk, n - 1) }
    }
}

/// Least total cost of a path over frames `0..=t` that ends in each state.
pub open spec fn row(e: Seq<Seq<u64>>, kk: int, t: int) -> Seq<int>
    decreases t,
{
    if t <= 0 {
        Seq::new((kk + 1) as nat, |s: int| e[0][s] as int)
    } else {
        let prev = row(e, kk, t - 1);
        Seq::new((kk + 1) as nat, |s: int| e[t][s] + min_from(prev, s, kk, kk + 1))
    }
}

/// The first state among the first `n` at which `r` is least.
pub open spec fn end_arg(r: Seq<int>, n: int) -> int
    decreases n,
{
    if n <= 1 {
        0
    } else {
        let a = end_arg(r, n - 1);
        if r[n - 1] < r[a] { n - 1 } else { a }
    }
}

/// State `t` of the decoded path over frames `0..nt`: the cheapest final
/// state, then back-pointers, ties going to the lower state.
pub open spec fn path_state(e: Seq<Seq<u64>>, kk: int, nt: int, t: int) -> int
    decreases nt - t,
{
    if t >= nt - 1 {
        end_arg(row(e, kk, nt - 1), kk + 1)
    } else {
        arg_from(row(e, kk, t), path_state(e, kk, nt, t + 1), kk, kk + 1)
    }
}

/// Total cost of the states `p[0..=t]`: emissions plus transitions.
pub open spec fn path_cost(e: Seq<Seq<u64>>, kk: int, p: Seq<int>, t: int) -> int
    decreases t,
{
    if t <= 0 {
        e[0][p[0]] as int
    } else {
        path_cost(e, kk, p, t - 1) + trans(p[t - 1], p[t], kk) + e[t][p[t]]
    }
}

/// Whether `e` is a table of emission costs over `kk + 1` states.
pub open spec fn emissions_ok(e: Seq<Seq<u64>>, kk: int) -> bool {
    &&& 0 < e.len() <= MAX_FRAMES
    &&& 0 <= kk < 65536
    &&& forall|t: int| 0 <= t < e.len() ==> #[trigger] e[t].len() == kk + 1
    &&& forall|t: int, s: int| 0 <= t < e.len() && 0 <= s <= kk ==> #[trigger] e[t][s] <= MAX_EMISSION
}

/// Whether `p` is a state path over `nt` frames and `kk + 1` states.
pub open spec fn path_ok(p: Seq<int>, nt: int, kk: int) -> bool {
    &&& p.len() == nt
    &&& forall|t: int| 0 <= t < nt ==> 0 <= #[trigger] p[t] <= kk
}

proof fn lemma_trans(i: int, j: int, kk: int)
    ensures
        0 <= trans(i, j, kk),
        0 <= i <= kk && 0 <= j <= kk && kk < 65536 ==> trans(i, j, kk) <= 65536,
{
}

proof fn lemma_min_from(prev: Seq<int>, s: int, kk: int, n: int)
    requires
        1 <= n <= prev.len(),
    ensures
        0 <= arg_from(prev, s, kk, n) < n,
        min_from(prev, s, kk, n) == prev[arg_from(prev, s, kk, n)] + trans(arg_from(prev, s, kk, n), s, kk),
        forall|i: int| 0 <= i < n ==> min_from(prev, s, kk, n) <= #[trigger] prev[i] + trans(i, s, kk),
    decreases n,
{
    if n > 1 {
        lemma_min_from(prev, s, kk, n - 1);
    }
}

proof fn lemma_end_arg(r: Seq<int>, n: int)
    requires
        1 <= n <= r.len(),
    ensures
        0 <= end_arg(r, n) < n,
        forall|i: int| 0 <= i < n ==> r[end_arg(r, n)] <= #[trigger] r[i],
    decreases n,
{
    if n > 1 {
        lemma_end_arg(r, n - 1);
    }
}

proof fn lemma_row_bounds(e: Seq<Seq<u64>>, kk: int, t: int)
    requires
        emissions_ok(e, kk),
        0 <= t < e.len(),
    ensures
        row(e, kk, t).len() == kk + 1,
        forall|s: int| 0 <= s <= kk ==> 0 <= #[trigger] row(e, kk, t)[s] <= (t + 1) * 0x20_0000,
    decreases t,
{
    if t > 0 {
        lemma_row_bounds(e, kk, t - 1);
        let prev = row(e, kk, t - 1);
        assert forall|s: int| 0 <= s <= kk implies 0 <= #[trigger] row(e, kk, t)[s] <= (t + 1) * 0x20_0000 by {
            lemma_min_from(prev, s, kk, kk + 1);
            let a = arg_from(prev, s, kk, kk + 1);
            lemma_trans(a, s, kk);
            lemma_trans(0, s, kk);
            assert(e[t][s] <= MAX_EMISSION);
        }
    }
}

/// Every path costs at least the cheapest cost of reaching its state.
proof fn lemma_row_is_lower_bound(e: Seq<Seq<u64>>, kk: int, p: Seq<int>, t: int)
    requires
        emissions_ok(e, kk),
        path_ok(p, e.len() as int, kk),
        0 <= t < e.len(),
    ensures
        row(e, kk, t)[p[t]] <= path_cost(e, kk, p, t),
    decreases t,
{
    if t > 0 {
        lemma_row_is_lower_bound(e, kk, p, t - 1);
        lemma_min_from(row(e, kk, t - 1), p[t], kk, kk + 1);
        assert(row(e, kk, t - 1)[p[t - 1]] + trans(p[t - 1], p[t], kk) >= min_from(row(e, kk, t - 1), p[t], kk, kk + 1));
    }
}

/// The decoded path reaches each of its states at the cheapest cost.
proof fn lemma_path_attains_row(e: Seq<Seq<u64>>, kk: int, t: int)
    requires
        emissions_ok(e, kk),
        0 <= t < e.len(),
    ensures
        0 <= path_state(e, kk, e.len() as int, t) <= kk,
        path_cost(e, kk, Seq::new(e.len(), |u: int| path_state(e, kk, e.len() as int, u)), t)
            == row(e, kk, t)[path_state(e, kk, e.len() as int, t)],
    decreases t,
{
    let nt = e.len() as int;
    let p = Seq::new(e.len(), |u: int| path_state(e, kk, nt, u));
    lemma_path_states(e, kk, t);
    if t > 0 {
        lemma_path_attains_row(e, kk, t - 1);
        lemma_path_states(e, kk, t - 1);
        lemma_min_from(row(e, kk, t - 1), p[t], kk, kk + 1);
    }
}

proof fn lemma_path_states(e: Seq<Seq<u64>>, kk: int, t: int)
    requires
        emissions_ok(e, kk),
        0 <= t < e.len(),
    ensures
        0 <= path_state(e, kk, e.len() as int, t) <= kk,
        t >= 1 ==> path_state(e, kk, e.len() as int, t - 1) == arg_from(
            row(e, kk, t - 1),
            path_state(e, kk, e.len() as int, t),
            kk,
            kk + 1,
        ),
    decreases e.len() - t,
{
    let nt = e.len() as int;
    lemma_row_bounds(e, kk, t);
    if t >= nt - 1 {
        lemma_end_arg(row(e, kk, nt - 1), kk + 1);
    } else {
        lemma_path_states(e, kk, t + 1);
        lemma_min_from(row(e, kk, t), path_state(e, kk, nt, t + 1), kk, kk + 1);
    }
    if t >= 1 {
        lemma_row_bounds(e, kk, t - 1);
    }
}

/// The decoded path is optimal: no state path over the same frames has a
/// lower total cost of emissions and transitions.
pub proof fn lemma_decoded_path_is_optimal(e: Seq<Seq<u64>>, kk: int, p: Seq<int>)
    requires
        emissions_ok(e, kk),
        path_ok(p, e.len() as int, kk),
    ensures
        path_ok(Seq::new(e.len(), |u: int| path_state(e, kk, e.len() as int, u)), e.len() as int, kk),
        path_cost(e, kk, Seq::new(e.len(), |u: int| path_state(e, kk, e.len() as int, u)), e.len() - 1)
            <= path_cost(e, kk, p, e.len() - 1),
{
    let nt = e.len() as int;
    let d = Seq::new(e.len(), |u: int| path_state(e, kk, nt, u));
    assert forall|t: int| 0 <= t < nt implies 0 <= #[trigger] d[t] <= kk by {
        lemma_path_states(e, kk, t);
    }
    lemma_path_attains_row(e, kk, nt - 1);
    lemma_row_is_lower_bound(e, kk, p, nt - 1);
    lemma_row_bounds(e, kk, nt - 1);
    lemma_end_arg(row(e, kk, nt - 1), kk + 1);
}

/// The contents of a table of rows.
pub open spec fn table(e: Seq<Vec<u64>>) -> Seq<Seq<u64>> {
    e.map_values(|v: Vec<u64>| v@)
}

fn trans_exec(i: usize, j: usize, kk: usize) -> (r: u64)
    requires
        i <= kk < 65536,
        j <= kk,
    ensures
        r == trans(i as int, j as int, kk as int),
{
    if i == kk && j == kk {
        0
    } else if i == kk || j == kk {
        SWITCH_COST
    } else if i <= j {
        JUMP_COST * ((j - i) as u64)
    } else {
        JUMP_COST * ((i - j) as u64)
    }
}

/// The first state of `prev` from which state `s` is cheapest to reach, and that cost.
fn best_from(prev: &Vec<u64>, s: usize, kk: usize, Ghost(pr): Ghost<Seq<int>>) -> (r: (usize, u64))
    requires
        kk < 65536,
        s <= kk,
        prev@.len() == kk + 1,
        pr.len() == kk + 1,
        forall|i: int| 0 <= i <= kk ==> #[trigger] pr[i] == prev@[i] as int,
        forall|i: int| 0 <= i <= kk ==> #[trigger] prev@[i] <= 0x4000_0000_0000_0000,
    ensures
        r.0 == arg_from(pr, s as int, kk as int, kk as int + 1),
        r.1 == min_from(pr, s as int, kk as int, kk as int + 1),
{
    let mut best: u64 = prev[0] + trans_exec(0, s, kk);
    let mut arg: usize = 0;
    let mut i: usize = 1;
    while i <= kk
        invariant
            kk < 65536,
            s <= kk,
            prev@.len() == kk + 1,
            pr.len() == kk + 1,
            forall|k: int| 0 <= k <= kk ==> #[trigger] pr[k] == prev@[k] as int,
            forall|k: int| 0 <= k <= kk ==> #[trigger] prev@[k] <= 0x4000_0000_0000_0000,
            1 <= i <= kk + 1,
            arg == arg_from(pr, s as int, kk as int, i as int),
            best == min_from(pr, s as int, kk as int, i as int),
        decreases kk + 1 - i,
    {
        proof {
            lemma_trans(i as int, s as int, kk as int);
        }
        let v: u64 = prev[i] + trans_exec(i, s, kk);
        if v < best {
            best = v;
            arg = i;
        }
        i += 1;
    }
    (arg, best)
}

/// Decodes the cheapest state path through emission costs `e` (one row of
/// `kk + 1` costs per frame; state `kk` is unvoiced).
pub fn decode(e: &Vec<Vec<u64>>, kk: usize) -> (r: Vec<usize>)
    requires
        emissions_ok(table(e@), kk as int),
    ensures
        r@.len() == e@.len(),
        forall|t: int| 0 <= t < r@.len() ==> #[trigger] r@[t] == path_state(table(e@), kk as int, e@.len() as int, t),
        forall|t: int| 0 <= t < r@.len() ==> #[trigger] r@[t] <= kk,
{
    let ghost et = table(e@);
    let nt = e.len();
    let mut prev: Vec<u64> = Vec::with_capacity(kk + 1);
    let mut s: usize = 0;
    while s <= kk
        invariant
            et == table(e@),
            emissions_ok(et, kk as int),
            nt == e@.len(),
            s <= kk + 1,
            prev@.len() == s,
            forall|k: int| 0 <= k < s ==> #[trigger] prev@[k] as int == row(et, kk as int, 0)[k],
        decreases kk + 1 - s,
    {
        assert(et[0] == e@[0]@);
        prev.push(e[0][s]);
        s += 1;
    }
    let mut back: Vec<Vec<usize>> = Vec::with_capacity(nt);
    back.push(Vec::new());
    let mut t: usize = 1;
    while t < nt
        invariant
            et == table(e@),
            emissions_ok(et, kk as int),
            nt == e@.len(),
            1 <= t <= nt,
            prev@.len() == kk + 1,
            forall|k: int| 0 <= k <= kk ==> #[trigger] prev@[k] as int == row(et, kk as int, t - 1)[k],
            back@.len() == t,
            forall|u: int| 1 <= u < t ==> (#[trigger] back@[u])@.len() == kk + 1,
            forall|u: int, k: int| 1 <= u < t && 0 <= k <= kk ==> #[trigger] back@[u]@[k] == arg_from(row(et, kk as int, u - 1), k, kk as int, kk as int + 1),
        decreases nt - t,
    {
        let ghost pr = row(et, kk as int, t - 1);
        proof {
            lemma_row_bounds(et, kk as int, t - 1);
            lemma_row_bounds(et, kk as int, t as int);
            assert((t as int) * 0x20_0000 <= 0x4000_0000_0000_0000) by (nonlinear_arith)
                requires t <= 0x200_0000_0000;
        }
        let mut cur: Vec<u64> = Vec::with_capacity(kk + 1);
        let mut bk: Vec<usize> = Vec::with_capacity(kk + 1);
        let mut s: usize = 0;
        while s <= kk
            invariant
                et == table(e@),
                emissions_ok(et, kk as int),
                nt == e@.len(),
                1 <= t < nt,
                pr == row(et, kk as int, t - 1),
                prev@.len() == kk + 1,
                forall|k: int| 0 <= k <= kk ==> #[trigger] prev@[k] as int == pr[k],
                forall|k: int| 0 <= k <= kk ==> 0 <= #[trigger] pr[k] <= (t as int) * 0x20_0000,
                forall|k: int| 0 <= k <= kk ==> 0 <= #[trigger] row(et, kk as int, t as int)[k] <= (t as int + 1) * 0x20_0000,
                (t as int) * 0x20_0000 <= 0x4000_0000_0000_0000,
                s <= kk + 1,
                cur@.len() == s,
                bk@.len() == s,
                forall|k: int| 0 <= k < s ==> #[trigger] cur@[k] as int == row(et, kk as int, t as int)[k],
                forall|k: int| 0 <= k < s ==> #[trigger] bk@[k] == arg_from(pr, k, kk as int, kk as int + 1),
            decreases kk + 1 - s,
        {
            let (a, m) = best_from(&prev, s, kk, Ghost(pr));
            assert(et[t as int] == e@[t as int]@);
            assert(row(et, kk as int, t as int)[s as int] == e@[t as int]@[s as int] + m);
            let v: u64 = m + e[t][s];
            cur.push(v);
            bk.push(a);
            s += 1;
        }
        prev = cur;
        back.push(bk);
        t += 1;
    }
    let ghost last = row(et, kk as int, nt - 1);
    proof {
        lemma_row_bounds(et, kk as int, nt - 1);
    }
    let mut end: usize = 0;
    let mut s: usize = 1;
    while s <= kk
        invariant
            prev@.len() == kk + 1,
            forall|k: int| 0 <= k <= kk ==> #[trigger] prev@[k] as int == last[k],
            kk < 65536,
            last.len() == kk + 1,
            1 <= s <= kk + 1,
            end < s,
            end == end_arg(last, s as int),
        decreases kk + 1 - s,
    {
        if prev[s] < prev[end] {
            end = s;
        }
        s += 1;
    }
    let mut path: Vec<usize> = vec![0; nt];
    path.set(nt - 1, end);
    proof {
        lemma_path_states(et, kk as int, nt - 1);
    }
    let mut t: usize = nt - 1;
    while t > 0
        invariant
            et == table(e@),
            emissions_ok(et, kk as int),
            nt == e@.len(),
            t < nt,
            path@.len() == nt,
            back@.len() == nt,
            forall|u: int| 1 <= u < nt ==> (#[trigger] back@[u])@.len() == kk + 1,
            forall|u: int, k: int| 1 <= u < nt && 0 <= k <= kk ==> #[trigger] back@[u]@[k] == arg_from(row(et, kk as int, u - 1), k, kk as int, kk as int + 1),
            forall|u: int| t <= u < nt ==> #[trigger] path@[u] == path_state(et, kk as int, nt as int, u),
            forall|u: int| t <= u < nt ==> #[trigger] path@[u] <= kk,
        decreases t,
    {
        proof {
            lemma_path_states(et, kk as int, t as int);
            lemma_path_states(et, kk as int, t as int - 1);
        }
        let p = path[t];
        let b = back[t][p];
        path.set(t - 1, b);
        t -= 1;
    }
    path
}


/// A path costs at least the emission cost of any one of its states.
pub(crate) proof fn lemma_path_cost_covers(e: Seq<Seq<u64>>, kk: int, p: Seq<int>, t: int, u: int)
    requires
        emissions_ok(e, kk),
        path_ok(p, e.len() as int, kk),
        0 <= u <= t < e.len(),
    ensures
        path_cost(e, kk, p, t) >= e[u][p[u]],
    decreases t,
{
    if t > u {
        lemma_path_cost_covers(e, kk, p, t - 1, u);
        lemma_trans(p[t - 1], p[t], kk);
    } else if t > 0 {
        lemma_path_cost_nonneg(e, kk, p, t - 1);
        lemma_trans(p[t - 1], p[t], kk);
    }
}

proof fn lemma_path_cost_nonneg(e: Seq<Seq<u64>>, kk: int, p: Seq<int>, t: int)
    requires
        emissions_ok(e, kk),
        path_ok(p, e.len() as int, kk),
        0 <= t < e.len(),
    ensures
        path_cost(e, kk, p, t) >= 0,
    decreases t,
{
    if t > 0 {
        lemma_path_cost_nonneg(e, kk, p, t - 1);
        lemma_trans(p[t - 1], p[t], kk);
    }
}

/// Staying unvoiced costs nothing where the unvoiced state is certain throughout.
pub(crate) proof fn lemma_unvoiced_path_free(e: Seq<Seq<u64>>, kk: int, t: int)
    requires
        emissions_ok(e, kk),
        0 <= t < e.len(),
        forall|u: int| 0 <= u < e.len() ==> #[trigger] e[u][kk] == 0,
    ensures
        path_cost(e, kk, Seq::new(e.len(), |u: int| kk), t) == 0,
    decreases t,
{
    if t > 0 {
        lemma_unvoiced_path_free(e, kk, t - 1);
    }
}
} // verus!
