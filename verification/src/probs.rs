//! Probability aggregation: combine the groups' configuration sets, and a
//! combinatorial weight for the unconstrained remainder, into one exact
//! mine probability per cell.

use crate::counting::lemma_count_unique;
use crate::logic::{
    board_invalid, cfg_mines, count_mines, cviews_of, find_configs, find_groups,
    find_numbers, group_local_wf, groups_wf, gviews_of, is_unclicked, lemma_mines_pfx_bound,
    lemma_numbers_wf, spec_cfgs, spec_groups, spec_numbers, vgc, views_of, Config, Group,
    GroupView, Number, NumView, SolverError,
};
use crate::utils::{Board, CellContents, Coord, Grid};
use vstd::pervasive::unreached;
use vstd::prelude::*;

verus! {

/// An exact probability, as the fraction `num / den`. The fraction is kept
/// exactly as the aggregation produced it, not reduced, so equal snapshots
/// give equal fields.
#[derive(Clone, Copy, PartialEq, Eq, Debug, Structural)]
pub struct Prob {
    pub num: u128,
    pub den: u128,
}

impl Default for Prob {
    fn default() -> (r: Self)
        ensures
            r == (Prob { num: 0, den: 1 }),
    {
        Prob { num: 0, den: 1 }
    }
}

/// The grid of per-cell probabilities the solver returns.
pub type BoardProbs = Grid<Prob>;

pub open spec fn fits_u128(x: int) -> bool {
    x < 0x100000000000000000000000000000000
}

/// Binomial coefficient, by Pascal's rule.
pub open spec fn binom(n: nat, k: nat) -> nat
    decreases n, k,
{
    if k == 0 {
        1
    } else if k > n {
        0
    } else {
        binom((n - 1) as nat, (k - 1) as nat) + binom((n - 1) as nat, k)
    }
}

/// Sum of the first `k` entries of Pascal row `n`.
pub open spec fn row_sum_upto(n: nat, k: int) -> int
    decreases k,
{
    if k <= 0 {
        0
    } else {
        row_sum_upto(n, k - 1) + binom(n, (k - 1) as nat)
    }
}

/// Sum of Pascal row `n`: the number of mine placements over `n` free cells.
pub open spec fn row_sum(n: nat) -> int {
    row_sum_upto(n, n as int + 1)
}

/// The remaining mine budget after placing `m` mines, `None` meaning no
/// budget was given.
pub open spec fn bud_minus(bud: Option<int>, m: int) -> Option<int> {
    match bud {
        None => None,
        Some(b) => Some(b - m),
    }
}

/// Weight of the remainder once every group has chosen: the number of ways
/// to place the remaining budget over `rlen` unconstrained cells.
pub open spec fn rem_weight(rlen: nat, bud: Option<int>) -> int {
    match bud {
        None => row_sum(rlen),
        Some(b) => if 0 <= b <= rlen {
            binom(rlen, b as nat) as int
        } else {
            0
        },
    }
}

/// Weight of the placements that put a mine on one fixed remainder cell.
pub open spec fn rem_cell_weight(rlen: nat, bud: Option<int>) -> int {
    if rlen == 0 {
        0
    } else {
        match bud {
            None => row_sum((rlen - 1) as nat),
            Some(b) => if 1 <= b <= rlen {
                binom((rlen - 1) as nat, (b - 1) as nat) as int
            } else {
                0
            },
        }
    }
}

/// What a weight sum counts: every surviving combination, those marking one
/// group variable as a mine, or those mining one fixed remainder cell.
pub ghost enum AggMode {
    Total,
    MineVar { gi: int, vi: int },
    RemCell,
}

/// The weight sum over all combinations of one configuration per group
/// (taken from `cs` in order) and a remainder placement, restricted by the
/// mode and the remaining budget.
pub open spec fn agg(cs: Seq<Seq<Seq<bool>>>, mode: AggMode, bud: Option<int>, rlen: nat) -> int
    decreases cs.len(), 1int, 0int,
{
    if cs.len() == 0 {
        match mode {
            AggMode::Total => rem_weight(rlen, bud),
            AggMode::RemCell => rem_cell_weight(rlen, bud),
            AggMode::MineVar { gi, vi } => 0,
        }
    } else {
        aggs(cs, mode, 0, bud, rlen)
    }
}

/// The same sum restricted to choices `j, j+1, ...` of the first group.
pub open spec fn aggs(
    cs: Seq<Seq<Seq<bool>>>,
    mode: AggMode,
    j: int,
    bud: Option<int>,
    rlen: nat,
) -> int
    decreases cs.len(), 0int, cs[0].len() - j,
{
    if cs.len() == 0 || j < 0 || j >= cs[0].len() {
        0
    } else {
        let a = cs[0][j];
        let nbud = bud_minus(bud, cfg_mines(a));
        let term = match mode {
            AggMode::Total => agg(cs.skip(1), AggMode::Total, nbud, rlen),
            AggMode::RemCell => agg(cs.skip(1), AggMode::RemCell, nbud, rlen),
            AggMode::MineVar { gi, vi } => if gi == 0 {
                if 0 <= vi < a.len() && a[vi] {
                    agg(cs.skip(1), AggMode::Total, nbud, rlen)
                } else {
                    0
                }
            } else {
                agg(cs.skip(1), AggMode::MineVar { gi: gi - 1, vi }, nbud, rlen)
            },
        };
        term + aggs(cs, mode, j + 1, bud, rlen)
    }
}

pub proof fn lemma_row_sum_upto_nonneg(n: nat, k: int)
    ensures
        0 <= row_sum_upto(n, k),
        k >= 1 ==> 1 <= row_sum_upto(n, k),
    decreases k,
{
    if k > 0 {
        lemma_row_sum_upto_nonneg(n, k - 1);
    }
}

/// Every weight sum is non-negative.
pub proof fn lemma_agg_nonneg(cs: Seq<Seq<Seq<bool>>>, mode: AggMode, bud: Option<int>, rlen: nat)
    ensures
        0 <= agg(cs, mode, bud, rlen),
    decreases cs.len(), 1int, 0int,
{
    if cs.len() == 0 {
        lemma_row_sum_upto_nonneg(rlen, rlen as int + 1);
        if rlen >= 1 {
            lemma_row_sum_upto_nonneg((rlen - 1) as nat, rlen as int);
        }
    } else {
        lemma_aggs_nonneg(cs, mode, 0, bud, rlen);
    }
}

pub proof fn lemma_aggs_nonneg(
    cs: Seq<Seq<Seq<bool>>>,
    mode: AggMode,
    j: int,
    bud: Option<int>,
    rlen: nat,
)
    ensures
        0 <= aggs(cs, mode, j, bud, rlen),
    decreases cs.len(), 0int, cs[0].len() - j,
{
    if cs.len() == 0 || j < 0 || j >= cs[0].len() {
    } else {
        let a = cs[0][j];
        let nbud = bud_minus(bud, cfg_mines(a));
        lemma_agg_nonneg(cs.skip(1), AggMode::Total, nbud, rlen);
        lemma_agg_nonneg(cs.skip(1), AggMode::RemCell, nbud, rlen);
        match mode {
            AggMode::MineVar { gi, vi } => {
                if gi != 0 {
                    lemma_agg_nonneg(cs.skip(1), AggMode::MineVar { gi: gi - 1, vi }, nbud, rlen);
                }
            },
            _ => {},
        }
        lemma_aggs_nonneg(cs, mode, j + 1, bud, rlen);
    }
}

/// Pascal's rule makes row entries monotone in the row index.
pub proof fn lemma_binom_mono(n: nat, k: nat)
    ensures
        binom(n, k) <= binom(n + 1, k),
{
}

pub proof fn lemma_binom_mono_le(m: nat, n: nat, k: nat)
    requires
        m <= n,
    ensures
        binom(m, k) <= binom(n, k),
    decreases n - m,
{
    if m < n {
        lemma_binom_mono_le(m, (n - 1) as nat, k);
        lemma_binom_mono((n - 1) as nat, k);
    }
}

pub proof fn lemma_row_sum_upto_mono(n: nat, k: int)
    ensures
        row_sum_upto(n, k) <= row_sum_upto(n + 1, k),
    decreases k,
{
    if k > 0 {
        lemma_row_sum_upto_mono(n, k - 1);
        lemma_binom_mono(n, (k - 1) as nat);
    }
}

/// A shorter Pascal row sums to no more than the next one.
pub proof fn lemma_row_sum_mono(n: nat)
    ensures
        row_sum(n) <= row_sum(n + 1),
{
    lemma_row_sum_upto_mono(n, n as int + 1);
}

/// The placements mining one fixed remainder cell are among all placements.
pub proof fn lemma_rem_cell_le(rlen: nat, bud: Option<int>)
    ensures
        rem_cell_weight(rlen, bud) <= rem_weight(rlen, bud),
{
    lemma_row_sum_upto_nonneg(rlen, rlen as int + 1);
    if rlen >= 1 {
        match bud {
            None => {
                lemma_row_sum_mono((rlen - 1) as nat);
            },
            Some(b) => {
                if 1 <= b <= rlen {
                    assert(binom(rlen, b as nat) == binom((rlen - 1) as nat, (b - 1) as nat)
                        + binom((rlen - 1) as nat, b as nat));
                }
            },
        }
    }
}

/// Restricting a weight sum never raises it above the total.
pub proof fn lemma_agg_le_total(
    cs: Seq<Seq<Seq<bool>>>,
    mode: AggMode,
    bud: Option<int>,
    rlen: nat,
)
    ensures
        agg(cs, mode, bud, rlen) <= agg(cs, AggMode::Total, bud, rlen),
    decreases cs.len(), 1int, 0int,
{
    if cs.len() == 0 {
        lemma_rem_cell_le(rlen, bud);
        lemma_row_sum_upto_nonneg(rlen, rlen as int + 1);
    } else {
        lemma_aggs_le_total(cs, mode, 0, bud, rlen);
    }
}

pub proof fn lemma_aggs_le_total(
    cs: Seq<Seq<Seq<bool>>>,
    mode: AggMode,
    j: int,
    bud: Option<int>,
    rlen: nat,
)
    ensures
        aggs(cs, mode, j, bud, rlen) <= aggs(cs, AggMode::Total, j, bud, rlen),
    decreases cs.len(), 0int, cs[0].len() - j,
{
    if cs.len() == 0 || j < 0 || j >= cs[0].len() {
    } else {
        let a = cs[0][j];
        let nbud = bud_minus(bud, cfg_mines(a));
        lemma_agg_nonneg(cs.skip(1), AggMode::Total, nbud, rlen);
        match mode {
            AggMode::Total => {},
            AggMode::RemCell => {
                lemma_agg_le_total(cs.skip(1), AggMode::RemCell, nbud, rlen);
            },
            AggMode::MineVar { gi, vi } => {
                if gi != 0 {
                    lemma_agg_le_total(cs.skip(1), AggMode::MineVar { gi: gi - 1, vi }, nbud, rlen);
                }
            },
        }
        lemma_aggs_le_total(cs, mode, j + 1, bud, rlen);
    }
}

/// With a negative remaining budget no placement survives.
pub proof fn lemma_agg_neg_bud(cs: Seq<Seq<Seq<bool>>>, mode: AggMode, b: int, rlen: nat)
    requires
        b < 0,
    ensures
        agg(cs, mode, Some(b), rlen) == 0,
    decreases cs.len(), 1int, 0int,
{
    if cs.len() > 0 {
        lemma_aggs_neg_bud(cs, mode, 0, b, rlen);
    }
}

pub proof fn lemma_aggs_neg_bud(cs: Seq<Seq<Seq<bool>>>, mode: AggMode, j: int, b: int, rlen: nat)
    requires
        b < 0,
    ensures
        aggs(cs, mode, j, Some(b), rlen) == 0,
    decreases cs.len(), 0int, cs[0].len() - j,
{
    if cs.len() == 0 || j < 0 || j >= cs[0].len() {
    } else {
        let a = cs[0][j];
        lemma_mines_pfx_bound(a, a.len() as int);
        lemma_agg_neg_bud(cs.skip(1), AggMode::Total, b - cfg_mines(a), rlen);
        lemma_agg_neg_bud(cs.skip(1), AggMode::RemCell, b - cfg_mines(a), rlen);
        match mode {
            AggMode::MineVar { gi, vi } => {
                if gi != 0 {
                    lemma_agg_neg_bud(
                        cs.skip(1),
                        AggMode::MineVar { gi: gi - 1, vi },
                        b - cfg_mines(a),
                        rlen,
                    );
                }
            },
            _ => {},
        }
        lemma_aggs_neg_bud(cs, mode, j + 1, b, rlen);
    }
}

/// Without a budget, nonempty configuration sets always leave at least one
/// surviving combination.
pub proof fn lemma_agg_total_none_pos(cs: Seq<Seq<Seq<bool>>>, rlen: nat)
    requires
        forall|gi: int| 0 <= gi < cs.len() ==> (#[trigger] cs[gi]).len() >= 1,
    ensures
        agg(cs, AggMode::Total, None, rlen) >= 1,
    decreases cs.len(),
{
    if cs.len() == 0 {
        lemma_row_sum_upto_nonneg(rlen, rlen as int + 1);
    } else {
        let a = cs[0][0];
        assert(cs[0].len() >= 1);
        assert forall|gi: int| 0 <= gi < cs.skip(1).len()
            implies (#[trigger] cs.skip(1)[gi]).len() >= 1 by {
            assert(cs.skip(1)[gi] == cs[gi + 1]);
        }
        lemma_agg_total_none_pos(cs.skip(1), rlen);
        lemma_aggs_nonneg(cs, AggMode::Total, 1, None, rlen);
    }
}

/// Every entry of Pascal row `n` fits the solver's integers.
pub open spec fn binom_fits(n: nat) -> bool {
    forall|k: nat| k <= n ==> fits_u128(#[trigger] binom(n, k) as int)
}

/// The weight sums of this aggregation stay within the solver's integers.
pub open spec fn agg_fits(cs: Seq<Seq<Seq<bool>>>, bud: Option<int>, rlen: nat) -> bool {
    &&& binom_fits(rlen)
    &&& (bud is None ==> fits_u128(row_sum(rlen)))
    &&& fits_u128(agg(cs, AggMode::Total, bud, rlen))
}

/// Sum of the first `k` entries of a sequence of machine integers.
pub open spec fn useq_sum(s: Seq<u128>, k: int) -> int
    decreases k,
{
    if k <= 0 {
        0
    } else {
        useq_sum(s, k - 1) + s[k - 1]
    }
}

proof fn lemma_useq_sum_mono(s: Seq<u128>, k1: int, k2: int)
    requires
        0 <= k1 <= k2,
    ensures
        useq_sum(s, k1) <= useq_sum(s, k2),
    decreases k2 - k1,
{
    if k1 < k2 {
        lemma_useq_sum_mono(s, k1, k2 - 1);
    }
}

proof fn lemma_useq_row_sum(s: Seq<u128>, n: nat, k: int)
    requires
        0 <= k <= s.len(),
        forall|t: int| 0 <= t < k ==> s[t] == binom(n, t as nat),
    ensures
        useq_sum(s, k) == row_sum_upto(n, k),
    decreases k,
{
    if k > 0 {
        lemma_useq_row_sum(s, n, k - 1);
    }
}

/// Add up a whole row, reporting whether the sum still fits.
fn sum_u128s(v: &Vec<u128>) -> (r: Option<u128>)
    ensures
        match r {
            Some(x) => x as int == useq_sum(v@, v@.len() as int),
            None => !fits_u128(useq_sum(v@, v@.len() as int)),
        },
{
    let mut acc: u128 = 0;
    let mut k: usize = 0;
    while k < v.len()
        invariant
            k <= v@.len(),
            acc as int == useq_sum(v@, k as int),
        decreases v@.len() - k,
    {
        let x = v[k];
        if acc > u128::MAX - x {
            proof {
                lemma_useq_sum_mono(v@, k as int + 1, v@.len() as int);
            }
            return None;
        }
        acc = acc + x;
        k = k + 1;
    }
    Some(acc)
}

/// Pascal row `n`, or `None` when one of its entries no longer fits.
fn binom_row(n: usize) -> (r: Option<Vec<u128>>)
    ensures
        match r {
            Some(v) => {
                &&& v@.len() == n as int + 1
                &&& forall|k: int| 0 <= k <= n ==> v@[k] == binom(n as nat, k as nat)
                &&& binom_fits(n as nat)
            },
            None => !binom_fits(n as nat),
        },
{
    let mut row: Vec<u128> = Vec::new();
    row.push(1);
    let mut m: usize = 0;
    while m < n
        invariant
            m <= n,
            row@.len() == m as int + 1,
            forall|k: int| 0 <= k <= m ==> row@[k] == binom(m as nat, k as nat),
        decreases n - m,
    {
        let mut new_row: Vec<u128> = Vec::new();
        new_row.push(1);
        let mut k: usize = 1;
        while k <= m
            invariant
                m < n,
                1 <= k <= m + 1,
                row@.len() == m as int + 1,
                forall|t: int| 0 <= t <= m ==> row@[t] == binom(m as nat, t as nat),
                new_row@.len() == k as int,
                forall|t: int| 0 <= t < k ==> new_row@[t] == binom(m as nat + 1, t as nat),
            decreases m + 1 - k,
        {
            let a = row[k - 1];
            let b = row[k];
            proof {
                assert(binom(m as nat + 1, k as nat)
                    == binom(m as nat, (k - 1) as nat) + binom(m as nat, k as nat));
            }
            if a > u128::MAX - b {
                proof {
                    lemma_binom_mono_le(m as nat + 1, n as nat, k as nat);
                    assert(!fits_u128(binom(n as nat, k as nat) as int));
                }
                return None;
            }
            new_row.push(a + b);
            k = k + 1;
        }
        proof {
            assert(binom(m as nat + 1, m as nat + 1)
                == binom(m as nat, m as nat) + binom(m as nat, m as nat + 1));
            assert(binom(m as nat, m as nat + 1) == 0);
        }
        new_row.push(row[m]);
        row = new_row;
        m = m + 1;
    }
    proof {
        assert forall|k: nat| k <= n as nat
            implies fits_u128(#[trigger] binom(n as nat, k) as int) by {
            assert(row@[k as int] == binom(n as nat, k));
        }
    }
    Some(row)
}

/// The configuration sets, viewed mathematically.
pub open spec fn cvs3(s: Seq<Vec<Config>>) -> Seq<Seq<Seq<bool>>> {
    s.map_values(|v: Vec<Config>| cviews_of(v@))
}

pub open spec fn budv(m: Option<u64>) -> Option<int> {
    match m {
        None => None,
        Some(x) => Some(x as int),
    }
}

/// The total weight of all combinations of the groups from `from` on,
/// with the given remaining budget.
fn agg_exec_total(
    cfgss: &Vec<Vec<Config>>,
    from: usize,
    bud: Option<u64>,
    rlen: usize,
    row: &Vec<u128>,
    rowsum: u128,
) -> (r: Option<u128>)
    requires
        from <= cfgss@.len(),
        row@.len() == rlen as int + 1,
        forall|k: int| 0 <= k <= rlen ==> row@[k] == binom(rlen as nat, k as nat),
        bud is None ==> rowsum as int == row_sum(rlen as nat),
    ensures
        match r {
            Some(x) => x as int == agg(
                cvs3(cfgss@).skip(from as int),
                AggMode::Total,
                budv(bud),
                rlen as nat,
            ),
            None => !fits_u128(
                agg(cvs3(cfgss@).skip(from as int), AggMode::Total, budv(bud), rlen as nat),
            ),
        },
    decreases cfgss@.len() - from,
{
    let ghost cs = cvs3(cfgss@).skip(from as int);
    let ghost gbud = budv(bud);
    let ghost grlen = rlen as nat;
    if from == cfgss.len() {
        proof {
            assert(cs.len() == 0);
        }
        match bud {
            None => Some(rowsum),
            Some(b) => {
                if b <= rlen as u64 {
                    Some(row[b as usize])
                } else {
                    Some(0)
                }
            },
        }
    } else {
        proof {
            assert(cvs3(cfgss@)[from as int] == cviews_of(cfgss@[from as int]@));
            assert(cs[0] == cviews_of(cfgss@[from as int]@));
        }
        let glen = cfgss[from].len();
        let mut acc: u128 = 0;
        let mut j: usize = 0;
        proof {
            lemma_aggs_nonneg(cs, AggMode::Total, 0, gbud, grlen);
        }
        while j < glen
            invariant
                from < cfgss@.len(),
                cfgss@.len() <= usize::MAX,
                row@.len() == rlen as int + 1,
                forall|k: int| 0 <= k <= rlen ==> row@[k] == binom(rlen as nat, k as nat),
                bud is None ==> rowsum as int == row_sum(rlen as nat),
                cs == cvs3(cfgss@).skip(from as int),
                gbud == budv(bud),
                grlen == rlen as nat,
                cs.len() >= 1,
                cs[0] == cviews_of(cfgss@[from as int]@),
                glen == cfgss@[from as int]@.len(),
                cs[0].len() == glen,
                j <= glen,
                acc as int + aggs(cs, AggMode::Total, j as int, gbud, grlen)
                    == aggs(cs, AggMode::Total, 0, gbud, grlen),
                acc as int <= aggs(cs, AggMode::Total, 0, gbud, grlen),
            decreases glen - j,
        {
            let cfg = &cfgss[from];
            let mc = count_mines(&cfg[j].mines);
            proof {
                assert(cs[0][j as int] == cfgss@[from as int]@[j as int]@);
            }
            let ghost nb = bud_minus(gbud, mc as int);
            let ghost term = agg(cs.skip(1), AggMode::Total, nb, grlen);
            proof {
                assert(aggs(cs, AggMode::Total, j as int, gbud, grlen)
                    == term + aggs(cs, AggMode::Total, j as int + 1, gbud, grlen));
                lemma_aggs_nonneg(cs, AggMode::Total, j as int + 1, gbud, grlen);
                lemma_agg_nonneg(cs.skip(1), AggMode::Total, nb, grlen);
                assert(cvs3(cfgss@).skip(from as int + 1) =~= cs.skip(1));
            }
            let mut term_val: u128 = 0;
            let mut skip_term = false;
            let mut nbud: Option<u64> = None;
            match bud {
                None => {},
                Some(b) => {
                    if (mc as u64) > b {
                        skip_term = true;
                    } else {
                        nbud = Some(b - (mc as u64));
                    }
                },
            }
            if skip_term {
                proof {
                    lemma_agg_neg_bud(cs.skip(1), AggMode::Total, gbud->Some_0 - mc as int, grlen);
                }
            } else {
                proof {
                    assert(budv(nbud) == nb);
                }
                match agg_exec_total(cfgss, from + 1, nbud, rlen, row, rowsum) {
                    Some(x) => {
                        term_val = x;
                    },
                    None => {
                        proof {
                            assert(aggs(cs, AggMode::Total, 0, gbud, grlen) >= term);
                        }
                        return None;
                    },
                }
            }
            if acc > u128::MAX - term_val {
                proof {
                    assert(aggs(cs, AggMode::Total, 0, gbud, grlen)
                        >= acc as int + term_val as int);
                }
                return None;
            }
            acc = acc + term_val;
            j = j + 1;
        }
        proof {
            assert(aggs(cs, AggMode::Total, glen as int, gbud, grlen) == 0);
        }
        Some(acc)
    }
}

/// The weight of the combinations whose configuration for group `gi` puts
/// a mine on that group's variable `vi`.
fn agg_exec_var(
    cfgss: &Vec<Vec<Config>>,
    from: usize,
    gi: usize,
    vi: usize,
    bud: Option<u64>,
    rlen: usize,
    row: &Vec<u128>,
    rowsum: u128,
) -> (r: Option<u128>)
    requires
        from <= gi < cfgss@.len(),
        row@.len() == rlen as int + 1,
        forall|k: int| 0 <= k <= rlen ==> row@[k] == binom(rlen as nat, k as nat),
        bud is None ==> rowsum as int == row_sum(rlen as nat),
    ensures
        match r {
            Some(x) => x as int == agg(
                cvs3(cfgss@).skip(from as int),
                AggMode::MineVar { gi: gi - from, vi: vi as int },
                budv(bud),
                rlen as nat,
            ),
            None => !fits_u128(
                agg(
                    cvs3(cfgss@).skip(from as int),
                    AggMode::MineVar { gi: gi - from, vi: vi as int },
                    budv(bud),
                    rlen as nat,
                ),
            ),
        },
    decreases cfgss@.len() - from,
{
    let n_groups: usize = cfgss.len();
    proof {
        assert(cfgss@.len() == n_groups as int);
    }
    let ghost cs = cvs3(cfgss@).skip(from as int);
    let ghost gbud = budv(bud);
    let ghost grlen = rlen as nat;
    let ghost gmode = AggMode::MineVar { gi: gi - from, vi: vi as int };
    proof {
        assert(cvs3(cfgss@)[from as int] == cviews_of(cfgss@[from as int]@));
        assert(cs[0] == cviews_of(cfgss@[from as int]@));
    }
    let glen = cfgss[from].len();
    let mut acc: u128 = 0;
    let mut j: usize = 0;
    proof {
        lemma_aggs_nonneg(cs, gmode, 0, gbud, grlen);
    }
    while j < glen
        invariant
            from <= gi < cfgss@.len(),
            cfgss@.len() <= usize::MAX,
            row@.len() == rlen as int + 1,
            forall|k: int| 0 <= k <= rlen ==> row@[k] == binom(rlen as nat, k as nat),
            bud is None ==> rowsum as int == row_sum(rlen as nat),
            cs == cvs3(cfgss@).skip(from as int),
            gbud == budv(bud),
            grlen == rlen as nat,
            gmode == (AggMode::MineVar { gi: gi - from, vi: vi as int }),
            cs.len() >= 1,
            cs[0] == cviews_of(cfgss@[from as int]@),
            glen == cfgss@[from as int]@.len(),
            cs[0].len() == glen,
            j <= glen,
            acc as int + aggs(cs, gmode, j as int, gbud, grlen)
                == aggs(cs, gmode, 0, gbud, grlen),
            acc as int <= aggs(cs, gmode, 0, gbud, grlen),
        decreases glen - j,
    {
        let cfg = &cfgss[from];
        let mc = count_mines(&cfg[j].mines);
        proof {
            assert(cs[0][j as int] == cfgss@[from as int]@[j as int]@);
        }
        let ghost a = cs[0][j as int];
        let ghost nb = bud_minus(gbud, mc as int);
        let ghost term = if gi == from {
            if 0 <= (vi as int) && (vi as int) < a.len() && a[vi as int] {
                agg(cs.skip(1), AggMode::Total, nb, grlen)
            } else {
                0
            }
        } else {
            agg(cs.skip(1), AggMode::MineVar { gi: gi - from - 1, vi: vi as int }, nb, grlen)
        };
        proof {
            assert(aggs(cs, gmode, j as int, gbud, grlen)
                == term + aggs(cs, gmode, j as int + 1, gbud, grlen));
            lemma_aggs_nonneg(cs, gmode, j as int + 1, gbud, grlen);
            lemma_agg_nonneg(cs.skip(1), AggMode::Total, nb, grlen);
            if gi != from {
                lemma_agg_nonneg(
                    cs.skip(1),
                    AggMode::MineVar { gi: gi - from - 1, vi: vi as int },
                    nb,
                    grlen,
                );
            }
            assert(cvs3(cfgss@).skip(from as int + 1) =~= cs.skip(1));
        }
        let mut term_val: u128 = 0;
        let mut skip_term = false;
        let mut nbud: Option<u64> = None;
        match bud {
            None => {},
            Some(b) => {
                if (mc as u64) > b {
                    skip_term = true;
                } else {
                    nbud = Some(b - (mc as u64));
                }
            },
        }
        if skip_term {
            proof {
                lemma_agg_neg_bud(cs.skip(1), AggMode::Total, gbud->Some_0 - mc as int, grlen);
                if gi != from {
                    lemma_agg_neg_bud(
                        cs.skip(1),
                        AggMode::MineVar { gi: gi - from - 1, vi: vi as int },
                        gbud->Some_0 - mc as int,
                        grlen,
                    );
                }
            }
        } else if gi == from {
            proof {
                assert(budv(nbud) == nb);
            }
            if vi < cfg[j].mines.len() && cfg[j].mines[vi] {
                match agg_exec_total(cfgss, from + 1, nbud, rlen, row, rowsum) {
                    Some(x) => {
                        term_val = x;
                    },
                    None => {
                        proof {
                            assert(aggs(cs, gmode, 0, gbud, grlen) >= term);
                        }
                        return None;
                    },
                }
            }
        } else {
            proof {
                assert(budv(nbud) == nb);
            }
            match agg_exec_var(cfgss, from + 1, gi, vi, nbud, rlen, row, rowsum) {
                Some(x) => {
                    term_val = x;
                },
                None => {
                    proof {
                        assert(aggs(cs, gmode, 0, gbud, grlen) >= term);
                    }
                    return None;
                },
            }
        }
        if acc > u128::MAX - term_val {
            proof {
                assert(aggs(cs, gmode, 0, gbud, grlen) >= acc as int + term_val as int);
            }
            return None;
        }
        acc = acc + term_val;
        j = j + 1;
    }
    proof {
        assert(aggs(cs, gmode, glen as int, gbud, grlen) == 0);
    }
    Some(acc)
}

/// The weight of the combinations that put a mine on one fixed cell of the
/// unconstrained remainder.
fn agg_exec_rem(
    cfgss: &Vec<Vec<Config>>,
    from: usize,
    bud: Option<u64>,
    rlen: usize,
    row1: &Vec<u128>,
    rowsum1: u128,
) -> (r: Option<u128>)
    requires
        from <= cfgss@.len(),
        rlen >= 1,
        row1@.len() == rlen as int,
        forall|k: int| 0 <= k < rlen ==> row1@[k] == binom((rlen - 1) as nat, k as nat),
        bud is None ==> rowsum1 as int == row_sum((rlen - 1) as nat),
    ensures
        match r {
            Some(x) => x as int == agg(
                cvs3(cfgss@).skip(from as int),
                AggMode::RemCell,
                budv(bud),
                rlen as nat,
            ),
            None => !fits_u128(
                agg(cvs3(cfgss@).skip(from as int), AggMode::RemCell, budv(bud), rlen as nat),
            ),
        },
    decreases cfgss@.len() - from,
{
    let ghost cs = cvs3(cfgss@).skip(from as int);
    let ghost gbud = budv(bud);
    let ghost grlen = rlen as nat;
    if from == cfgss.len() {
        proof {
            assert(cs.len() == 0);
        }
        match bud {
            None => Some(rowsum1),
            Some(b) => {
                if 1 <= b && b <= rlen as u64 {
                    Some(row1[(b - 1) as usize])
                } else {
                    Some(0)
                }
            },
        }
    } else {
        proof {
            assert(cvs3(cfgss@)[from as int] == cviews_of(cfgss@[from as int]@));
            assert(cs[0] == cviews_of(cfgss@[from as int]@));
        }
        let glen = cfgss[from].len();
        let mut acc: u128 = 0;
        let mut j: usize = 0;
        proof {
            lemma_aggs_nonneg(cs, AggMode::RemCell, 0, gbud, grlen);
        }
        while j < glen
            invariant
                from < cfgss@.len(),
                cfgss@.len() <= usize::MAX,
                rlen >= 1,
                row1@.len() == rlen as int,
                forall|k: int| 0 <= k < rlen ==> row1@[k] == binom((rlen - 1) as nat, k as nat),
                bud is None ==> rowsum1 as int == row_sum((rlen - 1) as nat),
                cs == cvs3(cfgss@).skip(from as int),
                gbud == budv(bud),
                grlen == rlen as nat,
                cs.len() >= 1,
                cs[0] == cviews_of(cfgss@[from as int]@),
                glen == cfgss@[from as int]@.len(),
                cs[0].len() == glen,
                j <= glen,
                acc as int + aggs(cs, AggMode::RemCell, j as int, gbud, grlen)
                    == aggs(cs, AggMode::RemCell, 0, gbud, grlen),
                acc as int <= aggs(cs, AggMode::RemCell, 0, gbud, grlen),
            decreases glen - j,
        {
            let cfg = &cfgss[from];
            let mc = count_mines(&cfg[j].mines);
            proof {
                assert(cs[0][j as int] == cfgss@[from as int]@[j as int]@);
            }
            let ghost nb = bud_minus(gbud, mc as int);
            let ghost term = agg(cs.skip(1), AggMode::RemCell, nb, grlen);
            proof {
                assert(aggs(cs, AggMode::RemCell, j as int, gbud, grlen)
                    == term + aggs(cs, AggMode::RemCell, j as int + 1, gbud, grlen));
                lemma_aggs_nonneg(cs, AggMode::RemCell, j as int + 1, gbud, grlen);
                lemma_agg_nonneg(cs.skip(1), AggMode::RemCell, nb, grlen);
                assert(cvs3(cfgss@).skip(from as int + 1) =~= cs.skip(1));
            }
            let mut term_val: u128 = 0;
            let mut skip_term = false;
            let mut nbud: Option<u64> = None;
            match bud {
                None => {},
                Some(b) => {
                    if (mc as u64) > b {
                        skip_term = true;
                    } else {
                        nbud = Some(b - (mc as u64));
                    }
                },
            }
            if skip_term {
                proof {
                    lemma_agg_neg_bud(cs.skip(1), AggMode::RemCell, gbud->Some_0 - mc as int, grlen);
                }
            } else {
                proof {
                    assert(budv(nbud) == nb);
                }
                match agg_exec_rem(cfgss, from + 1, nbud, rlen, row1, rowsum1) {
                    Some(x) => {
                        term_val = x;
                    },
                    None => {
                        proof {
                            assert(aggs(cs, AggMode::RemCell, 0, gbud, grlen) >= term);
                        }
                        return None;
                    },
                }
            }
            if acc > u128::MAX - term_val {
                proof {
                    assert(aggs(cs, AggMode::RemCell, 0, gbud, grlen)
                        >= acc as int + term_val as int);
                }
                return None;
            }
            acc = acc + term_val;
            j = j + 1;
        }
        proof {
            assert(aggs(cs, AggMode::RemCell, glen as int, gbud, grlen) == 0);
        }
        Some(acc)
    }
}

/// The coordinate is one of some group's variables.
pub open spec fn in_some_group(gs: Seq<GroupView>, c: Coord) -> bool {
    exists|a: int| 0 <= a < gs.len() && (#[trigger] gs[a]).vars.contains(c)
}

/// How many of the first `i` cells are unclicked and unconstrained.
pub open spec fn rem_upto(b: Board, gs: Seq<GroupView>, i: int) -> int
    decreases i,
{
    if i <= 0 {
        0
    } else {
        rem_upto(b, gs, i - 1) + if is_unclicked(b, b.coord_of(i - 1))
            && !in_some_group(gs, b.coord_of(i - 1)) {
            1int
        } else {
            0int
        }
    }
}

/// The number of cells in the unconstrained remainder.
pub open spec fn rem_count(b: Board, gs: Seq<GroupView>) -> int {
    rem_upto(b, gs, b.area())
}

proof fn lemma_rem_upto_mono(b: Board, gs: Seq<GroupView>, i1: int, i2: int)
    requires
        0 <= i1 <= i2,
    ensures
        0 <= rem_upto(b, gs, i1) <= rem_upto(b, gs, i2),
    decreases i2 - i1 + i1,
{
    if i1 == i2 {
        if i1 > 0 {
            lemma_rem_upto_mono(b, gs, i1 - 1, i1 - 1);
        }
    } else {
        lemma_rem_upto_mono(b, gs, i1, i2 - 1);
    }
}

/// The group and variable index a constrained coordinate belongs to.
fn find_var(groups: &Vec<Group>, c: Coord) -> (r: Option<(usize, usize)>)
    ensures
        match r {
            Some(p) => {
                &&& (p.0 as int) < groups@.len()
                &&& (p.1 as int) < gviews_of(groups@)[p.0 as int].vars.len()
                &&& gviews_of(groups@)[p.0 as int].vars[p.1 as int] == c
            },
            None => !in_some_group(gviews_of(groups@), c),
        },
{
    let ghost gs = gviews_of(groups@);
    let mut gi: usize = 0;
    while gi < groups.len()
        invariant
            gs == gviews_of(groups@),
            gi <= groups@.len(),
            forall|a: int| 0 <= a < gi ==> !(#[trigger] gs[a]).vars.contains(c),
        decreases groups@.len() - gi,
    {
        let g = &groups[gi];
        proof {
            assert(gs[gi as int] == groups@[gi as int]@);
        }
        let mut vi: usize = 0;
        while vi < g.vars.len()
            invariant
                gs == gviews_of(groups@),
                gi < groups@.len(),
                gs[gi as int] == groups@[gi as int]@,
                g.vars@ == gs[gi as int].vars,
                vi <= g.vars@.len(),
                forall|q: int| 0 <= q < vi ==> g.vars@[q] != c,
            decreases g.vars@.len() - vi,
        {
            if g.vars[vi] == c {
                return Some((gi, vi));
            }
            vi = vi + 1;
        }
        gi = gi + 1;
    }
    proof {
        if in_some_group(gs, c) {
            let a = choose|a: int| 0 <= a < gs.len() && (#[trigger] gs[a]).vars.contains(c);
            assert(!gs[a].vars.contains(c));
        }
    }
    None
}

/// The per-cell probability: the weight of the combinations that mine this
/// cell, over the total weight.
pub open spec fn spec_prob_cell(
    cs: Seq<Seq<Seq<bool>>>,
    gs: Seq<GroupView>,
    bud: Option<int>,
    rlen: nat,
    b: Board,
    i: int,
) -> Prob {
    let c = b.coord_of(i);
    let total = agg(cs, AggMode::Total, bud, rlen);
    if !is_unclicked(b, c) {
        Prob { num: 0, den: 1 }
    } else if in_some_group(gs, c) {
        let (gi, vi) = choose|gi: int, vi: int|
            0 <= gi < gs.len() && 0 <= vi < gs[gi].vars.len() && gs[gi].vars[vi] == c;
        Prob {
            num: agg(cs, AggMode::MineVar { gi, vi }, bud, rlen) as u128,
            den: total as u128,
        }
    } else {
        Prob { num: agg(cs, AggMode::RemCell, bud, rlen) as u128, den: total as u128 }
    }
}

/// Combine the groups' configuration sets and the unconstrained remainder
/// into one exact probability per cell.
#[verifier::rlimit(100)]
pub fn find_probs(
    board: &Board,
    numbers: &Vec<Number>,
    groups: &Vec<Group>,
    cfgss: &Vec<Vec<Config>>,
    mines: Option<u64>,
) -> (r: Result<BoardProbs, SolverError>)
    requires
        board.wf(),
        groups_wf(views_of(numbers@), gviews_of(groups@), numbers@.len() as int),
        cfgss@.len() == groups@.len(),
        forall|gi: int| 0 <= gi < groups@.len()
            ==> cviews_of(#[trigger] cfgss@[gi]@)
                == spec_cfgs(views_of(numbers@), gviews_of(groups@)[gi]),
        forall|gi: int| 0 <= gi < groups@.len() ==> (#[trigger] cfgss@[gi]@).len() >= 1,
    ensures
        ({
            let gs = gviews_of(groups@);
            let cs = cvs3(cfgss@);
            let rlen = rem_count(*board, gs) as nat;
            let bud = budv(mines);
            match r {
                Ok(p) => {
                    &&& agg_fits(cs, bud, rlen)
                    &&& agg(cs, AggMode::Total, bud, rlen) >= 1
                    &&& p.wf()
                    &&& p.xs() == board.xs()
                    &&& p.ys() == board.ys()
                    &&& forall|i: int| 0 <= i < board.area()
                        ==> p.contents()[i] == spec_prob_cell(cs, gs, bud, rlen, *board, i)
                },
                Err(e) => {
                    &&& (!agg_fits(cs, bud, rlen) ==> e == SolverError::TooComplex)
                    &&& (agg_fits(cs, bud, rlen) ==> {
                        &&& e == SolverError::NoValidConfiguration
                        &&& agg(cs, AggMode::Total, bud, rlen) == 0
                        &&& mines is Some
                    })
                },
            }
        }),
{
    let ghost ns = views_of(numbers@);
    let ghost gs = gviews_of(groups@);
    let ghost cs = cvs3(cfgss@);
    let ghost bud = budv(mines);
    proof {
        assert(cvs3(cfgss@).skip(0) =~= cs);
    }
    // count the unconstrained remainder
    let n = board.num_cells();
    let mut rlen: usize = 0;
    let mut i: u32 = 0;
    while i < n
        invariant
            board.wf(),
            gs == gviews_of(groups@),
            n == board.area(),
            i <= n,
            rlen == rem_upto(*board, gs, i as int),
            rlen <= i,
        decreases n - i,
    {
        let c = board.coord_from_index(i as usize);
        let mut is_rem = false;
        if let CellContents::Unclicked = *board.cell(c) {
            match find_var(groups, c) {
                None => {
                    is_rem = true;
                },
                Some((gi, _)) => {
                    proof {
                        assert(gs[gi as int].vars.contains(c));
                        assert(in_some_group(gs, c));
                    }
                },
            }
        }
        if is_rem {
            rlen = rlen + 1;
        }
        i = i + 1;
    }
    let ghost grlen = rlen as nat;
    proof {
        assert(grlen == rem_count(*board, gs) as nat);
    }
    // Pascal row for the remainder, and its sum when no budget is given
    let row = match binom_row(rlen) {
        Some(v) => v,
        None => {
            return Err(SolverError::TooComplex);
        },
    };
    let mut rowsum: u128 = 0;
    if mines.is_none() {
        match sum_u128s(&row) {
            Some(s) => {
                proof {
                    lemma_useq_row_sum(row@, grlen, rlen as int + 1);
                }
                rowsum = s;
            },
            None => {
                proof {
                    lemma_useq_row_sum(row@, grlen, rlen as int + 1);
                }
                return Err(SolverError::TooComplex);
            },
        }
    }
    // the grand total
    let total = match agg_exec_total(cfgss, 0, mines, rlen, &row, rowsum) {
        Some(t) => t,
        None => {
            return Err(SolverError::TooComplex);
        },
    };
    if total == 0 {
        match mines {
            Some(_) => {
                return Err(SolverError::NoValidConfiguration);
            },
            None => {
                proof {
                    assert forall|gi: int| 0 <= gi < cs.len()
                        implies (#[trigger] cs[gi]).len() >= 1 by {
                        assert(cs[gi] == cviews_of(cfgss@[gi]@));
                    }
                    lemma_agg_total_none_pos(cs, grlen);
                }
                return unreached();
            },
        }
    }
    // Pascal row for one fixed remainder cell
    let mut row1: Vec<u128> = Vec::new();
    let mut rowsum1: u128 = 0;
    if rlen >= 1 {
        match binom_row(rlen - 1) {
            Some(v) => {
                row1 = v;
            },
            None => {
                proof {
                    let k = choose|k: nat|
                        k <= (rlen - 1) as nat
                            && !fits_u128(#[trigger] binom((rlen - 1) as nat, k) as int);
                    lemma_binom_mono((rlen - 1) as nat, k);
                    assert(fits_u128(binom(rlen as nat, k) as int));
                }
                return unreached();
            },
        }
        if mines.is_none() {
            match sum_u128s(&row1) {
                Some(s) => {
                    proof {
                        lemma_useq_row_sum(row1@, (rlen - 1) as nat, rlen as int);
                    }
                    rowsum1 = s;
                },
                None => {
                    proof {
                        lemma_useq_row_sum(row1@, (rlen - 1) as nat, rlen as int);
                        lemma_row_sum_mono((rlen - 1) as nat);
                    }
                    return unreached();
                },
            }
        }
    }
    // fill the probability grid
    let mut probs: BoardProbs = Grid::new(board.x_size(), board.y_size());
    let mut i: u32 = 0;
    while i < n
        invariant
            board.wf(),
            ns == views_of(numbers@),
            gs == gviews_of(groups@),
            cs == cvs3(cfgss@),
            bud == budv(mines),
            groups_wf(ns, gs, numbers@.len() as int),
            cfgss@.len() == groups@.len(),
            forall|gi: int| 0 <= gi < groups@.len()
                ==> cviews_of(#[trigger] cfgss@[gi]@) == spec_cfgs(ns, gs[gi]),
            forall|gi: int| 0 <= gi < groups@.len() ==> (#[trigger] cfgss@[gi]@).len() >= 1,
            n == board.area(),
            grlen == rlen as nat,
            grlen == rem_count(*board, gs) as nat,
            row@.len() == rlen as int + 1,
            forall|k: int| 0 <= k <= rlen ==> row@[k] == binom(rlen as nat, k as nat),
            mines is None ==> rowsum as int == row_sum(rlen as nat),
            rlen >= 1 ==> row1@.len() == rlen as int,
            rlen >= 1 ==> forall|k: int| 0 <= k < rlen
                ==> row1@[k] == binom((rlen - 1) as nat, k as nat),
            rlen >= 1 && mines is None ==> rowsum1 as int == row_sum((rlen - 1) as nat),
            total as int == agg(cs, AggMode::Total, bud, grlen),
            total >= 1,
            i <= n,
            probs.wf(),
            probs.xs() == board.xs(),
            probs.ys() == board.ys(),
            forall|j: int| 0 <= j < i
                ==> probs.contents()[j] == spec_prob_cell(cs, gs, bud, grlen, *board, j),
        decreases n - i,
    {
        let c = board.coord_from_index(i as usize);
        let cc = *board.cell(c);
        let p: Prob;
        if let CellContents::Unclicked = cc {
            match find_var(groups, c) {
                Some((gi, vi)) => {
                    proof {
                        assert(gs[gi as int].vars.contains(c));
                        assert(in_some_group(gs, c));
                    }
                    let mw = match agg_exec_var(cfgss, 0, gi, vi, mines, rlen, &row, rowsum) {
                        Some(x) => x,
                        None => {
                            proof {
                                assert(cvs3(cfgss@).skip(0) =~= cs);
                                lemma_agg_le_total(
                                    cs,
                                    AggMode::MineVar { gi: gi as int, vi: vi as int },
                                    bud,
                                    grlen,
                                );
                                lemma_agg_nonneg(
                                    cs,
                                    AggMode::MineVar { gi: gi as int, vi: vi as int },
                                    bud,
                                    grlen,
                                );
                            }
                            return unreached();
                        },
                    };
                    p = Prob { num: mw, den: total };
                    proof {
                        assert(cvs3(cfgss@).skip(0) =~= cs);
                        let (sgi, svi) = choose|sgi: int, svi: int|
                            0 <= sgi < gs.len() && 0 <= svi < gs[sgi].vars.len()
                                && gs[sgi].vars[svi] == c;
                        assert(vgc(gs, c) <= 1);
                        assert((|g: GroupView| g.vars.contains(c))(gs[gi as int]));
                        assert((|g: GroupView| g.vars.contains(c))(gs[sgi]));
                        lemma_count_unique(
                            gs,
                            |g: GroupView| g.vars.contains(c),
                            gi as int,
                            sgi,
                        );
                        assert(group_local_wf(ns, gs[gi as int]));
                        assert(gs[gi as int].vars[svi] == gs[gi as int].vars[vi as int]);
                        assert(svi == vi as int);
                        assert(p == spec_prob_cell(cs, gs, bud, grlen, *board, i as int));
                    }
                },
                None => {
                    proof {
                        assert(is_unclicked(*board, c) && !in_some_group(gs, c));
                        lemma_rem_upto_mono(*board, gs, i as int + 1, board.area());
                        assert(rem_upto(*board, gs, i as int + 1)
                            >= 1 + rem_upto(*board, gs, i as int)) by {
                            assert(board.coord_of(i as int) == c);
                        }
                        lemma_rem_upto_mono(*board, gs, 0, i as int);
                    }
                    let rw = match agg_exec_rem(cfgss, 0, mines, rlen, &row1, rowsum1) {
                        Some(x) => x,
                        None => {
                            proof {
                                assert(cvs3(cfgss@).skip(0) =~= cs);
                                lemma_agg_le_total(cs, AggMode::RemCell, bud, grlen);
                                lemma_agg_nonneg(cs, AggMode::RemCell, bud, grlen);
                            }
                            return unreached();
                        },
                    };
                    p = Prob { num: rw, den: total };
                    proof {
                        assert(cvs3(cfgss@).skip(0) =~= cs);
                    }
                },
            }
        } else {
            p = Prob { num: 0, den: 1 };
        }
        probs.set_cell(c, p);
        proof {
            board.lemma_coord_of_idx(i as int);
            assert(probs.contents()[i as int] == p);
            assert(p == spec_prob_cell(cs, gs, bud, grlen, *board, i as int));
        }
        i = i + 1;
    }
    proof {
        assert forall|k: nat| k <= grlen
            implies fits_u128(#[trigger] binom(grlen, k) as int) by {
            assert(row@[k as int] == binom(grlen, k));
        }
    }
    Ok(probs)
}

/// The configuration sets of all groups, in group order.
pub open spec fn spec_cfgss(ns: Seq<NumView>, gs: Seq<GroupView>) -> Seq<Seq<Seq<bool>>> {
    Seq::new(gs.len(), |gi: int| spec_cfgs(ns, gs[gi]))
}

/// Some group admits no satisfying configuration.
pub open spec fn some_group_empty(ns: Seq<NumView>, gs: Seq<GroupView>) -> bool {
    exists|gi: int| 0 <= gi < gs.len() && spec_cfgs(ns, #[trigger] gs[gi]).len() == 0
}

/// What the solver returns: a pure function of the board snapshot and the
/// optional remaining mine budget.
pub open spec fn spec_calc_probs(b: Board, bud: Option<int>) -> Result<Seq<Prob>, SolverError> {
    let ns = spec_numbers(b);
    let gs = spec_groups(ns);
    let cs = spec_cfgss(ns, gs);
    let rlen = rem_count(b, gs) as nat;
    if board_invalid(b) {
        Err(SolverError::InvalidInput)
    } else if some_group_empty(ns, gs) {
        Err(SolverError::InconsistentBoard)
    } else if !agg_fits(cs, bud, rlen) {
        Err(SolverError::TooComplex)
    } else if agg(cs, AggMode::Total, bud, rlen) == 0 {
        Err(SolverError::NoValidConfiguration)
    } else {
        Ok(Seq::new(b.area() as nat, |i: int| spec_prob_cell(cs, gs, bud, rlen, b, i)))
    }
}

impl Grid<CellContents> {
    /// Compute the mine probability of every cell of this snapshot.
    /// With `mines` given, only placements using exactly that many hidden
    /// mines are counted; without it, every placement counts once.
    pub fn calc_probs_budget(&self, mines: Option<u64>) -> (r: Result<BoardProbs, SolverError>)
        requires
            self.wf(),
        ensures
            match r {
                Ok(p) => {
                    &&& spec_calc_probs(*self, budv(mines)) is Ok
                    &&& p.wf()
                    &&& p.xs() == self.xs()
                    &&& p.ys() == self.ys()
                    &&& p.contents() == spec_calc_probs(*self, budv(mines))->Ok_0
                },
                Err(e) => spec_calc_probs(*self, budv(mines)) == Err::<Seq<Prob>, SolverError>(
                    e,
                ),
            },
    {
        let ghost ns = spec_numbers(*self);
        let ghost gs = spec_groups(ns);
        let ghost scs = spec_cfgss(ns, gs);
        let nums = match find_numbers(self) {
            Ok(v) => v,
            Err(e) => {
                return Err(e);
            },
        };
        proof {
            lemma_numbers_wf(*self, self.area());
            assert forall|k: int| 0 <= k < nums@.len()
                implies (#[trigger] nums@[k]@).nbrs.no_duplicates() by {
                assert(views_of(nums@)[k] == nums@[k]@);
            }
        }
        let groups = find_groups(&nums);
        proof {
            assert(gviews_of(groups@) == gs);
        }
        let cfgss = match find_configs(&nums, &groups) {
            Ok(v) => v,
            Err(e) => {
                proof {
                    assert(some_group_empty(ns, gs));
                }
                return Err(e);
            },
        };
        proof {
            assert(cvs3(cfgss@) =~= scs);
            if some_group_empty(ns, gs) {
                let gi = choose|gi: int|
                    0 <= gi < gs.len() && spec_cfgs(ns, #[trigger] gs[gi]).len() == 0;
                assert(cviews_of(cfgss@[gi]@).len() >= 1);
            }
        }
        match find_probs(self, &nums, &groups, &cfgss, mines) {
            Ok(p) => {
                proof {
                    assert(spec_calc_probs(*self, budv(mines))
                        == Ok::<Seq<Prob>, SolverError>(
                        Seq::new(
                            self.area() as nat,
                            |i: int| spec_prob_cell(
                                scs,
                                gs,
                                budv(mines),
                                rem_count(*self, gs) as nat,
                                *self,
                                i,
                            ),
                        ),
                    ));
                    assert(p.contents() =~= spec_calc_probs(*self, budv(mines))->Ok_0);
                }
                Ok(p)
            },
            Err(e) => {
                Err(e)
            },
        }
    }

    /// Compute the mine probability of every cell, counting every mine
    /// placement consistent with the clues once.
    pub fn calc_probs(&self) -> (r: Result<BoardProbs, SolverError>)
        requires
            self.wf(),
        ensures
            match r {
                Ok(p) => {
                    &&& spec_calc_probs(*self, None) is Ok
                    &&& p.wf()
                    &&& p.xs() == self.xs()
                    &&& p.ys() == self.ys()
                    &&& p.contents() == spec_calc_probs(*self, None)->Ok_0
                },
                Err(e) => spec_calc_probs(*self, None) == Err::<Seq<Prob>, SolverError>(e),
            },
    {
        self.calc_probs_budget(None)
    }
}

proof fn lemma_binom_diag(n: nat)
    ensures
        binom(n, n) == 1,
        binom(n, 1) == if n == 0 { 0nat } else { n },
    decreases n,
{
    reveal_with_fuel(binom, 2);
    if n > 0 {
        lemma_binom_diag((n - 1) as nat);
    }
}

/// The absorption identity: `k * C(n, k) == n * C(n-1, k-1)`.
proof fn lemma_binom_absorb(n: nat, k: nat)
    requires
        1 <= k <= n,
    ensures
        (k as int) * (binom(n, k) as int) == (n as int) * (binom(
            (n - 1) as nat,
            (k - 1) as nat,
        ) as int),
    decreases n,
{
    reveal_with_fuel(binom, 2);
    let n1 = (n - 1) as nat;
    let k1 = (k - 1) as nat;
    let bk = binom(n, k) as int;
    let b1 = binom(n1, k1) as int;
    let b2 = binom(n1, k) as int;
    if k == 1 {
        lemma_binom_diag(n);
        lemma_binom_diag(n1);
        assert(k1 == 0);
        assert(b1 == 1);
        assert(bk == n as int);
        assert((k as int) * bk == (n as int) * b1) by (nonlinear_arith)
            requires
                k == 1,
                b1 == 1,
                bk == n as int,
        ;
    } else if k == n {
        lemma_binom_diag(n);
        lemma_binom_diag(n1);
        assert(binom(n1, n) == 0);
        assert(bk == 1 && b1 == 1);
        assert((k as int) * bk == (n as int) * b1);
    } else {
        let n2 = (n - 2) as nat;
        let k2 = (k - 2) as nat;
        let c1 = binom(n2, k2) as int;
        let c2 = binom(n2, k1) as int;
        lemma_binom_absorb(n1, k);
        lemma_binom_absorb(n1, k1);
        // k*C(n,k) = k*C(n-1,k-1) + k*C(n-1,k)
        //          = (k-1)*C(n-1,k-1) + C(n-1,k-1) + (n-1)*C(n-2,k-1)
        //          = (n-1)*C(n-2,k-2) + C(n-1,k-1) + (n-1)*C(n-2,k-1)
        //          = (n-1)*C(n-1,k-1) + C(n-1,k-1) = n*C(n-1,k-1)
        assert(bk == b1 + b2);
        assert(b1 == c1 + c2);
        assert((k as int) * b2 == (n as int - 1) * c2);
        assert((k1 as int) * b1 == (n as int - 1) * c1);
        assert((k as int) * bk == (k as int) * b1 + (k as int) * b2) by (nonlinear_arith)
            requires
                bk == b1 + b2,
        ;
        assert((k as int) * b1 == (k1 as int) * b1 + b1) by (nonlinear_arith)
            requires
                k1 as int == k as int - 1,
        ;
        assert((n as int - 1) * c1 + (n as int - 1) * c2 == (n as int - 1) * b1)
            by (nonlinear_arith)
            requires
                b1 == c1 + c2,
        ;
        assert((n as int - 1) * b1 + b1 == (n as int) * b1) by (nonlinear_arith);
        assert((k as int) * bk == (n as int) * b1);
    }
}

/// Absorption for the remainder weights: mining one of `rlen` cells, summed
/// over the cells, counts every placement once per placed mine.
proof fn lemma_rem_absorb(rlen: nat, b: int)
    ensures
        rlen * rem_cell_weight(rlen, Some(b)) == b * rem_weight(rlen, Some(b)),
{
    reveal_with_fuel(binom, 2);
    if rlen == 0 {
        if b == 0 {
            assert(rem_weight(0, Some(0)) == 1);
        }
    } else {
        if 1 <= b <= rlen {
            lemma_binom_absorb(rlen, b as nat);
            assert((b as nat) as int == b);
            assert(((b as nat) - 1) as nat == (b - 1) as nat);
            assert((rlen as int) * (binom((rlen - 1) as nat, (b - 1) as nat) as int)
                == b * (binom(rlen, b as nat) as int));
            assert(rem_cell_weight(rlen, Some(b)) == binom(
                (rlen - 1) as nat,
                (b - 1) as nat,
            ) as int);
            assert(rem_weight(rlen, Some(b)) == binom(rlen, b as nat) as int);
        }
    }
}

/// Sum of the mine weights of the first `vl` variables of group `gi`.
pub open spec fn gvw(cs: Seq<Seq<Seq<bool>>>, gi: int, vl: int, bud: Option<int>, rlen: nat) -> int
    decreases vl,
{
    if vl <= 0 {
        0
    } else {
        gvw(cs, gi, vl - 1, bud, rlen) + agg(cs, AggMode::MineVar { gi, vi: vl - 1 }, bud, rlen)
    }
}

/// Sum of the mine weights of every variable of the first `g_upto` groups,
/// `lens` giving each group's variable count.
pub open spec fn vws(
    cs: Seq<Seq<Seq<bool>>>,
    lens: Seq<int>,
    g_upto: int,
    bud: Option<int>,
    rlen: nat,
) -> int
    decreases g_upto,
{
    if g_upto <= 0 {
        0
    } else {
        vws(cs, lens, g_upto - 1, bud, rlen) + gvw(cs, g_upto - 1, lens[g_upto - 1], bud, rlen)
    }
}

/// `gvw` restricted to choices `j, j+1, ...` of the first group.
spec fn gvwj(cs: Seq<Seq<Seq<bool>>>, gi: int, vl: int, j: int, bud: Option<int>, rlen: nat) -> int
    decreases vl,
{
    if vl <= 0 {
        0
    } else {
        gvwj(cs, gi, vl - 1, j, bud, rlen) + aggs(
            cs,
            AggMode::MineVar { gi, vi: vl - 1 },
            j,
            bud,
            rlen,
        )
    }
}

/// The weights of the variables of groups `1, ..., t_upto - 1`, restricted
/// to choices `j, j+1, ...` of the first group.
spec fn restj(
    cs: Seq<Seq<Seq<bool>>>,
    lens: Seq<int>,
    t_upto: int,
    j: int,
    bud: Option<int>,
    rlen: nat,
) -> int
    decreases t_upto,
{
    if t_upto <= 1 {
        0
    } else {
        restj(cs, lens, t_upto - 1, j, bud, rlen) + gvwj(cs, t_upto - 1, lens[t_upto - 1], j, bud, rlen)
    }
}

proof fn lemma_gvwj_zero(
    cs: Seq<Seq<Seq<bool>>>,
    gi: int,
    vl: int,
    j: int,
    bud: Option<int>,
    rlen: nat,
)
    requires
        cs.len() == 0 || j < 0 || j >= cs[0].len(),
    ensures
        gvwj(cs, gi, vl, j, bud, rlen) == 0,
    decreases vl,
{
    if vl > 0 {
        lemma_gvwj_zero(cs, gi, vl - 1, j, bud, rlen);
    }
}

proof fn lemma_restj_zero(
    cs: Seq<Seq<Seq<bool>>>,
    lens: Seq<int>,
    t_upto: int,
    j: int,
    bud: Option<int>,
    rlen: nat,
)
    requires
        cs.len() == 0 || j < 0 || j >= cs[0].len(),
    ensures
        restj(cs, lens, t_upto, j, bud, rlen) == 0,
    decreases t_upto,
{
    if t_upto > 1 {
        lemma_restj_zero(cs, lens, t_upto - 1, j, bud, rlen);
        lemma_gvwj_zero(cs, t_upto - 1, lens[t_upto - 1], j, bud, rlen);
    }
}

proof fn lemma_gvwj_step0(
    cs: Seq<Seq<Seq<bool>>>,
    vl: int,
    j: int,
    bud: Option<int>,
    rlen: nat,
)
    requires
        cs.len() >= 1,
        0 <= j < cs[0].len(),
        0 <= vl <= cs[0][j].len(),
    ensures
        gvwj(cs, 0, vl, j, bud, rlen) == crate::logic::mines_pfx(cs[0][j], vl) * agg(
            cs.skip(1),
            AggMode::Total,
            bud_minus(bud, cfg_mines(cs[0][j])),
            rlen,
        ) + gvwj(cs, 0, vl, j + 1, bud, rlen),
    decreases vl,
{
    let a = cs[0][j];
    let t = agg(cs.skip(1), AggMode::Total, bud_minus(bud, cfg_mines(a)), rlen);
    if vl > 0 {
        lemma_gvwj_step0(cs, vl - 1, j, bud, rlen);
        let m0 = crate::logic::mines_pfx(a, vl - 1);
        let d: int = if a[vl - 1] {
            1
        } else {
            0
        };
        assert(aggs(cs, AggMode::MineVar { gi: 0, vi: vl - 1 }, j, bud, rlen) == d * t + aggs(
            cs,
            AggMode::MineVar { gi: 0, vi: vl - 1 },
            j + 1,
            bud,
            rlen,
        )) by {
            if a[vl - 1] {
            } else {
            }
        }
        assert((m0 + d) * t == m0 * t + d * t) by (nonlinear_arith);
    }
}

proof fn lemma_gvwj_stepg(
    cs: Seq<Seq<Seq<bool>>>,
    gi: int,
    vl: int,
    j: int,
    bud: Option<int>,
    rlen: nat,
)
    requires
        cs.len() >= 1,
        0 <= j < cs[0].len(),
        gi >= 1,
        0 <= vl,
    ensures
        gvwj(cs, gi, vl, j, bud, rlen) == gvw(
            cs.skip(1),
            gi - 1,
            vl,
            bud_minus(bud, cfg_mines(cs[0][j])),
            rlen,
        ) + gvwj(cs, gi, vl, j + 1, bud, rlen),
    decreases vl,
{
    if vl > 0 {
        lemma_gvwj_stepg(cs, gi, vl - 1, j, bud, rlen);
    }
}

proof fn lemma_gvw_gvwj(cs: Seq<Seq<Seq<bool>>>, gi: int, vl: int, bud: Option<int>, rlen: nat)
    requires
        cs.len() >= 1,
        0 <= vl,
    ensures
        gvw(cs, gi, vl, bud, rlen) == gvwj(cs, gi, vl, 0, bud, rlen),
    decreases vl,
{
    if vl > 0 {
        lemma_gvw_gvwj(cs, gi, vl - 1, bud, rlen);
    }
}

proof fn lemma_restj_step(
    cs: Seq<Seq<Seq<bool>>>,
    lens: Seq<int>,
    t_upto: int,
    j: int,
    bud: Option<int>,
    rlen: nat,
)
    requires
        cs.len() >= 1,
        cs.len() == lens.len(),
        0 <= j < cs[0].len(),
        1 <= t_upto <= lens.len(),
        forall|t: int| 0 <= t < lens.len() ==> 0 <= #[trigger] lens[t],
    ensures
        restj(cs, lens, t_upto, j, bud, rlen) == vws(
            cs.skip(1),
            lens.skip(1),
            t_upto - 1,
            bud_minus(bud, cfg_mines(cs[0][j])),
            rlen,
        ) + restj(cs, lens, t_upto, j + 1, bud, rlen),
    decreases t_upto,
{
    if t_upto > 1 {
        lemma_restj_step(cs, lens, t_upto - 1, j, bud, rlen);
        lemma_gvwj_stepg(cs, t_upto - 1, lens[t_upto - 1], j, bud, rlen);
        assert(lens.skip(1)[t_upto - 2] == lens[t_upto - 1]);
    }
}

proof fn lemma_vws_split(
    cs: Seq<Seq<Seq<bool>>>,
    lens: Seq<int>,
    t_upto: int,
    bud: Option<int>,
    rlen: nat,
)
    requires
        cs.len() >= 1,
        cs.len() == lens.len(),
        1 <= t_upto <= lens.len(),
        forall|t: int| 0 <= t < lens.len() ==> 0 <= #[trigger] lens[t],
    ensures
        vws(cs, lens, t_upto, bud, rlen) == gvwj(cs, 0, lens[0], 0, bud, rlen) + restj(
            cs,
            lens,
            t_upto,
            0,
            bud,
            rlen,
        ),
    decreases t_upto,
{
    reveal_with_fuel(vws, 2);
    if t_upto == 1 {
        lemma_gvw_gvwj(cs, 0, lens[0], bud, rlen);
        assert(vws(cs, lens, 1, bud, rlen) == gvw(cs, 0, lens[0], bud, rlen));
        assert(restj(cs, lens, 1, 0, bud, rlen) == 0);
    } else {
        lemma_vws_split(cs, lens, t_upto - 1, bud, rlen);
        lemma_gvw_gvwj(cs, t_upto - 1, lens[t_upto - 1], bud, rlen);
        assert(vws(cs, lens, t_upto, bud, rlen) == vws(cs, lens, t_upto - 1, bud, rlen) + gvw(
            cs,
            t_upto - 1,
            lens[t_upto - 1],
            bud,
            rlen,
        ));
        assert(restj(cs, lens, t_upto, 0, bud, rlen) == restj(cs, lens, t_upto - 1, 0, bud, rlen)
            + gvwj(cs, t_upto - 1, lens[t_upto - 1], 0, bud, rlen));
    }
}

proof fn lemma_cons_suffix(
    cs: Seq<Seq<Seq<bool>>>,
    lens: Seq<int>,
    j: int,
    b: int,
    rlen: nat,
)
    requires
        cs.len() >= 1,
        cs.len() == lens.len(),
        0 <= j <= cs[0].len(),
        forall|t: int| 0 <= t < lens.len() ==> 0 <= #[trigger] lens[t],
        forall|gi: int, jj: int|
            0 <= gi < cs.len() && 0 <= jj < cs[gi].len() ==> (#[trigger] cs[gi][jj]).len()
                == lens[gi],
    ensures
        gvwj(cs, 0, lens[0], j, Some(b), rlen) + restj(cs, lens, lens.len() as int, j, Some(b), rlen)
            + rlen * aggs(cs, AggMode::RemCell, j, Some(b), rlen) == b * aggs(
            cs,
            AggMode::Total,
            j,
            Some(b),
            rlen,
        ),
    decreases cs.len(), 0int, cs[0].len() - j,
{
    if j == cs[0].len() {
        lemma_gvwj_zero(cs, 0, lens[0], j, Some(b), rlen);
        lemma_restj_zero(cs, lens, lens.len() as int, j, Some(b), rlen);
    } else {
        let a = cs[0][j];
        let m = cfg_mines(a);
        let nbud = Some(b - m);
        let t = agg(cs.skip(1), AggMode::Total, nbud, rlen);
        let rc = agg(cs.skip(1), AggMode::RemCell, nbud, rlen);
        assert(a.len() == lens[0]);
        lemma_gvwj_step0(cs, lens[0], j, Some(b), rlen);
        lemma_restj_step(cs, lens, lens.len() as int, j, Some(b), rlen);
        assert forall|gi: int, jj: int|
            0 <= gi < cs.skip(1).len() && 0 <= jj < cs.skip(1)[gi].len()
            implies (#[trigger] cs.skip(1)[gi][jj]).len() == lens.skip(1)[gi] by {
            assert(cs.skip(1)[gi] == cs[gi + 1]);
            assert(lens.skip(1)[gi] == lens[gi + 1]);
        }
        lemma_conservation(cs.skip(1), lens.skip(1), b - m, rlen);
        lemma_cons_suffix(cs, lens, j + 1, b, rlen);
        let gj1 = gvwj(cs, 0, lens[0], j + 1, Some(b), rlen);
        let rj1 = restj(cs, lens, lens.len() as int, j + 1, Some(b), rlen);
        let aj1 = aggs(cs, AggMode::RemCell, j + 1, Some(b), rlen);
        let tj1 = aggs(cs, AggMode::Total, j + 1, Some(b), rlen);
        assert(aggs(cs, AggMode::RemCell, j, Some(b), rlen) == rc + aj1);
        assert(aggs(cs, AggMode::Total, j, Some(b), rlen) == t + tj1);
        assert(vws(cs.skip(1), lens.skip(1), lens.len() as int - 1, nbud, rlen)
            + rlen * rc == (b - m) * t);
        assert(gj1 + rj1 + rlen * aj1 == b * tj1);
        assert(rlen * (rc + aj1) == rlen * rc + rlen * aj1) by (nonlinear_arith);
        assert(m * t + (b - m) * t == b * t) by (nonlinear_arith);
        assert(b * t + b * tj1 == b * (t + tj1)) by (nonlinear_arith);
    }
}

/// Conservation: with a known remaining mine budget, the mine weights of
/// every group variable and of every remainder cell together total the
/// budget times the grand total weight, so the per-cell probabilities of
/// the unclicked cells sum to exactly the budget.
pub proof fn lemma_conservation(
    cs: Seq<Seq<Seq<bool>>>,
    lens: Seq<int>,
    b: int,
    rlen: nat,
)
    requires
        cs.len() == lens.len(),
        forall|t: int| 0 <= t < lens.len() ==> 0 <= #[trigger] lens[t],
        forall|gi: int, jj: int|
            0 <= gi < cs.len() && 0 <= jj < cs[gi].len() ==> (#[trigger] cs[gi][jj]).len()
                == lens[gi],
    ensures
        vws(cs, lens, cs.len() as int, Some(b), rlen) + rlen * agg(
            cs,
            AggMode::RemCell,
            Some(b),
            rlen,
        ) == b * agg(cs, AggMode::Total, Some(b), rlen),
    decreases cs.len(), 1int, 0int,
{
    if cs.len() == 0 {
        lemma_rem_absorb(rlen, b);
    } else {
        lemma_vws_split(cs, lens, lens.len() as int, Some(b), rlen);
        lemma_cons_suffix(cs, lens, 0, b, rlen);
    }
}

/// Probability bounds: every returned probability lies between zero and
/// one, and a revealed cell's probability is exactly zero.
pub proof fn lemma_probability_bounds(
    cs: Seq<Seq<Seq<bool>>>,
    gs: Seq<GroupView>,
    bud: Option<int>,
    rlen: nat,
    b: Board,
    i: int,
)
    requires
        fits_u128(agg(cs, AggMode::Total, bud, rlen)),
        1 <= agg(cs, AggMode::Total, bud, rlen),
    ensures
        1 <= spec_prob_cell(cs, gs, bud, rlen, b, i).den,
        spec_prob_cell(cs, gs, bud, rlen, b, i).num
            <= spec_prob_cell(cs, gs, bud, rlen, b, i).den,
        !is_unclicked(b, b.coord_of(i)) ==> spec_prob_cell(cs, gs, bud, rlen, b, i).num == 0,
{
    let c = b.coord_of(i);
    if is_unclicked(b, c) {
        if in_some_group(gs, c) {
            let (gi, vi) = choose|gi: int, vi: int|
                0 <= gi < gs.len() && 0 <= vi < gs[gi].vars.len() && gs[gi].vars[vi] == c;
            lemma_agg_le_total(cs, AggMode::MineVar { gi, vi }, bud, rlen);
            lemma_agg_nonneg(cs, AggMode::MineVar { gi, vi }, bud, rlen);
        } else {
            lemma_agg_le_total(cs, AggMode::RemCell, bud, rlen);
            lemma_agg_nonneg(cs, AggMode::RemCell, bud, rlen);
        }
    }
}

/// Symmetry: any two cells of the unconstrained remainder receive the same
/// probability.
pub proof fn lemma_remainder_symmetry(
    cs: Seq<Seq<Seq<bool>>>,
    gs: Seq<GroupView>,
    bud: Option<int>,
    rlen: nat,
    b: Board,
    i: int,
    j: int,
)
    requires
        is_unclicked(b, b.coord_of(i)),
        !in_some_group(gs, b.coord_of(i)),
        is_unclicked(b, b.coord_of(j)),
        !in_some_group(gs, b.coord_of(j)),
    ensures
        spec_prob_cell(cs, gs, bud, rlen, b, i) == spec_prob_cell(cs, gs, bud, rlen, b, j),
{
}

/// Determinism: the result is pinned by the snapshot and the budget alone,
/// so any two successful computations agree cell for cell.
pub proof fn lemma_determinism(b: Board, bud: Option<int>, p1: BoardProbs, p2: BoardProbs)
    requires
        spec_calc_probs(b, bud) is Ok,
        p1.contents() == spec_calc_probs(b, bud)->Ok_0,
        p2.contents() == spec_calc_probs(b, bud)->Ok_0,
    ensures
        p1.contents() == p2.contents(),
{
}

} // verus!
