//! Constraint extraction, grouping and configuration enumeration.

use crate::counting::{
    count_where, lemma_count_append, lemma_count_nonneg, lemma_count_push,
    lemma_count_zero, lemma_nodup_push, lemma_occ_contains, lemma_occ_no_duplicates, occ,
};
use crate::utils::{Board, CellContents, Coord};
use vstd::prelude::*;

verus! {

/// Why a computation was aborted.
#[derive(Clone, Copy, PartialEq, Eq, Debug, Structural)]
pub enum SolverError {
    /// The board itself is malformed: a revealed number is smaller than the
    /// count of known mines around it.
    InvalidInput,
    /// Some group of clues admits no satisfying mine placement.
    InconsistentBoard,
    /// No combination of group configurations and remainder mines matches
    /// the given mine budget.
    NoValidConfiguration,
    /// The weight sums of this board do not fit the solver's integers.
    TooComplex,
}

/// A number on a board, reduced to a constraint: exactly `value` mines lie
/// among the unclicked neighbouring cells `nbrs`.
#[derive(Debug)]
pub struct Number {
    /// The revealed value minus the known neighbouring mines.
    pub value: u32,
    /// Coordinate of the cell the number is shown in.
    pub coord: Coord,
    /// Neighbouring unclicked cells, in row-major order.
    pub nbrs: Vec<Coord>,
}

/// The mathematical content of a `Number`.
pub ghost struct NumView {
    pub value: int,
    pub coord: Coord,
    pub nbrs: Seq<Coord>,
}

impl View for Number {
    type V = NumView;

    open spec fn view(&self) -> NumView {
        NumView { value: self.value as int, coord: self.coord, nbrs: self.nbrs@ }
    }
}

pub open spec fn views_of(ns: Seq<Number>) -> Seq<NumView> {
    ns.map_values(|n: Number| n@)
}

/// How many mines the cell at `c` is known to hold.
pub open spec fn mine_val(b: Board, c: Coord) -> int {
    match b.cell_at(c) {
        CellContents::Mine(m) => m as int,
        _ => 0,
    }
}

pub open spec fn is_unclicked(b: Board, c: Coord) -> bool {
    b.cell_at(c) == CellContents::Unclicked
}

/// Sum of the known mines at the first `j` coordinates of `s`.
pub open spec fn mines_upto(b: Board, s: Seq<Coord>, j: int) -> int
    decreases j,
{
    if j <= 0 {
        0
    } else {
        mines_upto(b, s, j - 1) + mine_val(b, s[j - 1])
    }
}

/// Sum of the known mines neighbouring `c`.
pub open spec fn nbr_mine_sum(b: Board, c: Coord) -> int {
    mines_upto(b, b.nbrs_seq(c), b.nbrs_seq(c).len() as int)
}

/// The unclicked coordinates among the first `j` of `s`, in order.
pub open spec fn vars_upto(b: Board, s: Seq<Coord>, j: int) -> Seq<Coord>
    decreases j,
{
    if j <= 0 {
        Seq::empty()
    } else {
        let p = vars_upto(b, s, j - 1);
        if is_unclicked(b, s[j - 1]) {
            p.push(s[j - 1])
        } else {
            p
        }
    }
}

/// The variables of the clue at `c`: its unclicked neighbours.
pub open spec fn constraint_vars(b: Board, c: Coord) -> Seq<Coord> {
    vars_upto(b, b.nbrs_seq(c), b.nbrs_seq(c).len() as int)
}

/// The revealed number at cell `i` is smaller than its known mines.
pub open spec fn cell_invalid(b: Board, i: int) -> bool {
    match b.contents()[i] {
        CellContents::Num(n) => (n as int) < nbr_mine_sum(b, b.coord_of(i)),
        _ => false,
    }
}

pub open spec fn board_invalid(b: Board) -> bool {
    exists|i: int| 0 <= i < b.area() && cell_invalid(b, i)
}

/// The constraint extracted from the clue at cell `i`.
pub open spec fn num_at(b: Board, i: int) -> NumView {
    NumView {
        value: match b.contents()[i] {
            CellContents::Num(n) => n - nbr_mine_sum(b, b.coord_of(i)),
            _ => 0,
        },
        coord: b.coord_of(i),
        nbrs: constraint_vars(b, b.coord_of(i)),
    }
}

/// The constraints of the clues among the first `i` cells, in row-major order.
pub open spec fn numbers_upto(b: Board, i: int) -> Seq<NumView>
    decreases i,
{
    if i <= 0 {
        Seq::empty()
    } else {
        let p = numbers_upto(b, i - 1);
        match b.contents()[i - 1] {
            CellContents::Num(n) => p.push(num_at(b, i - 1)),
            _ => p,
        }
    }
}

/// One constraint per revealed number on the board, in row-major order.
pub open spec fn spec_numbers(b: Board) -> Seq<NumView> {
    numbers_upto(b, b.area())
}

proof fn lemma_mines_upto_bound(b: Board, s: Seq<Coord>, j: int)
    requires
        0 <= j,
    ensures
        0 <= mines_upto(b, s, j) <= j * (u32::MAX as int),
    decreases j,
{
    if j > 0 {
        lemma_mines_upto_bound(b, s, j - 1);
        assert((j - 1) * (u32::MAX as int) + (u32::MAX as int) == j * (u32::MAX as int))
            by (nonlinear_arith);
    }
}

proof fn lemma_vars_upto_props(b: Board, s: Seq<Coord>, j: int)
    requires
        s.no_duplicates(),
        0 <= j <= s.len(),
    ensures
        vars_upto(b, s, j).no_duplicates(),
        vars_upto(b, s, j).len() <= j,
        forall|d: Coord| #[trigger] vars_upto(b, s, j).contains(d)
            <==> (exists|k: int| 0 <= k < j && s[k] == d) && is_unclicked(b, d),
    decreases j,
{
    if j > 0 {
        lemma_vars_upto_props(b, s, j - 1);
        let p = vars_upto(b, s, j - 1);
        let e = s[j - 1];
        if is_unclicked(b, e) {
            assert(!p.contains(e));
            assert forall|d: Coord| #[trigger] vars_upto(b, s, j).contains(d)
                implies (exists|k: int| 0 <= k < j && s[k] == d) && is_unclicked(b, d) by {
                if d != e {
                    assert(p.contains(d));
                } else {
                    assert(s[j - 1] == d);
                }
            }
            assert forall|d: Coord|
                (exists|k: int| 0 <= k < j && s[k] == d) && is_unclicked(b, d)
                implies #[trigger] vars_upto(b, s, j).contains(d) by {
                if d == e {
                    assert(vars_upto(b, s, j).last() == e);
                } else {
                    let k = choose|k: int| 0 <= k < j && s[k] == d;
                    assert(0 <= k < j - 1);
                    assert(p.contains(d));
                    let m = choose|m: int| 0 <= m < p.len() && p[m] == d;
                    assert(vars_upto(b, s, j)[m] == d);
                }
            }
        } else {
            assert forall|d: Coord|
                (exists|k: int| 0 <= k < j && s[k] == d) && is_unclicked(b, d)
                implies #[trigger] vars_upto(b, s, j).contains(d) by {
                let k = choose|k: int| 0 <= k < j && s[k] == d;
                assert(0 <= k < j - 1);
            }
        }
    }
}

/// A well-formed constraint over board `b`: a non-negative target over
/// distinct, in-bounds, unclicked variables.
pub open spec fn num_wf(b: Board, nv: NumView) -> bool {
    &&& 0 <= nv.value <= u32::MAX
    &&& nv.nbrs.no_duplicates()
    &&& forall|k: int| 0 <= k < nv.nbrs.len()
        ==> b.has(#[trigger] nv.nbrs[k]) && is_unclicked(b, nv.nbrs[k])
}

pub open spec fn nums_wf(b: Board, ns: Seq<NumView>) -> bool {
    forall|k: int| 0 <= k < ns.len() ==> num_wf(b, #[trigger] ns[k])
}

proof fn lemma_num_at_wf(b: Board, i: int)
    requires
        b.wf(),
        0 <= i < b.area(),
        b.contents()[i] is Num,
        !cell_invalid(b, i),
    ensures
        num_wf(b, num_at(b, i)),
{
    let c = b.coord_of(i);
    let s = b.nbrs_seq(c);
    b.lemma_nbrs_props(c);
    lemma_mines_upto_bound(b, s, s.len() as int);
    lemma_vars_upto_props(b, s, s.len() as int);
    assert forall|k: int| 0 <= k < num_at(b, i).nbrs.len()
        implies b.has(#[trigger] num_at(b, i).nbrs[k])
            && is_unclicked(b, num_at(b, i).nbrs[k]) by {
        let d = num_at(b, i).nbrs[k];
        assert(constraint_vars(b, c).contains(d));
        assert(s.contains(d));
    }
}

/// Every extracted constraint of a valid board is well formed.
pub proof fn lemma_numbers_wf(b: Board, i: int)
    requires
        b.wf(),
        !board_invalid(b),
        0 <= i <= b.area(),
    ensures
        nums_wf(b, numbers_upto(b, i)),
    decreases i,
{
    if i > 0 {
        lemma_numbers_wf(b, i - 1);
        if b.contents()[i - 1] is Num {
            assert(!cell_invalid(b, i - 1));
            lemma_num_at_wf(b, i - 1);
            let p = numbers_upto(b, i - 1);
            assert forall|k: int| 0 <= k < numbers_upto(b, i).len()
                implies num_wf(b, #[trigger] numbers_upto(b, i)[k]) by {
                if k < p.len() {
                    assert(numbers_upto(b, i)[k] == p[k]);
                }
            }
        }
    }
}

/// Find the numbers on a board and reduce each to a constraint over its
/// unclicked neighbours.
pub fn find_numbers(board: &Board) -> (r: Result<Vec<Number>, SolverError>)
    requires
        board.wf(),
    ensures
        match r {
            Ok(nums) => !board_invalid(*board) && views_of(nums@) == spec_numbers(*board),
            Err(e) => e == SolverError::InvalidInput && board_invalid(*board),
        },
{
    let n = board.num_cells();
    let mut nums: Vec<Number> = Vec::new();
    let mut i: u32 = 0;
    while i < n
        invariant
            board.wf(),
            n == board.area(),
            i <= n,
            views_of(nums@) == numbers_upto(*board, i as int),
            forall|k: int| 0 <= k < i ==> !cell_invalid(*board, k),
        decreases n - i,
    {
        let c = board.coord_from_index(i as usize);
        let cc = *board.cell(c);
        if let CellContents::Num(value) = cc {
            let nbrs = board.get_neighbours(c);
            let ghost nseq = board.nbrs_seq(c);
            proof {
                board.lemma_nbrs_props(c);
            }
            let mut mines: u64 = 0;
            let mut j: usize = 0;
            while j < nbrs.len()
                invariant
                    board.wf(),
                    nbrs@ == nseq,
                    forall|d: Coord| #[trigger] nseq.contains(d) ==> board.has(d),
                    j <= nbrs.len(),
                    nbrs.len() <= u32::MAX,
                    mines == mines_upto(*board, nseq, j as int),
                decreases nbrs.len() - j,
            {
                let d = nbrs[j];
                proof {
                    assert(nseq.contains(nseq[j as int]));
                    lemma_mines_upto_bound(*board, nseq, j as int);
                    assert((j as int) * (u32::MAX as int)
                        <= (u32::MAX as int) * (u32::MAX as int)) by (nonlinear_arith)
                        requires
                            0 <= j <= u32::MAX,
                    ;
                }
                if let CellContents::Mine(m) = *board.cell(d) {
                    mines = mines + (m as u64);
                }
                j = j + 1;
            }
            if (value as u64) < mines {
                proof {
                    assert(cell_invalid(*board, i as int));
                }
                return Err(SolverError::InvalidInput);
            }
            let required = value - (mines as u32);
            let mut vars: Vec<Coord> = Vec::new();
            j = 0;
            while j < nbrs.len()
                invariant
                    board.wf(),
                    nbrs@ == nseq,
                    forall|d: Coord| #[trigger] nseq.contains(d) ==> board.has(d),
                    j <= nbrs.len(),
                    vars@ == vars_upto(*board, nseq, j as int),
                decreases nbrs.len() - j,
            {
                let d = nbrs[j];
                proof {
                    assert(nseq.contains(nseq[j as int]));
                }
                if let CellContents::Unclicked = *board.cell(d) {
                    vars.push(d);
                }
                j = j + 1;
            }
            let num = Number { value: required, coord: c, nbrs: vars };
            proof {
                assert(num@ == num_at(*board, i as int));
            }
            nums.push(num);
            proof {
                assert(views_of(nums@) =~= numbers_upto(*board, i as int + 1));
            }
        }
        i = i + 1;
    }
    proof {
        if board_invalid(*board) {
            let k = choose|k: int| 0 <= k < board.area() && cell_invalid(*board, k);
            assert(!cell_invalid(*board, k));
        }
    }
    Ok(nums)
}

/// A maximal set of constraints connected by shared variables, solved jointly.
/// `nums` holds indexes into the constraint list; `vars` is the union of the
/// members' variables, without duplicates.
#[derive(Debug)]
pub struct Group {
    pub nums: Vec<usize>,
    pub vars: Vec<Coord>,
}

/// The mathematical content of a `Group`.
pub ghost struct GroupView {
    pub nums: Seq<int>,
    pub vars: Seq<Coord>,
}

pub open spec fn ids_of(s: Seq<usize>) -> Seq<int> {
    s.map_values(|x: usize| x as int)
}

impl View for Group {
    type V = GroupView;

    open spec fn view(&self) -> GroupView {
        GroupView { nums: ids_of(self.nums@), vars: self.vars@ }
    }
}

pub open spec fn gviews_of(gs: Seq<Group>) -> Seq<GroupView> {
    gs.map_values(|g: Group| g@)
}

/// Whether some element of `b` occurs in `a`.
pub open spec fn seqs_intersect(a: Seq<Coord>, b: Seq<Coord>) -> bool {
    exists|k: int| 0 <= k < b.len() && a.contains(#[trigger] b[k])
}

/// Of the first `j` groups, those whose variables do not meet `nb`, in order.
pub open spec fn merge_rest(gs: Seq<GroupView>, nb: Seq<Coord>, j: int) -> Seq<GroupView>
    decreases j,
{
    if j <= 0 {
        Seq::empty()
    } else {
        let p = merge_rest(gs, nb, j - 1);
        if seqs_intersect(gs[j - 1].vars, nb) {
            p
        } else {
            p.push(gs[j - 1])
        }
    }
}

/// The concatenated constraint ids of the first `j` groups that meet `nb`.
pub open spec fn merge_nums(gs: Seq<GroupView>, nb: Seq<Coord>, j: int) -> Seq<int>
    decreases j,
{
    if j <= 0 {
        Seq::empty()
    } else {
        let p = merge_nums(gs, nb, j - 1);
        if seqs_intersect(gs[j - 1].vars, nb) {
            p + gs[j - 1].nums
        } else {
            p
        }
    }
}

/// The concatenated variables of the first `j` groups that meet `nb`.
pub open spec fn merge_vars(gs: Seq<GroupView>, nb: Seq<Coord>, j: int) -> Seq<Coord>
    decreases j,
{
    if j <= 0 {
        Seq::empty()
    } else {
        let p = merge_vars(gs, nb, j - 1);
        if seqs_intersect(gs[j - 1].vars, nb) {
            p + gs[j - 1].vars
        } else {
            p
        }
    }
}

/// `acc` extended by the first `k` elements of `nb` that it does not yet hold.
pub open spec fn dedup_append(acc: Seq<Coord>, nb: Seq<Coord>, k: int) -> Seq<Coord>
    decreases k,
{
    if k <= 0 {
        acc
    } else {
        let p = dedup_append(acc, nb, k - 1);
        if p.contains(nb[k - 1]) {
            p
        } else {
            p.push(nb[k - 1])
        }
    }
}

/// Fold constraint `id` with variables `nb` into the groups: all groups
/// sharing a variable with `nb` merge with it into one new group.
pub open spec fn groups_step(gs: Seq<GroupView>, nb: Seq<Coord>, id: int) -> Seq<GroupView> {
    let j = gs.len() as int;
    merge_rest(gs, nb, j).push(
        GroupView {
            nums: merge_nums(gs, nb, j).push(id),
            vars: dedup_append(merge_vars(gs, nb, j), nb, nb.len() as int),
        },
    )
}

/// The groups of the first `i` constraints.
pub open spec fn groups_upto(ns: Seq<NumView>, i: int) -> Seq<GroupView>
    decreases i,
{
    if i <= 0 {
        Seq::empty()
    } else {
        groups_step(groups_upto(ns, i - 1), ns[i - 1].nbrs, i - 1)
    }
}

/// The partition of the constraints into connected groups.
pub open spec fn spec_groups(ns: Seq<NumView>) -> Seq<GroupView> {
    groups_upto(ns, ns.len() as int)
}

/// In how many of the groups the variable `d` occurs.
pub open spec fn vgc(gs: Seq<GroupView>, d: Coord) -> int {
    count_where(gs, |g: GroupView| g.vars.contains(d))
}

/// In how many of the groups the constraint id `x` occurs.
pub open spec fn ngc(gs: Seq<GroupView>, x: int) -> int {
    count_where(gs, |g: GroupView| g.nums.contains(x))
}

/// Some member constraint of `g` mentions the variable `d`.
pub open spec fn var_covered(ns: Seq<NumView>, g: GroupView, d: Coord) -> bool {
    exists|x: int| #[trigger] g.nums.contains(x) && ns[x].nbrs.contains(d)
}

/// A single well-formed group over the constraint list `ns`.
pub open spec fn group_local_wf(ns: Seq<NumView>, g: GroupView) -> bool {
    &&& g.vars.no_duplicates()
    &&& g.nums.no_duplicates()
    &&& g.nums.len() >= 1
    &&& forall|x: int| #[trigger] g.nums.contains(x) ==> 0 <= x < ns.len()
    &&& forall|x: int| #[trigger] g.nums.contains(x)
        ==> forall|k: int| 0 <= k < ns[x].nbrs.len() ==> g.vars.contains(#[trigger] ns[x].nbrs[k])
    &&& forall|k: int| 0 <= k < g.vars.len() ==> #[trigger] var_covered(ns, g, g.vars[k])
}

/// The partition invariant: every variable lies in at most one group, and
/// each of the first `i` constraints lies in exactly one group.
pub open spec fn groups_wf(ns: Seq<NumView>, gs: Seq<GroupView>, i: int) -> bool {
    &&& forall|a: int| 0 <= a < gs.len() ==> group_local_wf(ns, #[trigger] gs[a])
    &&& forall|d: Coord| #[trigger] vgc(gs, d) <= 1
    &&& forall|x: int| 0 <= x < i ==> #[trigger] ngc(gs, x) == 1
    &&& forall|x: int| !(0 <= x < i) ==> #[trigger] ngc(gs, x) == 0
}

proof fn lemma_merge_props(ns: Seq<NumView>, gs: Seq<GroupView>, nb: Seq<Coord>, j: int)
    requires
        forall|a: int| 0 <= a < gs.len() ==> group_local_wf(ns, #[trigger] gs[a]),
        forall|d: Coord| #[trigger] vgc(gs, d) <= 1,
        forall|x: int| #[trigger] ngc(gs, x) <= 1,
        0 <= j <= gs.len(),
    ensures
        forall|q: int| 0 <= q < merge_rest(gs, nb, j).len()
            ==> group_local_wf(ns, #[trigger] merge_rest(gs, nb, j)[q])
                && !seqs_intersect(merge_rest(gs, nb, j)[q].vars, nb),
        forall|d: Coord| #[trigger] vgc(gs.take(j), d)
            == vgc(merge_rest(gs, nb, j), d) + occ(merge_vars(gs, nb, j), d),
        forall|x: int| #[trigger] ngc(gs.take(j), x)
            == ngc(merge_rest(gs, nb, j), x) + occ(merge_nums(gs, nb, j), x),
        forall|x: int| #[trigger] merge_nums(gs, nb, j).contains(x)
            <==> exists|a: int| 0 <= a < j && seqs_intersect(#[trigger] gs[a].vars, nb)
                && gs[a].nums.contains(x),
        forall|d: Coord| #[trigger] merge_vars(gs, nb, j).contains(d)
            <==> exists|a: int| 0 <= a < j && seqs_intersect(#[trigger] gs[a].vars, nb)
                && gs[a].vars.contains(d),
    decreases j,
{
    if j > 0 {
        lemma_merge_props(ns, gs, nb, j - 1);
        let r0 = merge_rest(gs, nb, j - 1);
        let n0 = merge_nums(gs, nb, j - 1);
        let v0 = merge_vars(gs, nb, j - 1);
        let g = gs[j - 1];
        assert(group_local_wf(ns, g));
        assert(gs.take(j).drop_last() =~= gs.take(j - 1));
        assert(gs.take(j).last() == g);
        if seqs_intersect(g.vars, nb) {
            // the group is merged: rest unchanged, nums and vars concatenated
            assert forall|d: Coord| #[trigger] vgc(gs.take(j), d)
                == vgc(merge_rest(gs, nb, j), d) + occ(merge_vars(gs, nb, j), d) by {
                lemma_count_append(v0, g.vars, |y: Coord| y == d);
                lemma_occ_contains(g.vars, d);
                lemma_occ_no_duplicates(g.vars);
                assert(vgc(gs.take(j), d) == vgc(gs.take(j - 1), d)
                    + if g.vars.contains(d) { 1int } else { 0int }) by {
                    lemma_count_push(gs.take(j - 1), |gg: GroupView| gg.vars.contains(d), g);
                    assert(gs.take(j - 1).push(g) =~= gs.take(j));
                }
                assert(occ(g.vars, d) == if g.vars.contains(d) { 1int } else { 0int });
            }
            assert forall|x: int| #[trigger] ngc(gs.take(j), x)
                == ngc(merge_rest(gs, nb, j), x) + occ(merge_nums(gs, nb, j), x) by {
                lemma_count_append(n0, g.nums, |y: int| y == x);
                lemma_occ_contains(g.nums, x);
                lemma_occ_no_duplicates(g.nums);
                assert(ngc(gs.take(j), x) == ngc(gs.take(j - 1), x)
                    + if g.nums.contains(x) { 1int } else { 0int }) by {
                    lemma_count_push(gs.take(j - 1), |gg: GroupView| gg.nums.contains(x), g);
                    assert(gs.take(j - 1).push(g) =~= gs.take(j));
                }
                assert(occ(g.nums, x) == if g.nums.contains(x) { 1int } else { 0int });
            }
            assert forall|x: int| #[trigger] merge_nums(gs, nb, j).contains(x)
                implies exists|a: int| 0 <= a < j && seqs_intersect(#[trigger] gs[a].vars, nb)
                    && gs[a].nums.contains(x) by {
                let q = choose|q: int| 0 <= q < (n0 + g.nums).len() && (n0 + g.nums)[q] == x;
                if q < n0.len() {
                    assert(n0.contains(x));
                } else {
                    assert(g.nums[q - n0.len()] == x);
                    assert(g.nums.contains(x));
                    assert(0 <= j - 1 < j && seqs_intersect(gs[j - 1].vars, nb)
                        && gs[j - 1].nums.contains(x));
                }
            }
            assert forall|x: int|
                (exists|a: int| 0 <= a < j && seqs_intersect(#[trigger] gs[a].vars, nb)
                    && gs[a].nums.contains(x))
                implies #[trigger] merge_nums(gs, nb, j).contains(x) by {
                let a = choose|a: int| 0 <= a < j && seqs_intersect(#[trigger] gs[a].vars, nb)
                    && gs[a].nums.contains(x);
                if a < j - 1 {
                    assert(n0.contains(x));
                    let q = choose|q: int| 0 <= q < n0.len() && n0[q] == x;
                    assert((n0 + g.nums)[q] == x);
                } else {
                    let q = choose|q: int| 0 <= q < g.nums.len() && g.nums[q] == x;
                    assert((n0 + g.nums)[n0.len() + q] == x);
                }
            }
            assert forall|d: Coord| #[trigger] merge_vars(gs, nb, j).contains(d)
                implies exists|a: int| 0 <= a < j && seqs_intersect(#[trigger] gs[a].vars, nb)
                    && gs[a].vars.contains(d) by {
                let q = choose|q: int| 0 <= q < (v0 + g.vars).len() && (v0 + g.vars)[q] == d;
                if q < v0.len() {
                    assert(v0.contains(d));
                } else {
                    assert(g.vars[q - v0.len()] == d);
                    assert(g.vars.contains(d));
                    assert(0 <= j - 1 < j && seqs_intersect(gs[j - 1].vars, nb)
                        && gs[j - 1].vars.contains(d));
                }
            }
            assert forall|d: Coord|
                (exists|a: int| 0 <= a < j && seqs_intersect(#[trigger] gs[a].vars, nb)
                    && gs[a].vars.contains(d))
                implies #[trigger] merge_vars(gs, nb, j).contains(d) by {
                let a = choose|a: int| 0 <= a < j && seqs_intersect(#[trigger] gs[a].vars, nb)
                    && gs[a].vars.contains(d);
                if a < j - 1 {
                    assert(v0.contains(d));
                    let q = choose|q: int| 0 <= q < v0.len() && v0[q] == d;
                    assert((v0 + g.vars)[q] == d);
                } else {
                    let q = choose|q: int| 0 <= q < g.vars.len() && g.vars[q] == d;
                    assert((v0 + g.vars)[v0.len() + q] == d);
                }
            }
        } else {
            // the group stays apart
            assert forall|d: Coord| #[trigger] vgc(gs.take(j), d)
                == vgc(merge_rest(gs, nb, j), d) + occ(merge_vars(gs, nb, j), d) by {
                assert(vgc(gs.take(j - 1), d) == vgc(r0, d) + occ(v0, d));
                lemma_count_push(gs.take(j - 1), |gg: GroupView| gg.vars.contains(d), g);
                assert(gs.take(j - 1).push(g) =~= gs.take(j));
                lemma_count_push(r0, |gg: GroupView| gg.vars.contains(d), g);
            }
            assert forall|x: int| #[trigger] ngc(gs.take(j), x)
                == ngc(merge_rest(gs, nb, j), x) + occ(merge_nums(gs, nb, j), x) by {
                assert(ngc(gs.take(j - 1), x) == ngc(r0, x) + occ(n0, x));
                lemma_count_push(gs.take(j - 1), |gg: GroupView| gg.nums.contains(x), g);
                assert(gs.take(j - 1).push(g) =~= gs.take(j));
                lemma_count_push(r0, |gg: GroupView| gg.nums.contains(x), g);
            }
            assert forall|q: int| 0 <= q < merge_rest(gs, nb, j).len()
                implies group_local_wf(ns, #[trigger] merge_rest(gs, nb, j)[q])
                    && !seqs_intersect(merge_rest(gs, nb, j)[q].vars, nb) by {
                if q < r0.len() {
                    assert(merge_rest(gs, nb, j)[q] == r0[q]);
                }
            }
            assert forall|a: int|
                0 <= a < j && seqs_intersect(#[trigger] gs[a].vars, nb)
                implies a < j - 1 by {}
        }
    } else {
        assert(gs.take(0) =~= Seq::<GroupView>::empty());
    }
}

proof fn lemma_dedup_props(acc: Seq<Coord>, nb: Seq<Coord>, k: int)
    requires
        acc.no_duplicates(),
        0 <= k <= nb.len(),
    ensures
        dedup_append(acc, nb, k).no_duplicates(),
        forall|d: Coord| #[trigger] dedup_append(acc, nb, k).contains(d)
            <==> acc.contains(d) || (exists|q: int| 0 <= q < k && nb[q] == d),
    decreases k,
{
    if k > 0 {
        lemma_dedup_props(acc, nb, k - 1);
        let p = dedup_append(acc, nb, k - 1);
        let e = nb[k - 1];
        if !p.contains(e) {
            lemma_nodup_push(p, e);
        }
        assert forall|d: Coord| #[trigger] dedup_append(acc, nb, k).contains(d)
            implies acc.contains(d) || (exists|q: int| 0 <= q < k && nb[q] == d) by {
            if !p.contains(e) && d != e {
                let m = choose|m: int|
                    0 <= m < p.push(e).len() && p.push(e)[m] == d;
                assert(p[m] == d);
                assert(p.contains(d));
            }
        }
        assert forall|d: Coord|
            acc.contains(d) || (exists|q: int| 0 <= q < k && nb[q] == d)
            implies #[trigger] dedup_append(acc, nb, k).contains(d) by {
            if acc.contains(d) || (exists|q: int| 0 <= q < k - 1 && nb[q] == d) {
                assert(p.contains(d));
                if !p.contains(e) {
                    let m = choose|m: int| 0 <= m < p.len() && p[m] == d;
                    assert(p.push(e)[m] == d);
                }
            } else {
                assert(d == e);
                if p.contains(e) {
                } else {
                    assert(p.push(e).last() == e);
                }
            }
        }
    }
}

proof fn lemma_groups_step_wf(ns: Seq<NumView>, gs: Seq<GroupView>, i: int)
    requires
        groups_wf(ns, gs, i),
        0 <= i < ns.len(),
        ns[i].nbrs.no_duplicates(),
    ensures
        groups_wf(ns, groups_step(gs, ns[i].nbrs, i), i + 1),
{
    let nb = ns[i].nbrs;
    let j = gs.len() as int;
    assert forall|x: int| #[trigger] ngc(gs, x) <= 1 by {
        if 0 <= x < i {
        } else {
            assert(ngc(gs, x) == 0);
        }
    }
    lemma_merge_props(ns, gs, nb, j);
    let rest = merge_rest(gs, nb, j);
    let mn = merge_nums(gs, nb, j);
    let mv = merge_vars(gs, nb, j);
    assert(gs.take(j) =~= gs);
    // the merged variable pool has no duplicates
    assert forall|d: Coord| #[trigger] occ(mv, d) <= 1 by {
        assert(vgc(gs.take(j), d) == vgc(rest, d) + occ(mv, d));
        assert(vgc(gs, d) <= 1);
        lemma_occ_contains(mv, d);
        lemma_count_nonneg(rest, |gg: GroupView| gg.vars.contains(d));
    }
    lemma_occ_no_duplicates(mv);
    // the merged id pool has no duplicates and is fresh for id i
    assert forall|x: int| #[trigger] occ(mn, x) <= 1 by {
        assert(ngc(gs.take(j), x) == ngc(rest, x) + occ(mn, x));
        assert(ngc(gs, x) <= 1);
        lemma_occ_contains(mn, x);
        lemma_count_nonneg(rest, |gg: GroupView| gg.nums.contains(x));
    }
    lemma_occ_no_duplicates(mn);
    assert(ngc(gs, i) == 0);
    assert(!mn.contains(i)) by {
        if mn.contains(i) {
            assert(ngc(gs.take(j), i) == ngc(rest, i) + occ(mn, i));
            lemma_occ_contains(mn, i);
            lemma_count_nonneg(rest, |gg: GroupView| gg.nums.contains(i));
        }
    }
    lemma_nodup_push(mn, i);
    lemma_dedup_props(mv, nb, nb.len() as int);
    let ng = GroupView {
        nums: mn.push(i),
        vars: dedup_append(mv, nb, nb.len() as int),
    };
    let res = groups_step(gs, nb, i);
    assert(res == rest.push(ng));
    // local well-formedness of the new group
    assert(group_local_wf(ns, ng)) by {
        assert forall|x: int| #[trigger] ng.nums.contains(x) implies 0 <= x < ns.len() by {
            if x != i {
                let q = choose|q: int| 0 <= q < mn.push(i).len() && mn.push(i)[q] == x;
                assert(mn[q] == x);
                assert(mn.contains(x));
                let a = choose|a: int| 0 <= a < j && seqs_intersect(#[trigger] gs[a].vars, nb)
                    && gs[a].nums.contains(x);
                assert(group_local_wf(ns, gs[a]));
            }
        }
        assert forall|x: int| #[trigger] ng.nums.contains(x)
            implies forall|k: int| 0 <= k < ns[x].nbrs.len()
                ==> ng.vars.contains(#[trigger] ns[x].nbrs[k]) by {
            if x == i {
                assert forall|k: int| 0 <= k < ns[x].nbrs.len()
                    implies ng.vars.contains(#[trigger] ns[x].nbrs[k]) by {
                    assert(nb[k] == ns[x].nbrs[k]);
                }
            } else {
                let q = choose|q: int| 0 <= q < mn.push(i).len() && mn.push(i)[q] == x;
                assert(mn[q] == x);
                assert(mn.contains(x));
                let a = choose|a: int| 0 <= a < j && seqs_intersect(#[trigger] gs[a].vars, nb)
                    && gs[a].nums.contains(x);
                assert(group_local_wf(ns, gs[a]));
                assert forall|k: int| 0 <= k < ns[x].nbrs.len()
                    implies ng.vars.contains(#[trigger] ns[x].nbrs[k]) by {
                    assert(gs[a].vars.contains(ns[x].nbrs[k]));
                    assert(mv.contains(ns[x].nbrs[k]));
                }
            }
        }
        assert forall|k: int| 0 <= k < ng.vars.len()
            implies #[trigger] var_covered(ns, ng, ng.vars[k]) by {
            let d = ng.vars[k];
            assert(ng.vars.contains(d));
            if mv.contains(d) {
                let a = choose|a: int| 0 <= a < j && seqs_intersect(#[trigger] gs[a].vars, nb)
                    && gs[a].vars.contains(d);
                assert(group_local_wf(ns, gs[a]));
                let m = choose|m: int| 0 <= m < gs[a].vars.len() && gs[a].vars[m] == d;
                assert(var_covered(ns, gs[a], gs[a].vars[m]));
                let x = choose|x: int| #[trigger] gs[a].nums.contains(x)
                    && ns[x].nbrs.contains(gs[a].vars[m]);
                assert(mn.contains(x));
                let q = choose|q: int| 0 <= q < mn.len() && mn[q] == x;
                assert(mn.push(i)[q] == x);
                assert(ng.nums.contains(x) && ns[x].nbrs.contains(d));
            } else {
                let q = choose|q: int| 0 <= q < nb.len() && nb[q] == d;
                assert(nb.contains(d));
                assert(ng.nums.last() == i);
                assert(ng.nums.contains(i) && ns[i].nbrs.contains(d));
            }
        }
    }
    // every group of the result is well formed
    assert forall|a: int| 0 <= a < res.len() implies group_local_wf(ns, #[trigger] res[a]) by {
        if a < rest.len() {
            assert(res[a] == rest[a]);
        } else {
            assert(res[a] == ng);
        }
    }
    // each variable stays in at most one group
    assert forall|d: Coord| #[trigger] vgc(res, d) <= 1 by {
        assert(vgc(gs.take(j), d) == vgc(rest, d) + occ(mv, d));
        assert(vgc(gs, d) <= 1);
        lemma_count_push(rest, |gg: GroupView| gg.vars.contains(d), ng);
        lemma_occ_contains(mv, d);
        lemma_count_nonneg(rest, |gg: GroupView| gg.vars.contains(d));
        if ng.vars.contains(d) {
            if mv.contains(d) {
                assert(vgc(rest, d) == 0);
            } else {
                // the variable comes fresh from the new constraint
                let q = choose|q: int| 0 <= q < nb.len() && nb[q] == d;
                assert(vgc(rest, d) == 0) by {
                    lemma_count_zero(rest, |gg: GroupView| gg.vars.contains(d));
                    assert forall|m: int| 0 <= m < rest.len()
                        implies !(#[trigger] rest[m].vars.contains(d)) by {
                        assert(!seqs_intersect(rest[m].vars, nb));
                        assert(!rest[m].vars.contains(nb[q]));
                    }
                }
            }
        }
    }
    // each constraint id lies in exactly one group
    assert forall|x: int| 0 <= x < i + 1 implies #[trigger] ngc(res, x) == 1 by {
        assert(ngc(gs.take(j), x) == ngc(rest, x) + occ(mn, x));
        lemma_count_push(rest, |gg: GroupView| gg.nums.contains(x), ng);
        lemma_occ_contains(mn, x);
        lemma_count_nonneg(rest, |gg: GroupView| gg.nums.contains(x));
        if x == i {
            assert(ngc(gs, i) == 0);
            assert(ng.nums.last() == i);
            assert(ng.nums.contains(i));
            assert(ngc(res, x) == ngc(rest, x) + 1);
        } else {
            assert(ngc(gs, x) == 1);
            if mn.contains(x) {
                let q = choose|q: int| 0 <= q < mn.len() && mn[q] == x;
                assert(mn.push(i)[q] == x);
                assert(ng.nums.contains(x));
                assert(ngc(rest, x) == 0);
            } else {
                assert(!ng.nums.contains(x)) by {
                    if ng.nums.contains(x) {
                        let q = choose|q: int|
                            0 <= q < mn.push(i).len() && mn.push(i)[q] == x;
                        assert(mn[q] == x);
                    }
                }
                assert(occ(mn, x) == 0);
            }
        }
    }
    assert forall|x: int| !(0 <= x < i + 1) implies #[trigger] ngc(res, x) == 0 by {
        assert(ngc(gs.take(j), x) == ngc(rest, x) + occ(mn, x));
        lemma_count_push(rest, |gg: GroupView| gg.nums.contains(x), ng);
        lemma_occ_contains(mn, x);
        lemma_count_nonneg(rest, |gg: GroupView| gg.nums.contains(x));
        assert(ngc(gs, x) == 0);
        assert(!ng.nums.contains(x)) by {
            if ng.nums.contains(x) {
                let q = choose|q: int| 0 <= q < mn.push(i).len() && mn.push(i)[q] == x;
                assert(mn[q] == x);
            }
        }
    }
}

pub fn contains_coord(v: &Vec<Coord>, c: Coord) -> (r: bool)
    ensures
        r == v@.contains(c),
{
    let mut k: usize = 0;
    while k < v.len()
        invariant
            k <= v@.len(),
            forall|q: int| 0 <= q < k ==> v@[q] != c,
        decreases v@.len() - k,
    {
        if v[k] == c {
            return true;
        }
        k = k + 1;
    }
    false
}

fn vecs_intersect(a: &Vec<Coord>, b: &Vec<Coord>) -> (r: bool)
    ensures
        r == seqs_intersect(a@, b@),
{
    let mut k: usize = 0;
    while k < b.len()
        invariant
            k <= b@.len(),
            forall|q: int| 0 <= q < k ==> !a@.contains(#[trigger] b@[q]),
        decreases b@.len() - k,
    {
        if contains_coord(a, b[k]) {
            return true;
        }
        k = k + 1;
    }
    false
}

fn copy_ids(src: &Vec<usize>) -> (r: Vec<usize>)
    ensures
        r@ == src@,
{
    let mut r: Vec<usize> = Vec::new();
    let mut k: usize = 0;
    while k < src.len()
        invariant
            k <= src@.len(),
            r@ == src@.take(k as int),
        decreases src@.len() - k,
    {
        r.push(src[k]);
        proof {
            assert(r@ =~= src@.take(k as int + 1));
        }
        k = k + 1;
    }
    proof {
        assert(src@.take(src@.len() as int) =~= src@);
    }
    r
}

fn copy_coords(src: &Vec<Coord>) -> (r: Vec<Coord>)
    ensures
        r@ == src@,
{
    let mut r: Vec<Coord> = Vec::new();
    let mut k: usize = 0;
    while k < src.len()
        invariant
            k <= src@.len(),
            r@ == src@.take(k as int),
        decreases src@.len() - k,
    {
        r.push(src[k]);
        proof {
            assert(r@ =~= src@.take(k as int + 1));
        }
        k = k + 1;
    }
    proof {
        assert(src@.take(src@.len() as int) =~= src@);
    }
    r
}

fn extend_ids(dst: &mut Vec<usize>, src: &Vec<usize>)
    ensures
        final(dst)@ == old(dst)@ + src@,
{
    let mut k: usize = 0;
    while k < src.len()
        invariant
            k <= src@.len(),
            dst@ == old(dst)@ + src@.take(k as int),
        decreases src@.len() - k,
    {
        dst.push(src[k]);
        proof {
            assert(dst@ =~= old(dst)@ + src@.take(k as int + 1));
        }
        k = k + 1;
    }
    proof {
        assert(old(dst)@ + src@.take(src@.len() as int) =~= old(dst)@ + src@);
    }
}

fn extend_coords(dst: &mut Vec<Coord>, src: &Vec<Coord>)
    ensures
        final(dst)@ == old(dst)@ + src@,
{
    let mut k: usize = 0;
    while k < src.len()
        invariant
            k <= src@.len(),
            dst@ == old(dst)@ + src@.take(k as int),
        decreases src@.len() - k,
    {
        dst.push(src[k]);
        proof {
            assert(dst@ =~= old(dst)@ + src@.take(k as int + 1));
        }
        k = k + 1;
    }
    proof {
        assert(old(dst)@ + src@.take(src@.len() as int) =~= old(dst)@ + src@);
    }
}

/// Merge the constraints into groups: two constraints share a group exactly
/// when they are connected through shared variables.
pub fn find_groups(numbers: &Vec<Number>) -> (r: Vec<Group>)
    requires
        forall|k: int| 0 <= k < numbers@.len()
            ==> (#[trigger] numbers@[k]@).nbrs.no_duplicates(),
    ensures
        gviews_of(r@) == spec_groups(views_of(numbers@)),
        groups_wf(views_of(numbers@), gviews_of(r@), numbers@.len() as int),
{
    let ghost ns = views_of(numbers@);
    let mut groups: Vec<Group> = Vec::new();
    let mut i: usize = 0;
    while i < numbers.len()
        invariant
            ns == views_of(numbers@),
            forall|k: int| 0 <= k < numbers@.len()
                ==> (#[trigger] numbers@[k]@).nbrs.no_duplicates(),
            i <= numbers@.len(),
            gviews_of(groups@) == groups_upto(ns, i as int),
        decreases numbers@.len() - i,
    {
        let num = &numbers[i];
        let nb = &num.nbrs;
        proof {
            assert(ns[i as int] == numbers@[i as int]@);
            assert(nb@ == ns[i as int].nbrs);
        }
        let ghost gsv = groups_upto(ns, i as int);
        let mut rest: Vec<Group> = Vec::new();
        let mut mnums: Vec<usize> = Vec::new();
        let mut mvars: Vec<Coord> = Vec::new();
        let mut j: usize = 0;
        while j < groups.len()
            invariant
                gviews_of(groups@) == gsv,
                nb@ == ns[i as int].nbrs,
                j <= groups@.len(),
                gviews_of(rest@) == merge_rest(gsv, nb@, j as int),
                ids_of(mnums@) == merge_nums(gsv, nb@, j as int),
                mvars@ == merge_vars(gsv, nb@, j as int),
            decreases groups@.len() - j,
        {
            let g = &groups[j];
            proof {
                assert(gsv[j as int] == groups@[j as int]@);
            }
            if vecs_intersect(&g.vars, nb) {
                extend_ids(&mut mnums, &g.nums);
                extend_coords(&mut mvars, &g.vars);
                proof {
                    assert(ids_of(mnums@) =~= merge_nums(gsv, nb@, j as int + 1));
                    assert(mvars@ =~= merge_vars(gsv, nb@, j as int + 1));
                }
            } else {
                let gc = Group { nums: copy_ids(&g.nums), vars: copy_coords(&g.vars) };
                proof {
                    assert(gc@ == gsv[j as int]);
                }
                rest.push(gc);
                proof {
                    assert(gviews_of(rest@) =~= merge_rest(gsv, nb@, j as int + 1));
                }
            }
            j = j + 1;
        }
        mnums.push(i);
        proof {
            assert(ids_of(mnums@) =~= merge_nums(gsv, nb@, groups@.len() as int).push(i as int));
        }
        let ghost mv = merge_vars(gsv, nb@, groups@.len() as int);
        let mut k: usize = 0;
        while k < nb.len()
            invariant
                nb@ == ns[i as int].nbrs,
                k <= nb@.len(),
                mvars@ == dedup_append(mv, nb@, k as int),
            decreases nb@.len() - k,
        {
            let c = nb[k];
            if !contains_coord(&mvars, c) {
                mvars.push(c);
            }
            k = k + 1;
        }
        let ng = Group { nums: mnums, vars: mvars };
        rest.push(ng);
        proof {
            assert(gviews_of(rest@) =~= groups_step(gsv, ns[i as int].nbrs, i as int));
        }
        groups = rest;
        i = i + 1;
    }
    proof {
        lemma_groups_upto_wf(ns, ns.len() as int);
    }
    groups
}

/// One mine/safe assignment for a single group's variables: `mines[k]`
/// says whether the group's `k`-th variable holds a mine.
pub struct Config {
    pub mines: Vec<bool>,
}

impl View for Config {
    type V = Seq<bool>;

    open spec fn view(&self) -> Seq<bool> {
        self.mines@
    }
}

pub open spec fn cviews_of(cs: Seq<Config>) -> Seq<Seq<bool>> {
    cs.map_values(|c: Config| c@)
}

/// Mines that assignment `a` places among the first `j` group variables
/// that belong to the constraint with variables `nbrs`.
pub open spec fn constraint_mines(a: Seq<bool>, gv: Seq<Coord>, nbrs: Seq<Coord>, j: int) -> int
    decreases j,
{
    if j <= 0 {
        0
    } else {
        constraint_mines(a, gv, nbrs, j - 1) + if a[j - 1] && nbrs.contains(gv[j - 1]) {
            1int
        } else {
            0int
        }
    }
}

/// A total assignment for the group's variables that meets every member
/// constraint exactly.
pub open spec fn cfg_satisfies(ns: Seq<NumView>, g: GroupView, a: Seq<bool>) -> bool {
    &&& a.len() == g.vars.len()
    &&& forall|x: int| #[trigger] g.nums.contains(x)
        ==> constraint_mines(a, g.vars, ns[x].nbrs, g.vars.len() as int) == ns[x].value
}

/// Depth-first enumeration of all satisfying assignments extending `prefix`,
/// safe branch first.
pub open spec fn all_cfgs(ns: Seq<NumView>, g: GroupView, prefix: Seq<bool>) -> Seq<Seq<bool>>
    decreases g.vars.len() - prefix.len(),
{
    if prefix.len() >= g.vars.len() {
        if cfg_satisfies(ns, g, prefix) {
            seq![prefix]
        } else {
            Seq::empty()
        }
    } else {
        all_cfgs(ns, g, prefix.push(false)) + all_cfgs(ns, g, prefix.push(true))
    }
}

/// The configuration set of one group.
pub open spec fn spec_cfgs(ns: Seq<NumView>, g: GroupView) -> Seq<Seq<bool>> {
    all_cfgs(ns, g, Seq::empty())
}

/// The enumeration is sound and complete: it holds an assignment exactly
/// when the assignment extends the prefix and satisfies the group.
proof fn lemma_all_cfgs_iff(ns: Seq<NumView>, g: GroupView, prefix: Seq<bool>, a: Seq<bool>)
    requires
        prefix.len() <= g.vars.len(),
    ensures
        all_cfgs(ns, g, prefix).contains(a)
            <==> cfg_satisfies(ns, g, a) && a.take(prefix.len() as int) == prefix,
    decreases g.vars.len() - prefix.len(),
{
    if prefix.len() == g.vars.len() {
        if cfg_satisfies(ns, g, a) && a.take(prefix.len() as int) == prefix {
            assert(a.take(prefix.len() as int) =~= a);
            assert(all_cfgs(ns, g, prefix)[0] == prefix);
        }
        if all_cfgs(ns, g, prefix).contains(a) {
            assert(a == prefix);
            assert(a.take(prefix.len() as int) =~= a);
        }
    } else {
        let l = prefix.len() as int;
        let p0 = prefix.push(false);
        let p1 = prefix.push(true);
        lemma_all_cfgs_iff(ns, g, p0, a);
        lemma_all_cfgs_iff(ns, g, p1, a);
        let c0 = all_cfgs(ns, g, p0);
        let c1 = all_cfgs(ns, g, p1);
        if all_cfgs(ns, g, prefix).contains(a) {
            let q = choose|q: int| 0 <= q < (c0 + c1).len() && (c0 + c1)[q] == a;
            if q < c0.len() {
                assert(c0[q] == a);
                assert(c0.contains(a));
                assert(a.take(l + 1) == p0);
                assert(a.take(l) =~= a.take(l + 1).take(l));
                assert(a.take(l + 1).take(l) =~= prefix);
            } else {
                assert(c1[q - c0.len()] == a);
                assert(c1.contains(a));
                assert(a.take(l + 1) == p1);
                assert(a.take(l) =~= a.take(l + 1).take(l));
                assert(a.take(l + 1).take(l) =~= prefix);
            }
        }
        if cfg_satisfies(ns, g, a) && a.take(l) == prefix {
            assert(a.take(l) =~= prefix);
            if a[l] {
                assert(a.take(l + 1) =~= p1);
                assert(c1.contains(a));
                let q = choose|q: int| 0 <= q < c1.len() && c1[q] == a;
                assert((c0 + c1)[c0.len() + q] == a);
            } else {
                assert(a.take(l + 1) =~= p0);
                assert(c0.contains(a));
                let q = choose|q: int| 0 <= q < c0.len() && c0[q] == a;
                assert((c0 + c1)[q] == a);
            }
        }
    }
}

/// Configuration validity: every enumerated configuration of a group meets
/// every constraint of that group exactly.
pub proof fn lemma_config_validity(ns: Seq<NumView>, g: GroupView, a: Seq<bool>)
    requires
        spec_cfgs(ns, g).contains(a),
    ensures
        cfg_satisfies(ns, g, a),
{
    lemma_all_cfgs_iff(ns, g, Seq::empty(), a);
}

/// Completeness: every satisfying assignment of a group is enumerated.
pub proof fn lemma_config_completeness(ns: Seq<NumView>, g: GroupView, a: Seq<bool>)
    requires
        cfg_satisfies(ns, g, a),
    ensures
        spec_cfgs(ns, g).contains(a),
{
    assert(a.take(0) =~= Seq::<bool>::empty());
    lemma_all_cfgs_iff(ns, g, Seq::empty(), a);
}

/// Mines among the first `j` entries of an assignment.
pub open spec fn mines_pfx(a: Seq<bool>, j: int) -> int
    decreases j,
{
    if j <= 0 {
        0
    } else {
        mines_pfx(a, j - 1) + if a[j - 1] {
            1int
        } else {
            0int
        }
    }
}

/// The number of mines an assignment places.
pub open spec fn cfg_mines(a: Seq<bool>) -> int {
    mines_pfx(a, a.len() as int)
}

pub proof fn lemma_mines_pfx_bound(a: Seq<bool>, j: int)
    requires
        0 <= j,
    ensures
        0 <= mines_pfx(a, j) <= j,
    decreases j,
{
    if j > 0 {
        lemma_mines_pfx_bound(a, j - 1);
    }
}

/// How many mines a configuration places in its group.
pub fn count_mines(a: &Vec<bool>) -> (r: usize)
    ensures
        r == cfg_mines(a@),
{
    let mut count: usize = 0;
    let mut j: usize = 0;
    while j < a.len()
        invariant
            j <= a@.len(),
            count == mines_pfx(a@, j as int),
            count <= j,
        decreases a@.len() - j,
    {
        if a[j] {
            count = count + 1;
        }
        j = j + 1;
    }
    count
}

fn copy_bools(src: &Vec<bool>) -> (r: Vec<bool>)
    ensures
        r@ == src@,
{
    let mut r: Vec<bool> = Vec::new();
    let mut k: usize = 0;
    while k < src.len()
        invariant
            k <= src@.len(),
            r@ == src@.take(k as int),
        decreases src@.len() - k,
    {
        r.push(src[k]);
        proof {
            assert(r@ =~= src@.take(k as int + 1));
        }
        k = k + 1;
    }
    proof {
        assert(src@.take(src@.len() as int) =~= src@);
    }
    r
}

/// The defensive final check: does the complete assignment `a` meet every
/// constraint of the group exactly?
fn cfg_check(numbers: &Vec<Number>, g: &Group, a: &Vec<bool>) -> (r: bool)
    requires
        forall|x: int| #[trigger] g@.nums.contains(x) ==> 0 <= x < numbers@.len(),
        a@.len() == g@.vars.len(),
    ensures
        r == cfg_satisfies(views_of(numbers@), g@, a@),
{
    let ghost ns = views_of(numbers@);
    let mut t: usize = 0;
    while t < g.nums.len()
        invariant
            ns == views_of(numbers@),
            forall|x: int| #[trigger] g@.nums.contains(x) ==> 0 <= x < numbers@.len(),
            a@.len() == g@.vars.len(),
            t <= g.nums@.len(),
            forall|q: int| 0 <= q < t
                ==> constraint_mines(a@, g@.vars, ns[#[trigger] g@.nums[q]].nbrs,
                        g@.vars.len() as int) == ns[g@.nums[q]].value,
        decreases g.nums@.len() - t,
    {
        let x = g.nums[t];
        proof {
            assert(g@.nums[t as int] == x as int);
            assert(g@.nums.contains(x as int));
        }
        let num = &numbers[x];
        proof {
            assert(ns[x as int] == numbers@[x as int]@);
        }
        let mut count: usize = 0;
        let mut j: usize = 0;
        while j < g.vars.len()
            invariant
                ns == views_of(numbers@),
                x < numbers@.len(),
                ns[x as int] == numbers@[x as int]@,
                num.nbrs@ == ns[x as int].nbrs,
                a@.len() == g@.vars.len(),
                j <= g.vars@.len(),
                count == constraint_mines(a@, g@.vars, ns[x as int].nbrs, j as int),
                count <= j,
            decreases g.vars@.len() - j,
        {
            if a[j] && contains_coord(&num.nbrs, g.vars[j]) {
                count = count + 1;
            }
            j = j + 1;
        }
        if count != (num.value as usize) {
            return false;
        }
        t = t + 1;
    }
    proof {
        assert forall|x: int| #[trigger] g@.nums.contains(x)
            implies constraint_mines(a@, g@.vars, ns[x].nbrs, g@.vars.len() as int)
                == ns[x].value by {
            let q = choose|q: int| 0 <= q < g@.nums.len() && g@.nums[q] == x;
        }
    }
    true
}

/// How many of the group variables at positions `j1, ..., j2 - 1` belong to
/// the constraint with variables `nbrs`: the mines a partial assignment
/// could still place in that constraint.
pub open spec fn constraint_slots(gv: Seq<Coord>, nbrs: Seq<Coord>, j1: int, j2: int) -> int
    decreases j2 - j1,
{
    if j2 <= j1 {
        0
    } else {
        constraint_slots(gv, nbrs, j1, j2 - 1) + if nbrs.contains(gv[j2 - 1]) {
            1int
        } else {
            0int
        }
    }
}

proof fn lemma_cm_bounds(a: Seq<bool>, gv: Seq<Coord>, nbrs: Seq<Coord>, j1: int, j2: int)
    requires
        0 <= j1 <= j2,
    ensures
        constraint_mines(a, gv, nbrs, j1) <= constraint_mines(a, gv, nbrs, j2),
        constraint_mines(a, gv, nbrs, j2) <= constraint_mines(a, gv, nbrs, j1)
            + constraint_slots(gv, nbrs, j1, j2),
    decreases j2,
{
    if j2 > j1 {
        lemma_cm_bounds(a, gv, nbrs, j1, j2 - 1);
    }
}

proof fn lemma_cm_prefix(a: Seq<bool>, prefix: Seq<bool>, gv: Seq<Coord>, nbrs: Seq<Coord>, j: int)
    requires
        0 <= j <= prefix.len(),
        prefix.len() <= a.len(),
        a.take(prefix.len() as int) == prefix,
    ensures
        constraint_mines(a, gv, nbrs, j) == constraint_mines(prefix, gv, nbrs, j),
    decreases j,
{
    if j > 0 {
        lemma_cm_prefix(a, prefix, gv, nbrs, j - 1);
        assert(a.take(prefix.len() as int)[j - 1] == a[j - 1]);
    }
}

/// The pruning rule is sound: once a constraint already holds more mines
/// than required, or can no longer reach its requirement, no completion of
/// the prefix satisfies the group.
proof fn lemma_prune_sound(ns: Seq<NumView>, g: GroupView, prefix: Seq<bool>, x: int)
    requires
        prefix.len() <= g.vars.len(),
        g.nums.contains(x),
        ({
            let cm = constraint_mines(prefix, g.vars, ns[x].nbrs, prefix.len() as int);
            ||| cm > ns[x].value
            ||| cm + constraint_slots(
                g.vars,
                ns[x].nbrs,
                prefix.len() as int,
                g.vars.len() as int,
            ) < ns[x].value
        }),
    ensures
        all_cfgs(ns, g, prefix).len() == 0,
{
    if all_cfgs(ns, g, prefix).len() > 0 {
        let a = all_cfgs(ns, g, prefix)[0];
        assert(all_cfgs(ns, g, prefix).contains(a));
        lemma_all_cfgs_iff(ns, g, prefix, a);
        lemma_cm_prefix(a, prefix, g.vars, ns[x].nbrs, prefix.len() as int);
        lemma_cm_bounds(a, g.vars, ns[x].nbrs, prefix.len() as int, g.vars.len() as int);
    }
}

/// Constraint propagation: may the partial assignment `prefix` still be
/// completed? Answers `true` only when no completion satisfies the group.
fn prune_check(numbers: &Vec<Number>, g: &Group, prefix: &Vec<bool>) -> (r: bool)
    requires
        forall|x: int| #[trigger] g@.nums.contains(x) ==> 0 <= x < numbers@.len(),
        prefix@.len() <= g@.vars.len(),
    ensures
        r ==> all_cfgs(views_of(numbers@), g@, prefix@).len() == 0,
{
    let ghost ns = views_of(numbers@);
    let plen = prefix.len();
    let mut t: usize = 0;
    while t < g.nums.len()
        invariant
            ns == views_of(numbers@),
            forall|x: int| #[trigger] g@.nums.contains(x) ==> 0 <= x < numbers@.len(),
            plen == prefix@.len(),
            plen <= g@.vars.len(),
            t <= g.nums@.len(),
        decreases g.nums@.len() - t,
    {
        let x = g.nums[t];
        proof {
            assert(g@.nums[t as int] == x as int);
            assert(g@.nums.contains(x as int));
            assert(ns[x as int] == numbers@[x as int]@);
        }
        let num = &numbers[x];
        let mut cm: usize = 0;
        let mut j: usize = 0;
        while j < plen
            invariant
                ns == views_of(numbers@),
                x < numbers@.len(),
                num.nbrs@ == ns[x as int].nbrs,
                plen == prefix@.len(),
                plen <= g@.vars.len(),
                j <= plen,
                cm == constraint_mines(prefix@, g@.vars, ns[x as int].nbrs, j as int),
                cm <= j,
            decreases plen - j,
        {
            if prefix[j] && contains_coord(&num.nbrs, g.vars[j]) {
                cm = cm + 1;
            }
            j = j + 1;
        }
        let mut pot: usize = 0;
        let mut j2: usize = plen;
        while j2 < g.vars.len()
            invariant
                ns == views_of(numbers@),
                x < numbers@.len(),
                num.nbrs@ == ns[x as int].nbrs,
                plen == prefix@.len(),
                plen <= j2 <= g.vars@.len(),
                pot == constraint_slots(g@.vars, ns[x as int].nbrs, plen as int, j2 as int),
                pot <= j2 - plen,
            decreases g.vars@.len() - j2,
        {
            if contains_coord(&num.nbrs, g.vars[j2]) {
                pot = pot + 1;
            }
            j2 = j2 + 1;
        }
        if cm > num.value as usize || cm + pot < num.value as usize {
            proof {
                lemma_prune_sound(ns, g@, prefix@, x as int);
            }
            return true;
        }
        t = t + 1;
    }
    false
}

/// Enumerate every satisfying completion of `prefix`, appending them to `out`.
fn enum_rec(numbers: &Vec<Number>, g: &Group, prefix: &mut Vec<bool>, out: &mut Vec<Config>)
    requires
        forall|x: int| #[trigger] g@.nums.contains(x) ==> 0 <= x < numbers@.len(),
        old(prefix)@.len() <= g@.vars.len(),
    ensures
        final(prefix)@ == old(prefix)@,
        cviews_of(final(out)@) == cviews_of(old(out)@)
            + all_cfgs(views_of(numbers@), g@, old(prefix)@),
    decreases g@.vars.len() - old(prefix)@.len(),
{
    let ghost ns = views_of(numbers@);
    if prefix.len() == g.vars.len() {
        if cfg_check(numbers, g, prefix) {
            let c = Config { mines: copy_bools(prefix) };
            out.push(c);
            proof {
                assert(cviews_of(out@) =~= cviews_of(old(out)@)
                    + all_cfgs(ns, g@, old(prefix)@));
            }
        } else {
            proof {
                assert(cviews_of(out@) =~= cviews_of(old(out)@)
                    + all_cfgs(ns, g@, old(prefix)@));
            }
        }
    } else if prune_check(numbers, g, prefix) {
        proof {
            assert(all_cfgs(ns, g@, old(prefix)@) =~= Seq::<Seq<bool>>::empty());
            assert(cviews_of(out@) =~= cviews_of(old(out)@) + all_cfgs(ns, g@, old(prefix)@));
        }
    } else {
        let ghost p = prefix@;
        prefix.push(false);
        enum_rec(numbers, g, prefix, out);
        let ghost out1 = out@;
        let popped = prefix.pop();
        proof {
            assert(prefix@ =~= p);
        }
        prefix.push(true);
        enum_rec(numbers, g, prefix, out);
        let popped2 = prefix.pop();
        proof {
            assert(prefix@ =~= p);
            assert(cviews_of(out@) =~= cviews_of(old(out)@)
                + all_cfgs(ns, g@, old(prefix)@));
        }
    }
}

/// For each group, enumerate every configuration satisfying all of the
/// group's constraints. A group with no configuration makes the board
/// inconsistent.
pub fn find_configs(numbers: &Vec<Number>, groups: &Vec<Group>) -> (r: Result<
    Vec<Vec<Config>>,
    SolverError,
>)
    requires
        groups_wf(views_of(numbers@), gviews_of(groups@), numbers@.len() as int),
    ensures
        match r {
            Ok(cfgss) => {
                &&& cfgss@.len() == groups@.len()
                &&& forall|gi: int| 0 <= gi < groups@.len()
                    ==> cviews_of(#[trigger] cfgss@[gi]@)
                        == spec_cfgs(views_of(numbers@), gviews_of(groups@)[gi])
                &&& forall|gi: int| 0 <= gi < groups@.len()
                    ==> (#[trigger] cfgss@[gi]@).len() >= 1
            },
            Err(e) => {
                &&& e == SolverError::InconsistentBoard
                &&& exists|gi: int| 0 <= gi < groups@.len()
                    && spec_cfgs(views_of(numbers@), #[trigger] gviews_of(groups@)[gi]).len()
                        == 0
            },
        },
{
    let ghost ns = views_of(numbers@);
    let mut cfgss: Vec<Vec<Config>> = Vec::new();
    let mut gi: usize = 0;
    while gi < groups.len()
        invariant
            ns == views_of(numbers@),
            groups_wf(ns, gviews_of(groups@), numbers@.len() as int),
            gi <= groups@.len(),
            cfgss@.len() == gi,
            forall|q: int| 0 <= q < gi
                ==> cviews_of(#[trigger] cfgss@[q]@) == spec_cfgs(ns, gviews_of(groups@)[q]),
            forall|q: int| 0 <= q < gi ==> (#[trigger] cfgss@[q]@).len() >= 1,
        decreases groups@.len() - gi,
    {
        let g = &groups[gi];
        proof {
            assert(gviews_of(groups@)[gi as int] == groups@[gi as int]@);
            assert(group_local_wf(ns, gviews_of(groups@)[gi as int]));
        }
        let mut prefix: Vec<bool> = Vec::new();
        let mut out: Vec<Config> = Vec::new();
        enum_rec(numbers, g, &mut prefix, &mut out);
        proof {
            assert(cviews_of(out@) =~= spec_cfgs(ns, g@));
        }
        if out.len() == 0 {
            proof {
                assert(spec_cfgs(ns, gviews_of(groups@)[gi as int]).len() == 0);
            }
            return Err(SolverError::InconsistentBoard);
        }
        cfgss.push(out);
        gi = gi + 1;
    }
    Ok(cfgss)
}

/// The partition property at board level: every group variable is an
/// unclicked cell of the board, so the groups' variable sets and the
/// unconstrained remainder together cover the unclicked cells exactly,
/// without overlap.
pub proof fn lemma_partition_covers_unclicked(b: Board, a: int, k: int)
    requires
        b.wf(),
        !board_invalid(b),
        0 <= a < spec_groups(spec_numbers(b)).len(),
        0 <= k < spec_groups(spec_numbers(b))[a].vars.len(),
    ensures
        b.has(spec_groups(spec_numbers(b))[a].vars[k]),
        is_unclicked(b, spec_groups(spec_numbers(b))[a].vars[k]),
{
    let ns = spec_numbers(b);
    let gs = spec_groups(ns);
    let g = gs[a];
    let d = g.vars[k];
    lemma_numbers_wf(b, b.area());
    assert forall|t: int| 0 <= t < ns.len()
        implies (#[trigger] ns[t]).nbrs.no_duplicates() by {
        assert(num_wf(b, ns[t]));
    }
    lemma_groups_upto_wf(ns, ns.len() as int);
    assert(group_local_wf(ns, g));
    assert(var_covered(ns, g, g.vars[k]));
    let x = choose|x: int| #[trigger] g.nums.contains(x) && ns[x].nbrs.contains(d);
    assert(num_wf(b, ns[x]));
    let m = choose|m: int| 0 <= m < ns[x].nbrs.len() && ns[x].nbrs[m] == d;
    assert(b.has(ns[x].nbrs[m]) && is_unclicked(b, ns[x].nbrs[m]));
}

/// The partition property: folding the constraints one by one always yields
/// well-formed, disjoint groups covering each constraint exactly once.
pub proof fn lemma_groups_upto_wf(ns: Seq<NumView>, i: int)
    requires
        0 <= i <= ns.len(),
        forall|k: int| 0 <= k < ns.len() ==> (#[trigger] ns[k]).nbrs.no_duplicates(),
    ensures
        groups_wf(ns, groups_upto(ns, i), i),
    decreases i,
{
    if i == 0 {
        assert forall|d: Coord| #[trigger] vgc(groups_upto(ns, 0), d) <= 1 by {
            lemma_count_nonneg(groups_upto(ns, 0), |gg: GroupView| gg.vars.contains(d));
        }
    } else {
        lemma_groups_upto_wf(ns, i - 1);
        lemma_groups_step_wf(ns, groups_upto(ns, i - 1), i - 1);
    }
}

} // verus!
