//! Best-first branch-and-bound search for a minimum-total-distance
//! one-to-one assignment of rows to columns.
//!
//! Partial assignments (paths) are explored in increasing order of an
//! admissible lower bound: the exact cost of the assigned rows plus the
//! true row minimum of every unassigned row. Expansion is lazy: a popped
//! node contributes at most one sibling (the next alternative for its
//! last row) and one child (the first candidate for the next row), and
//! further alternatives are discovered when those nodes are popped in
//! turn. An order-independent fingerprint of the assigned column set
//! suppresses duplicate states; a fingerprint collision may silently
//! drop an alternative state, a deliberate space/precision trade-off.

use vstd::prelude::*;
use crate::candidates::is_row_min;
use crate::candidates::key_lt;
use crate::candidates::min2;
use crate::candidates::reduce_row;
use crate::candidates::row_reduced;
use crate::errors::Error;
use crate::hash::bloom_set_hash;
use crate::visited::VisitedSet;

verus! {

/// The views of a matrix held as a vector of row vectors.
pub open spec fn rows_of(d: Seq<Vec<u64>>) -> Seq<Seq<u64>> {
    d.map_values(|r: Vec<u64>| r@)
}

/// All rows present, non-empty, and of one common width.
pub open spec fn shape_ok(d: Seq<Seq<u64>>) -> bool {
    &&& d.len() >= 1
    &&& d[0].len() >= 1
    &&& forall|i: int| 0 <= i < d.len() ==> (#[trigger] d[i]).len() == d[0].len()
}

/// The largest value of a row (zero for an empty row).
pub open spec fn seq_max_u64(s: Seq<u64>) -> int
    decreases s.len(),
{
    if s.len() == 0 {
        0
    } else {
        let t = seq_max_u64(s.drop_last());
        if (s.last() as int) > t {
            s.last() as int
        } else {
            t
        }
    }
}

/// Sum, over rows `i..`, of each row's largest distance: an upper bound
/// on every bound the search can ever accumulate.
pub open spec fn sum_caps_from(d: Seq<Seq<u64>>, i: int) -> int
    decreases d.len() - i,
{
    if i < 0 || i >= d.len() {
        0
    } else {
        seq_max_u64(d[i]) + sum_caps_from(d, i + 1)
    }
}

/// Exact cost of the assigned rows of `path`: the sum of the matrix
/// entries the path picks.
pub open spec fn cost_from(d: Seq<Seq<u64>>, path: Seq<u16>, i: int) -> int
    decreases path.len() - i,
{
    if i < 0 || i >= path.len() {
        0
    } else {
        (d[i][path[i] as int] as int) + cost_from(d, path, i + 1)
    }
}

/// A solvable problem: the distance matrix, the per-row candidate
/// lists, the per-row true minima, and the column count.
pub struct Instance {
    pub dist: Vec<Vec<u64>>,
    pub cand: Vec<Vec<u16>>,
    pub rowmin: Vec<u64>,
    pub m: usize,
    pub width: usize,
}

impl Instance {
    /// The number of rows.
    pub open spec fn n(self) -> int {
        self.dist@.len() as int
    }

    pub open spec fn wf(self) -> bool {
        &&& self.dist@.len() >= 1
        &&& self.cand@.len() == self.dist@.len()
        &&& self.rowmin@.len() == self.dist@.len()
        &&& 1 <= self.m <= 0xFFFF
        &&& self.width >= 1
        &&& forall|i: int| 0 <= i < self.n() ==> (#[trigger] self.dist@[i])@.len() == self.m
        &&& forall|i: int|
            0 <= i < self.n() ==> row_reduced(
                self.dist@[i]@,
                (#[trigger] self.cand@[i])@,
                self.width as int,
            )
        &&& forall|i: int|
            0 <= i < self.n() ==> is_row_min(self.dist@[i]@, #[trigger] self.rowmin@[i])
        &&& sum_caps_from(rows_of(self.dist@), 0) <= u64::MAX
    }
}

/// The cost term row `i` contributes to the lower bound of `path`: the
/// chosen distance if the row is assigned, its true minimum otherwise.
pub open spec fn row_term(inst: Instance, path: Seq<u16>, i: int) -> int {
    if i < path.len() {
        inst.dist@[i]@[path[i] as int] as int
    } else {
        inst.rowmin@[i] as int
    }
}

/// The admissible lower bound of a partial assignment, summed over rows
/// `i..`: assigned distances plus unassigned row minima.
pub open spec fn bound_from(inst: Instance, path: Seq<u16>, i: int) -> int
    decreases inst.n() - i,
{
    if i < 0 || i >= inst.n() {
        0
    } else {
        row_term(inst, path, i) + bound_from(inst, path, i + 1)
    }
}

/// A queued search node: a partial assignment and its lower bound.
pub struct HeapItem {
    pub distance: u64,
    pub path: Vec<u16>,
}

impl HeapItem {
    pub fn new(path: Vec<u16>, min_total_dist: u64) -> (it: HeapItem)
        ensures
            it.path == path,
            it.distance == min_total_dist,
    {
        HeapItem { distance: min_total_dist, path }
    }

    /// A node the search may hold: a prefix assignment drawn from the
    /// candidate lists, pairwise distinct, with its exact bound.
    pub open spec fn wf(self, inst: Instance) -> bool {
        &&& self.path@.len() <= inst.n()
        &&& forall|i: int|
            0 <= i < self.path@.len() ==> (#[trigger] self.path@[i] as int) < inst.m
        &&& forall|i: int|
            0 <= i < self.path@.len() ==> inst.cand@[i]@.contains(#[trigger] self.path@[i])
        &&& forall|a: int, b: int| 0 <= a < b < self.path@.len() ==> self.path@[a] != self.path@[b]
        &&& self.distance as int == bound_from(inst, self.path@, 0)
    }
}

/// A complete matching: the column assigned to each row, and the exact
/// total distance of the chosen pairs.
#[derive(Debug)]
pub struct Assignment {
    pub path: Vec<u16>,
    pub total: u64,
}

/// What a reported assignment promises: it covers every row, reuses no
/// column, stays inside the matrix, and its total is the exact sum of
/// the chosen entries.
pub open spec fn good_assignment(d: Seq<Seq<u64>>, n: int, m: int, a: Assignment) -> bool {
    &&& a.path@.len() == n
    &&& forall|i: int| 0 <= i < n ==> (#[trigger] a.path@[i] as int) < m
    &&& forall|x: int, y: int| 0 <= x < y < n ==> a.path@[x] != a.path@[y]
    &&& a.total as int == cost_from(d, a.path@, 0)
}

pub open spec fn nondecreasing(s: Seq<u64>) -> bool {
    forall|i: int, j: int| 0 <= i <= j < s.len() ==> s[i] <= s[j]
}

/// The outcome of one search run: the assignment or a failure, the
/// sequence of new maximum explored depths, and (ghost) the bounds and
/// path depths of the released nodes, in the order the queue released
/// them.
pub struct SearchReport {
    pub outcome: Result<Assignment, Error>,
    pub milestones: Vec<usize>,
    pub popped: Ghost<Seq<u64>>,
    pub depths: Ghost<Seq<usize>>,
}

proof fn lemma_seq_max_nonneg(s: Seq<u64>)
    ensures
        seq_max_u64(s) >= 0,
    decreases s.len(),
{
    if s.len() > 0 {
        lemma_seq_max_nonneg(s.drop_last());
    }
}

proof fn lemma_seq_max(s: Seq<u64>, i: int)
    requires
        0 <= i < s.len(),
    ensures
        (s[i] as int) <= seq_max_u64(s),
    decreases s.len(),
{
    if i == s.len() - 1 {
        lemma_seq_max_nonneg(s.drop_last());
    } else {
        lemma_seq_max(s.drop_last(), i);
    }
}

proof fn lemma_caps_nonneg(d: Seq<Seq<u64>>, i: int)
    ensures
        sum_caps_from(d, i) >= 0,
    decreases d.len() - i,
{
    if 0 <= i < d.len() {
        lemma_seq_max_nonneg(d[i]);
        lemma_caps_nonneg(d, i + 1);
    }
}

/// Every bound is non-negative and at most the sum of the row maxima.
proof fn lemma_bound_le_caps(inst: Instance, path: Seq<u16>, i: int)
    requires
        inst.wf(),
        forall|t: int| 0 <= t < path.len() ==> (#[trigger] path[t] as int) < inst.m,
    ensures
        0 <= bound_from(inst, path, i),
        bound_from(inst, path, i) <= sum_caps_from(rows_of(inst.dist@), i),
    decreases inst.n() - i,
{
    lemma_caps_nonneg(rows_of(inst.dist@), i);
    if 0 <= i < inst.n() {
        lemma_bound_le_caps(inst, path, i + 1);
        assert(rows_of(inst.dist@)[i] == inst.dist@[i]@);
        if i < path.len() {
            lemma_seq_max(inst.dist@[i]@, path[i] as int);
        } else {
            assert(is_row_min(inst.dist@[i]@, inst.rowmin@[i]));
            let w = choose|w: int|
                0 <= w < inst.dist@[i]@.len() && inst.rowmin@[i] == inst.dist@[i]@[w];
            lemma_seq_max(inst.dist@[i]@, w);
        }
    }
}

/// Swapping the last assigned column changes the bound by exactly the
/// distance difference of the two choices.
proof fn lemma_bound_update_last(inst: Instance, path: Seq<u16>, c: u16, i: int)
    requires
        1 <= path.len() <= inst.n(),
    ensures
        i > path.len() - 1 ==> bound_from(inst, path.update(path.len() - 1, c), i) == bound_from(
            inst,
            path,
            i,
        ),
        0 <= i <= path.len() - 1 ==> bound_from(inst, path.update(path.len() - 1, c), i)
            == bound_from(inst, path, i) - (inst.dist@[path.len() - 1]@[path[path.len() - 1] as int] as int)
            + (inst.dist@[path.len() - 1]@[c as int] as int),
    decreases inst.n() - i,
{
    if 0 <= i < inst.n() {
        lemma_bound_update_last(inst, path, c, i + 1);
    }
}

/// Extending the path by one row replaces that row's minimum with the
/// chosen distance in the bound.
proof fn lemma_bound_push(inst: Instance, path: Seq<u16>, c: u16, i: int)
    requires
        path.len() < inst.n(),
    ensures
        i > path.len() ==> bound_from(inst, path.push(c), i) == bound_from(inst, path, i),
        0 <= i <= path.len() ==> bound_from(inst, path.push(c), i) == bound_from(inst, path, i) - (
        inst.rowmin@[path.len() as int] as int) + (inst.dist@[path.len() as int]@[c as int] as int),
    decreases inst.n() - i,
{
    if 0 <= i < inst.n() {
        lemma_bound_push(inst, path, c, i + 1);
    }
}

/// For a complete path the bound is the exact total cost.
proof fn lemma_complete_cost(inst: Instance, path: Seq<u16>, i: int)
    requires
        path.len() == inst.n(),
    ensures
        bound_from(inst, path, i) == cost_from(rows_of(inst.dist@), path, i),
    decreases inst.n() - i,
{
    if 0 <= i < inst.n() {
        assert(rows_of(inst.dist@)[i] == inst.dist@[i]@);
        lemma_complete_cost(inst, path, i + 1);
    }
}

proof fn lemma_bound_admissible_from(inst: Instance, path: Seq<u16>, full: Seq<u16>, i: int)
    requires
        inst.wf(),
        full.len() == inst.n(),
        path.len() <= full.len(),
        forall|t: int| 0 <= t < path.len() ==> path[t] == full[t],
        forall|t: int| 0 <= t < full.len() ==> (#[trigger] full[t] as int) < inst.m,
    ensures
        bound_from(inst, path, i) <= cost_from(rows_of(inst.dist@), full, i),
    decreases inst.n() - i,
{
    if 0 <= i < inst.n() {
        lemma_bound_admissible_from(inst, path, full, i + 1);
        assert(rows_of(inst.dist@)[i] == inst.dist@[i]@);
        if i >= path.len() {
            assert(is_row_min(inst.dist@[i]@, inst.rowmin@[i]));
            assert(inst.rowmin@[i] <= inst.dist@[i]@[full[i] as int]);
        }
    }
}

/// The lower-bound heuristic is admissible: the bound of a partial
/// assignment never exceeds the exact total cost of any complete
/// assignment that extends it. It ignores the distinctness constraint
/// among the unassigned rows, so it holds for every completion, and it
/// is what makes the first complete node released by the queue optimal
/// among the assignments the candidate space can reach.
pub proof fn lemma_bound_admissible(inst: Instance, path: Seq<u16>, full: Seq<u16>)
    requires
        inst.wf(),
        full.len() == inst.n(),
        path.len() <= full.len(),
        forall|t: int| 0 <= t < path.len() ==> path[t] == full[t],
        forall|t: int| 0 <= t < full.len() ==> (#[trigger] full[t] as int) < inst.m,
    ensures
        bound_from(inst, path, 0) <= cost_from(rows_of(inst.dist@), full, 0),
{
    lemma_bound_admissible_from(inst, path, full, 0);
}

/// A column drawn from a candidate list is a valid column index.
proof fn lemma_cand_entry_bound(inst: Instance, i: int, c: u16)
    requires
        inst.wf(),
        0 <= i < inst.n(),
        inst.cand@[i]@.contains(c),
    ensures
        (c as int) < inst.m,
{
    let x = choose|x: int| 0 <= x < inst.cand@[i]@.len() && inst.cand@[i]@[x] == c;
    assert(row_reduced(inst.dist@[i]@, inst.cand@[i]@, inst.width as int));
}

/// Removes and returns the earliest queue entry of minimum bound: the
/// entry taken is minimal, and every entry before it is strictly
/// larger, so ties break deterministically on the oldest entry.
fn pop_min(queue: &mut Vec<HeapItem>) -> (it: HeapItem)
    requires
        old(queue)@.len() > 0,
    ensures
        exists|i: int|
            #![all_triggers]
            0 <= i < old(queue)@.len() && it == old(queue)@[i] && final(queue)@ == old(
                queue,
            )@.remove(i) && (forall|x: int|
                0 <= x < i ==> old(queue)@[x].distance > it.distance),
        forall|x: int| 0 <= x < final(queue)@.len() ==> final(queue)@[x].distance >= it.distance,
{
    let mut best: usize = 0;
    let mut i: usize = 1;
    while i < queue.len()
        invariant
            queue@.len() > 0,
            best < i,
            i <= queue@.len(),
            forall|x: int| 0 <= x < i ==> queue@[x].distance >= queue@[best as int].distance,
            forall|x: int| 0 <= x < best ==> queue@[x].distance > queue@[best as int].distance,
        decreases queue@.len() - i,
    {
        if queue[i].distance < queue[best].distance {
            best = i;
        }
        i = i + 1;
    }
    queue.remove(best)
}

/// Fresh copy of a path; branching nodes each own their own path.
fn copy_path(path: &Vec<u16>) -> (r: Vec<u16>)
    ensures
        r@ == path@,
{
    let mut r: Vec<u16> = Vec::new();
    let mut i: usize = 0;
    while i < path.len()
        invariant
            i <= path@.len(),
            r@ == path@.take(i as int),
        decreases path@.len() - i,
    {
        r.push(path[i]);
        proof {
            assert(path@.take(i + 1) =~= path@.take(i as int).push(path@[i as int]));
        }
        i = i + 1;
    }
    proof {
        assert(path@.take(path@.len() as int) =~= path@);
    }
    r
}

/// Whether column `c` already occurs among the first `upto` entries.
fn contains_prefix(path: &Vec<u16>, upto: usize, c: u16) -> (r: bool)
    requires
        upto <= path@.len(),
    ensures
        r == exists|i: int| 0 <= i < upto && path@[i] == c,
{
    let mut i: usize = 0;
    while i < upto
        invariant
            i <= upto,
            upto <= path@.len(),
            forall|x: int| 0 <= x < i ==> path@[x] != c,
        decreases upto - i,
    {
        if path[i] == c {
            return true;
        }
        i = i + 1;
    }
    false
}

/// The largest value of a non-empty row.
fn row_max(row: &Vec<u64>) -> (mx: u64)
    ensures
        mx as int == seq_max_u64(row@),
{
    let mut mx: u64 = 0;
    let mut j: usize = 0;
    while j < row.len()
        invariant
            j <= row@.len(),
            mx as int == seq_max_u64(row@.take(j as int)),
        decreases row@.len() - j,
    {
        proof {
            assert(row@.take(j + 1).drop_last() =~= row@.take(j as int));
            assert(row@.take(j + 1).last() == row@[j as int]);
        }
        if row[j] > mx {
            mx = row[j];
        }
        j = j + 1;
    }
    proof {
        assert(row@.take(row@.len() as int) =~= row@);
    }
    mx
}

/// Every queued node is well formed and its bound is at least every
/// bound already released by the queue.
pub open spec fn queue_ok(inst: Instance, queue: Seq<HeapItem>, popped: Seq<u64>) -> bool {
    &&& forall|qi: int| 0 <= qi < queue.len() ==> (#[trigger] queue[qi]).wf(inst)
    &&& forall|qi: int, pi: int|
        #![trigger queue[qi], popped[pi]]
        0 <= qi < queue.len() && 0 <= pi < popped.len() ==> popped[pi] <= queue[qi].distance
}

/// Progress milestones: strictly increasing depths, all reached, all
/// short of a complete assignment.
pub open spec fn milestones_ok(ms: Seq<usize>, maxex: int, n: int) -> bool {
    &&& forall|i: int, j: int| 0 <= i < j < ms.len() ==> ms[i] < ms[j]
    &&& forall|i: int| 0 <= i < ms.len() ==> 1 <= (#[trigger] ms[i] as int) < n
    &&& forall|i: int| 0 <= i < ms.len() ==> (#[trigger] ms[i] as int) <= maxex
    &&& 0 <= maxex < n
}

/// Runs the best-first search to completion on a well-formed instance.
///
/// The first complete assignment the queue releases is returned; by the
/// non-decreasing release order its bound, which equals its exact cost,
/// is the smallest bound the queue held. If the queue empties first the
/// run reports `NoSolution`.
#[verifier::rlimit(60)]
pub fn solve(inst: &Instance) -> (rep: SearchReport)
    requires
        inst.wf(),
    ensures
        match rep.outcome {
            Ok(a) => good_assignment(rows_of(inst.dist@), inst.n(), inst.m as int, a) && (forall|
                i: int,
            |
                0 <= i < inst.n() ==> inst.cand@[i]@.contains(#[trigger] a.path@[i]))
                && a.total == rep.popped@.last() && rep.depths@.last() == a.path@.len(),
            Err(e) => e == Error::NoSolution,
        },
        rep.popped@.len() >= 1,
        rep.depths@.len() == rep.popped@.len(),
        nondecreasing(rep.popped@),
        forall|i: int, j: int|
            0 <= i < j < rep.milestones@.len() ==> rep.milestones@[i] < rep.milestones@[j],
        forall|i: int|
            0 <= i < rep.milestones@.len() ==> 1 <= (#[trigger] rep.milestones@[i] as int)
                < inst.n(),
        forall|mi: int|
            0 <= mi < rep.milestones@.len() ==> rep.depths@.contains(
                #[trigger] rep.milestones@[mi],
            ),
{
    let n = inst.dist.len();
    // bound of the empty assignment: the sum of all row minima
    let mut start: u64 = 0;
    let mut i: usize = 0;
    proof {
        lemma_bound_le_caps(*inst, Seq::<u16>::empty(), 0);
    }
    while i < n
        invariant
            inst.wf(),
            n == inst.n(),
            i <= n,
            start as int + bound_from(*inst, Seq::<u16>::empty(), i as int) == bound_from(
                *inst,
                Seq::<u16>::empty(),
                0,
            ),
            bound_from(*inst, Seq::<u16>::empty(), 0) <= u64::MAX,
        decreases n - i,
    {
        proof {
            lemma_bound_le_caps(*inst, Seq::<u16>::empty(), i + 1);
        }
        start = start + inst.rowmin[i];
        i = i + 1;
    }
    let mut queue: Vec<HeapItem> = Vec::new();
    queue.push(HeapItem::new(Vec::new(), start));
    let mut visited = VisitedSet::new();
    let mut max_explored: usize = 0;
    let mut milestones: Vec<usize> = Vec::new();
    let mut expansions: u64 = 0;
    let ghost mut popped: Seq<u64> = Seq::empty();
    let ghost mut depths: Seq<usize> = Seq::empty();
    let ghost mut mspos: Seq<int> = Seq::empty();
    while queue.len() > 0
        invariant
            inst.wf(),
            n == inst.n(),
            queue@.len() >= 1 || popped.len() >= 1,
            depths.len() == popped.len(),
            queue_ok(*inst, queue@, popped),
            nondecreasing(popped),
            milestones_ok(milestones@, max_explored as int, n as int),
            mspos.len() == milestones@.len(),
            forall|mi: int|
                0 <= mi < milestones@.len() ==> 0 <= #[trigger] mspos[mi] < depths.len()
                    && depths[mspos[mi]] == milestones@[mi],
        decreases 2 * ((u64::MAX - expansions) as int) + queue@.len(),
    {
        let ghost pre_queue = queue@;
        let ghost len_at_pop = queue@.len();
        let item = pop_min(&mut queue);
        proof {
            let wi = choose|wi: int|
                #![all_triggers]
                0 <= wi < pre_queue.len() && item == pre_queue[wi] && queue@ == pre_queue.remove(
                    wi,
                );
            assert(pre_queue[wi].wf(*inst));
            assert forall|pi: int| 0 <= pi < popped.len() implies popped[pi] <= item.distance by {
                assert(popped[pi] <= pre_queue[wi].distance);
            }
            popped = popped.push(item.distance);
            assert forall|qi: int| 0 <= qi < queue@.len() implies (#[trigger] queue@[qi]).wf(
                *inst,
            ) by {
                if qi < wi {
                    assert(queue@[qi] == pre_queue[qi]);
                } else {
                    assert(queue@[qi] == pre_queue[qi + 1]);
                }
            }
            assert forall|qi: int, pi: int|
                #![trigger queue@[qi], popped[pi]]
                0 <= qi < queue@.len() && 0 <= pi < popped.len() implies popped[pi]
                <= queue@[qi].distance by {
                if pi < popped.len() - 1 {
                    if qi < wi {
                        assert(queue@[qi] == pre_queue[qi]);
                    } else {
                        assert(queue@[qi] == pre_queue[qi + 1]);
                    }
                }
            }
            assert(queue_ok(*inst, queue@, popped));
        }
        let plen = item.path.len();
        proof {
            depths = depths.push(plen);
        }
        if plen >= n {
            proof {
                lemma_complete_cost(*inst, item.path@, 0);
            }
            let rep = SearchReport {
                outcome: Ok(Assignment { path: item.path, total: item.distance }),
                milestones,
                popped: Ghost(popped),
                depths: Ghost(depths),
            };
            proof {
                assert forall|mi: int|
                    0 <= mi < rep.milestones@.len() implies rep.depths@.contains(
                    #[trigger] rep.milestones@[mi],
                ) by {
                    assert(rep.depths@[mspos[mi]] == rep.milestones@[mi]);
                }
            }
            return rep;
        }
        if plen > max_explored {
            max_explored = plen;
            milestones.push(plen);
            proof {
                mspos = mspos.push(depths.len() - 1);
            }
        }
        let h = bloom_set_hash(item.path.as_slice());
        if expansions >= u64::MAX {
            // the expansion budget of the step counter is spent (never
            // reached in practice); stop widening and drain the queue
            continue;
        }
        let fresh = visited.insert(h);
        if !fresh {
            continue;
        }
        expansions = expansions + 1;
        // sibling expansion: swap the last row to its next untried candidate
        if plen > 0 {
            let idx = plen - 1;
            let prev = item.path[idx];
            let prev_d = inst.dist[idx][prev as usize];
            let crow = &inst.cand[idx];
            let ghost cseq = inst.cand@[idx as int]@;
            let mut pos: usize = 0;
            while pos < crow.len() && crow[pos] != prev
                invariant
                    crow@ == cseq,
                    pos <= cseq.len(),
                    forall|x: int| 0 <= x < pos ==> cseq[x] != prev,
                decreases cseq.len() - pos,
            {
                pos = pos + 1;
            }
            proof {
                assert(inst.cand@[idx as int]@.contains(prev));
                let w = choose|w: int| 0 <= w < cseq.len() && cseq[w] == prev;
                assert(pos < cseq.len());
            }
            let mut q: usize = pos + 1;
            let mut pushed = false;
            while q < crow.len() && !pushed
                invariant
                    inst.wf(),
                    n == inst.n(),
                    queue_ok(*inst, queue@, popped),
                    nondecreasing(popped),
                    popped.len() >= 1,
                    popped.last() == item.distance,
                    item.wf(*inst),
                    item.path@.len() == plen,
                    1 <= plen < n,
                    idx == plen - 1,
                    crow@ == cseq,
                    cseq == inst.cand@[idx as int]@,
                    pos < cseq.len(),
                    cseq[pos as int] == prev,
                    prev == item.path@[idx as int],
                    prev_d == inst.dist@[idx as int]@[prev as int],
                    pos < q,
                    queue@.len() == len_at_pop - 1 + (if pushed {
                        1int
                    } else {
                        0int
                    }),
                decreases cseq.len() - q,
            {
                let c = crow[q];
                if !contains_prefix(&item.path, idx, c) {
                    let mut np = copy_path(&item.path);
                    np[idx] = c;
                    let h2 = bloom_set_hash(np.as_slice());
                    if !visited.contains(h2) {
                        proof {
                            assert(cseq.contains(c)) by {
                                assert(cseq[q as int] == c);
                            }
                            lemma_cand_entry_bound(*inst, idx as int, c);
                            assert(row_reduced(
                                inst.dist@[idx as int]@,
                                cseq,
                                inst.width as int,
                            ));
                            assert(key_lt(inst.dist@[idx as int]@, prev, c));
                            assert(np@ == item.path@.update(idx as int, c));
                            lemma_bound_update_last(*inst, item.path@, c, 0);
                            assert forall|t: int|
                                0 <= t < np@.len() implies (#[trigger] np@[t] as int) < inst.m by {
                                if t != idx {
                                    assert(np@[t] == item.path@[t]);
                                }
                            }
                            lemma_bound_le_caps(*inst, np@, 0);
                        }
                        let dc = inst.dist[idx][c as usize];
                        let nb = item.distance + (dc - prev_d);
                        queue.push(HeapItem::new(np, nb));
                        pushed = true;
                        proof {
                            let ni = queue@.len() - 1;
                            assert(queue@[ni].wf(*inst)) by {
                                assert forall|a: int, b: int|
                                    0 <= a < b < queue@[ni].path@.len() implies queue@[ni].path@[a]
                                    != queue@[ni].path@[b] by {
                                    if b == idx {
                                        assert(queue@[ni].path@[a] == item.path@[a]);
                                    }
                                }
                            }
                        }
                    }
                }
                q = q + 1;
            }
        }
        // child expansion: assign the next row its first untried candidate
        let crow2 = &inst.cand[plen];
        let ghost cseq2 = inst.cand@[plen as int]@;
        let rmin = inst.rowmin[plen];
        let ghost len_before_child = queue@.len();
        let mut q2: usize = 0;
        let mut pushed2 = false;
        while q2 < crow2.len() && !pushed2
            invariant
                inst.wf(),
                n == inst.n(),
                queue_ok(*inst, queue@, popped),
                nondecreasing(popped),
                popped.len() >= 1,
                popped.last() == item.distance,
                item.wf(*inst),
                item.path@.len() == plen,
                plen < n,
                crow2@ == cseq2,
                cseq2 == inst.cand@[plen as int]@,
                rmin == inst.rowmin@[plen as int],
                queue@.len() == len_before_child + (if pushed2 {
                    1int
                } else {
                    0int
                }),
                len_before_child <= len_at_pop,
            decreases cseq2.len() - q2,
        {
            let c = crow2[q2];
            if !contains_prefix(&item.path, plen, c) {
                let mut np = copy_path(&item.path);
                np.push(c);
                let h3 = bloom_set_hash(np.as_slice());
                if !visited.contains(h3) {
                    proof {
                        assert(cseq2.contains(c)) by {
                            assert(cseq2[q2 as int] == c);
                        }
                        lemma_cand_entry_bound(*inst, plen as int, c);
                        assert(is_row_min(inst.dist@[plen as int]@, inst.rowmin@[plen as int]));
                        assert(np@ == item.path@.push(c));
                        lemma_bound_push(*inst, item.path@, c, 0);
                        assert forall|t: int|
                            0 <= t < np@.len() implies (#[trigger] np@[t] as int) < inst.m by {
                            if t != plen {
                                assert(np@[t] == item.path@[t]);
                            }
                        }
                        lemma_bound_le_caps(*inst, np@, 0);
                    }
                    let dc = inst.dist[plen][c as usize];
                    let nb = item.distance + (dc - rmin);
                    queue.push(HeapItem::new(np, nb));
                    pushed2 = true;
                    proof {
                        let ni = queue@.len() - 1;
                        assert(queue@[ni].wf(*inst)) by {
                            assert forall|a: int, b: int|
                                0 <= a < b < queue@[ni].path@.len() implies queue@[ni].path@[a]
                                != queue@[ni].path@[b] by {
                                if b == plen {
                                    assert(queue@[ni].path@[a] == item.path@[a]);
                                }
                            }
                        }
                    }
                }
            }
            q2 = q2 + 1;
        }
    }
    let rep = SearchReport {
        outcome: Err(Error::NoSolution),
        milestones,
        popped: Ghost(popped),
        depths: Ghost(depths),
    };
    proof {
        assert forall|mi: int|
            0 <= mi < rep.milestones@.len() implies rep.depths@.contains(
            #[trigger] rep.milestones@[mi],
        ) by {
            assert(rep.depths@[mspos[mi]] == rep.milestones@[mi]);
        }
    }
    rep
}

/// Builds a solvable instance from a dense distance matrix: reduces
/// every row to its candidate list and true minimum, and checks the
/// machine limits (column index width, bound accumulator width).
pub fn build_instance(dist: Vec<Vec<u64>>, width: usize) -> (r: Result<Instance, Error>)
    requires
        width >= 1,
    ensures
        !shape_ok(rows_of(dist@)) ==> r == Err::<Instance, Error>(Error::ParseError),
        shape_ok(rows_of(dist@)) && dist@[0]@.len() > 0xFFFF ==> r == Err::<Instance, Error>(
            Error::CapacityError { count: dist@[0]@.len() as usize, limit: 0xFFFF },
        ),
        shape_ok(rows_of(dist@)) && dist@[0]@.len() <= 0xFFFF && sum_caps_from(rows_of(dist@), 0)
            > u64::MAX ==> r == Err::<Instance, Error>(Error::DistanceOverflow),
        shape_ok(rows_of(dist@)) && dist@[0]@.len() <= 0xFFFF && sum_caps_from(rows_of(dist@), 0)
            <= u64::MAX ==> r is Ok,
        r matches Ok(inst) ==> {
            &&& inst.wf()
            &&& inst.dist@ == dist@
            &&& inst.n() == dist@.len()
            &&& inst.m == dist@[0]@.len()
            &&& inst.width == width
        },
{
    let n = dist.len();
    if n == 0 {
        return Err(Error::ParseError);
    }
    let m = dist[0].len();
    if m == 0 {
        return Err(Error::ParseError);
    }
    let mut i: usize = 0;
    while i < n
        invariant
            n == dist@.len(),
            m == dist@[0]@.len(),
            i <= n,
            forall|t: int| 0 <= t < i ==> (#[trigger] dist@[t])@.len() == m,
        decreases n - i,
    {
        if dist[i].len() != m {
            proof {
                assert(rows_of(dist@)[i as int] == dist@[i as int]@);
                assert(rows_of(dist@)[0] == dist@[0]@);
                assert(!shape_ok(rows_of(dist@)));
            }
            return Err(Error::ParseError);
        }
        i = i + 1;
    }
    proof {
        assert forall|t: int| 0 <= t < n implies (#[trigger] rows_of(dist@)[t]).len()
            == rows_of(dist@)[0].len() by {
            assert(rows_of(dist@)[t] == dist@[t]@);
        }
        assert(shape_ok(rows_of(dist@)));
    }
    if m > 0xFFFF {
        return Err(Error::CapacityError { count: m, limit: 0xFFFF });
    }
    // cap the accumulator: the sum of all row maxima must fit in 64 bits
    let mut caps: u64 = 0;
    let mut i2: usize = 0;
    while i2 < n
        invariant
            n == dist@.len(),
            n >= 1,
            m == dist@[0]@.len(),
            1 <= m <= 0xFFFF,
            shape_ok(rows_of(dist@)),
            i2 <= n,
            caps as int == sum_caps_from(rows_of(dist@), 0) - sum_caps_from(
                rows_of(dist@),
                i2 as int,
            ),
        decreases n - i2,
    {
        let mx = row_max(&dist[i2]);
        proof {
            assert(rows_of(dist@)[i2 as int] == dist@[i2 as int]@);
            assert(sum_caps_from(rows_of(dist@), i2 as int) == seq_max_u64(
                rows_of(dist@)[i2 as int],
            ) + sum_caps_from(rows_of(dist@), i2 + 1));
            lemma_caps_nonneg(rows_of(dist@), i2 as int);
            lemma_caps_nonneg(rows_of(dist@), i2 + 1);
        }
        caps = match caps.checked_add(mx) {
            Some(v) => v,
            None => {
                return Err(Error::DistanceOverflow);
            },
        };
        i2 = i2 + 1;
    }
    proof {
        assert(sum_caps_from(rows_of(dist@), n as int) == 0);
    }
    // reduce every row
    let mut cand: Vec<Vec<u16>> = Vec::new();
    let mut rowmin: Vec<u64> = Vec::new();
    let mut i3: usize = 0;
    while i3 < n
        invariant
            n == dist@.len(),
            n >= 1,
            m == dist@[0]@.len(),
            1 <= m <= 0xFFFF,
            width >= 1,
            shape_ok(rows_of(dist@)),
            sum_caps_from(rows_of(dist@), 0) <= u64::MAX,
            forall|t: int| 0 <= t < n ==> (#[trigger] dist@[t])@.len() == m,
            i3 <= n,
            cand@.len() == i3,
            rowmin@.len() == i3,
            forall|t: int|
                0 <= t < i3 ==> row_reduced(dist@[t]@, (#[trigger] cand@[t])@, width as int),
            forall|t: int| 0 <= t < i3 ==> is_row_min(dist@[t]@, #[trigger] rowmin@[t]),
        decreases n - i3,
    {
        let (c, rm) = reduce_row(&dist[i3], width);
        cand.push(c);
        rowmin.push(rm);
        i3 = i3 + 1;
    }
    let inst = Instance { dist, cand, rowmin, m, width };
    proof {
        assert(inst.wf());
    }
    Ok(inst)
}

/// Solves a dense distance matrix end to end with candidate lists of
/// width `width`; every validity condition is checked here, so any
/// caller may use it directly.
pub fn solve_matrix(dist: Vec<Vec<u64>>, width: usize) -> (rep: SearchReport)
    ensures
        width == 0 ==> rep.outcome == Err::<Assignment, Error>(Error::NoSolution),
        width >= 1 && !shape_ok(rows_of(dist@)) ==> rep.outcome == Err::<Assignment, Error>(
            Error::ParseError,
        ),
        width >= 1 && shape_ok(rows_of(dist@)) && dist@[0]@.len() > 0xFFFF ==> rep.outcome == Err::<
            Assignment,
            Error,
        >(Error::CapacityError { count: dist@[0]@.len() as usize, limit: 0xFFFF }),
        width >= 1 && shape_ok(rows_of(dist@)) && dist@[0]@.len() <= 0xFFFF && sum_caps_from(
            rows_of(dist@),
            0,
        ) > u64::MAX ==> rep.outcome == Err::<Assignment, Error>(Error::DistanceOverflow),
        width >= 1 && shape_ok(rows_of(dist@)) && dist@[0]@.len() <= 0xFFFF && sum_caps_from(
            rows_of(dist@),
            0,
        ) <= u64::MAX ==> match rep.outcome {
            Ok(a) => good_assignment(rows_of(dist@), dist@.len() as int, dist@[0]@.len() as int, a)
                && rep.popped@.len() >= 1 && a.total == rep.popped@.last(),
            Err(e) => e == Error::NoSolution,
        },
        nondecreasing(rep.popped@),
        forall|i: int, j: int|
            0 <= i < j < rep.milestones@.len() ==> rep.milestones@[i] < rep.milestones@[j],
{
    if width == 0 {
        return SearchReport {
            outcome: Err(Error::NoSolution),
            milestones: Vec::new(),
            popped: Ghost(Seq::empty()),
            depths: Ghost(Seq::empty()),
        };
    }
    match build_instance(dist, width) {
        Ok(inst) => solve(&inst),
        Err(e) => SearchReport {
            outcome: Err(e),
            milestones: Vec::new(),
            popped: Ghost(Seq::empty()),
            depths: Ghost(Seq::empty()),
        },
    }
}

} // verus!
