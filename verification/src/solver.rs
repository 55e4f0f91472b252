//! The line-based constraint-propagation engine: a transient view of one
//! line, the deduction rules that tighten it, and the fixed-point worker
//! that drives them across rows and columns.

use vstd::prelude::*;
use vstd::assert_by_contradiction;

use crate::grid::lemma_grid_dims;
use crate::grid::Grid;
use crate::model::hint_sum;
use crate::model::lemma_hint_sum_take_step;
use crate::model::line_span;
use crate::model::LineIndex;
use crate::model::PartialRun;
use crate::model::PartialSquare;
use crate::model::Puzzle;
use crate::model::Square;

verus! {

/// Why `solve` stopped without a completed grid.
#[derive(Clone, Copy, PartialEq, Eq, Structural, Debug)]
pub enum SolverError {
    /// Propagation reached a fixed point with at least one cell unknown.
    Stuck,
    /// A cell or a run bracket was driven into a contradiction: the puzzle
    /// admits no completion consistent with what was discovered.
    Invalid,
    /// Some line's hints cannot fit into that line.
    MalformedPuzzle,
}

/// The deduction rules the engine can run on a line, as a fixed set of
/// variants; the solver holds the registered rules as a list of these.
#[derive(Clone, Copy, PartialEq, Eq, Structural, Debug)]
pub enum Rule {
    /// R1: every placement of a run intersects a common middle segment.
    Overlap,
    /// R2: cells outside every run's bracket must be empty.
    GapFill,
}

/// How many cells of a line are still unknown.
pub open spec fn row_unknowns(row: Seq<PartialSquare>) -> nat
    decreases row.len(),
{
    if row.len() == 0 {
        0
    } else {
        row_unknowns(row.drop_last()) + if row.last() is Unknown {
            1nat
        } else {
            0nat
        }
    }
}

/// How many cells of the whole grid are still unknown.
pub open spec fn grid_unknowns(g: Seq<Seq<PartialSquare>>) -> nat
    decreases g.len(),
{
    if g.len() == 0 {
        0
    } else {
        grid_unknowns(g.drop_last()) + row_unknowns(g.last())
    }
}

proof fn lemma_row_unknowns_update(row: Seq<PartialSquare>, j: int, x: PartialSquare)
    requires
        0 <= j < row.len(),
    ensures
        row_unknowns(row.update(j, x)) + (if row[j] is Unknown {
            1nat
        } else {
            0nat
        }) == row_unknowns(row) + (if x is Unknown {
            1nat
        } else {
            0nat
        }),
    decreases row.len(),
{
    let row2 = row.update(j, x);
    if j == row.len() - 1 {
        assert(row2.drop_last() =~= row.drop_last());
    } else {
        assert(row2.drop_last() =~= row.drop_last().update(j, x));
        lemma_row_unknowns_update(row.drop_last(), j, x);
    }
}

proof fn lemma_grid_unknowns_update(g: Seq<Seq<PartialSquare>>, i: int, r: Seq<PartialSquare>)
    requires
        0 <= i < g.len(),
    ensures
        grid_unknowns(g.update(i, r)) + row_unknowns(g[i]) == grid_unknowns(g) + row_unknowns(r),
    decreases g.len(),
{
    let g2 = g.update(i, r);
    if i == g.len() - 1 {
        assert(g2.drop_last() =~= g.drop_last());
    } else {
        assert(g2.drop_last() =~= g.drop_last().update(i, r));
        lemma_grid_unknowns_update(g.drop_last(), i, r);
    }
}

/// Knowledge about one cell only ever grows: a known value stays.
pub open spec fn sq_le(a: PartialSquare, b: PartialSquare) -> bool {
    a is Known ==> b == a
}

/// Pointwise monotone growth of knowledge along a line.
pub open spec fn cells_le(a: Seq<PartialSquare>, b: Seq<PartialSquare>) -> bool {
    &&& a.len() == b.len()
    &&& forall|i: int| 0 <= i < a.len() ==> sq_le(#[trigger] a[i], b[i])
}

/// Bracket `b` is at least as tight as bracket `a`.
pub open spec fn run_le(a: PartialRun, b: PartialRun) -> bool {
    a.lo <= b.lo && b.hi <= a.hi
}

/// Pointwise monotone tightening of a line's run brackets.
pub open spec fn runs_le(a: Seq<PartialRun>, b: Seq<PartialRun>) -> bool {
    &&& a.len() == b.len()
    &&& forall|i: int| 0 <= i < a.len() ==> run_le(#[trigger] a[i], b[i])
}

/// Pointwise monotone growth of knowledge over the whole grid.
pub open spec fn grid_le(a: Seq<Seq<PartialSquare>>, b: Seq<Seq<PartialSquare>>) -> bool {
    &&& a.len() == b.len()
    &&& forall|i: int| 0 <= i < a.len() ==> cells_le(#[trigger] a[i], b[i])
}

/// Monotonicity composes: each propagation step only grows knowledge, so
/// knowledge grows across any chain of snapshots.
pub proof fn lemma_grid_le_trans(
    a: Seq<Seq<PartialSquare>>,
    b: Seq<Seq<PartialSquare>>,
    c: Seq<Seq<PartialSquare>>,
)
    requires
        grid_le(a, b),
        grid_le(b, c),
    ensures
        grid_le(a, c),
{
    assert forall|i: int| 0 <= i < a.len() implies cells_le(#[trigger] a[i], c[i]) by {
        assert(cells_le(a[i], b[i]));
        assert(cells_le(b[i], c[i]));
        assert forall|p: int| 0 <= p < a[i].len() implies sq_le(#[trigger] a[i][p], c[i][p]) by {
            assert(sq_le(a[i][p], b[i][p]));
            assert(sq_le(b[i][p], c[i][p]));
        }
    }
}

/// Monotonicity law: once a cell is settled in some snapshot, every later
/// snapshot that grew from it holds the same value there.
pub proof fn lemma_grid_le_keeps_known(
    a: Seq<Seq<PartialSquare>>,
    b: Seq<Seq<PartialSquare>>,
    i: int,
    j: int,
)
    requires
        grid_le(a, b),
        0 <= i < a.len(),
        0 <= j < a[i].len(),
        a[i][j] is Known,
    ensures
        b[i][j] == a[i][j],
{
    assert(cells_le(a[i], b[i]));
    assert(sq_le(a[i][j], b[i][j]));
}

/// A transient, owned view of one line while rules run on it: the line's
/// hints, its run brackets, its cells, and the positions changed since the
/// view was built.
pub struct PartialLine {
    hints: Vec<usize>,
    runs: Vec<PartialRun>,
    cells: Vec<PartialSquare>,
    dirty: Vec<usize>,
    init: Ghost<Seq<PartialSquare>>,
}

impl PartialLine {
    pub closed spec fn hints_seq(&self) -> Seq<usize> {
        self.hints@
    }

    pub closed spec fn runs_seq(&self) -> Seq<PartialRun> {
        self.runs@
    }

    pub closed spec fn cells_seq(&self) -> Seq<PartialSquare> {
        self.cells@
    }

    pub closed spec fn dirty_seq(&self) -> Seq<usize> {
        self.dirty@
    }

    /// The cells as they were when this view was built.
    pub closed spec fn init_seq(&self) -> Seq<PartialSquare> {
        self.init@
    }

    pub open spec fn len(&self) -> int {
        self.cells_seq().len() as int
    }

    /// The view's bookkeeping invariant: brackets stay inside the line,
    /// and `dirty` records exactly the cells settled since construction,
    /// each exactly once.
    pub open spec fn wf(&self) -> bool {
        &&& self.runs_seq().len() == self.hints_seq().len()
        &&& self.init_seq().len() == self.len()
        &&& forall|t: int|
            0 <= t < self.runs_seq().len() ==> ((#[trigger] self.runs_seq()[t]).lo <= self.len()
                && self.runs_seq()[t].hi <= self.len())
        &&& self.dirty_seq().no_duplicates()
        &&& forall|d: int|
            0 <= d < self.dirty_seq().len() ==> {
                let k = (#[trigger] self.dirty_seq()[d]) as int;
                &&& k < self.len()
                &&& self.init_seq()[k] is Unknown
                &&& self.cells_seq()[k] is Known
            }
        &&& forall|i: int|
            0 <= i < self.len() && !self.dirty_seq().contains(i as usize)
                ==> #[trigger] self.cells_seq()[i] == self.init_seq()[i]
        &&& row_unknowns(self.cells_seq()) + self.dirty_seq().len() == row_unknowns(
            self.init_seq(),
        )
    }

    /// A fresh view over one line; nothing is dirty yet.
    pub fn new_line(hints: Vec<usize>, runs: Vec<PartialRun>, cells: Vec<PartialSquare>) -> (r:
        PartialLine)
        requires
            runs@.len() == hints@.len(),
            forall|t: int|
                0 <= t < runs@.len() ==> ((#[trigger] runs@[t]).lo <= cells@.len()
                    && runs@[t].hi <= cells@.len()),
        ensures
            r.wf(),
            r.hints_seq() == hints@,
            r.runs_seq() == runs@,
            r.cells_seq() == cells@,
            r.init_seq() == cells@,
            r.dirty_seq() == Seq::<usize>::empty(),
    {
        let ghost snapshot = cells@;
        let r = PartialLine { hints, runs, cells, dirty: Vec::new(), init: Ghost(snapshot) };
        proof {
            assert(r.dirty_seq() =~= Seq::<usize>::empty());
        }
        r
    }

    /// The number of cells settled since this view was built.
    pub fn dirty_len(&self) -> (r: usize)
        ensures
            r == self.dirty_seq().len(),
    {
        self.dirty.len()
    }

    /// Settle cell `i` to `Known(x)`: a no-op when it already is; `Invalid`
    /// when it is known to be the other value; otherwise record the change.
    pub fn reveal_cell(&mut self, i: usize, x: Square) -> (r: Result<(), SolverError>)
        requires
            old(self).wf(),
            i < old(self).len(),
        ensures
            final(self).wf(),
            final(self).hints_seq() == old(self).hints_seq(),
            final(self).runs_seq() == old(self).runs_seq(),
            final(self).init_seq() == old(self).init_seq(),
            old(self).dirty_seq().is_prefix_of(final(self).dirty_seq()),
            r is Ok <==> (old(self).cells_seq()[i as int] is Unknown
                || old(self).cells_seq()[i as int] == PartialSquare::Known(x)),
            r is Err ==> *final(self) == *old(self) && r == Err::<(), SolverError>(
                SolverError::Invalid,
            ),
            (r is Ok && old(self).cells_seq()[i as int] == PartialSquare::Known(x)) ==> *final(self)
                == *old(self),
            (r is Ok && old(self).cells_seq()[i as int] is Unknown) ==> {
                &&& final(self).cells_seq() == old(self).cells_seq().update(
                    i as int,
                    PartialSquare::Known(x),
                )
                &&& final(self).dirty_seq() == old(self).dirty_seq().push(i)
            },
    {
        match self.cells[i] {
            PartialSquare::Known(y) => {
                if y == x {
                    Ok(())
                } else {
                    Err(SolverError::Invalid)
                }
            },
            PartialSquare::Unknown => {
                self.cells.set(i, PartialSquare::Known(x));
                self.dirty.push(i);
                proof {
                    let pre = *old(self);
                    let post = *self;
                    lemma_row_unknowns_update(pre.cells_seq(), i as int, PartialSquare::Known(x));
                    assert(pre.cells_seq()[i as int] == pre.init_seq()[i as int] || pre
                        .dirty_seq()
                        .contains(i));
                    assert(!pre.dirty_seq().contains(i)) by {
                        if pre.dirty_seq().contains(i) {
                            let d = choose|d: int|
                                0 <= d < pre.dirty_seq().len() && pre.dirty_seq()[d] == i;
                            assert(pre.cells_seq()[pre.dirty_seq()[d] as int] is Known);
                        }
                    }
                    assert(post.dirty_seq().no_duplicates()) by {
                        assert forall|p: int, q: int|
                            0 <= p < post.dirty_seq().len() && 0 <= q < post.dirty_seq().len() && p
                                != q implies post.dirty_seq()[p] != post.dirty_seq()[q] by {
                            if p < post.dirty_seq().len() - 1 && q < post.dirty_seq().len() - 1 {
                                assert(pre.dirty_seq()[p] != pre.dirty_seq()[q]);
                            } else {
                                assert(pre.dirty_seq().contains(i) == false);
                                if p < pre.dirty_seq().len() {
                                    assert(pre.dirty_seq()[p] == post.dirty_seq()[p]);
                                    assert(pre.dirty_seq().contains(pre.dirty_seq()[p]));
                                }
                                if q < pre.dirty_seq().len() {
                                    assert(pre.dirty_seq()[q] == post.dirty_seq()[q]);
                                    assert(pre.dirty_seq().contains(pre.dirty_seq()[q]));
                                }
                            }
                        }
                    }
                    assert forall|p: usize| post.dirty_seq().contains(p) implies (pre
                        .dirty_seq()
                        .contains(p) || p == i) by {
                        let d = choose|d: int|
                            0 <= d < post.dirty_seq().len() && post.dirty_seq()[d] == p;
                        if d < pre.dirty_seq().len() {
                            assert(pre.dirty_seq()[d] == p);
                        }
                    }
                    assert forall|p: usize| pre.dirty_seq().contains(p) implies post
                        .dirty_seq()
                        .contains(p) by {
                        let d = choose|d: int|
                            0 <= d < pre.dirty_seq().len() && pre.dirty_seq()[d] == p;
                        assert(post.dirty_seq()[d] == p);
                    }
                    assert(post.dirty_seq()[post.dirty_seq().len() - 1] == i);
                    assert(post.dirty_seq().contains(i));
                    assert(post.wf());
                }
                Ok(())
            },
        }
    }

    /// Settle every cell in `[from, to)` to `Known(x)`.
    pub fn reveal_all(&mut self, from: usize, to: usize, x: Square) -> (r: Result<
        (),
        SolverError,
    >)
        requires
            old(self).wf(),
            to <= old(self).len(),
        ensures
            final(self).wf(),
            final(self).hints_seq() == old(self).hints_seq(),
            final(self).runs_seq() == old(self).runs_seq(),
            final(self).init_seq() == old(self).init_seq(),
            old(self).dirty_seq().is_prefix_of(final(self).dirty_seq()),
            cells_le(old(self).cells_seq(), final(self).cells_seq()),
            r is Err ==> r == Err::<(), SolverError>(SolverError::Invalid),
            r is Ok <==> (forall|p: int|
                from <= p < to ==> (#[trigger] old(self).cells_seq()[p]) is Unknown
                    || old(self).cells_seq()[p] == PartialSquare::Known(x)),
            r is Ok ==> (forall|p: int|
                from <= p < to
                    ==> #[trigger] final(self).cells_seq()[p] == PartialSquare::Known(x)),
            forall|p: int|
                0 <= p < old(self).len() && !(from <= p < to)
                    ==> #[trigger] final(self).cells_seq()[p] == old(self).cells_seq()[p],
            forall|p: int|
                from <= p < to ==> (#[trigger] final(self).cells_seq()[p] == old(
                    self,
                ).cells_seq()[p] || final(self).cells_seq()[p] == PartialSquare::Known(x)),
    {
        if from >= to {
            return Ok(());
        }
        let ghost pre = *self;
        let mut i = from;
        while i < to
            invariant
                pre == *old(self),
                from <= i <= to,
                to <= pre.len(),
                self.wf(),
                pre.wf(),
                self.hints_seq() == pre.hints_seq(),
                self.runs_seq() == pre.runs_seq(),
                self.init_seq() == pre.init_seq(),
                self.len() == pre.len(),
                pre.dirty_seq().is_prefix_of(self.dirty_seq()),
                forall|p: int|
                    from <= p < i ==> (#[trigger] pre.cells_seq()[p]) is Unknown
                        || pre.cells_seq()[p] == PartialSquare::Known(x),
                forall|p: int|
                    from <= p < i ==> #[trigger] self.cells_seq()[p] == PartialSquare::Known(x),
                forall|p: int|
                    0 <= p < pre.len() && !(from <= p < i) ==> #[trigger] self.cells_seq()[p]
                        == pre.cells_seq()[p],
            decreases to - i,
        {
            proof {
                assert(self.cells_seq()[i as int] == pre.cells_seq()[i as int]);
            }
            let res = self.reveal_cell(i, x);
            match res {
                Err(e) => {
                    proof {
                        assert(pre.cells_seq()[i as int] is Known
                            && pre.cells_seq()[i as int] != PartialSquare::Known(x));
                        assert(cells_le(pre.cells_seq(), self.cells_seq()));
                    }
                    return Err(e);
                },
                Ok(()) => (),
            }
            i += 1;
        }
        proof {
            assert(cells_le(pre.cells_seq(), self.cells_seq()));
        }
        Ok(())
    }

    /// Settle `[lo, hi)` as `Full` and tighten bracket `k` so that the run
    /// of length `hints[k]` must contain it; a contradicted cell or an
    /// infeasible bracket is `Invalid`.
    pub fn reveal_run(&mut self, k: usize, lo: usize, hi: usize) -> (r: Result<(), SolverError>)
        requires
            old(self).wf(),
            k < old(self).hints_seq().len(),
            lo <= hi,
            hi <= old(self).len(),
        ensures
            final(self).wf(),
            final(self).hints_seq() == old(self).hints_seq(),
            final(self).init_seq() == old(self).init_seq(),
            final(self).len() == old(self).len(),
            old(self).dirty_seq().is_prefix_of(final(self).dirty_seq()),
            cells_le(old(self).cells_seq(), final(self).cells_seq()),
            runs_le(old(self).runs_seq(), final(self).runs_seq()),
            r is Err ==> r == Err::<(), SolverError>(SolverError::Invalid),
            ({
                let h = old(self).hints_seq()[k as int] as int;
                let rk = old(self).runs_seq()[k as int];
                let new_lo: int = if hi - h > rk.lo {
                    hi - h
                } else {
                    rk.lo as int
                };
                let new_hi: int = if lo + h < rk.hi {
                    lo + h
                } else {
                    rk.hi as int
                };
                &&& (r is Ok <==> {
                    &&& forall|p: int|
                        lo <= p < hi ==> (#[trigger] old(self).cells_seq()[p]) is Unknown
                            || old(self).cells_seq()[p] == PartialSquare::Known(Square::Full)
                    &&& new_lo + h <= new_hi
                })
                &&& forall|p: int|
                    0 <= p < old(self).len() && !(lo <= p < hi)
                        ==> #[trigger] final(self).cells_seq()[p] == old(self).cells_seq()[p]
                &&& forall|p: int|
                    lo <= p < hi ==> (#[trigger] final(self).cells_seq()[p] == old(
                        self,
                    ).cells_seq()[p] || final(self).cells_seq()[p] == PartialSquare::Known(
                        Square::Full,
                    ))
                &&& forall|t: int|
                    0 <= t < old(self).runs_seq().len() && t != k
                        ==> #[trigger] final(self).runs_seq()[t] == old(self).runs_seq()[t]
                &&& (final(self).runs_seq()[k as int] == rk || (final(self).runs_seq()[
                    k as int
                ].lo == new_lo && final(self).runs_seq()[k as int].hi == new_hi))
                &&& r is Ok ==> {
                    &&& forall|p: int|
                        lo <= p < hi ==> #[trigger] final(self).cells_seq()[p]
                            == PartialSquare::Known(Square::Full)
                    &&& final(self).runs_seq()[k as int].lo == new_lo
                    &&& final(self).runs_seq()[k as int].hi == new_hi
                }
            }),
    {
        match self.reveal_all(lo, hi, Square::Full) {
            Err(e) => {
                proof {
                    assert forall|p: int| lo <= p < hi implies (#[trigger] self.cells_seq()[p]
                        == old(self).cells_seq()[p] || self.cells_seq()[p] == PartialSquare::Known(
                        Square::Full,
                    )) by {}
                }
                return Err(e);
            },
            Ok(()) => (),
        }
        let hnt = self.hints[k];
        let cand_lo: usize = if hi >= hnt {
            hi - hnt
        } else {
            0
        };
        let cand_hi: usize = if hnt <= self.cells.len() - lo {
            lo + hnt
        } else {
            self.runs[k].hi
        };
        let mut rk2 = self.runs[k];
        rk2.update(cand_lo, cand_hi);
        self.runs.set(k, rk2);
        if rk2.hi < hnt || rk2.lo > rk2.hi - hnt {
            return Err(SolverError::Invalid);
        }
        Ok(())
    }

    /// Surrender the view's parts: hints, brackets, cells, and the dirty
    /// positions.
    pub fn into_parts(self) -> (r: (Vec<usize>, Vec<PartialRun>, Vec<PartialSquare>, Vec<usize>))
        ensures
            r.0@ == self.hints_seq(),
            r.1@ == self.runs_seq(),
            r.2@ == self.cells_seq(),
            r.3@ == self.dirty_seq(),
    {
        (self.hints, self.runs, self.cells, self.dirty)
    }
}

/// A cell may be settled to `x` when it is unknown or already `x`.
pub open spec fn sq_compat(c: PartialSquare, x: Square) -> bool {
    c is Unknown || c == PartialSquare::Known(x)
}

proof fn lemma_cells_le_trans(a: Seq<PartialSquare>, b: Seq<PartialSquare>, c: Seq<PartialSquare>)
    requires
        cells_le(a, b),
        cells_le(b, c),
    ensures
        cells_le(a, c),
{
    assert forall|i: int| 0 <= i < a.len() implies sq_le(#[trigger] a[i], c[i]) by {
        assert(sq_le(a[i], b[i]));
        assert(sq_le(b[i], c[i]));
    }
}

proof fn lemma_prefix_trans<T>(a: Seq<T>, b: Seq<T>, c: Seq<T>)
    requires
        a.is_prefix_of(b),
        b.is_prefix_of(c),
    ensures
        a.is_prefix_of(c),
{
    assert(a =~= c.take(a.len() as int));
}

/// Gap region `t` of a line with `n` run brackets, for `0 <= t <= n`:
/// before the first bracket, between bracket `t - 1` and bracket `t`, or
/// after the last bracket.
pub open spec fn gap_region(runs: Seq<PartialRun>, len: int, t: int) -> (int, int) {
    if t == 0 {
        (0, runs[0].lo as int)
    } else if t == runs.len() {
        (runs[runs.len() - 1].hi as int, len)
    } else {
        (runs[t - 1].hi as int, runs[t].lo as int)
    }
}

pub open spec fn in_gap_region(runs: Seq<PartialRun>, len: int, t: int, p: int) -> bool {
    gap_region(runs, len, t).0 <= p < gap_region(runs, len, t).1
}

/// The cells that R2 settles empty: those outside every run's bracket.
pub open spec fn gap_cell(runs: Seq<PartialRun>, len: int, p: int) -> bool {
    if runs.len() == 0 {
        0 <= p < len
    } else {
        exists|t: int| 0 <= t <= runs.len() && #[trigger] in_gap_region(runs, len, t, p)
    }
}

/// The overlap rule is finished with the line: every bracket is feasible
/// and the cells all of a bracket's placements share are settled full.
pub open spec fn overlap_done(
    hints: Seq<usize>,
    len: int,
    cells: Seq<PartialSquare>,
    runs: Seq<PartialRun>,
) -> bool {
    forall|k: int|
        0 <= k < runs.len() ==> {
            let h = hints[k] as int;
            let rk = #[trigger] runs[k];
            &&& rk.lo + h <= rk.hi
            &&& forall|p: int|
                rk.hi - h <= p < rk.lo + h ==> cells[p] == PartialSquare::Known(Square::Full)
        }
}

/// Both shipped rules are finished with the line: the overlap rule's
/// brackets and fills are in place and every cell outside all brackets is
/// settled empty.  A pass over a line in this state reveals nothing new.
pub open spec fn line_saturated(
    hints: Seq<usize>,
    len: int,
    cells: Seq<PartialSquare>,
    runs: Seq<PartialRun>,
) -> bool {
    &&& overlap_done(hints, len, cells, runs)
    &&& forall|p: int|
        #[trigger] gap_cell(runs, len, p) ==> cells[p] == PartialSquare::Known(Square::Empty)
}

/// Which cells the gap-fill pass has handled so far: the tail region when
/// `tail` is set, and every region before `t`.
pub open spec fn gap_done(runs: Seq<PartialRun>, len: int, tail: bool, t: int, p: int) -> bool {
    ||| (tail && in_gap_region(runs, len, runs.len() as int, p))
    ||| exists|t2: int| 0 <= t2 < t && #[trigger] in_gap_region(runs, len, t2, p)
}

/// The gap-fill pass frame: handled cells were compatible and are settled
/// empty; unhandled cells are untouched.
pub open spec fn gap_frame(pre: PartialLine, cur: PartialLine, tail: bool, t: int) -> bool {
    &&& forall|p: int|
        #[trigger] gap_done(pre.runs_seq(), pre.len(), tail, t, p) ==> (sq_compat(
            pre.cells_seq()[p],
            Square::Empty,
        ) && cur.cells_seq()[p] == PartialSquare::Known(Square::Empty))
    &&& forall|p: int|
        0 <= p < pre.len() && !gap_done(pre.runs_seq(), pre.len(), tail, t, p)
            ==> #[trigger] cur.cells_seq()[p] == pre.cells_seq()[p]
}

/// The sweep behind R2: settle every gap region `Empty`, region by region.
fn gap_fill_pass(line: &mut PartialLine) -> (r: Result<(), SolverError>)
    requires
        old(line).wf(),
    ensures
        final(line).wf(),
        final(line).hints_seq() == old(line).hints_seq(),
        final(line).init_seq() == old(line).init_seq(),
        final(line).runs_seq() == old(line).runs_seq(),
        final(line).len() == old(line).len(),
        old(line).dirty_seq().is_prefix_of(final(line).dirty_seq()),
        cells_le(old(line).cells_seq(), final(line).cells_seq()),
        forall|p: int|
            0 <= p < old(line).len() ==> (#[trigger] final(line).cells_seq()[p] == old(
                line,
            ).cells_seq()[p] || final(line).cells_seq()[p] == PartialSquare::Known(Square::Empty)),
        r is Err ==> r == Err::<(), SolverError>(SolverError::Invalid),
        r is Ok <==> (forall|p: int|
            #[trigger] gap_cell(old(line).runs_seq(), old(line).len(), p) ==> sq_compat(
                old(line).cells_seq()[p],
                Square::Empty,
            )),
        r is Ok ==> (forall|p: int|
            #[trigger] gap_cell(old(line).runs_seq(), old(line).len(), p)
                ==> final(line).cells_seq()[p] == PartialSquare::Known(Square::Empty)),
        r is Ok ==> (forall|p: int|
            0 <= p < old(line).len() && !gap_cell(old(line).runs_seq(), old(line).len(), p)
                ==> #[trigger] final(line).cells_seq()[p] == old(line).cells_seq()[p]),
{
    let ghost pre = *line;
    let len = line.cells.len();
    let n = line.runs.len();
    if n == 0 {
        let res = line.reveal_all(0, len, Square::Empty);
        match res {
            Err(e) => {
                proof {
                    let p = choose|p: int|
                        0 <= p < len && !(pre.cells_seq()[p] is Unknown || pre.cells_seq()[p]
                            == PartialSquare::Known(Square::Empty));
                    assert(gap_cell(pre.runs_seq(), pre.len(), p));
                    assert(!sq_compat(pre.cells_seq()[p], Square::Empty));
                }
                Err(e)
            },
            Ok(()) => {
                proof {
                    assert forall|p: int|
                        #[trigger] gap_cell(pre.runs_seq(), pre.len(), p) implies sq_compat(
                        pre.cells_seq()[p],
                        Square::Empty,
                    ) && line.cells_seq()[p] == PartialSquare::Known(Square::Empty) by {
                        assert(0 <= p < len);
                    }
                }
                Ok(())
            },
        }
    } else {
        let hi_last = line.runs[n - 1].hi;
        let ghost before_tail = *line;
        match line.reveal_all(hi_last, len, Square::Empty) {
            Err(e) => {
                proof {
                    gap_err_from_region(pre, before_tail, false, 0, n as int);
                }
                return Err(e);
            },
            Ok(()) => (),
        }
        proof {
            assert(gap_frame(pre, *line, true, 0)) by {
                assert forall|p: int|
                    #[trigger] gap_done(pre.runs_seq(), pre.len(), true, 0, p) implies (sq_compat(
                    pre.cells_seq()[p],
                    Square::Empty,
                ) && line.cells_seq()[p] == PartialSquare::Known(Square::Empty)) by {
                    assert(in_gap_region(pre.runs_seq(), pre.len(), n as int, p));
                }
            }
        }
        let mut t: usize = 0;
        while t < n
            invariant
                pre == *old(line),
                n == pre.runs_seq().len(),
                n >= 1,
                t <= n,
                len == pre.len(),
                line.wf(),
                pre.wf(),
                line.hints_seq() == pre.hints_seq(),
                line.init_seq() == pre.init_seq(),
                line.runs_seq() == pre.runs_seq(),
                line.len() == pre.len(),
                pre.dirty_seq().is_prefix_of(line.dirty_seq()),
                cells_le(pre.cells_seq(), line.cells_seq()),
                forall|p: int|
                    0 <= p < pre.len() ==> (#[trigger] line.cells_seq()[p] == pre.cells_seq()[p]
                        || line.cells_seq()[p] == PartialSquare::Known(Square::Empty)),
                gap_frame(pre, *line, true, t as int),
            decreases n - t,
        {
            let from = if t == 0 {
                0
            } else {
                line.runs[t - 1].hi
            };
            let to = line.runs[t].lo;
            let ghost before = *line;
            match line.reveal_all(from, to, Square::Empty) {
                Err(e) => {
                    proof {
                        gap_err_from_region(pre, before, true, t as int, t as int);
                    }
                    return Err(e);
                },
                Ok(()) => (),
            }
            proof {
                lemma_cells_le_trans(pre.cells_seq(), before.cells_seq(), line.cells_seq());
                lemma_prefix_trans(pre.dirty_seq(), before.dirty_seq(), line.dirty_seq());
                assert(gap_frame(pre, *line, true, t as int + 1)) by {
                    assert forall|p: int|
                        #[trigger] gap_done(pre.runs_seq(), pre.len(), true, t as int + 1, p)
                        implies (sq_compat(pre.cells_seq()[p], Square::Empty)
                        && line.cells_seq()[p] == PartialSquare::Known(Square::Empty)) by {
                        if gap_done(pre.runs_seq(), pre.len(), true, t as int, p) {
                            assert(!(from <= p < to) ==> line.cells_seq()[p]
                                == before.cells_seq()[p]);
                        } else {
                            let t2 = choose|t2: int|
                                0 <= t2 < t as int + 1 && #[trigger] in_gap_region(
                                    pre.runs_seq(),
                                    pre.len(),
                                    t2,
                                    p,
                                );
                            assert(t2 == t as int);
                            assert(from <= p < to);
                            assert(before.cells_seq()[p] == pre.cells_seq()[p]);
                        }
                    }
                    assert forall|p: int|
                        0 <= p < pre.len() && !gap_done(pre.runs_seq(), pre.len(), true, t as int + 1, p)
                        implies #[trigger] line.cells_seq()[p] == pre.cells_seq()[p] by {
                        assert(!in_gap_region(pre.runs_seq(), pre.len(), t as int, p));
                        assert(!(from <= p < to));
                        assert(!gap_done(pre.runs_seq(), pre.len(), true, t as int, p));
                    }
                }
            }
            t += 1;
        }
        proof {
            assert forall|p: int|
                #[trigger] gap_cell(pre.runs_seq(), pre.len(), p) implies (sq_compat(
                pre.cells_seq()[p],
                Square::Empty,
            ) && line.cells_seq()[p] == PartialSquare::Known(Square::Empty)) by {
                let t2 = choose|t2: int|
                    0 <= t2 <= pre.runs_seq().len() && #[trigger] in_gap_region(
                        pre.runs_seq(),
                        pre.len(),
                        t2,
                        p,
                    );
                assert(gap_done(pre.runs_seq(), pre.len(), true, n as int, p));
            }
            assert forall|p: int|
                0 <= p < pre.len() && !gap_cell(pre.runs_seq(), pre.len(), p)
                implies #[trigger] line.cells_seq()[p] == pre.cells_seq()[p] by {
                assert(!gap_done(pre.runs_seq(), pre.len(), true, n as int, p)) by {
                    if gap_done(pre.runs_seq(), pre.len(), true, n as int, p) {
                        if in_gap_region(pre.runs_seq(), pre.len(), n as int, p) {
                            assert(gap_cell(pre.runs_seq(), pre.len(), p));
                        } else {
                            let t2 = choose|t2: int|
                                0 <= t2 < n as int && #[trigger] in_gap_region(
                                    pre.runs_seq(),
                                    pre.len(),
                                    t2,
                                    p,
                                );
                            assert(gap_cell(pre.runs_seq(), pre.len(), p));
                        }
                    }
                }
            }
        }
        Ok(())
    }
}

/// R2 — gap fill: every cell outside every run's permitted bracket is
/// settled `Empty`; with no hints the whole line is settled `Empty`.
/// `Invalid` is reported only when the line admits no placement: every
/// placement the old knowledge admitted still stands afterwards.
pub fn deduce_run_gaps(line: &mut PartialLine) -> (r: Result<(), SolverError>)
    requires
        old(line).wf(),
    ensures
        final(line).wf(),
        final(line).hints_seq() == old(line).hints_seq(),
        final(line).init_seq() == old(line).init_seq(),
        final(line).runs_seq() == old(line).runs_seq(),
        final(line).len() == old(line).len(),
        old(line).dirty_seq().is_prefix_of(final(line).dirty_seq()),
        cells_le(old(line).cells_seq(), final(line).cells_seq()),
        forall|p: int|
            0 <= p < old(line).len() ==> (#[trigger] final(line).cells_seq()[p] == old(
                line,
            ).cells_seq()[p] || final(line).cells_seq()[p] == PartialSquare::Known(Square::Empty)),
        r is Err ==> r == Err::<(), SolverError>(SolverError::Invalid),
        r is Ok <==> (forall|p: int|
            #[trigger] gap_cell(old(line).runs_seq(), old(line).len(), p) ==> sq_compat(
                old(line).cells_seq()[p],
                Square::Empty,
            )),
        r is Ok ==> (forall|p: int|
            #[trigger] gap_cell(old(line).runs_seq(), old(line).len(), p)
                ==> final(line).cells_seq()[p] == PartialSquare::Known(Square::Empty)),
        r is Ok ==> (forall|p: int|
            0 <= p < old(line).len() && !gap_cell(old(line).runs_seq(), old(line).len(), p)
                ==> #[trigger] final(line).cells_seq()[p] == old(line).cells_seq()[p]),
        r is Ok ==> (forall|starts: Seq<int>|
            line_admits(
                old(line).hints_seq(),
                old(line).len(),
                old(line).cells_seq(),
                old(line).runs_seq(),
                starts,
            ) ==> #[trigger] line_admits(
                old(line).hints_seq(),
                old(line).len(),
                final(line).cells_seq(),
                final(line).runs_seq(),
                starts,
            )),
        r is Err ==> !(exists|starts: Seq<int>|
            #[trigger] line_admits(
                old(line).hints_seq(),
                old(line).len(),
                old(line).cells_seq(),
                old(line).runs_seq(),
                starts,
            )),
{
    let ghost pre = *line;
    let r = gap_fill_pass(line);
    proof {
        let hints = pre.hints_seq();
        let len = pre.len();
        let cells = pre.cells_seq();
        let runs = pre.runs_seq();
        if r is Ok {
            assert forall|starts: Seq<int>|
                line_admits(hints, len, cells, runs, starts) implies #[trigger] line_admits(
                hints,
                len,
                line.cells_seq(),
                line.runs_seq(),
                starts,
            ) by {
                assert forall|p: int| 0 <= p < line.cells_seq().len() implies {
                    &&& ((#[trigger] line.cells_seq()[p]) == PartialSquare::Known(Square::Full)
                        ==> covered(hints, starts, p))
                    &&& (line.cells_seq()[p] == PartialSquare::Known(Square::Empty) ==> !covered(
                        hints,
                        starts,
                        p,
                    ))
                } by {
                    if gap_cell(runs, len, p) {
                        lemma_gap_fill_sound(hints, len, starts, runs, p);
                    } else {
                        assert(line.cells_seq()[p] == cells[p]);
                    }
                }
            }
        } else {
            assert_by_contradiction!(!(exists|starts: Seq<int>|
                #[trigger] line_admits(hints, len, cells, runs, starts)), {
                let starts = choose|starts: Seq<int>| line_admits(hints, len, cells, runs, starts);
                let p = choose|p: int|
                    #[trigger] gap_cell(runs, len, p) && !sq_compat(cells[p], Square::Empty);
                assert(0 <= p < len) by {
                    if runs.len() > 0 {
                        let t = choose|t: int|
                            0 <= t <= runs.len() && #[trigger] in_gap_region(runs, len, t, p);
                        assert(runs[0].lo <= len && runs[runs.len() - 1].hi <= len);
                        if 0 < t < runs.len() {
                            assert(runs[t as int].lo <= len);
                        }
                    }
                }
                assert(cells[p] == PartialSquare::Known(Square::Full));
                assert(covered(hints, starts, p));
                lemma_gap_fill_sound(hints, len, starts, runs, p);
            });
        }
    }
    r
}

/// When a gap region's sweep hits a conflict, some gap cell of the line as
/// it was when the rule started had already been settled the other way.
proof fn gap_err_from_region(pre: PartialLine, cur: PartialLine, tail: bool, t: int, region: int)
    requires
        pre.wf(),
        cur.wf(),
        pre.runs_seq().len() >= 1,
        0 <= region <= pre.runs_seq().len(),
        cur.len() == pre.len(),
        cur.runs_seq() == pre.runs_seq(),
        cells_le(pre.cells_seq(), cur.cells_seq()),
        gap_frame(pre, cur, tail, t),
        !(forall|p: int|
            gap_region(pre.runs_seq(), pre.len(), region).0 <= p < gap_region(
                pre.runs_seq(),
                pre.len(),
                region,
            ).1 ==> (#[trigger] cur.cells_seq()[p]) is Unknown || cur.cells_seq()[p]
                == PartialSquare::Known(Square::Empty)),
        gap_region(pre.runs_seq(), pre.len(), region).1 <= pre.len(),
    ensures
        !(forall|p: int|
            #[trigger] gap_cell(pre.runs_seq(), pre.len(), p) ==> sq_compat(
                pre.cells_seq()[p],
                Square::Empty,
            )),
{
    let runs = pre.runs_seq();
    let len = pre.len();
    let p = choose|p: int|
        gap_region(runs, len, region).0 <= p < gap_region(runs, len, region).1 && !((
        #[trigger] cur.cells_seq()[p]) is Unknown || cur.cells_seq()[p] == PartialSquare::Known(
            Square::Empty,
        ));
    assert(in_gap_region(runs, len, region, p));
    assert(gap_cell(runs, len, p));
    assert(0 <= p < len);
    if gap_done(runs, len, tail, t, p) {
        assert(cur.cells_seq()[p] == PartialSquare::Known(Square::Empty));
        assert(false);
    } else {
        assert(cur.cells_seq()[p] == pre.cells_seq()[p]);
        assert(!sq_compat(pre.cells_seq()[p], Square::Empty));
    }
}

/// Where run `i` starts when every run is packed leftmost.
pub open spec fn left_edge(hints: Seq<usize>, i: int) -> int
    decreases i,
{
    if i <= 0 {
        0
    } else {
        left_edge(hints, i - 1) + hints[i - 1] + 1
    }
}

/// The least start the order pass forces on run `t`, clamped to the line.
pub open spec fn lo_floor(hints: Seq<usize>, len: int, t: int) -> int {
    if left_edge(hints, t) < len {
        left_edge(hints, t)
    } else {
        len
    }
}

proof fn lemma_left_edge_span(hints: Seq<usize>, i: int)
    requires
        0 <= i < hints.len(),
    ensures
        left_edge(hints, i) + hints[i] == line_span(hints.take(i + 1)),
    decreases i,
{
    lemma_hint_sum_take_step(hints, i);
    if i == 0 {
        assert(hints.take(0) =~= Seq::<usize>::empty());
    } else {
        lemma_left_edge_span(hints, i - 1);
        lemma_hint_sum_take_step(hints, i - 1);
    }
}

/// Every placement the line's knowledge admits lies inside `runs`.
spec fn brackets_admit(pre: PartialLine, runs: Seq<PartialRun>) -> bool {
    forall|starts: Seq<int>|
        line_admits(pre.hints_seq(), pre.len(), pre.cells_seq(), pre.runs_seq(), starts)
            ==> #[trigger] placement_in_brackets(pre.hints_seq(), starts, runs)
}

/// R1 — overlap: refine each run's bracket against the current line
/// (runs keep their order with a separating cell, a bracket never starts
/// or ends on a settled-empty cell, and a full cell only one bracket can
/// cover pins that run down), then settle the cells that every remaining
/// placement of a run covers.  An empty bracket is a contradiction, and
/// `Invalid` is reported only when the line admits no placement; in
/// particular, hints that cannot fit the line (negative slack) never
/// pass, since the order pass alone then empties a bracket.
#[verifier::rlimit(100)]
#[verifier::spinoff_prover]
pub fn deduce_overlap(line: &mut PartialLine) -> (r: Result<(), SolverError>)
    requires
        old(line).wf(),
    ensures
        final(line).wf(),
        final(line).hints_seq() == old(line).hints_seq(),
        final(line).init_seq() == old(line).init_seq(),
        final(line).len() == old(line).len(),
        old(line).dirty_seq().is_prefix_of(final(line).dirty_seq()),
        cells_le(old(line).cells_seq(), final(line).cells_seq()),
        runs_le(old(line).runs_seq(), final(line).runs_seq()),
        forall|p: int|
            0 <= p < old(line).len() ==> (#[trigger] final(line).cells_seq()[p] == old(
                line,
            ).cells_seq()[p] || final(line).cells_seq()[p] == PartialSquare::Known(Square::Full)),
        r is Err ==> r == Err::<(), SolverError>(SolverError::Invalid),
        r is Ok ==> forall|k: int|
            0 <= k < final(line).runs_seq().len() ==> {
                let h = final(line).hints_seq()[k] as int;
                let rk = #[trigger] final(line).runs_seq()[k];
                &&& rk.lo + h <= rk.hi
                &&& forall|p: int|
                    rk.hi - h <= p < rk.lo + h ==> final(line).cells_seq()[p]
                        == PartialSquare::Known(Square::Full)
            },
        hints_pos(old(line).hints_seq()) && r is Ok ==> line_span(old(line).hints_seq()) <= old(
            line,
        ).len(),
        hints_pos(old(line).hints_seq()) ==> {
            &&& (r is Ok ==> forall|starts: Seq<int>|
                line_admits(
                    old(line).hints_seq(),
                    old(line).len(),
                    old(line).cells_seq(),
                    old(line).runs_seq(),
                    starts,
                ) ==> #[trigger] line_admits(
                    old(line).hints_seq(),
                    old(line).len(),
                    final(line).cells_seq(),
                    final(line).runs_seq(),
                    starts,
                ))
            &&& (r is Err ==> !(exists|starts: Seq<int>|
                #[trigger] line_admits(
                    old(line).hints_seq(),
                    old(line).len(),
                    old(line).cells_seq(),
                    old(line).runs_seq(),
                    starts,
                )))
        },
{
    let ghost pre = *line;
    let n = line.hints.len();
    let len = line.cells.len();
    proof {
        assert(pre.dirty_seq().is_prefix_of(pre.dirty_seq())) by {
            assert(pre.dirty_seq() =~= pre.dirty_seq().take(pre.dirty_seq().len() as int));
        }
        assert(cells_le(pre.cells_seq(), pre.cells_seq()));
        assert(runs_le(pre.runs_seq(), pre.runs_seq()));
        assert(brackets_admit(pre, pre.runs_seq()));
    }
    // Order and leading-empty pass, left to right: a run starts after the
    // previous run and its separator, and never on an empty cell.
    let mut k: usize = 0;
    while k < n
        invariant
            pre == *old(line),
            pre.wf(),
            k <= n,
            n == pre.hints_seq().len(),
            len == pre.len(),
            line.wf(),
            *line == (PartialLine { runs: line.runs, ..pre }),
            runs_le(pre.runs_seq(), line.runs_seq()),
            hints_pos(pre.hints_seq()) ==> brackets_admit(pre, line.runs_seq()),
            forall|t: int|
                0 <= t < k ==> (#[trigger] line.runs_seq()[t]).lo >= lo_floor(
                    pre.hints_seq(),
                    len as int,
                    t,
                ),
        decreases n - k,
    {
        if k > 0 {
            let prev = line.runs[k - 1];
            let hprev = line.hints[k - 1];
            let cand: usize = if prev.lo < len && hprev < len - prev.lo {
                prev.lo + hprev + 1
            } else {
                len
            };
            let cur = line.runs[k];
            proof {
                if left_edge(pre.hints_seq(), k as int) >= len {
                    assert(lo_floor(pre.hints_seq(), len as int, k as int) == len);
                } else {
                    assert(lo_floor(pre.hints_seq(), len as int, k as int) == left_edge(
                        pre.hints_seq(),
                        k as int,
                    ));
                }
                if !(prev.lo < len && hprev < len - prev.lo) {
                    assert(cand == len);
                } else {
                    assert(cand == prev.lo + hprev + 1);
                    assert(prev.lo >= lo_floor(pre.hints_seq(), len as int, k - 1));
                    if left_edge(pre.hints_seq(), k - 1) < len {
                        assert(cand >= left_edge(pre.hints_seq(), k as int));
                    } else {
                        assert(prev.lo >= len);
                        assert(false);
                    }
                }
                assert(cand >= lo_floor(pre.hints_seq(), len as int, k as int));
            }
            if cand > cur.lo {
                let ghost runs0 = line.runs_seq();
                line.runs.set(k, PartialRun { lo: cand, hi: cur.hi });
                proof {
                    if hints_pos(pre.hints_seq()) {
                        assert forall|starts: Seq<int>|
                            line_admits(
                                pre.hints_seq(),
                                pre.len(),
                                pre.cells_seq(),
                                pre.runs_seq(),
                                starts,
                            ) implies #[trigger] placement_in_brackets(
                            pre.hints_seq(),
                            starts,
                            line.runs_seq(),
                        ) by {
                            assert(placement_in_brackets(pre.hints_seq(), starts, runs0));
                            assert(starts[k - 1] >= runs0[k - 1].lo);
                            assert(starts[k as int] >= starts[k - 1] + (pre.hints_seq()[k
                                - 1] as int) + 1);
                            if !(prev.lo < len && hprev < len - prev.lo) {
                                assert(starts[k as int] + (pre.hints_seq()[k as int] as int)
                                    <= len);
                                assert(false);
                            }
                            assert(starts[k as int] >= cand);
                        }
                    }
                }
            }
        }
        loop
            invariant
                pre == *old(line),
                pre.wf(),
                k < n,
                n == pre.hints_seq().len(),
                len == pre.len(),
                line.wf(),
                *line == (PartialLine { runs: line.runs, ..pre }),
                runs_le(pre.runs_seq(), line.runs_seq()),
                hints_pos(pre.hints_seq()) ==> brackets_admit(pre, line.runs_seq()),
                forall|t: int|
                    0 <= t < k ==> (#[trigger] line.runs_seq()[t]).lo >= lo_floor(
                        pre.hints_seq(),
                        len as int,
                        t,
                    ),
                line.runs_seq()[k as int].lo >= lo_floor(pre.hints_seq(), len as int, k as int),
            decreases len - line.runs_seq()[k as int].lo,
        {
            let cur = line.runs[k];
            if cur.lo < cur.hi {
                match line.cells[cur.lo] {
                    PartialSquare::Known(Square::Empty) => {
                        let ghost runs0 = line.runs_seq();
                        line.runs.set(k, PartialRun { lo: cur.lo + 1, hi: cur.hi });
                        proof {
                            if hints_pos(pre.hints_seq()) {
                                assert forall|starts: Seq<int>|
                                    line_admits(
                                        pre.hints_seq(),
                                        pre.len(),
                                        pre.cells_seq(),
                                        pre.runs_seq(),
                                        starts,
                                    ) implies #[trigger] placement_in_brackets(
                                    pre.hints_seq(),
                                    starts,
                                    line.runs_seq(),
                                ) by {
                                    assert(placement_in_brackets(pre.hints_seq(), starts, runs0));
                                    assert(starts[k as int] >= runs0[k as int].lo);
                                    if starts[k as int] == cur.lo {
                                        assert(pre.hints_seq()[k as int] >= 1);
                                        assert(starts[k as int] <= cur.lo < starts[k as int] + (
                                        pre.hints_seq()[k as int] as int));
                                        assert(covered(pre.hints_seq(), starts, cur.lo as int));
                                        assert(pre.cells_seq()[cur.lo as int]
                                            == PartialSquare::Known(Square::Empty));
                                        assert(false);
                                    }
                                }
                            }
                        }
                    },
                    _ => {
                        break ;
                    },
                }
            } else {
                break ;
            }
        }
        k += 1;
    }
    // Order and trailing-empty pass, right to left: a run ends before the
    // next run and its separator, and never on an empty cell.
    let mut kb: usize = n;
    while kb > 0
        invariant
            pre == *old(line),
            pre.wf(),
            kb <= n,
            n == pre.hints_seq().len(),
            len == pre.len(),
            line.wf(),
            *line == (PartialLine { runs: line.runs, ..pre }),
            runs_le(pre.runs_seq(), line.runs_seq()),
            hints_pos(pre.hints_seq()) ==> brackets_admit(pre, line.runs_seq()),
            forall|t: int|
                0 <= t < n ==> (#[trigger] line.runs_seq()[t]).lo >= lo_floor(
                    pre.hints_seq(),
                    len as int,
                    t,
                ),
        decreases kb,
    {
        let k2 = kb - 1;
        if k2 + 1 < n {
            let nxt = line.runs[k2 + 1];
            let hnxt = line.hints[k2 + 1];
            let cand: usize = if nxt.hi > hnxt && nxt.hi - hnxt >= 1 {
                nxt.hi - hnxt - 1
            } else {
                0
            };
            let cur = line.runs[k2];
            if cand < cur.hi {
                let ghost runs0 = line.runs_seq();
                line.runs.set(k2, PartialRun { lo: cur.lo, hi: cand });
                proof {
                    if hints_pos(pre.hints_seq()) {
                        assert forall|starts: Seq<int>|
                            line_admits(
                                pre.hints_seq(),
                                pre.len(),
                                pre.cells_seq(),
                                pre.runs_seq(),
                                starts,
                            ) implies #[trigger] placement_in_brackets(
                            pre.hints_seq(),
                            starts,
                            line.runs_seq(),
                        ) by {
                            assert(placement_in_brackets(pre.hints_seq(), starts, runs0));
                            assert(starts[k2 + 1] + (pre.hints_seq()[k2 + 1] as int) <= runs0[k2
                                + 1].hi);
                            assert(starts[k2 + 1] >= starts[k2 as int] + (pre.hints_seq()[
                                k2 as int
                            ] as int) + 1);
                            assert(starts[k2 as int] >= 0);
                            if !(nxt.hi > hnxt && nxt.hi - hnxt >= 1) {
                                assert(false);
                            }
                            assert(starts[k2 as int] + (pre.hints_seq()[k2 as int] as int)
                                <= cand);
                        }
                    }
                }
            }
        }
        loop
            invariant
                pre == *old(line),
                pre.wf(),
                k2 < n,
                n == pre.hints_seq().len(),
                len == pre.len(),
                line.wf(),
                *line == (PartialLine { runs: line.runs, ..pre }),
                runs_le(pre.runs_seq(), line.runs_seq()),
                hints_pos(pre.hints_seq()) ==> brackets_admit(pre, line.runs_seq()),
                forall|t: int|
                    0 <= t < n ==> (#[trigger] line.runs_seq()[t]).lo >= lo_floor(
                        pre.hints_seq(),
                        len as int,
                        t,
                    ),
            decreases line.runs_seq()[k2 as int].hi,
        {
            let cur = line.runs[k2];
            if cur.hi > cur.lo {
                match line.cells[cur.hi - 1] {
                    PartialSquare::Known(Square::Empty) => {
                        let ghost runs0 = line.runs_seq();
                        line.runs.set(k2, PartialRun { lo: cur.lo, hi: cur.hi - 1 });
                        proof {
                            if hints_pos(pre.hints_seq()) {
                                assert forall|starts: Seq<int>|
                                    line_admits(
                                        pre.hints_seq(),
                                        pre.len(),
                                        pre.cells_seq(),
                                        pre.runs_seq(),
                                        starts,
                                    ) implies #[trigger] placement_in_brackets(
                                    pre.hints_seq(),
                                    starts,
                                    line.runs_seq(),
                                ) by {
                                    assert(placement_in_brackets(pre.hints_seq(), starts, runs0));
                                    let h2 = pre.hints_seq()[k2 as int] as int;
                                    assert(starts[k2 as int] + h2 <= runs0[k2 as int].hi);
                                    if starts[k2 as int] + h2 == cur.hi {
                                        assert(h2 >= 1);
                                        assert(starts[k2 as int] <= cur.hi - 1 < starts[k2 as int]
                                            + h2);
                                        assert(covered(pre.hints_seq(), starts, cur.hi - 1));
                                        assert(pre.cells_seq()[cur.hi - 1]
                                            == PartialSquare::Known(Square::Empty));
                                        assert(false);
                                    }
                                }
                            }
                        }
                    },
                    _ => {
                        break ;
                    },
                }
            } else {
                break ;
            }
        }
        kb -= 1;
    }
    // Containment pass: a full cell that exactly one bracket covers must
    // belong to that run, which therefore reaches at most a run's length
    // to either side of it.
    let mut p: usize = 0;
    while p < len
        invariant
            pre == *old(line),
            pre.wf(),
            p <= len,
            n == pre.hints_seq().len(),
            len == pre.len(),
            line.wf(),
            *line == (PartialLine { runs: line.runs, ..pre }),
            runs_le(pre.runs_seq(), line.runs_seq()),
            hints_pos(pre.hints_seq()) ==> brackets_admit(pre, line.runs_seq()),
            forall|t: int|
                0 <= t < n ==> (#[trigger] line.runs_seq()[t]).lo >= lo_floor(
                    pre.hints_seq(),
                    len as int,
                    t,
                ),
        decreases len - p,
    {
        let is_full = match line.cells[p] {
            PartialSquare::Known(Square::Full) => true,
            _ => false,
        };
        if is_full {
            let mut count: usize = 0;
            let mut owner: usize = 0;
            let mut k3: usize = 0;
            while k3 < n
                invariant
                    k3 <= n,
                    count <= k3,
                    count >= 1 ==> owner < k3,
                    n == line.runs_seq().len(),
                    count == 0 ==> forall|t: int|
                        0 <= t < k3 ==> !((#[trigger] line.runs_seq()[t]).lo <= p
                            && (p as int) < line.runs_seq()[t].hi),
                    count == 1 ==> (line.runs_seq()[owner as int].lo <= p && (p as int)
                        < line.runs_seq()[owner as int].hi && (forall|t: int|
                        0 <= t < k3 && t != owner ==> !((#[trigger] line.runs_seq()[t]).lo <= p
                            && (p as int) < line.runs_seq()[t].hi))),
                decreases n - k3,
            {
                let c = line.runs[k3];
                if c.lo <= p && p < c.hi {
                    count += 1;
                    owner = k3;
                }
                k3 += 1;
            }
            if count == 1 {
                let h = line.hints[owner];
                let cur = line.runs[owner];
                let lo_cand: usize = if p + 1 > h {
                    p + 1 - h
                } else {
                    0
                };
                let new_lo = if lo_cand > cur.lo {
                    lo_cand
                } else {
                    cur.lo
                };
                let new_hi = if h < len - p && p + h < cur.hi {
                    p + h
                } else {
                    cur.hi
                };
                let ghost runs0 = line.runs_seq();
                line.runs.set(owner, PartialRun { lo: new_lo, hi: new_hi });
                proof {
                    if hints_pos(pre.hints_seq()) {
                        assert forall|starts: Seq<int>|
                            line_admits(
                                pre.hints_seq(),
                                pre.len(),
                                pre.cells_seq(),
                                pre.runs_seq(),
                                starts,
                            ) implies #[trigger] placement_in_brackets(
                            pre.hints_seq(),
                            starts,
                            line.runs_seq(),
                        ) by {
                            assert(placement_in_brackets(pre.hints_seq(), starts, runs0));
                            assert(pre.cells_seq()[p as int] == PartialSquare::Known(Square::Full));
                            assert(covered(pre.hints_seq(), starts, p as int));
                            let kk = choose|kk: int|
                                0 <= kk < starts.len() && #[trigger] starts[kk] <= p < starts[kk]
                                    + (pre.hints_seq()[kk] as int);
                            assert(runs0[kk].lo <= starts[kk]);
                            assert(starts[kk] + (pre.hints_seq()[kk] as int) <= runs0[kk].hi);
                            assert(runs0[kk].lo <= p && (p as int) < runs0[kk].hi);
                            assert(kk == owner as int);
                            assert(starts[kk] >= p + 1 - (pre.hints_seq()[kk] as int));
                            assert(starts[kk] >= new_lo);
                            assert(starts[kk] + (pre.hints_seq()[kk] as int) <= p + (
                            pre.hints_seq()[kk] as int));
                            assert(starts[kk] + (pre.hints_seq()[kk] as int) <= new_hi);
                        }
                    }
                }
            }
        }
        p += 1;
    }
    // Feasibility and fill pass: an empty bracket means no placement is
    // left; otherwise every placement covers the bracket's middle.
    let mut k4: usize = 0;
    while k4 < n
        invariant
            pre == *old(line),
            pre.wf(),
            k4 <= n,
            n == pre.hints_seq().len(),
            len == pre.len(),
            line.wf(),
            line.hints_seq() == pre.hints_seq(),
            line.init_seq() == pre.init_seq(),
            line.len() == pre.len(),
            pre.dirty_seq().is_prefix_of(line.dirty_seq()),
            cells_le(pre.cells_seq(), line.cells_seq()),
            runs_le(pre.runs_seq(), line.runs_seq()),
            forall|q: int|
                0 <= q < pre.len() ==> (#[trigger] line.cells_seq()[q] == pre.cells_seq()[q]
                    || line.cells_seq()[q] == PartialSquare::Known(Square::Full)),
            hints_pos(pre.hints_seq()) ==> brackets_admit(pre, line.runs_seq()),
            forall|t: int|
                0 <= t < n ==> (#[trigger] line.runs_seq()[t]).lo >= lo_floor(
                    pre.hints_seq(),
                    len as int,
                    t,
                ),
            hints_pos(pre.hints_seq()) ==> forall|starts: Seq<int>|
                line_admits(pre.hints_seq(), pre.len(), pre.cells_seq(), pre.runs_seq(), starts)
                    ==> #[trigger] cells_admit(line.cells_seq(), pre.hints_seq(), starts),
            forall|t: int|
                0 <= t < k4 ==> {
                    let h = line.hints_seq()[t] as int;
                    let rk = #[trigger] line.runs_seq()[t];
                    &&& rk.lo + h <= rk.hi
                    &&& forall|q: int|
                        rk.hi - h <= q < rk.lo + h ==> line.cells_seq()[q]
                            == PartialSquare::Known(Square::Full)
                },
        decreases n - k4,
    {
        let cur = line.runs[k4];
        let h = line.hints[k4];
        if cur.hi < h || cur.lo > cur.hi - h {
            proof {
                if hints_pos(pre.hints_seq()) {
                    assert_by_contradiction!(!(exists|starts: Seq<int>|
                        #[trigger] line_admits(
                            pre.hints_seq(),
                            pre.len(),
                            pre.cells_seq(),
                            pre.runs_seq(),
                            starts,
                        )), {
                        let starts = choose|starts: Seq<int>|
                            line_admits(
                                pre.hints_seq(),
                                pre.len(),
                                pre.cells_seq(),
                                pre.runs_seq(),
                                starts,
                            );
                        assert(placement_in_brackets(pre.hints_seq(), starts, line.runs_seq()));
                        assert(starts[k4 as int] >= cur.lo);
                        assert(starts[k4 as int] + (h as int) <= cur.hi);
                        assert(starts[k4 as int] >= 0);
                    });
                }
            }
            return Err(SolverError::Invalid);
        }
        let start = cur.hi - h;
        let end = cur.lo + h;
        if start < end {
            let ghost before = *line;
            match line.reveal_run(k4, start, end) {
                Err(e) => {
                    proof {
                        lemma_cells_le_trans(pre.cells_seq(), before.cells_seq(), line.cells_seq());
                        lemma_prefix_trans(pre.dirty_seq(), before.dirty_seq(), line.dirty_seq());
                        assert forall|t2: int| 0 <= t2 < pre.runs_seq().len() implies run_le(
                            #[trigger] pre.runs_seq()[t2],
                            line.runs_seq()[t2],
                        ) by {
                            assert(run_le(pre.runs_seq()[t2], before.runs_seq()[t2]));
                            assert(run_le(before.runs_seq()[t2], line.runs_seq()[t2]));
                        }
                        if hints_pos(pre.hints_seq()) {
                            assert_by_contradiction!(!(exists|starts: Seq<int>|
                                #[trigger] line_admits(
                                    pre.hints_seq(),
                                    pre.len(),
                                    pre.cells_seq(),
                                    pre.runs_seq(),
                                    starts,
                                )), {
                                let starts = choose|starts: Seq<int>|
                                    line_admits(
                                        pre.hints_seq(),
                                        pre.len(),
                                        pre.cells_seq(),
                                        pre.runs_seq(),
                                        starts,
                                    );
                                assert(placement_in_brackets(
                                    pre.hints_seq(),
                                    starts,
                                    before.runs_seq(),
                                ));
                                assert(cells_admit(before.cells_seq(), pre.hints_seq(), starts));
                                let q = choose|q: int|
                                    (start as int) <= q < end && !((
                                    #[trigger] before.cells_seq()[q]) is Unknown
                                        || before.cells_seq()[q] == PartialSquare::Known(
                                        Square::Full,
                                    ));
                                assert(before.cells_seq()[q] == PartialSquare::Known(
                                    Square::Empty,
                                ));
                                lemma_overlap_fill_sound(
                                    pre.hints_seq(),
                                    len as int,
                                    starts,
                                    before.runs_seq(),
                                    k4 as int,
                                    q,
                                );
                                assert(covered(pre.hints_seq(), starts, q));
                                assert(0 <= q < before.cells_seq().len());
                            });
                        }
                    }
                    return Err(e);
                },
                Ok(()) => (),
            }
            proof {
                lemma_cells_le_trans(pre.cells_seq(), before.cells_seq(), line.cells_seq());
                lemma_prefix_trans(pre.dirty_seq(), before.dirty_seq(), line.dirty_seq());
                assert forall|t2: int| 0 <= t2 < pre.runs_seq().len() implies run_le(
                    #[trigger] pre.runs_seq()[t2],
                    line.runs_seq()[t2],
                ) by {
                    assert(run_le(pre.runs_seq()[t2], before.runs_seq()[t2]));
                    assert(run_le(before.runs_seq()[t2], line.runs_seq()[t2]));
                }
                assert(line.runs_seq()[k4 as int] == before.runs_seq()[k4 as int]);
                assert(line.runs_seq() =~= before.runs_seq());
                if hints_pos(pre.hints_seq()) {
                    assert forall|starts: Seq<int>|
                        line_admits(
                            pre.hints_seq(),
                            pre.len(),
                            pre.cells_seq(),
                            pre.runs_seq(),
                            starts,
                        ) implies #[trigger] cells_admit(
                        line.cells_seq(),
                        pre.hints_seq(),
                        starts,
                    ) by {
                        assert(cells_admit(before.cells_seq(), pre.hints_seq(), starts));
                        assert(placement_in_brackets(pre.hints_seq(), starts, before.runs_seq()));
                        assert forall|q: int| 0 <= q < line.cells_seq().len() implies {
                            &&& ((#[trigger] line.cells_seq()[q]) == PartialSquare::Known(
                                Square::Full,
                            ) ==> covered(pre.hints_seq(), starts, q))
                            &&& (line.cells_seq()[q] == PartialSquare::Known(Square::Empty)
                                ==> !covered(pre.hints_seq(), starts, q))
                        } by {
                            if (start as int) <= q < end {
                                lemma_overlap_fill_sound(
                                    pre.hints_seq(),
                                    len as int,
                                    starts,
                                    before.runs_seq(),
                                    k4 as int,
                                    q,
                                );
                            } else {
                                assert(line.cells_seq()[q] == before.cells_seq()[q]);
                            }
                        }
                    }
                }
                assert forall|t: int| 0 <= t < k4 + 1 implies {
                    let ht = line.hints_seq()[t] as int;
                    let rk = #[trigger] line.runs_seq()[t];
                    &&& rk.lo + ht <= rk.hi
                    &&& forall|q: int|
                        rk.hi - ht <= q < rk.lo + ht ==> line.cells_seq()[q]
                            == PartialSquare::Known(Square::Full)
                } by {
                    let ht = line.hints_seq()[t] as int;
                    let rk = line.runs_seq()[t];
                    assert(rk == before.runs_seq()[t]);
                    if t < k4 {
                        assert forall|q: int|
                            rk.hi - ht <= q < rk.lo + ht implies line.cells_seq()[q]
                            == PartialSquare::Known(Square::Full) by {
                            assert(before.cells_seq()[q] == PartialSquare::Known(Square::Full));
                            assert(sq_le(before.cells_seq()[q], line.cells_seq()[q]));
                        }
                    }
                }
            }
        }
        k4 += 1;
    }
    proof {
        if hints_pos(pre.hints_seq()) {
            assert forall|starts: Seq<int>|
                line_admits(pre.hints_seq(), pre.len(), pre.cells_seq(), pre.runs_seq(), starts)
                implies #[trigger] line_admits(
                pre.hints_seq(),
                pre.len(),
                line.cells_seq(),
                line.runs_seq(),
                starts,
            ) by {
                assert(placement_in_brackets(pre.hints_seq(), starts, line.runs_seq()));
                assert(cells_admit(line.cells_seq(), pre.hints_seq(), starts));
            }
            assert(line_span(pre.hints_seq()) <= len) by {
                if line_span(pre.hints_seq()) > len {
                    assert(n >= 1) by {
                        if n == 0 {
                            assert(pre.hints_seq().len() == 0);
                            assert(hint_sum(pre.hints_seq()) == 0);
                        }
                    }
                    let kk = n - 1;
                    let hk = pre.hints_seq()[kk as int] as int;
                    let rk = line.runs_seq()[kk as int];
                    assert(rk.lo + hk <= rk.hi);
                    assert(rk.hi <= len);
                    assert(hk >= 1);
                    assert(rk.lo >= lo_floor(pre.hints_seq(), len as int, kk as int));
                    if left_edge(pre.hints_seq(), kk as int) < len {
                        lemma_left_edge_span(pre.hints_seq(), kk as int);
                        assert(pre.hints_seq().take(kk as int + 1) =~= pre.hints_seq());
                        assert(left_edge(pre.hints_seq(), kk as int) + hk == line_span(
                            pre.hints_seq(),
                        ));
                        assert(false);
                    } else {
                        assert(rk.lo >= len);
                        assert(false);
                    }
                }
            }
        }
    }
    Ok(())
}

/// How far a recognised run (and its separating cell) reaches into the
/// line: one past the run, clamped to the line's end.
pub open spec fn run_skip(cells: Seq<PartialSquare>, h: int) -> int {
    if h + 1 <= cells.len() {
        h + 1
    } else {
        cells.len() as int
    }
}

/// Whether the line begins with a settled run of exactly `h` full cells,
/// ended by the line's edge or a settled-empty cell.
pub open spec fn run_starts(cells: Seq<PartialSquare>, h: int) -> bool {
    &&& h <= cells.len()
    &&& forall|t: int| 0 <= t < h ==> #[trigger] cells[t] == PartialSquare::Known(Square::Full)
    &&& (h == cells.len() || cells[h] == PartialSquare::Known(Square::Empty))
}

/// Whether the settled cells realise exactly the hints: read left to
/// right, the maximal blocks of full cells have these lengths in this
/// order, and no cell is left unknown.
pub open spec fn line_matches(cells: Seq<PartialSquare>, hints: Seq<usize>) -> bool
    decreases cells.len(),
{
    if cells.len() == 0 {
        hints.len() == 0
    } else if cells[0] == PartialSquare::Known(Square::Empty) {
        line_matches(cells.skip(1), hints)
    } else if cells[0] == PartialSquare::Known(Square::Full) {
        &&& hints.len() > 0
        &&& run_starts(cells, hints[0] as int)
        &&& line_matches(cells.skip(run_skip(cells, hints[0] as int)), hints.skip(1))
    } else {
        false
    }
}

/// Whether every row and every column of the grid realises its hints:
/// the grid is a completion of the puzzle.
pub open spec fn grid_matches(p: Puzzle, g: Seq<Seq<PartialSquare>>) -> bool {
    &&& forall|i: usize|
        (i as int) < p.spec_h() ==> #[trigger] line_matches(
            line_cells(g, LineIndex::Row(i)),
            p.spec_row_hints()[i as int],
        )
    &&& forall|j: usize|
        (j as int) < p.spec_w() ==> #[trigger] line_matches(
            line_cells(g, LineIndex::Col(j)),
            p.spec_col_hints()[j as int],
        )
}

/// A placement of the hinted runs on a line of `len` cells: where each
/// run starts, in order, with a separating cell between adjacent runs.
pub open spec fn placement_ok(hints: Seq<usize>, len: int, starts: Seq<int>) -> bool {
    &&& starts.len() == hints.len()
    &&& forall|k: int| 0 <= k < starts.len() ==> 0 <= #[trigger] starts[k]
    &&& forall|k: int| 0 <= k < starts.len() ==> #[trigger] starts[k] + (hints[k] as int) <= len
    &&& forall|k: int|
        1 <= k < starts.len() ==> #[trigger] starts[k] >= starts[k - 1] + (hints[k - 1] as int) + 1
}

/// Whether position `p` is painted by some run of the placement.
pub open spec fn covered(hints: Seq<usize>, starts: Seq<int>, p: int) -> bool {
    exists|k: int| 0 <= k < starts.len() && #[trigger] starts[k] <= p < starts[k] + (hints[k] as int)
}

/// Whether every run of the placement lies inside its bracket.
pub open spec fn placement_in_brackets(
    hints: Seq<usize>,
    starts: Seq<int>,
    runs: Seq<PartialRun>,
) -> bool {
    &&& starts.len() == runs.len()
    &&& forall|k: int|
        0 <= k < starts.len() ==> ((#[trigger] runs[k]).lo <= starts[k] && starts[k] + (
        hints[k] as int) <= runs[k].hi)
}

/// All hints name non-empty runs.
pub open spec fn hints_pos(hints: Seq<usize>) -> bool {
    forall|t: int| 0 <= t < hints.len() ==> #[trigger] hints[t] >= 1
}

/// The settled cells agree with the placement: every settled-full cell is
/// painted by some run, every settled-empty cell by none.
pub open spec fn cells_admit(
    cells: Seq<PartialSquare>,
    hints: Seq<usize>,
    starts: Seq<int>,
) -> bool {
    forall|p: int|
        0 <= p < cells.len() ==> {
            &&& ((#[trigger] cells[p]) == PartialSquare::Known(Square::Full) ==> covered(
                hints,
                starts,
                p,
            ))
            &&& (cells[p] == PartialSquare::Known(Square::Empty) ==> !covered(hints, starts, p))
        }
}

/// A placement the line's current knowledge admits: ordered, inside the
/// line, inside every bracket, and agreeing with the settled cells.
pub open spec fn line_admits(
    hints: Seq<usize>,
    len: int,
    cells: Seq<PartialSquare>,
    runs: Seq<PartialRun>,
    starts: Seq<int>,
) -> bool {
    &&& placement_ok(hints, len, starts)
    &&& placement_in_brackets(hints, starts, runs)
    &&& cells_admit(cells, hints, starts)
}

/// Growing knowledge only removes admissible placements: a placement the
/// later cells admit was admitted by the earlier cells too.
pub proof fn lemma_admit_weaken(
    c1: Seq<PartialSquare>,
    c2: Seq<PartialSquare>,
    hints: Seq<usize>,
    starts: Seq<int>,
)
    requires
        cells_le(c1, c2),
        cells_admit(c2, hints, starts),
    ensures
        cells_admit(c1, hints, starts),
{
    assert forall|p: int| 0 <= p < c1.len() implies {
        &&& ((#[trigger] c1[p]) == PartialSquare::Known(Square::Full) ==> covered(
            hints,
            starts,
            p,
        ))
        &&& (c1[p] == PartialSquare::Known(Square::Empty) ==> !covered(hints, starts, p))
    } by {
        assert(sq_le(c1[p], c2[p]));
    }
}

/// A line view's cells only grow from its snapshot.
proof fn lemma_line_cells_grow(pl: PartialLine)
    requires
        pl.wf(),
    ensures
        cells_le(pl.init_seq(), pl.cells_seq()),
{
    vstd::std_specs::vec::axiom_spec_len(&pl.cells);
    assert forall|q: int| 0 <= q < pl.init_seq().len() implies sq_le(
        #[trigger] pl.init_seq()[q],
        pl.cells_seq()[q],
    ) by {
        if pl.init_seq()[q] is Known {
            assert(!pl.dirty_seq().contains(q as usize)) by {
                if pl.dirty_seq().contains(q as usize) {
                    let e = choose|e: int|
                        0 <= e < pl.dirty_seq().len() && pl.dirty_seq()[e] == q as usize;
                    assert(pl.init_seq()[pl.dirty_seq()[e] as int] is Unknown);
                }
            }
            assert(pl.cells_seq()[q] == pl.init_seq()[q]);
        }
    }
}

proof fn lemma_placement_chain(hints: Seq<usize>, len: int, starts: Seq<int>, a: int, b: int)
    requires
        placement_ok(hints, len, starts),
        0 <= a <= b < starts.len(),
    ensures
        starts[a] <= starts[b],
        a < b ==> starts[a] + (hints[a] as int) + 1 <= starts[b],
        starts[a] + (hints[a] as int) <= starts[b] + (hints[b] as int),
    decreases b - a,
{
    if a < b {
        lemma_placement_chain(hints, len, starts, a, b - 1);
        assert(starts[b] >= starts[b - 1] + (hints[b - 1] as int) + 1);
    }
}

/// R1's fill is sound: whichever placement inside the brackets is the real
/// one, it paints every cell that all placements of a bracket share.
pub proof fn lemma_overlap_fill_sound(
    hints: Seq<usize>,
    len: int,
    starts: Seq<int>,
    runs: Seq<PartialRun>,
    k: int,
    p: int,
)
    requires
        placement_ok(hints, len, starts),
        placement_in_brackets(hints, starts, runs),
        0 <= k < runs.len(),
        runs[k].hi - (hints[k] as int) <= p < runs[k].lo + (hints[k] as int),
    ensures
        covered(hints, starts, p),
{
    assert(starts[k] <= p < starts[k] + (hints[k] as int));
}

/// R2 is sound: whichever placement inside the brackets is the real one,
/// it leaves every cell outside all brackets blank.
pub proof fn lemma_gap_fill_sound(
    hints: Seq<usize>,
    len: int,
    starts: Seq<int>,
    runs: Seq<PartialRun>,
    p: int,
)
    requires
        placement_ok(hints, len, starts),
        placement_in_brackets(hints, starts, runs),
        gap_cell(runs, len, p),
        0 <= p < len,
    ensures
        !covered(hints, starts, p),
{
    let n = runs.len() as int;
    if n == 0 {
    } else {
        assert_by_contradiction!(!covered(hints, starts, p), {
            let k = choose|k: int|
                0 <= k < starts.len() && #[trigger] starts[k] <= p < starts[k] + (hints[k] as int);
            let t = choose|t: int| 0 <= t <= n && #[trigger] in_gap_region(runs, len, t, p);
            if t == 0 {
                lemma_placement_chain(hints, len, starts, 0, k);
                assert(p < runs[0].lo);
                assert(runs[0].lo <= starts[0]);
            } else if t == n {
                lemma_placement_chain(hints, len, starts, k, n - 1);
                assert(runs[n - 1].hi <= p);
                assert(starts[n - 1] + (hints[n - 1] as int) <= runs[n - 1].hi);
            } else {
                assert(runs[t - 1].hi <= p < runs[t].lo);
                if k <= t - 1 {
                    lemma_placement_chain(hints, len, starts, k, t - 1);
                    assert(starts[t - 1] + (hints[t - 1] as int) <= runs[t - 1].hi);
                } else {
                    lemma_placement_chain(hints, len, starts, t, k);
                    assert(runs[t].lo <= starts[t]);
                }
            }
        });
    }
}

/// Whether the placement paints exactly the line's settled-full cells.
pub open spec fn realizes(cells: Seq<PartialSquare>, hints: Seq<usize>, starts: Seq<int>) -> bool {
    &&& placement_ok(hints, cells.len() as int, starts)
    &&& forall|p: int|
        0 <= p < cells.len() ==> (covered(hints, starts, p) <==> #[trigger] cells[p]
            == PartialSquare::Known(Square::Full))
}

/// A line that realises its hints has a placement painting exactly its
/// full cells.
pub proof fn lemma_matches_gives_placement(cells: Seq<PartialSquare>, hints: Seq<usize>)
    requires
        line_matches(cells, hints),
    ensures
        exists|starts: Seq<int>| #[trigger] realizes(cells, hints, starts),
    decreases cells.len(),
{
    if cells.len() == 0 {
        let w = Seq::<int>::empty();
        assert(realizes(cells, hints, w)) by {
            assert(hints.len() == 0);
            assert forall|p: int| 0 <= p < cells.len() implies (covered(hints, w, p)
                <==> #[trigger] cells[p] == PartialSquare::Known(Square::Full)) by {}
        }
    } else if cells[0] == PartialSquare::Known(Square::Empty) {
        lemma_matches_gives_placement(cells.skip(1), hints);
        let s0 = choose|s0: Seq<int>| #[trigger] realizes(cells.skip(1), hints, s0);
        let w = Seq::new(s0.len(), |i: int| s0[i] + 1);
        assert(realizes(cells, hints, w)) by {
            assert(cells.skip(1).len() == cells.len() - 1);
            assert(placement_ok(hints, cells.len() as int, w)) by {
                assert forall|k: int| 0 <= k < w.len() implies 0 <= #[trigger] w[k] by {
                    assert(s0[k] >= 0);
                }
                assert forall|k: int|
                    0 <= k < w.len() implies #[trigger] w[k] + (hints[k] as int)
                    <= cells.len() by {
                    assert(s0[k] + (hints[k] as int) <= cells.len() - 1);
                }
                assert forall|k: int|
                    1 <= k < w.len() implies #[trigger] w[k] >= w[k - 1] + (hints[k - 1] as int)
                    + 1 by {
                    assert(s0[k] >= s0[k - 1] + (hints[k - 1] as int) + 1);
                }
            }
            assert forall|p: int| 0 <= p < cells.len() implies (covered(hints, w, p)
                <==> #[trigger] cells[p] == PartialSquare::Known(Square::Full)) by {
                if p == 0 {
                    assert(!covered(hints, w, 0)) by {
                        if covered(hints, w, 0) {
                            let k = choose|k: int|
                                0 <= k < w.len() && #[trigger] w[k] <= 0 < w[k] + (
                                hints[k] as int);
                            assert(s0[k] >= 0);
                        }
                    }
                } else {
                    assert(covered(hints, w, p) ==> covered(hints, s0, p - 1)) by {
                        if covered(hints, w, p) {
                            let k = choose|k: int|
                                0 <= k < w.len() && #[trigger] w[k] <= p < w[k] + (
                                hints[k] as int);
                            assert(s0[k] <= p - 1 < s0[k] + (hints[k] as int));
                        }
                    }
                    assert(covered(hints, s0, p - 1) ==> covered(hints, w, p)) by {
                        if covered(hints, s0, p - 1) {
                            let k = choose|k: int|
                                0 <= k < s0.len() && #[trigger] s0[k] <= p - 1 < s0[k] + (
                                hints[k] as int);
                            assert(w[k] <= p < w[k] + (hints[k] as int));
                        }
                    }
                    assert(cells.skip(1)[p - 1] == cells[p]);
                    assert(covered(hints, s0, p - 1) <==> cells.skip(1)[p - 1]
                        == PartialSquare::Known(Square::Full));
                }
            }
        }
    } else {
        let h0 = hints[0] as int;
        let rs = run_skip(cells, h0);
        assert(cells[0] == PartialSquare::Known(Square::Full));
        assert(run_starts(cells, h0));
        assert(h0 >= 1) by {
            if h0 == 0 {
                assert(cells[0] == PartialSquare::Known(Square::Empty));
            }
        }
        assert(1 <= rs <= cells.len());
        lemma_matches_gives_placement(cells.skip(rs), hints.skip(1));
        let s0 = choose|s0: Seq<int>| #[trigger] realizes(cells.skip(rs), hints.skip(1), s0);
        let w = Seq::new(
            s0.len() + 1,
            |i: int|
                if i == 0 {
                    0
                } else {
                    s0[i - 1] + rs
                },
        );
        assert(realizes(cells, hints, w)) by {
            assert(cells.skip(rs).len() == cells.len() - rs);
            assert(s0.len() == hints.len() - 1);
            if rs < h0 + 1 {
                assert(rs == cells.len());
                assert(h0 >= cells.len());
                assert(h0 == cells.len());
                assert(cells.skip(rs).len() == 0);
                assert(line_matches(cells.skip(rs), hints.skip(1)));
                assert(cells.skip(rs) =~= Seq::<PartialSquare>::empty());
                assert(line_matches(Seq::<PartialSquare>::empty(), hints.skip(1)));
                assert(hints.skip(1).len() == 0);
                assert(s0.len() == 0);
            }
            assert(placement_ok(hints, cells.len() as int, w)) by {
                assert forall|k: int| 0 <= k < w.len() implies 0 <= #[trigger] w[k] by {
                    if k > 0 {
                        assert(s0[k - 1] >= 0);
                    }
                }
                assert forall|k: int|
                    0 <= k < w.len() implies #[trigger] w[k] + (hints[k] as int)
                    <= cells.len() by {
                    if k == 0 {
                        assert(h0 <= cells.len());
                    } else {
                        assert(s0[k - 1] + (hints.skip(1)[k - 1] as int) <= cells.len() - rs);
                        assert(hints.skip(1)[k - 1] == hints[k]);
                    }
                }
                assert forall|k: int|
                    1 <= k < w.len() implies #[trigger] w[k] >= w[k - 1] + (hints[k - 1] as int)
                    + 1 by {
                    if k == 1 {
                        assert(rs == h0 + 1);
                        assert(s0[0] >= 0);
                    } else {
                        assert(s0[k - 1] >= s0[k - 2] + (hints.skip(1)[k - 2] as int) + 1);
                        assert(hints.skip(1)[k - 2] == hints[k - 1]);
                    }
                }
            }
            assert forall|p: int| 0 <= p < cells.len() implies (covered(hints, w, p)
                <==> #[trigger] cells[p] == PartialSquare::Known(Square::Full)) by {
                if p < h0 {
                    assert(cells[p] == PartialSquare::Known(Square::Full));
                    assert(w[0] <= p < w[0] + (hints[0] as int));
                    assert(covered(hints, w, p));
                } else if p < rs {
                    assert(p == h0 && rs == h0 + 1);
                    assert(cells[h0] == PartialSquare::Known(Square::Empty));
                    assert(!covered(hints, w, p)) by {
                        if covered(hints, w, p) {
                            let k = choose|k: int|
                                0 <= k < w.len() && #[trigger] w[k] <= p < w[k] + (
                                hints[k] as int);
                            if k == 0 {
                                assert(p < h0);
                            } else {
                                assert(w[k] >= rs);
                            }
                        }
                    }
                } else {
                    assert(covered(hints, w, p) ==> covered(hints.skip(1), s0, p - rs)) by {
                        if covered(hints, w, p) {
                            let k = choose|k: int|
                                0 <= k < w.len() && #[trigger] w[k] <= p < w[k] + (
                                hints[k] as int);
                            if k == 0 {
                                assert(p < h0);
                                assert(false);
                            } else {
                                assert(s0[k - 1] <= p - rs < s0[k - 1] + (hints.skip(1)[k
                                    - 1] as int));
                            }
                        }
                    }
                    assert(covered(hints.skip(1), s0, p - rs) ==> covered(hints, w, p)) by {
                        if covered(hints.skip(1), s0, p - rs) {
                            let k = choose|k: int|
                                0 <= k < s0.len() && #[trigger] s0[k] <= p - rs < s0[k] + (
                                hints.skip(1)[k] as int);
                            assert(w[k + 1] <= p < w[k + 1] + (hints[k + 1] as int));
                        }
                    }
                    assert(cells.skip(rs)[p - rs] == cells[p]);
                    assert(covered(hints.skip(1), s0, p - rs) <==> cells.skip(rs)[p - rs]
                        == PartialSquare::Known(Square::Full));
                }
            }
        }
    }
}

/// How many cells of a line are settled full.
pub open spec fn full_count(cells: Seq<PartialSquare>) -> int
    decreases cells.len(),
{
    if cells.len() == 0 {
        0
    } else {
        (if cells[0] == PartialSquare::Known(Square::Full) {
            1int
        } else {
            0int
        }) + full_count(cells.skip(1))
    }
}

proof fn lemma_full_count_run(cells: Seq<PartialSquare>, h: int)
    requires
        run_starts(cells, h),
        0 <= h,
    ensures
        full_count(cells) == h + full_count(cells.skip(run_skip(cells, h))),
    decreases h,
{
    if h == 0 {
        if cells.len() == 0 {
            assert(cells.skip(0) =~= cells);
        }
    } else {
        let s1 = cells.skip(1);
        assert(cells[0] == PartialSquare::Known(Square::Full));
        assert(run_starts(s1, h - 1)) by {
            assert forall|t: int| 0 <= t < h - 1 implies #[trigger] s1[t] == PartialSquare::Known(
                Square::Full,
            ) by {
                assert(cells[t + 1] == PartialSquare::Known(Square::Full));
            }
            if h - 1 != s1.len() {
                assert(s1[h - 1] == cells[h]);
            }
        }
        lemma_full_count_run(s1, h - 1);
        assert(s1.skip(run_skip(s1, h - 1)) =~= cells.skip(run_skip(cells, h)));
    }
}

proof fn lemma_hint_sum_front(s: Seq<usize>)
    requires
        s.len() > 0,
    ensures
        hint_sum(s) == s[0] + hint_sum(s.skip(1)),
    decreases s.len(),
{
    if s.len() == 1 {
        assert(s.drop_last() =~= Seq::<usize>::empty());
        assert(s.skip(1) =~= Seq::<usize>::empty());
        assert(hint_sum(Seq::<usize>::empty()) == 0);
        assert(s.last() == s[0]);
    } else {
        lemma_hint_sum_front(s.drop_last());
        assert(s.drop_last()[0] == s[0]);
        assert(s.drop_last().skip(1) =~= s.skip(1).drop_last());
        assert(s.skip(1).len() == s.len() - 1);
        assert(hint_sum(s.skip(1)) == hint_sum(s.skip(1).drop_last()) + s.skip(1).last());
        assert(s.skip(1).last() == s.last());
    }
}

/// A completed line paints exactly the sum of its hints.
pub proof fn lemma_matches_paint_count(cells: Seq<PartialSquare>, hints: Seq<usize>)
    requires
        line_matches(cells, hints),
    ensures
        full_count(cells) == hint_sum(hints),
    decreases cells.len(),
{
    if cells.len() == 0 {
    } else if cells[0] == PartialSquare::Known(Square::Empty) {
        lemma_matches_paint_count(cells.skip(1), hints);
    } else {
        let h = hints[0] as int;
        lemma_full_count_run(cells, h);
        lemma_matches_paint_count(cells.skip(run_skip(cells, h)), hints.skip(1));
        lemma_hint_sum_front(hints);
    }
}

/// A grid that realises a puzzle paints, in every line, exactly the sum
/// of that line's hints.
pub proof fn lemma_solution_paints_hint_sum(
    p: Puzzle,
    g: Seq<Seq<PartialSquare>>,
    li: LineIndex,
)
    requires
        grid_matches(p, g),
        line_valid(p, li),
    ensures
        full_count(line_cells(g, li)) == hint_sum(line_hints_of(p, li)),
{
    match li {
        LineIndex::Row(i) => {
            assert(line_matches(line_cells(g, LineIndex::Row(i)), p.spec_row_hints()[i as int]));
        },
        LineIndex::Col(j) => {
            assert(line_matches(line_cells(g, LineIndex::Col(j)), p.spec_col_hints()[j as int]));
        },
    }
    lemma_matches_paint_count(line_cells(g, li), line_hints_of(p, li));
}

/// A completion of the puzzle: a fully settled grid of its dimensions
/// realising every hint.
pub open spec fn is_completion(p: Puzzle, g: Seq<Seq<PartialSquare>>) -> bool {
    &&& g.len() == p.spec_h()
    &&& forall|i: int| 0 <= i < g.len() ==> (#[trigger] g[i]).len() == p.spec_w()
    &&& all_known(g)
    &&& grid_matches(p, g)
}

/// A saturated partial state: a grid of the puzzle's dimensions with
/// per-line brackets on which both shipped rules are finished, yet with
/// at least one cell still unknown.  The engine's *Stuck* outcome always
/// exhibits one.
pub open spec fn stuck_state(
    p: Puzzle,
    g: Seq<Seq<PartialSquare>>,
    rr: Seq<Seq<PartialRun>>,
    cr: Seq<Seq<PartialRun>>,
) -> bool {
    &&& g.len() == p.spec_h()
    &&& forall|i: int| 0 <= i < g.len() ==> (#[trigger] g[i]).len() == p.spec_w()
    &&& rr.len() == p.spec_h()
    &&& cr.len() == p.spec_w()
    &&& forall|i: int|
        0 <= i < p.spec_h() ==> (#[trigger] rr[i]).len() == p.spec_row_hints()[i].len()
    &&& forall|j: int|
        0 <= j < p.spec_w() ==> (#[trigger] cr[j]).len() == p.spec_col_hints()[j].len()
    &&& forall|i: int, k: int|
        0 <= i < p.spec_h() && 0 <= k < rr[i].len() ==> ((#[trigger] rr[i][k]).lo <= p.spec_w()
            && rr[i][k].hi <= p.spec_w())
    &&& forall|j: int, k: int|
        0 <= j < p.spec_w() && 0 <= k < cr[j].len() ==> ((#[trigger] cr[j][k]).lo <= p.spec_h()
            && cr[j][k].hi <= p.spec_h())
    &&& forall|i: int|
        0 <= i < p.spec_h() ==> #[trigger] line_saturated(
            p.spec_row_hints()[i],
            p.spec_w(),
            line_cells(g, LineIndex::Row(i as usize)),
            rr[i],
        )
    &&& forall|j: int|
        0 <= j < p.spec_w() ==> #[trigger] line_saturated(
            p.spec_col_hints()[j],
            p.spec_h(),
            line_cells(g, LineIndex::Col(j as usize)),
            cr[j],
        )
    &&& !all_known(g)
}

/// A puzzle whose rows all have empty hint sequences cannot be stuck:
/// once every row is saturated, gap fill alone has settled every cell,
/// so no saturated state retains an unknown.
pub proof fn lemma_no_hints_all_known(
    p: Puzzle,
    g: Seq<Seq<PartialSquare>>,
    rr: Seq<Seq<PartialRun>>,
)
    requires
        p.spec_h() <= usize::MAX,
        g.len() == p.spec_h(),
        rr.len() == p.spec_h(),
        forall|i: int|
            0 <= i < p.spec_h() ==> (#[trigger] rr[i]).len() == p.spec_row_hints()[i].len(),
        forall|i: int|
            0 <= i < p.spec_h() ==> #[trigger] line_saturated(
                p.spec_row_hints()[i],
                p.spec_w(),
                line_cells(g, LineIndex::Row(i as usize)),
                rr[i],
            ),
        forall|i: int| 0 <= i < p.spec_h() ==> (#[trigger] p.spec_row_hints()[i]).len() == 0,
        forall|i: int| 0 <= i < g.len() ==> (#[trigger] g[i]).len() == p.spec_w(),
    ensures
        all_known(g),
{
    assert(all_known(g)) by {
        assert forall|a: int, b: int|
            0 <= a < g.len() && 0 <= b < g[a].len() implies (#[trigger] g[a][b]) is Known by {
            assert(line_saturated(
                p.spec_row_hints()[a],
                p.spec_w(),
                line_cells(g, LineIndex::Row(a as usize)),
                rr[a],
            ));
            assert(rr[a].len() == 0);
            assert(gap_cell(rr[a], p.spec_w(), b));
            assert(line_cells(g, LineIndex::Row(a as usize))[b] == PartialSquare::Known(
                Square::Empty,
            ));
        }
    }
}

/// Whether the puzzle admits at least one completion.
pub open spec fn puzzle_solvable(p: Puzzle) -> bool {
    exists|g: Seq<Seq<PartialSquare>>| #[trigger] is_completion(p, g)
}

/// Nothing is known in a blank grid, so any grid of the same dimensions
/// extends it.  Together with the worker's initial state this lifts
/// `solve`'s clauses to the puzzle itself: `Invalid` means the puzzle has
/// no completion at all, and a returned grid is its only completion.
pub proof fn lemma_blank_grid_le(h: int, w: int, g: Seq<Seq<PartialSquare>>)
    requires
        0 <= h,
        0 <= w,
        g.len() == h,
        forall|i: int| 0 <= i < g.len() ==> (#[trigger] g[i]).len() == w,
    ensures
        grid_le(Seq::new(h as nat, |i: int| Seq::new(w as nat, |j: int| PartialSquare::Unknown)), g),
{
    let blank = Seq::new(h as nat, |i: int| Seq::new(w as nat, |j: int| PartialSquare::Unknown));
    assert forall|i: int| 0 <= i < blank.len() implies cells_le(#[trigger] blank[i], g[i]) by {
        assert(blank[i].len() == w);
        assert forall|j: int| 0 <= j < blank[i].len() implies sq_le(
            #[trigger] blank[i][j],
            g[i][j],
        ) by {
            assert(blank[i][j] == PartialSquare::Unknown);
        }
    }
}

/// Whether the cells from position `ci` on realise the hints from `hi` on.
fn line_matches_from(cells: &Vec<PartialSquare>, hints: &Vec<usize>, ci: usize, hi: usize) -> (r:
    bool)
    requires
        ci <= cells@.len(),
        hi <= hints@.len(),
    ensures
        r == line_matches(cells@.skip(ci as int), hints@.skip(hi as int)),
    decreases cells@.len() - ci,
{
    let ghost suffix = cells@.skip(ci as int);
    let ghost hsuffix = hints@.skip(hi as int);
    if ci == cells.len() {
        return hints.len() == hi;
    }
    proof {
        assert(suffix[0] == cells@[ci as int]);
    }
    match cells[ci] {
        PartialSquare::Known(Square::Empty) => {
            proof {
                assert(suffix.skip(1) =~= cells@.skip(ci as int + 1));
            }
            line_matches_from(cells, hints, ci + 1, hi)
        },
        PartialSquare::Known(Square::Full) => {
            if hi == hints.len() {
                return false;
            }
            let h = hints[hi];
            proof {
                assert(hsuffix[0] == hints@[hi as int]);
            }
            if h > cells.len() - ci {
                proof {
                    assert(!run_starts(suffix, h as int));
                }
                return false;
            }
            let n_cells = cells.len();
            let mut t: usize = 0;
            while t < h
                invariant
                    t <= h,
                    ci <= n_cells,
                    n_cells == cells@.len(),
                    h <= n_cells - ci,
                    ci < n_cells,
                    suffix == cells@.skip(ci as int),
                    hsuffix == hints@.skip(hi as int),
                    hi < hints@.len(),
                    h == hints@[hi as int],
                    cells@[ci as int] == PartialSquare::Known(Square::Full),
                    forall|q: int|
                        0 <= q < t ==> #[trigger] cells@[ci + q] == PartialSquare::Known(
                            Square::Full,
                        ),
                decreases h - t,
            {
                let good = match cells[ci + t] {
                    PartialSquare::Known(Square::Full) => true,
                    _ => false,
                };
                if !good {
                    proof {
                        assert(suffix[t as int] == cells@[ci + t]);
                        assert(!run_starts(suffix, h as int));
                        assert(suffix.len() > 0);
                        assert(suffix[0] == PartialSquare::Known(Square::Full));
                        assert(hsuffix.len() > 0);
                        assert(hsuffix[0] == h);
                        assert(!line_matches(suffix, hsuffix));
                    }
                    return false;
                }
                t += 1;
            }
            if ci + h < cells.len() {
                let sep = match cells[ci + h] {
                    PartialSquare::Known(Square::Empty) => true,
                    _ => false,
                };
                if !sep {
                    proof {
                        assert(suffix[h as int] == cells@[ci + h]);
                        assert(h as int != suffix.len());
                        assert(!run_starts(suffix, h as int));
                    }
                    return false;
                }
            }
            proof {
                assert forall|q: int| 0 <= q < h implies #[trigger] suffix[q]
                    == PartialSquare::Known(Square::Full) by {
                    assert(suffix[q] == cells@[ci + q]);
                }
                assert(run_starts(suffix, h as int));
            }
            let next_ci = if h < cells.len() - ci {
                ci + h + 1
            } else {
                cells.len()
            };
            proof {
                assert(run_skip(suffix, h as int) == next_ci - ci);
                assert(suffix.skip(next_ci - ci) =~= cells@.skip(next_ci as int));
                assert(hsuffix.skip(1) =~= hints@.skip(hi as int + 1));
            }
            line_matches_from(cells, hints, next_ci, hi + 1)
        },
        PartialSquare::Unknown => false,
    }
}

/// One application of a registered rule to a line.
fn apply_rule(rule: Rule, line: &mut PartialLine) -> (r: Result<(), SolverError>)
    requires
        old(line).wf(),
    ensures
        final(line).wf(),
        final(line).hints_seq() == old(line).hints_seq(),
        final(line).init_seq() == old(line).init_seq(),
        final(line).len() == old(line).len(),
        old(line).dirty_seq().is_prefix_of(final(line).dirty_seq()),
        cells_le(old(line).cells_seq(), final(line).cells_seq()),
        runs_le(old(line).runs_seq(), final(line).runs_seq()),
        r is Err ==> r == Err::<(), SolverError>(SolverError::Invalid),
        rule == Rule::Overlap && r is Ok ==> overlap_done(
            final(line).hints_seq(),
            final(line).len(),
            final(line).cells_seq(),
            final(line).runs_seq(),
        ),
        rule == Rule::GapFill ==> final(line).runs_seq() == old(line).runs_seq(),
        rule == Rule::GapFill && r is Ok ==> {
            &&& forall|p: int|
                #[trigger] gap_cell(old(line).runs_seq(), old(line).len(), p)
                    ==> final(line).cells_seq()[p] == PartialSquare::Known(Square::Empty)
            &&& forall|p: int|
                0 <= p < old(line).len() && !gap_cell(old(line).runs_seq(), old(line).len(), p)
                    ==> #[trigger] final(line).cells_seq()[p] == old(line).cells_seq()[p]
            &&& forall|p: int|
                #[trigger] gap_cell(old(line).runs_seq(), old(line).len(), p) ==> sq_compat(
                    old(line).cells_seq()[p],
                    Square::Empty,
                )
        },
        hints_pos(old(line).hints_seq()) ==> {
            &&& (r is Ok ==> forall|starts: Seq<int>|
                line_admits(
                    old(line).hints_seq(),
                    old(line).len(),
                    old(line).cells_seq(),
                    old(line).runs_seq(),
                    starts,
                ) ==> #[trigger] line_admits(
                    old(line).hints_seq(),
                    old(line).len(),
                    final(line).cells_seq(),
                    final(line).runs_seq(),
                    starts,
                ))
            &&& (r is Err ==> !(exists|starts: Seq<int>|
                #[trigger] line_admits(
                    old(line).hints_seq(),
                    old(line).len(),
                    old(line).cells_seq(),
                    old(line).runs_seq(),
                    starts,
                )))
        },
{
    match rule {
        Rule::Overlap => deduce_overlap(line),
        Rule::GapFill => {
            let r = deduce_run_gaps(line);
            proof {
                assert(runs_le(old(line).runs_seq(), final(line).runs_seq()));
            }
            r
        },
    }
}

/// Run every registered rule over the line, in registration order, and
/// repeat whole passes until a pass settles nothing new.
fn saturate(rules: &Vec<Rule>, line: &mut PartialLine) -> (r: Result<(), SolverError>)
    requires
        old(line).wf(),
    ensures
        final(line).wf(),
        final(line).hints_seq() == old(line).hints_seq(),
        final(line).init_seq() == old(line).init_seq(),
        final(line).len() == old(line).len(),
        old(line).dirty_seq().is_prefix_of(final(line).dirty_seq()),
        cells_le(old(line).cells_seq(), final(line).cells_seq()),
        runs_le(old(line).runs_seq(), final(line).runs_seq()),
        r is Err ==> r == Err::<(), SolverError>(SolverError::Invalid),
        rules@ == seq![Rule::Overlap, Rule::GapFill] && r is Ok ==> line_saturated(
            final(line).hints_seq(),
            final(line).len(),
            final(line).cells_seq(),
            final(line).runs_seq(),
        ),
        hints_pos(old(line).hints_seq()) ==> {
            &&& (r is Ok ==> forall|starts: Seq<int>|
                line_admits(
                    old(line).hints_seq(),
                    old(line).len(),
                    old(line).cells_seq(),
                    old(line).runs_seq(),
                    starts,
                ) ==> #[trigger] line_admits(
                    old(line).hints_seq(),
                    old(line).len(),
                    final(line).cells_seq(),
                    final(line).runs_seq(),
                    starts,
                ))
            &&& (r is Err ==> !(exists|starts: Seq<int>|
                #[trigger] line_admits(
                    old(line).hints_seq(),
                    old(line).len(),
                    old(line).cells_seq(),
                    old(line).runs_seq(),
                    starts,
                )))
        },
{
    let ghost pre = *line;
    proof {
        assert(pre.dirty_seq().is_prefix_of(pre.dirty_seq())) by {
            assert(pre.dirty_seq() =~= pre.dirty_seq().take(pre.dirty_seq().len() as int));
        }
    }
    loop
        invariant
            pre == *old(line),
            pre.wf(),
            line.wf(),
            line.hints_seq() == pre.hints_seq(),
            line.init_seq() == pre.init_seq(),
            line.len() == pre.len(),
            pre.dirty_seq().is_prefix_of(line.dirty_seq()),
            cells_le(pre.cells_seq(), line.cells_seq()),
            runs_le(pre.runs_seq(), line.runs_seq()),
            hints_pos(pre.hints_seq()) ==> forall|starts: Seq<int>|
                line_admits(pre.hints_seq(), pre.len(), pre.cells_seq(), pre.runs_seq(), starts)
                    ==> #[trigger] line_admits(
                    pre.hints_seq(),
                    pre.len(),
                    line.cells_seq(),
                    line.runs_seq(),
                    starts,
                ),
        decreases row_unknowns(line.cells_seq()),
    {
        let before_count = line.dirty_len();
        let ghost at_pass = *line;
        let mut ri: usize = 0;
        while ri < rules.len()
            invariant
                pre == *old(line),
                pre.wf(),
                at_pass.wf(),
                line.wf(),
                line.hints_seq() == pre.hints_seq(),
                line.init_seq() == pre.init_seq(),
                line.len() == pre.len(),
                at_pass.init_seq() == pre.init_seq(),
                before_count == at_pass.dirty_seq().len(),
                pre.dirty_seq().is_prefix_of(line.dirty_seq()),
                at_pass.dirty_seq().is_prefix_of(line.dirty_seq()),
                cells_le(pre.cells_seq(), line.cells_seq()),
                runs_le(pre.runs_seq(), line.runs_seq()),
                hints_pos(pre.hints_seq()) ==> forall|starts: Seq<int>|
                    line_admits(pre.hints_seq(), pre.len(), pre.cells_seq(), pre.runs_seq(), starts)
                        ==> #[trigger] line_admits(
                        pre.hints_seq(),
                        pre.len(),
                        line.cells_seq(),
                        line.runs_seq(),
                        starts,
                    ),
                rules@ == seq![Rule::Overlap, Rule::GapFill] ==> {
                    &&& (ri >= 1 ==> overlap_done(
                        line.hints_seq(),
                        line.len(),
                        line.cells_seq(),
                        line.runs_seq(),
                    ))
                    &&& (ri >= 2 ==> forall|p: int|
                        #[trigger] gap_cell(line.runs_seq(), line.len(), p) ==> line.cells_seq()[p]
                            == PartialSquare::Known(Square::Empty))
                },
            decreases rules.len() - ri,
        {
            let rule = rules[ri];
            let ghost before = *line;
            match apply_rule(rule, line) {
                Err(e) => {
                    proof {
                        if hints_pos(pre.hints_seq()) {
                            assert_by_contradiction!(!(exists|starts: Seq<int>|
                                #[trigger] line_admits(
                                    pre.hints_seq(),
                                    pre.len(),
                                    pre.cells_seq(),
                                    pre.runs_seq(),
                                    starts,
                                )), {
                                let starts = choose|starts: Seq<int>|
                                    line_admits(
                                        pre.hints_seq(),
                                        pre.len(),
                                        pre.cells_seq(),
                                        pre.runs_seq(),
                                        starts,
                                    );
                                assert(line_admits(
                                    pre.hints_seq(),
                                    pre.len(),
                                    before.cells_seq(),
                                    before.runs_seq(),
                                    starts,
                                ));
                            });
                        }
                    }
                    return Err(e);
                },
                Ok(()) => (),
            }
            proof {
                if rules@ == seq![Rule::Overlap, Rule::GapFill] {
                    if ri == 0 {
                        assert(rule == Rule::Overlap);
                        assert(overlap_done(
                            line.hints_seq(),
                            line.len(),
                            line.cells_seq(),
                            line.runs_seq(),
                        ));
                    }
                    if ri == 1 {
                        assert(rule == Rule::GapFill);
                        assert(line.runs_seq() == before.runs_seq());
                        assert(overlap_done(
                            before.hints_seq(),
                            before.len(),
                            before.cells_seq(),
                            before.runs_seq(),
                        ));
                        assert(overlap_done(
                            line.hints_seq(),
                            line.len(),
                            line.cells_seq(),
                            line.runs_seq(),
                        )) by {
                            assert forall|k: int| 0 <= k < line.runs_seq().len() implies {
                                let h = line.hints_seq()[k] as int;
                                let rk = #[trigger] line.runs_seq()[k];
                                &&& rk.lo + h <= rk.hi
                                &&& forall|p: int|
                                    rk.hi - h <= p < rk.lo + h ==> line.cells_seq()[p]
                                        == PartialSquare::Known(Square::Full)
                            } by {
                                let h = line.hints_seq()[k] as int;
                                let rk = line.runs_seq()[k];
                                assert(rk == before.runs_seq()[k]);
                                assert forall|p: int|
                                    rk.hi - h <= p < rk.lo + h implies line.cells_seq()[p]
                                    == PartialSquare::Known(Square::Full) by {
                                    assert(before.cells_seq()[p] == PartialSquare::Known(
                                        Square::Full,
                                    ));
                                    assert(!gap_cell(before.runs_seq(), before.len(), p)) by {
                                        if gap_cell(before.runs_seq(), before.len(), p) {
                                            assert(sq_compat(before.cells_seq()[p], Square::Empty));
                                        }
                                    }
                                    assert(line.cells_seq()[p] == before.cells_seq()[p]);
                                }
                            }
                        }
                        assert(forall|p: int|
                            #[trigger] gap_cell(line.runs_seq(), line.len(), p)
                                ==> line.cells_seq()[p] == PartialSquare::Known(Square::Empty));
                    }
                }
                if hints_pos(pre.hints_seq()) {
                    assert forall|starts: Seq<int>|
                        line_admits(
                            pre.hints_seq(),
                            pre.len(),
                            pre.cells_seq(),
                            pre.runs_seq(),
                            starts,
                        ) implies #[trigger] line_admits(
                        pre.hints_seq(),
                        pre.len(),
                        line.cells_seq(),
                        line.runs_seq(),
                        starts,
                    ) by {
                        assert(line_admits(
                            pre.hints_seq(),
                            pre.len(),
                            before.cells_seq(),
                            before.runs_seq(),
                            starts,
                        ));
                    }
                }
                lemma_cells_le_trans(pre.cells_seq(), before.cells_seq(), line.cells_seq());
                lemma_prefix_trans(pre.dirty_seq(), before.dirty_seq(), line.dirty_seq());
                lemma_prefix_trans(at_pass.dirty_seq(), before.dirty_seq(), line.dirty_seq());
                assert forall|t2: int| 0 <= t2 < pre.runs_seq().len() implies run_le(
                    #[trigger] pre.runs_seq()[t2],
                    line.runs_seq()[t2],
                ) by {
                    assert(run_le(pre.runs_seq()[t2], before.runs_seq()[t2]));
                    assert(run_le(before.runs_seq()[t2], line.runs_seq()[t2]));
                }
            }
            ri += 1;
        }
        if line.dirty_len() == before_count {
            return Ok(());
        }
        proof {
            assert(line.dirty_seq().len() > at_pass.dirty_seq().len());
            assert(row_unknowns(line.cells_seq()) < row_unknowns(at_pass.cells_seq()));
        }
    }
}

/// The solver: the list of registered deduction rules.
pub struct Solver {
    deductions: Vec<Rule>,
}

impl Solver {
    /// The registered rules, in the order they run.
    pub closed spec fn rules_seq(&self) -> Seq<Rule> {
        self.deductions@
    }

    /// An engine with the default rule set: overlap, then gap fill.
    pub fn new() -> (r: Solver)
        ensures
            r.rules_seq() == seq![Rule::Overlap, Rule::GapFill],
    {
        let mut deductions: Vec<Rule> = Vec::new();
        deductions.push(Rule::Overlap);
        deductions.push(Rule::GapFill);
        proof {
            assert(deductions@ =~= seq![Rule::Overlap, Rule::GapFill]);
        }
        Solver { deductions }
    }

    /// An engine with exactly the given rules, in the given order.
    pub fn with_rules(rules: Vec<Rule>) -> (r: Solver)
        ensures
            r.rules_seq() == rules@,
    {
        Solver { deductions: rules }
    }

    /// Append a further rule; it runs after those already registered.
    pub fn register(&mut self, rule: Rule)
        ensures
            final(self).rules_seq() == old(self).rules_seq().push(rule),
    {
        self.deductions.push(rule);
    }
}

proof fn lemma_push_distinct<T>(s: Seq<T>, x: T)
    requires
        s.no_duplicates(),
        !s.contains(x),
    ensures
        s.push(x).no_duplicates(),
{
    let s2 = s.push(x);
    assert forall|p: int, q: int|
        0 <= p < s2.len() && 0 <= q < s2.len() && p != q implies s2[p] != s2[q] by {
        if p < s.len() && q < s.len() {
        } else {
            if p < s.len() {
                assert(s.contains(s[p]));
            }
            if q < s.len() {
                assert(s.contains(s[q]));
            }
        }
    }
}

/// Whether `li` names a real line of `p`.
pub open spec fn line_valid(p: Puzzle, li: LineIndex) -> bool {
    match li {
        LineIndex::Row(i) => (i as int) < p.spec_h(),
        LineIndex::Col(j) => (j as int) < p.spec_w(),
    }
}

/// The line crossing `li` at position `k`.
pub open spec fn cross_of(li: LineIndex, k: usize) -> LineIndex {
    match li {
        LineIndex::Row(_) => LineIndex::Col(k),
        LineIndex::Col(_) => LineIndex::Row(k),
    }
}

/// The slot of `li` in the membership table: rows first, then columns.
pub open spec fn li_slot(li: LineIndex, h: int) -> int {
    match li {
        LineIndex::Row(i) => i as int,
        LineIndex::Col(j) => h + j,
    }
}

/// The hints of line `li`.
pub open spec fn line_hints_of(p: Puzzle, li: LineIndex) -> Seq<usize> {
    match li {
        LineIndex::Row(i) => p.spec_row_hints()[i as int],
        LineIndex::Col(j) => p.spec_col_hints()[j as int],
    }
}

/// The number of cells on line `li`.
pub open spec fn line_len_of(p: Puzzle, li: LineIndex) -> int {
    match li {
        LineIndex::Row(_) => p.spec_w(),
        LineIndex::Col(_) => p.spec_h(),
    }
}

/// The cells of line `li`, in line order.
pub open spec fn line_cells(g: Seq<Seq<PartialSquare>>, li: LineIndex) -> Seq<PartialSquare> {
    match li {
        LineIndex::Row(i) => g[i as int],
        LineIndex::Col(j) => Seq::new(g.len(), |r: int| g[r][j as int]),
    }
}

/// The cell at position `k` of line `li`.
pub open spec fn cell_at(g: Seq<Seq<PartialSquare>>, li: LineIndex, k: int) -> PartialSquare {
    match li {
        LineIndex::Row(i) => g[i as int][k],
        LineIndex::Col(j) => g[k][j as int],
    }
}

/// Whether grid position `(a, b)` is off the line `li`.
pub open spec fn off_line(li: LineIndex, a: int, b: int) -> bool {
    match li {
        LineIndex::Row(i) => a != i,
        LineIndex::Col(j) => b != j,
    }
}

/// Whether every cell of the grid is settled.
pub open spec fn all_known(g: Seq<Seq<PartialSquare>>) -> bool {
    forall|a: int, b: int|
        0 <= a < g.len() && 0 <= b < g[a].len() ==> (#[trigger] g[a][b]) is Known
}

fn copy_usizes(v: &Vec<usize>) -> (r: Vec<usize>)
    ensures
        r@ == v@,
{
    let mut r: Vec<usize> = Vec::new();
    let mut t: usize = 0;
    while t < v.len()
        invariant
            t <= v@.len(),
            r@ == v@.take(t as int),
        decreases v@.len() - t,
    {
        r.push(v[t]);
        proof {
            assert(r@ =~= v@.take(t as int + 1));
        }
        t += 1;
    }
    proof {
        assert(v@.take(v@.len() as int) =~= v@);
    }
    r
}

fn copy_runs(v: &Vec<PartialRun>) -> (r: Vec<PartialRun>)
    ensures
        r@ == v@,
{
    let mut r: Vec<PartialRun> = Vec::new();
    let mut t: usize = 0;
    while t < v.len()
        invariant
            t <= v@.len(),
            r@ == v@.take(t as int),
        decreases v@.len() - t,
    {
        r.push(v[t]);
        proof {
            assert(r@ =~= v@.take(t as int + 1));
        }
        t += 1;
    }
    proof {
        assert(v@.take(v@.len() as int) =~= v@);
    }
    r
}

fn make_runs(count: usize, len: usize) -> (r: Vec<PartialRun>)
    ensures
        r@.len() == count,
        forall|t: int| 0 <= t < count ==> #[trigger] r@[t] == (PartialRun { lo: 0, hi: len }),
{
    let mut v: Vec<PartialRun> = Vec::new();
    let mut t: usize = 0;
    while t < count
        invariant
            t <= count,
            v@.len() == t,
            forall|q: int| 0 <= q < t ==> #[trigger] v@[q] == (PartialRun { lo: 0, hi: len }),
        decreases count - t,
    {
        v.push(PartialRun::new(len));
        t += 1;
    }
    v
}

/// A well-formed puzzle's lines all have positive hints.
proof fn lemma_wf_hints_pos(p: Puzzle, li: LineIndex)
    requires
        p.wf(),
        line_valid(p, li),
    ensures
        hints_pos(line_hints_of(p, li)),
{
    match li {
        LineIndex::Row(i) => {
            assert(crate::model::hints_fit(p.spec_row_hints()[i as int], p.spec_w()));
        },
        LineIndex::Col(j) => {
            assert(crate::model::hints_fit(p.spec_col_hints()[j as int], p.spec_h()));
        },
    }
}

/// Drives the rules of one solver over one puzzle to a fixed point.
pub struct SolverWorker<'a> {
    solver: &'a Solver,
    puzzle: &'a Puzzle,
    grid: Grid,
    queue: Vec<LineIndex>,
    queued: Vec<bool>,
    row_runs: Vec<Vec<PartialRun>>,
    col_runs: Vec<Vec<PartialRun>>,
}

impl<'a> SolverWorker<'a> {
    pub closed spec fn spec_puzzle(&self) -> Puzzle {
        *self.puzzle
    }

    pub closed spec fn spec_solver(&self) -> Solver {
        *self.solver
    }

    /// The grid's rows, top to bottom.
    pub closed spec fn grid_view(&self) -> Seq<Seq<PartialSquare>> {
        self.grid@
    }

    pub closed spec fn queue_len(&self) -> int {
        self.queue@.len() as int
    }

    /// The pending lines, front of the queue first.
    pub closed spec fn queue_seq(&self) -> Seq<LineIndex> {
        self.queue@
    }

    /// The membership flag of slot `s`.
    pub closed spec fn queued_at(&self, s: int) -> bool {
        self.queued@[s]
    }

    /// Every line the worker is no longer pending on is saturated under
    /// the two shipped rules: with the queue drained this is the fixed
    /// point of spec'd propagation.
    pub closed spec fn settled_lines_saturated(&self) -> bool {
        let p = *self.puzzle;
        let h = p.spec_h();
        forall|li: LineIndex|
            #![trigger li_slot(li, h)]
            line_valid(p, li) && self.queued@[li_slot(li, h)] != true ==> line_saturated(
                line_hints_of(p, li),
                line_len_of(p, li),
                line_cells(self.grid@, li),
                self.runs_of(li),
            )
    }

    /// The run brackets of line `li`.
    pub closed spec fn runs_of(&self, li: LineIndex) -> Seq<PartialRun> {
        match li {
            LineIndex::Row(i) => self.row_runs@[i as int]@,
            LineIndex::Col(j) => self.col_runs@[j as int]@,
        }
    }

    /// The worker's invariant: the grid matches the puzzle's dimensions,
    /// every line has one bracket per hint and brackets stay inside the
    /// line, and the queue holds each pending line once, with its
    /// membership flag set.
    pub closed spec fn wf(&self) -> bool {
        let p = *self.puzzle;
        let h = p.spec_h();
        let w = p.spec_w();
        &&& h * w <= isize::MAX
        &&& self.grid.wf()
        &&& self.grid.spec_h() == h
        &&& self.grid.spec_w() == w
        &&& self.row_runs@.len() == h
        &&& forall|i: int|
            0 <= i < h ==> (#[trigger] self.row_runs@[i])@.len() == p.spec_row_hints()[i].len()
        &&& forall|i: int, t: int|
            0 <= i < h && 0 <= t < self.row_runs@[i]@.len()
                ==> ((#[trigger] self.row_runs@[i]@[t]).lo <= w && self.row_runs@[i]@[t].hi <= w)
        &&& self.col_runs@.len() == w
        &&& forall|j: int|
            0 <= j < w ==> (#[trigger] self.col_runs@[j])@.len() == p.spec_col_hints()[j].len()
        &&& forall|j: int, t: int|
            0 <= j < w && 0 <= t < self.col_runs@[j]@.len()
                ==> ((#[trigger] self.col_runs@[j]@[t]).lo <= h && self.col_runs@[j]@[t].hi <= h)
        &&& self.queued@.len() == h + w
        &&& self.queue@.no_duplicates()
        &&& forall|qi: int| 0 <= qi < self.queue@.len() ==> line_valid(p, #[trigger] self.queue@[qi])
        &&& forall|qi: int|
            0 <= qi < self.queue@.len() ==> self.queued@[li_slot(#[trigger] self.queue@[qi], h)]
                == true
        &&& forall|li: LineIndex|
            #![trigger li_slot(li, h)]
            line_valid(p, li) && self.queued@[li_slot(li, h)] == true ==> self.queue@.contains(li)
        &&& forall|li: LineIndex|
            #![trigger self.runs_of(li)]
            line_valid(p, li) && hints_pos(line_hints_of(p, li)) ==> (forall|starts: Seq<int>|
                placement_ok(line_hints_of(p, li), line_len_of(p, li), starts) && cells_admit(
                    line_cells(self.grid@, li),
                    line_hints_of(p, li),
                    starts,
                ) ==> #[trigger] placement_in_brackets(
                    line_hints_of(p, li),
                    starts,
                    self.runs_of(li),
                ))
    }

    /// A worker over `puzzle`: an all-unknown grid, fully unconstrained
    /// brackets, and every line enqueued in canonical order.
    pub fn new(solver: &'a Solver, puzzle: &'a Puzzle) -> (w: SolverWorker<'a>)
        requires
            puzzle.spec_h() <= isize::MAX,
            puzzle.spec_w() <= isize::MAX,
            puzzle.spec_h() * puzzle.spec_w() <= isize::MAX,
        ensures
            w.wf(),
            w.spec_puzzle() == *puzzle,
            w.spec_solver() == *solver,
            w.grid_view() == Seq::new(
                puzzle.spec_h() as nat,
                |i: int| Seq::new(puzzle.spec_w() as nat, |j: int| PartialSquare::Unknown),
            ),
            w.queue_seq().len() == puzzle.spec_h() + puzzle.spec_w(),
            forall|q: int|
                0 <= q < puzzle.spec_h() ==> #[trigger] w.queue_seq()[q] == LineIndex::Row(
                    q as usize,
                ),
            forall|q: int|
                puzzle.spec_h() <= q < puzzle.spec_h() + puzzle.spec_w()
                    ==> #[trigger] w.queue_seq()[q] == LineIndex::Col(
                    (q - puzzle.spec_h()) as usize,
                ),
            forall|li: LineIndex|
                line_valid(*puzzle, li) ==> #[trigger] w.runs_of(li) == Seq::new(
                    line_hints_of(*puzzle, li).len(),
                    |t: int| PartialRun { lo: 0, hi: line_len_of(*puzzle, li) as usize },
                ),
            w.settled_lines_saturated(),
    {
        let h = puzzle.h();
        let wd = puzzle.w();
        proof {
            if h >= 1 && wd >= 1 {
                assert((h as int) + (wd as int) <= (h as int) * (wd as int) + 1)
                    by (nonlinear_arith)
                    requires
                        h >= 1,
                        wd >= 1,
                ;
            }
        }
        let total = h + wd;
        let grid = Grid::new(h, wd);
        let mut queued: Vec<bool> = Vec::new();
        let mut t: usize = 0;
        while t < total
            invariant
                t <= total,
                queued@.len() == t,
                forall|q: int| 0 <= q < t ==> #[trigger] queued@[q] == true,
            decreases total - t,
        {
            queued.push(true);
            t += 1;
        }
        let mut queue: Vec<LineIndex> = Vec::new();
        let mut i: usize = 0;
        while i < h
            invariant
                i <= h,
                queue@.len() == i,
                forall|q: int| 0 <= q < i ==> #[trigger] queue@[q] == LineIndex::Row(q as usize),
            decreases h - i,
        {
            queue.push(LineIndex::Row(i));
            i += 1;
        }
        let mut j: usize = 0;
        while j < wd
            invariant
                j <= wd,
                queue@.len() == h + j,
                forall|q: int| 0 <= q < h ==> #[trigger] queue@[q] == LineIndex::Row(q as usize),
                forall|q: int|
                    h <= q < h + j ==> #[trigger] queue@[q] == LineIndex::Col((q - h) as usize),
            decreases wd - j,
        {
            queue.push(LineIndex::Col(j));
            j += 1;
        }
        let mut row_runs: Vec<Vec<PartialRun>> = Vec::new();
        let mut i2: usize = 0;
        while i2 < h
            invariant
                i2 <= h,
                h == puzzle.spec_h(),
                wd == puzzle.spec_w(),
                row_runs@.len() == i2,
                forall|q: int|
                    0 <= q < i2 ==> (#[trigger] row_runs@[q])@.len()
                        == puzzle.spec_row_hints()[q].len(),
                forall|q: int, t2: int|
                    0 <= q < i2 && 0 <= t2 < row_runs@[q]@.len() ==> #[trigger] row_runs@[q]@[t2]
                        == (PartialRun { lo: 0, hi: wd }),
            decreases h - i2,
        {
            let hs = puzzle.hints(LineIndex::Row(i2));
            row_runs.push(make_runs(hs.len(), wd));
            i2 += 1;
        }
        let mut col_runs: Vec<Vec<PartialRun>> = Vec::new();
        let mut j2: usize = 0;
        while j2 < wd
            invariant
                j2 <= wd,
                h == puzzle.spec_h(),
                wd == puzzle.spec_w(),
                col_runs@.len() == j2,
                forall|q: int|
                    0 <= q < j2 ==> (#[trigger] col_runs@[q])@.len()
                        == puzzle.spec_col_hints()[q].len(),
                forall|q: int, t2: int|
                    0 <= q < j2 && 0 <= t2 < col_runs@[q]@.len() ==> #[trigger] col_runs@[q]@[t2]
                        == (PartialRun { lo: 0, hi: h }),
            decreases wd - j2,
        {
            let hs = puzzle.hints(LineIndex::Col(j2));
            col_runs.push(make_runs(hs.len(), h));
            j2 += 1;
        }
        let w = SolverWorker { solver, puzzle, grid, queue, queued, row_runs, col_runs };
        proof {
            assert(w.queue@.no_duplicates()) by {
                assert forall|p: int, q: int|
                    0 <= p < w.queue@.len() && 0 <= q < w.queue@.len() && p != q implies w.queue@[p]
                    != w.queue@[q] by {}
            }
            assert forall|li: LineIndex|
                line_valid(*puzzle, li) implies w.queued@[li_slot(li, puzzle.spec_h())]
                == true by {
                match li {
                    LineIndex::Row(a) => {},
                    LineIndex::Col(b) => {},
                }
            }
            assert(w.settled_lines_saturated());
            assert forall|li: LineIndex|
                line_valid(*puzzle, li) && w.queued@[li_slot(li, puzzle.spec_h())] == true implies
                w.queue@.contains(li) by {
                match li {
                    LineIndex::Row(a) => {
                        assert(w.queue@[a as int] == li);
                    },
                    LineIndex::Col(b) => {
                        assert(w.queue@[puzzle.spec_h() + b] == li);
                    },
                }
            }
            assert forall|li: LineIndex|
                line_valid(*puzzle, li) && hints_pos(line_hints_of(*puzzle, li)) implies (
            forall|starts: Seq<int>|
                placement_ok(line_hints_of(*puzzle, li), line_len_of(*puzzle, li), starts)
                    && cells_admit(
                    line_cells(w.grid@, li),
                    line_hints_of(*puzzle, li),
                    starts,
                ) ==> #[trigger] placement_in_brackets(
                    line_hints_of(*puzzle, li),
                    starts,
                    w.runs_of(li),
                )) by {
                assert forall|starts: Seq<int>|
                    placement_ok(line_hints_of(*puzzle, li), line_len_of(*puzzle, li), starts)
                        && cells_admit(
                        line_cells(w.grid@, li),
                        line_hints_of(*puzzle, li),
                        starts,
                    ) implies #[trigger] placement_in_brackets(
                    line_hints_of(*puzzle, li),
                    starts,
                    w.runs_of(li),
                ) by {
                    match li {
                        LineIndex::Row(i) => {
                            assert(w.runs_of(li) =~= Seq::new(
                                line_hints_of(*puzzle, li).len(),
                                |t: int| PartialRun {
                                    lo: 0,
                                    hi: line_len_of(*puzzle, li) as usize,
                                },
                            ));
                        },
                        LineIndex::Col(j) => {
                            assert(w.runs_of(li) =~= Seq::new(
                                line_hints_of(*puzzle, li).len(),
                                |t: int| PartialRun {
                                    lo: 0,
                                    hi: line_len_of(*puzzle, li) as usize,
                                },
                            ));
                        },
                    }
                    assert forall|t: int| 0 <= t < starts.len() implies ((
                    #[trigger] w.runs_of(li)[t]).lo <= starts[t] && starts[t] + (line_hints_of(
                        *puzzle,
                        li,
                    )[t] as int) <= w.runs_of(li)[t].hi) by {
                        assert(starts[t] >= 0);
                        assert(starts[t] + (line_hints_of(*puzzle, li)[t] as int)
                            <= line_len_of(*puzzle, li));
                    }
                }
            }
            assert forall|li: LineIndex| line_valid(*puzzle, li) implies #[trigger] w.runs_of(li)
                == Seq::new(
                line_hints_of(*puzzle, li).len(),
                |t: int| PartialRun { lo: 0, hi: line_len_of(*puzzle, li) as usize },
            ) by {
                match li {
                    LineIndex::Row(i) => {
                        assert(w.runs_of(li) =~= Seq::new(
                            line_hints_of(*puzzle, li).len(),
                            |t: int| PartialRun { lo: 0, hi: line_len_of(*puzzle, li) as usize },
                        ));
                    },
                    LineIndex::Col(j) => {
                        assert(w.runs_of(li) =~= Seq::new(
                            line_hints_of(*puzzle, li).len(),
                            |t: int| PartialRun { lo: 0, hi: line_len_of(*puzzle, li) as usize },
                        ));
                    },
                }
            }
        }
        w
    }

    /// An owned view of line `li`: its hints, brackets, and cells.
    fn line(&self, li: LineIndex) -> (pl: PartialLine)
        requires
            self.wf(),
            line_valid(self.spec_puzzle(), li),
        ensures
            pl.wf(),
            pl.hints_seq() == line_hints_of(self.spec_puzzle(), li),
            pl.runs_seq() == self.runs_of(li),
            pl.cells_seq() == line_cells(self.grid_view(), li),
            pl.init_seq() == line_cells(self.grid_view(), li),
            pl.dirty_seq() == Seq::<usize>::empty(),
            pl.len() == line_len_of(self.spec_puzzle(), li),
    {
        let hints = copy_usizes(self.puzzle.hints(li));
        match li {
            LineIndex::Row(i) => {
                let runs = copy_runs(&self.row_runs[i]);
                let wd = self.grid.w();
                let mut cells: Vec<PartialSquare> = Vec::new();
                let mut b: usize = 0;
                while b < wd
                    invariant
                        b <= wd,
                        self.wf(),
                        li == LineIndex::Row(i),
                        (i as int) < self.spec_puzzle().spec_h(),
                        wd == self.spec_puzzle().spec_w(),
                        cells@.len() == b,
                        forall|q: int|
                            0 <= q < b ==> #[trigger] cells@[q] == self.grid_view()[i as int][q],
                    decreases wd - b,
                {
                    cells.push(self.grid.get(i, b));
                    b += 1;
                }
                proof {
                    assert(cells@ =~= line_cells(self.grid_view(), li));
                }
                PartialLine::new_line(hints, runs, cells)
            },
            LineIndex::Col(j) => {
                let runs = copy_runs(&self.col_runs[j]);
                let hh = self.grid.h();
                let mut cells: Vec<PartialSquare> = Vec::new();
                let mut a: usize = 0;
                while a < hh
                    invariant
                        a <= hh,
                        self.wf(),
                        li == LineIndex::Col(j),
                        (j as int) < self.spec_puzzle().spec_w(),
                        hh == self.spec_puzzle().spec_h(),
                        cells@.len() == a,
                        forall|q: int|
                            0 <= q < a ==> #[trigger] cells@[q] == self.grid_view()[q][j as int],
                    decreases hh - a,
                {
                    cells.push(self.grid.get(a, j));
                    a += 1;
                }
                proof {
                    assert(cells@ =~= line_cells(self.grid_view(), li));
                }
                PartialLine::new_line(hints, runs, cells)
            },
        }
    }
}

/// A completion extending the worker's grid is admitted by any of its
/// lines: its own run placement is ordered, bracket-bounded and agrees
/// with the settled cells.
proof fn lemma_completion_admits<'a>(
    w: SolverWorker<'a>,
    li: LineIndex,
    g: Seq<Seq<PartialSquare>>,
) -> (starts: Seq<int>)
    requires
        w.wf(),
        w.spec_puzzle().wf(),
        line_valid(w.spec_puzzle(), li),
        all_known(g),
        grid_le(w.grid_view(), g),
        grid_matches(w.spec_puzzle(), g),
    ensures
        line_admits(
            line_hints_of(w.spec_puzzle(), li),
            line_len_of(w.spec_puzzle(), li),
            line_cells(w.grid_view(), li),
            w.runs_of(li),
            starts,
        ),
        realizes(line_cells(g, li), line_hints_of(w.spec_puzzle(), li), starts),
        line_cells(g, li).len() == line_len_of(w.spec_puzzle(), li),
{
    let pz = w.spec_puzzle();
    let hints = line_hints_of(pz, li);
    let len = line_len_of(pz, li);
    match li {
        LineIndex::Row(i) => {
            assert(line_matches(line_cells(g, LineIndex::Row(i)), pz.spec_row_hints()[i as int]));
            assert(cells_le(w.grid_view()[i as int], g[i as int]));
        },
        LineIndex::Col(j) => {
            assert(line_matches(line_cells(g, LineIndex::Col(j)), pz.spec_col_hints()[j as int]));
        },
    }
    assert(line_cells(g, li).len() == len) by {
        match li {
            LineIndex::Row(i) => {
                assert(cells_le(w.grid_view()[i as int], g[i as int]));
            },
            LineIndex::Col(j) => {
            },
        }
    }
    assert(cells_le(line_cells(w.grid_view(), li), line_cells(g, li))) by {
        match li {
            LineIndex::Row(i) => {
                assert(cells_le(w.grid_view()[i as int], g[i as int]));
            },
            LineIndex::Col(j) => {
                assert forall|q: int|
                    0 <= q < line_cells(w.grid_view(), li).len() implies sq_le(
                    #[trigger] line_cells(w.grid_view(), li)[q],
                    line_cells(g, li)[q],
                ) by {
                    assert(cells_le(w.grid_view()[q], g[q]));
                    assert(sq_le(w.grid_view()[q][j as int], g[q][j as int]));
                }
            },
        }
    }
    lemma_matches_gives_placement(line_cells(g, li), hints);
    let starts = choose|starts: Seq<int>| #[trigger] realizes(line_cells(g, li), hints, starts);
    assert(cells_admit(line_cells(w.grid_view(), li), hints, starts)) by {
        assert forall|p: int| 0 <= p < line_cells(w.grid_view(), li).len() implies {
            &&& ((#[trigger] line_cells(w.grid_view(), li)[p]) == PartialSquare::Known(
                Square::Full,
            ) ==> covered(hints, starts, p))
            &&& (line_cells(w.grid_view(), li)[p] == PartialSquare::Known(Square::Empty)
                ==> !covered(hints, starts, p))
        } by {
            assert(sq_le(line_cells(w.grid_view(), li)[p], line_cells(g, li)[p]));
            assert(covered(hints, starts, p) <==> line_cells(g, li)[p] == PartialSquare::Known(
                Square::Full,
            ));
        }
    }
    lemma_wf_hints_pos(pz, li);
    assert(placement_in_brackets(hints, starts, w.runs_of(li)));
    starts
}

impl<'a> SolverWorker<'a> {
    /// Write a saturated line view back: its tightened brackets always,
    /// its settled cells one by one, and enqueue the line crossing each
    /// settled cell.
    fn store_line(&mut self, li: LineIndex, pl: PartialLine)
        requires
            old(self).wf(),
            line_valid(old(self).spec_puzzle(), li),
            pl.wf(),
            pl.hints_seq() == line_hints_of(old(self).spec_puzzle(), li),
            pl.len() == line_len_of(old(self).spec_puzzle(), li),
            pl.init_seq() == line_cells(old(self).grid_view(), li),
            hints_pos(line_hints_of(old(self).spec_puzzle(), li)) ==> (forall|starts: Seq<int>|
                line_admits(
                    line_hints_of(old(self).spec_puzzle(), li),
                    line_len_of(old(self).spec_puzzle(), li),
                    pl.init_seq(),
                    old(self).runs_of(li),
                    starts,
                ) ==> #[trigger] line_admits(
                    line_hints_of(old(self).spec_puzzle(), li),
                    line_len_of(old(self).spec_puzzle(), li),
                    pl.cells_seq(),
                    pl.runs_seq(),
                    starts,
                )),
        ensures
            final(self).wf(),
            final(self).spec_puzzle() == old(self).spec_puzzle(),
            final(self).spec_solver() == old(self).spec_solver(),
            grid_le(old(self).grid_view(), final(self).grid_view()),
            line_cells(final(self).grid_view(), li) == pl.cells_seq(),
            forall|a: int, b: int|
                0 <= a < old(self).spec_puzzle().spec_h()
                    && 0 <= b < old(self).spec_puzzle().spec_w() && off_line(li, a, b)
                    ==> #[trigger] final(self).grid_view()[a][b] == old(self).grid_view()[a][b],
            grid_unknowns(final(self).grid_view()) + pl.dirty_seq().len() == grid_unknowns(
                old(self).grid_view(),
            ),
            final(self).queue_len() <= old(self).queue_len() + pl.dirty_seq().len(),
            forall|e: int|
                0 <= e < pl.dirty_seq().len() ==> final(self).queued_at(
                    li_slot(
                        cross_of(li, #[trigger] pl.dirty_seq()[e]),
                        old(self).spec_puzzle().spec_h(),
                    ),
                ) == true,
            forall|s: int|
                0 <= s < old(self).spec_puzzle().spec_h() + old(self).spec_puzzle().spec_w()
                    && old(self).queued_at(s) == true ==> #[trigger] final(self).queued_at(s)
                    == true,
            forall|lj: LineIndex|
                line_valid(old(self).spec_puzzle(), lj) && lj != li
                    ==> #[trigger] final(self).runs_of(lj) == old(self).runs_of(lj),
            final(self).runs_of(li) == pl.runs_seq(),
    {
        let ghost pre = *self;
        let ghost plg = pl;
        let (_hints, runs_v, cells_v, dirty_v) = pl.into_parts();
        let ghost h = pre.spec_puzzle().spec_h();
        let ghost w = pre.spec_puzzle().spec_w();
        // cells
        let mut d: usize = 0;
        while d < dirty_v.len()
            invariant
                pre == *old(self),
                pre.wf(),
                plg.wf(),
                line_valid(pre.spec_puzzle(), li),
                h == pre.spec_puzzle().spec_h(),
                w == pre.spec_puzzle().spec_w(),
                plg.len() == line_len_of(pre.spec_puzzle(), li),
                plg.init_seq() == line_cells(pre.grid_view(), li),
                dirty_v@ == plg.dirty_seq(),
                cells_v@ == plg.cells_seq(),
                d <= dirty_v@.len(),
                self.solver == pre.solver,
                self.puzzle == pre.puzzle,
                self.queue == pre.queue,
                self.queued == pre.queued,
                self.row_runs == pre.row_runs,
                self.col_runs == pre.col_runs,
                self.grid.wf(),
                self.grid.spec_h() == h,
                self.grid.spec_w() == w,
                grid_unknowns(self.grid_view()) + d == grid_unknowns(pre.grid_view()),
                forall|e: int|
                    0 <= e < d ==> cell_at(self.grid_view(), li, #[trigger] plg.dirty_seq()[e] as int)
                        == plg.cells_seq()[plg.dirty_seq()[e] as int],
                forall|k: int|
                    0 <= k < plg.len() && !(exists|e: int|
                        0 <= e < d && #[trigger] plg.dirty_seq()[e] == k as usize) ==> cell_at(
                        self.grid_view(),
                        li,
                        k,
                    ) == cell_at(pre.grid_view(), li, k),
                forall|a: int, b: int|
                    0 <= a < h && 0 <= b < w && off_line(li, a, b)
                        ==> #[trigger] self.grid_view()[a][b] == pre.grid_view()[a][b],
            decreases dirty_v@.len() - d,
        {
            let k = dirty_v[d];
            let x = cells_v[k];
            let ghost gb = self.grid_view();
            proof {
                assert(plg.init_seq()[k as int] is Unknown);
                assert(plg.cells_seq()[k as int] is Known);
                assert(!(exists|e: int| 0 <= e < d && #[trigger] plg.dirty_seq()[e] == k)) by {
                    if exists|e: int| 0 <= e < d && #[trigger] plg.dirty_seq()[e] == k {
                        let e = choose|e: int| 0 <= e < d && #[trigger] plg.dirty_seq()[e] == k;
                        assert(plg.dirty_seq()[e] == plg.dirty_seq()[d as int]);
                    }
                }
                assert(cell_at(self.grid_view(), li, k as int) == cell_at(
                    pre.grid_view(),
                    li,
                    k as int,
                ));
                assert(cell_at(pre.grid_view(), li, k as int) == plg.init_seq()[k as int]);
            }
            match li {
                LineIndex::Row(i) => {
                    self.grid.set(i, k, x);
                    proof {
                        lemma_row_unknowns_update(gb[i as int], k as int, x);
                        lemma_grid_unknowns_update(gb, i as int, gb[i as int].update(k as int, x));
                    }
                },
                LineIndex::Col(j) => {
                    self.grid.set(k, j, x);
                    proof {
                        lemma_row_unknowns_update(gb[k as int], j as int, x);
                        lemma_grid_unknowns_update(gb, k as int, gb[k as int].update(j as int, x));
                    }
                },
            }
            d += 1;
        }
        proof {
            lemma_grid_dims(pre.grid);
            assert(h <= usize::MAX);
            assert(w <= usize::MAX);
            assert(line_cells(self.grid_view(), li) =~= plg.cells_seq()) by {
                assert forall|k: int| 0 <= k < plg.len() implies line_cells(self.grid_view(), li)[k]
                    == plg.cells_seq()[k] by {
                    assert(line_cells(self.grid_view(), li)[k] == cell_at(self.grid_view(), li, k));
                    if exists|e: int|
                        0 <= e < plg.dirty_seq().len() && #[trigger] plg.dirty_seq()[e]
                            == k as usize {
                        let e = choose|e: int|
                            0 <= e < plg.dirty_seq().len() && #[trigger] plg.dirty_seq()[e]
                                == k as usize;
                        assert(cell_at(self.grid_view(), li, plg.dirty_seq()[e] as int)
                            == plg.cells_seq()[plg.dirty_seq()[e] as int]);
                        assert(plg.dirty_seq()[e] as int == k);
                    } else {
                        assert(!plg.dirty_seq().contains(k as usize));
                        assert(plg.cells_seq()[k] == plg.init_seq()[k]);
                        assert(cell_at(self.grid_view(), li, k) == cell_at(pre.grid_view(), li, k));
                    }
                }
            }
            assert(grid_le(pre.grid_view(), self.grid_view())) by {
                assert forall|a: int| 0 <= a < pre.grid_view().len() implies cells_le(
                    #[trigger] pre.grid_view()[a],
                    self.grid_view()[a],
                ) by {
                    assert forall|b: int| 0 <= b < pre.grid_view()[a].len() implies sq_le(
                        #[trigger] pre.grid_view()[a][b],
                        self.grid_view()[a][b],
                    ) by {
                        if off_line(li, a, b) {
                        } else {
                            match li {
                                LineIndex::Row(i) => {
                                    assert(0 <= b < w);
                                    assert(cell_at(pre.grid_view(), li, b) == plg.init_seq()[b]);
                                    assert(cell_at(self.grid_view(), li, b) == plg.cells_seq()[b]);
                                    if plg.init_seq()[b] is Known {
                                        assert(!plg.dirty_seq().contains(b as usize)) by {
                                            if plg.dirty_seq().contains(b as usize) {
                                                let e = choose|e: int|
                                                    0 <= e < plg.dirty_seq().len()
                                                        && plg.dirty_seq()[e] == b as usize;
                                                assert(plg.init_seq()[plg.dirty_seq()[e] as int] is Unknown);
                                                assert(plg.dirty_seq()[e] as int == b);
                                            }
                                        }
                                        assert(!(exists|e: int|
                                            0 <= e < plg.dirty_seq().len()
                                                && #[trigger] plg.dirty_seq()[e] == b as usize));
                                        assert(cell_at(self.grid_view(), li, b) == cell_at(
                                            pre.grid_view(),
                                            li,
                                            b,
                                        ));
                                    }
                                },
                                LineIndex::Col(j) => {
                                    assert(0 <= a < h);
                                    assert(cell_at(pre.grid_view(), li, a) == plg.init_seq()[a]);
                                    assert(cell_at(self.grid_view(), li, a) == plg.cells_seq()[a]);
                                    if plg.init_seq()[a] is Known {
                                        assert(!plg.dirty_seq().contains(a as usize)) by {
                                            if plg.dirty_seq().contains(a as usize) {
                                                let e = choose|e: int|
                                                    0 <= e < plg.dirty_seq().len()
                                                        && plg.dirty_seq()[e] == a as usize;
                                                assert(plg.init_seq()[plg.dirty_seq()[e] as int] is Unknown);
                                                assert(plg.dirty_seq()[e] as int == a);
                                            }
                                        }
                                        assert(!(exists|e: int|
                                            0 <= e < plg.dirty_seq().len()
                                                && #[trigger] plg.dirty_seq()[e] == a as usize));
                                        assert(cell_at(self.grid_view(), li, a) == cell_at(
                                            pre.grid_view(),
                                            li,
                                            a,
                                        ));
                                    }
                                },
                            }
                        }
                    }
                }
            }
        }
        // brackets
        match li {
            LineIndex::Row(i) => {
                self.row_runs.set(i, runs_v);
            },
            LineIndex::Col(j) => {
                self.col_runs.set(j, runs_v);
            },
        }
        proof {
            let pz = pre.spec_puzzle();
            lemma_line_cells_grow(plg);
            assert forall|lj: LineIndex|
                line_valid(pz, lj) && hints_pos(line_hints_of(pz, lj)) implies (
            forall|starts: Seq<int>|
                placement_ok(line_hints_of(pz, lj), line_len_of(pz, lj), starts) && cells_admit(
                    line_cells(self.grid_view(), lj),
                    line_hints_of(pz, lj),
                    starts,
                ) ==> #[trigger] placement_in_brackets(
                    line_hints_of(pz, lj),
                    starts,
                    self.runs_of(lj),
                )) by {
                assert forall|starts: Seq<int>|
                    placement_ok(line_hints_of(pz, lj), line_len_of(pz, lj), starts)
                        && cells_admit(
                        line_cells(self.grid_view(), lj),
                        line_hints_of(pz, lj),
                        starts,
                    ) implies #[trigger] placement_in_brackets(
                    line_hints_of(pz, lj),
                    starts,
                    self.runs_of(lj),
                ) by {
                    if lj == li {
                        assert(line_cells(self.grid_view(), li) == plg.cells_seq());
                        lemma_admit_weaken(
                            plg.init_seq(),
                            plg.cells_seq(),
                            line_hints_of(pz, li),
                            starts,
                        );
                        assert(cells_admit(plg.init_seq(), line_hints_of(pz, li), starts));
                        assert(placement_in_brackets(
                            line_hints_of(pz, li),
                            starts,
                            pre.runs_of(li),
                        ));
                        assert(line_admits(
                            line_hints_of(pz, li),
                            line_len_of(pz, li),
                            plg.init_seq(),
                            pre.runs_of(li),
                            starts,
                        ));
                        assert(line_admits(
                            line_hints_of(pz, li),
                            line_len_of(pz, li),
                            plg.cells_seq(),
                            plg.runs_seq(),
                            starts,
                        ));
                        assert(self.runs_of(li) == plg.runs_seq());
                    } else {
                        assert(cells_le(
                            line_cells(pre.grid_view(), lj),
                            line_cells(self.grid_view(), lj),
                        )) by {
                            match lj {
                                LineIndex::Row(a) => {
                                    assert(cells_le(
                                        pre.grid_view()[a as int],
                                        self.grid_view()[a as int],
                                    ));
                                },
                                LineIndex::Col(b) => {
                                    assert forall|q: int|
                                        0 <= q < line_cells(pre.grid_view(), lj).len() implies
                                        sq_le(
                                        #[trigger] line_cells(pre.grid_view(), lj)[q],
                                        line_cells(self.grid_view(), lj)[q],
                                    ) by {
                                        assert(cells_le(pre.grid_view()[q], self.grid_view()[q]));
                                        assert(sq_le(
                                            pre.grid_view()[q][b as int],
                                            self.grid_view()[q][b as int],
                                        ));
                                    }
                                },
                            }
                        }
                        lemma_admit_weaken(
                            line_cells(pre.grid_view(), lj),
                            line_cells(self.grid_view(), lj),
                            line_hints_of(pz, lj),
                            starts,
                        );
                        assert(placement_in_brackets(
                            line_hints_of(pz, lj),
                            starts,
                            pre.runs_of(lj),
                        ));
                        assert(self.runs_of(lj) == pre.runs_of(lj));
                    }
                }
            }
        }
        // enqueue the crossing line of every settled cell
        let ghost mid = *self;
        let hh = self.puzzle.h();
        let mut d2: usize = 0;
        while d2 < dirty_v.len()
            invariant
                pre == *old(self),
                pre.wf(),
                mid.wf(),
                plg.wf(),
                line_valid(pre.spec_puzzle(), li),
                h == pre.spec_puzzle().spec_h(),
                w == pre.spec_puzzle().spec_w(),
                hh == h,
                plg.len() == line_len_of(pre.spec_puzzle(), li),
                dirty_v@ == plg.dirty_seq(),
                d2 <= dirty_v@.len(),
                self.solver == mid.solver,
                self.puzzle == mid.puzzle,
                self.grid == mid.grid,
                self.row_runs == mid.row_runs,
                self.col_runs == mid.col_runs,
                self.puzzle == pre.puzzle,
                self.queued@.len() == h + w,
                self.queue@.no_duplicates(),
                forall|qi: int|
                    0 <= qi < self.queue@.len() ==> line_valid(
                        pre.spec_puzzle(),
                        #[trigger] self.queue@[qi],
                    ),
                forall|qi: int|
                    0 <= qi < self.queue@.len() ==> self.queued@[li_slot(
                        #[trigger] self.queue@[qi],
                        h,
                    )] == true,
                forall|lj: LineIndex|
                    #![trigger li_slot(lj, h)]
                    line_valid(pre.spec_puzzle(), lj) && self.queued@[li_slot(lj, h)] == true
                        ==> self.queue@.contains(lj),
                forall|s: int| 0 <= s < h + w && mid.queued@[s] ==> #[trigger] self.queued@[s],
                forall|e: int|
                    0 <= e < d2 ==> self.queued@[li_slot(
                        cross_of(li, #[trigger] plg.dirty_seq()[e]),
                        h,
                    )] == true,
                self.queue@.len() <= pre.queue@.len() + d2,
            decreases dirty_v@.len() - d2,
        {
            let k = dirty_v[d2];
            let cross = li.line_through(k);
            proof {
                assert((k as int) < plg.len());
                assert(line_valid(pre.spec_puzzle(), cross));
                lemma_grid_dims(pre.grid);
                if h >= 1 && w >= 1 {
                    assert(h + w <= h * w + 1) by (nonlinear_arith)
                        requires
                            h >= 1,
                            w >= 1,
                    ;
                }
                assert(h + w <= usize::MAX);
            }
            let slot = match cross {
                LineIndex::Row(a) => a,
                LineIndex::Col(b) => hh + b,
            };
            proof {
                assert(li_slot(cross, h) == slot);
                assert(0 <= slot < h + w);
            }
            if !self.queued[slot] {
                let ghost qpre = self.queue@;
                let ghost fpre = self.queued@;
                self.queued.set(slot, true);
                self.queue.push(cross);
                proof {
                    assert(!qpre.contains(cross)) by {
                        if qpre.contains(cross) {
                            let qi = choose|qi: int| 0 <= qi < qpre.len() && qpre[qi] == cross;
                            assert(mid.queued@[li_slot(qpre[qi], h)] == true);
                        }
                    }
                    lemma_push_distinct(qpre, cross);
                    assert forall|lj: LineIndex|
                        line_valid(pre.spec_puzzle(), lj) && self.queued@[li_slot(lj, h)] == true
                        implies self.queue@.contains(lj) by {
                        if lj == cross {
                            assert(self.queue@[self.queue@.len() - 1] == cross);
                        } else {
                            assert(li_slot(lj, h) != slot) by {
                                if li_slot(lj, h) == slot {
                                    assert(lj == cross);
                                }
                            }
                            assert(fpre[li_slot(lj, h)] == true);
                            assert(qpre.contains(lj));
                            let qi = choose|qi: int| 0 <= qi < qpre.len() && qpre[qi] == lj;
                            assert(self.queue@[qi] == lj);
                        }
                    }
                }
            } else {
                proof {
                    assert(self.queued@[li_slot(cross, h)] == true);
                }
            }
            d2 += 1;
        }
        proof {
            let pz = pre.spec_puzzle();
            assert forall|lj: LineIndex|
                line_valid(pz, lj) && hints_pos(line_hints_of(pz, lj)) implies (
            forall|starts: Seq<int>|
                placement_ok(line_hints_of(pz, lj), line_len_of(pz, lj), starts) && cells_admit(
                    line_cells(self.grid_view(), lj),
                    line_hints_of(pz, lj),
                    starts,
                ) ==> #[trigger] placement_in_brackets(
                    line_hints_of(pz, lj),
                    starts,
                    self.runs_of(lj),
                )) by {
                match lj {
                    LineIndex::Row(a) => {
                        assert(self.runs_of(lj) == mid.runs_of(lj));
                    },
                    LineIndex::Col(b) => {
                        assert(self.runs_of(lj) == mid.runs_of(lj));
                    },
                }
                assert(self.grid_view() == mid.grid_view());
            }
            assert forall|lj: LineIndex| line_valid(pz, lj) && lj != li implies #[trigger] self
                .runs_of(lj) == pre.runs_of(lj) by {
                match lj {
                    LineIndex::Row(a) => {
                        assert(self.runs_of(lj) == mid.runs_of(lj));
                    },
                    LineIndex::Col(b) => {
                        assert(self.runs_of(lj) == mid.runs_of(lj));
                    },
                }
            }
            match li {
                LineIndex::Row(a) => {
                    assert(self.runs_of(li) == mid.runs_of(li));
                },
                LineIndex::Col(b) => {
                    assert(self.runs_of(li) == mid.runs_of(li));
                },
            }
            assert(self.runs_of(li) == plg.runs_seq());
        }
    }

    /// Whether every cell of the grid is settled; the terminal
    /// classification between solved and stuck.
    fn verify(&self) -> (r: bool)
        requires
            self.wf(),
        ensures
            r == all_known(self.grid_view()),
    {
        let hh = self.grid.h();
        let ww = self.grid.w();
        let mut a: usize = 0;
        while a < hh
            invariant
                a <= hh,
                self.wf(),
                hh == self.grid_view().len(),
                ww == self.spec_puzzle().spec_w(),
                forall|i: int, j: int|
                    0 <= i < a && 0 <= j < self.grid_view()[i].len()
                        ==> (#[trigger] self.grid_view()[i][j]) is Known,
            decreases hh - a,
        {
            let mut b: usize = 0;
            while b < ww
                invariant
                    a < hh,
                    b <= ww,
                    self.wf(),
                    hh == self.grid_view().len(),
                    ww == self.spec_puzzle().spec_w(),
                    forall|i: int, j: int|
                        0 <= i < a && 0 <= j < self.grid_view()[i].len()
                            ==> (#[trigger] self.grid_view()[i][j]) is Known,
                    forall|j: int|
                        0 <= j < b ==> (#[trigger] self.grid_view()[a as int][j]) is Known,
                decreases ww - b,
            {
                if !self.grid.get(a, b).is_known() {
                    return false;
                }
                b += 1;
            }
            a += 1;
        }
        true
    }

    /// The current knowledge about the cell in row `i`, column `j`.
    pub fn cell(&self, i: usize, j: usize) -> (s: PartialSquare)
        requires
            self.wf(),
            i < self.spec_puzzle().spec_h(),
            j < self.spec_puzzle().spec_w(),
        ensures
            s == self.grid_view()[i as int][j as int],
    {
        self.grid.get(i, j)
    }

    /// Whether every row and column realises its hints: the grid is a
    /// completion of the puzzle.
    fn check_lines(&self) -> (r: bool)
        requires
            self.wf(),
        ensures
            r == grid_matches(self.spec_puzzle(), self.grid_view()),
    {
        let hh = self.puzzle.h();
        let ww = self.puzzle.w();
        let mut i: usize = 0;
        while i < hh
            invariant
                i <= hh,
                self.wf(),
                hh == self.spec_puzzle().spec_h(),
                ww == self.spec_puzzle().spec_w(),
                forall|t: usize|
                    t < i ==> #[trigger] line_matches(
                        line_cells(self.grid_view(), LineIndex::Row(t)),
                        self.spec_puzzle().spec_row_hints()[t as int],
                    ),
            decreases hh - i,
        {
            let pl = self.line(LineIndex::Row(i));
            let ok = line_matches_from(&pl.cells, &pl.hints, 0, 0);
            proof {
                assert(pl.cells@.skip(0) =~= pl.cells@);
                assert(pl.hints@.skip(0) =~= pl.hints@);
            }
            if !ok {
                proof {
                    assert(!line_matches(
                        line_cells(self.grid_view(), LineIndex::Row(i)),
                        self.spec_puzzle().spec_row_hints()[i as int],
                    ));
                }
                return false;
            }
            i += 1;
        }
        let mut j: usize = 0;
        while j < ww
            invariant
                j <= ww,
                self.wf(),
                hh == self.spec_puzzle().spec_h(),
                ww == self.spec_puzzle().spec_w(),
                forall|t: usize|
                    t < hh ==> #[trigger] line_matches(
                        line_cells(self.grid_view(), LineIndex::Row(t)),
                        self.spec_puzzle().spec_row_hints()[t as int],
                    ),
                forall|t: usize|
                    t < j ==> #[trigger] line_matches(
                        line_cells(self.grid_view(), LineIndex::Col(t)),
                        self.spec_puzzle().spec_col_hints()[t as int],
                    ),
            decreases ww - j,
        {
            let pl = self.line(LineIndex::Col(j));
            let ok = line_matches_from(&pl.cells, &pl.hints, 0, 0);
            proof {
                assert(pl.cells@.skip(0) =~= pl.cells@);
                assert(pl.hints@.skip(0) =~= pl.hints@);
            }
            if !ok {
                proof {
                    assert(!line_matches(
                        line_cells(self.grid_view(), LineIndex::Col(j)),
                        self.spec_puzzle().spec_col_hints()[j as int],
                    ));
                }
                return false;
            }
            j += 1;
        }
        true
    }

    /// One propagation step: pop lines until one of them yields new
    /// knowledge under the registered rules.  `Ok(true)` reports such
    /// progress, `Ok(false)` a drained queue, and `Err` a contradiction;
    /// settled cells are never unsettled or changed.  On a well-formed
    /// puzzle a contradiction is reported only when no completion extends
    /// the current knowledge, and every completion that extended the old
    /// knowledge still extends the new.
    pub fn step(&mut self) -> (r: Result<bool, SolverError>)
        requires
            old(self).wf(),
            old(self).spec_solver().rules_seq() == seq![Rule::Overlap, Rule::GapFill] ==> old(
                self,
            ).settled_lines_saturated(),
        ensures
            final(self).wf(),
            final(self).spec_puzzle() == old(self).spec_puzzle(),
            final(self).spec_solver() == old(self).spec_solver(),
            grid_le(old(self).grid_view(), final(self).grid_view()),
            match r {
                Ok(true) => grid_unknowns(final(self).grid_view()) < grid_unknowns(
                    old(self).grid_view(),
                ),
                Ok(false) => final(self).grid_view() == old(self).grid_view()
                    && final(self).queue_len() == 0,
                Err(e) => e == SolverError::Invalid
                    && final(self).grid_view() == old(self).grid_view(),
            },
            r is Err && old(self).spec_puzzle().wf() ==> !(exists|g: Seq<Seq<PartialSquare>>|
                all_known(g) && grid_le(old(self).grid_view(), g) && #[trigger] grid_matches(
                    old(self).spec_puzzle(),
                    g,
                )),
            old(self).spec_puzzle().wf() ==> (forall|g: Seq<Seq<PartialSquare>>|
                all_known(g) && grid_le(old(self).grid_view(), g) && #[trigger] grid_matches(
                    old(self).spec_puzzle(),
                    g,
                ) ==> grid_le(final(self).grid_view(), g)),
            old(self).spec_solver().rules_seq() == seq![Rule::Overlap, Rule::GapFill] ==> {
                &&& (r is Ok ==> final(self).settled_lines_saturated())
                &&& (r == Ok::<bool, SolverError>(false) ==> forall|li: LineIndex|
                    line_valid(old(self).spec_puzzle(), li) ==> #[trigger] line_saturated(
                        line_hints_of(old(self).spec_puzzle(), li),
                        line_len_of(old(self).spec_puzzle(), li),
                        line_cells(final(self).grid_view(), li),
                        final(self).runs_of(li),
                    ))
            },
    {
        let ghost pre = *self;
        let ghost h = pre.spec_puzzle().spec_h();
        while self.queue.len() > 0
            invariant
                pre == *old(self),
                pre.wf(),
                h == pre.spec_puzzle().spec_h(),
                self.wf(),
                self.puzzle == pre.puzzle,
                self.solver == pre.solver,
                self.grid_view() == pre.grid_view(),
                pre.spec_solver().rules_seq() == seq![Rule::Overlap, Rule::GapFill]
                    ==> self.settled_lines_saturated(),
            decreases self.queue@.len(),
        {
            let ghost at_head = *self;
            let ghost qpre = self.queue@;
            let li = self.queue.remove(0);
            proof {
                assert(self.queue@ =~= qpre.skip(1));
                assert(line_valid(pre.spec_puzzle(), li));
                assert(self.queue@.no_duplicates()) by {
                    assert forall|p: int, q: int|
                        0 <= p < self.queue@.len() && 0 <= q < self.queue@.len() && p != q implies
                        self.queue@[p] != self.queue@[q] by {
                        assert(self.queue@[p] == qpre[p + 1]);
                        assert(self.queue@[q] == qpre[q + 1]);
                    }
                }
            }
            proof {
                let hi = pre.spec_puzzle().spec_h();
                let wi = pre.spec_puzzle().spec_w();
                lemma_grid_dims(pre.grid);
                if hi >= 1 && wi >= 1 {
                    assert(hi + wi <= hi * wi + 1) by (nonlinear_arith)
                        requires
                            hi >= 1,
                            wi >= 1,
                    ;
                }
                assert(hi + wi <= usize::MAX);
            }
            let slot = match li {
                LineIndex::Row(a) => a,
                LineIndex::Col(b) => self.puzzle.h() + b,
            };
            self.queued.set(slot, false);
            proof {
                assert(li_slot(li, h) == slot);
                assert forall|qi: int| 0 <= qi < self.queue@.len() implies self.queued@[li_slot(
                    #[trigger] self.queue@[qi],
                    h,
                )] == true by {
                    assert(self.queue@[qi] == qpre[qi + 1]);
                    assert(self.queue@[qi] != li);
                    assert(li_slot(self.queue@[qi], h) != slot);
                }
                let pz = pre.spec_puzzle();
                assert forall|lj: LineIndex|
                    line_valid(pz, lj) && hints_pos(line_hints_of(pz, lj)) implies (
                forall|starts: Seq<int>|
                    placement_ok(line_hints_of(pz, lj), line_len_of(pz, lj), starts)
                        && cells_admit(
                        line_cells(self.grid_view(), lj),
                        line_hints_of(pz, lj),
                        starts,
                    ) ==> #[trigger] placement_in_brackets(
                        line_hints_of(pz, lj),
                        starts,
                        self.runs_of(lj),
                    )) by {
                    match lj {
                        LineIndex::Row(a) => {
                            assert(self.runs_of(lj) == at_head.runs_of(lj));
                        },
                        LineIndex::Col(b) => {
                            assert(self.runs_of(lj) == at_head.runs_of(lj));
                        },
                    }
                    assert(self.grid_view() == at_head.grid_view());
                }
                assert forall|lj: LineIndex|
                    line_valid(pz, lj) && self.queued@[li_slot(lj, h)] == true implies self
                    .queue@
                    .contains(lj) by {
                    assert(li_slot(lj, h) != slot);
                    assert(at_head.queued@[li_slot(lj, h)] == true);
                    assert(at_head.queue@.contains(lj));
                    let qi = choose|qi: int| 0 <= qi < qpre.len() && qpre[qi] == lj;
                    assert(qi != 0) by {
                        if qi == 0 {
                            assert(lj == li);
                            assert(li_slot(lj, h) == slot);
                        }
                    }
                    assert(self.queue@[qi - 1] == qpre[qi]);
                }
                assert(self.wf());
            }
            let mut pl = self.line(li);
            let ghost loaded = *self;
            let ghost pl0 = pl;
            match saturate(&self.solver.deductions, &mut pl) {
                Err(_) => {
                    proof {
                        let pz = pre.spec_puzzle();
                        if pz.wf() {
                            assert(loaded.wf());
                            assert_by_contradiction!(!(exists|g: Seq<Seq<PartialSquare>>|
                                all_known(g) && grid_le(pre.grid_view(), g)
                                    && #[trigger] grid_matches(pz, g)), {
                                let g = choose|g: Seq<Seq<PartialSquare>>|
                                    all_known(g) && grid_le(pre.grid_view(), g)
                                        && #[trigger] grid_matches(pz, g);
                                assert(grid_le(loaded.grid_view(), g));
                                let starts = lemma_completion_admits(loaded, li, g);
                                lemma_wf_hints_pos(pz, li);
                                assert(line_admits(
                                    pl0.hints_seq(),
                                    pl0.len(),
                                    pl0.cells_seq(),
                                    pl0.runs_seq(),
                                    starts,
                                ));
                            });
                        }
                    }
                    return Err(SolverError::Invalid);
                },
                Ok(()) => (),
            }
            let progressed = pl.dirty_len() > 0;
            let ghost pl_final = pl;
            proof {
                let pz = pre.spec_puzzle();
                if hints_pos(line_hints_of(pz, li)) {
                    assert forall|starts: Seq<int>|
                        line_admits(
                            line_hints_of(pz, li),
                            line_len_of(pz, li),
                            pl_final.init_seq(),
                            self.runs_of(li),
                            starts,
                        ) implies #[trigger] line_admits(
                        line_hints_of(pz, li),
                        line_len_of(pz, li),
                        pl_final.cells_seq(),
                        pl_final.runs_seq(),
                        starts,
                    ) by {
                        assert(pl0.hints_seq() == line_hints_of(pz, li));
                        assert(pl0.cells_seq() == pl_final.init_seq());
                        assert(pl0.runs_seq() == self.runs_of(li));
                        assert(line_admits(
                            pl0.hints_seq(),
                            pl0.len(),
                            pl0.cells_seq(),
                            pl0.runs_seq(),
                            starts,
                        ));
                        assert(line_admits(
                            pl0.hints_seq(),
                            pl0.len(),
                            pl_final.cells_seq(),
                            pl_final.runs_seq(),
                            starts,
                        ));
                    }
                }
            }
            self.store_line(li, pl);
            proof {
                let pz = pre.spec_puzzle();
                if pz.wf() {
                    assert(loaded.wf());
                    assert forall|g: Seq<Seq<PartialSquare>>|
                        all_known(g) && grid_le(pre.grid_view(), g) && #[trigger] grid_matches(
                            pz,
                            g,
                        ) implies grid_le(self.grid_view(), g) by {
                        assert(grid_le(loaded.grid_view(), g));
                        let starts = lemma_completion_admits(loaded, li, g);
                        lemma_wf_hints_pos(pz, li);
                        assert(line_admits(
                            pl0.hints_seq(),
                            pl0.len(),
                            pl0.cells_seq(),
                            pl0.runs_seq(),
                            starts,
                        ));
                        assert(line_admits(
                            pl0.hints_seq(),
                            pl0.len(),
                            pl_final.cells_seq(),
                            pl_final.runs_seq(),
                            starts,
                        ));
                        assert(cells_admit(pl_final.cells_seq(), pl0.hints_seq(), starts));
                        assert(line_cells(self.grid_view(), li) == pl_final.cells_seq());
                        assert forall|a: int| 0 <= a < self.grid_view().len() implies cells_le(
                            #[trigger] self.grid_view()[a],
                            g[a],
                        ) by {
                            assert(cells_le(pre.grid_view()[a], g[a]));
                            assert forall|b: int|
                                0 <= b < self.grid_view()[a].len() implies sq_le(
                                #[trigger] self.grid_view()[a][b],
                                g[a][b],
                            ) by {
                                if off_line(li, a, b) {
                                    assert(self.grid_view()[a][b] == pre.grid_view()[a][b]);
                                    assert(sq_le(pre.grid_view()[a][b], g[a][b]));
                                } else {
                                    let q: int = match li {
                                        LineIndex::Row(_) => b,
                                        LineIndex::Col(_) => a,
                                    };
                                    assert(line_cells(self.grid_view(), li)[q]
                                        == self.grid_view()[a][b]);
                                    assert(line_cells(g, li)[q] == g[a][b]);
                                    assert(covered(pl0.hints_seq(), starts, q) <==> line_cells(
                                        g,
                                        li,
                                    )[q] == PartialSquare::Known(Square::Full));
                                    if self.grid_view()[a][b] == PartialSquare::Known(
                                        Square::Full,
                                    ) {
                                        assert(covered(pl0.hints_seq(), starts, q));
                                    } else if self.grid_view()[a][b] == PartialSquare::Known(
                                        Square::Empty,
                                    ) {
                                        assert(!covered(pl0.hints_seq(), starts, q));
                                        assert(g[a][b] is Known);
                                        assert(g[a][b] != PartialSquare::Known(Square::Full));
                                    }
                                }
                            }
                        }
                        assert(self.grid_view().len() == g.len());
                    }
                }
            }
            proof {
                if pre.spec_solver().rules_seq() == seq![Rule::Overlap, Rule::GapFill] {
                    let pz = pre.spec_puzzle();
                    assert(line_saturated(
                        pl_final.hints_seq(),
                        pl_final.len(),
                        pl_final.cells_seq(),
                        pl_final.runs_seq(),
                    ));
                    assert forall|lj: LineIndex|
                        line_valid(pz, lj) && self.queued@[li_slot(lj, h)] != true implies
                        line_saturated(
                        line_hints_of(pz, lj),
                        line_len_of(pz, lj),
                        line_cells(self.grid_view(), lj),
                        self.runs_of(lj),
                    ) by {
                        if lj == li {
                            assert(line_cells(self.grid_view(), li) == pl_final.cells_seq());
                            assert(self.runs_of(li) == pl_final.runs_seq());
                            assert(pl_final.hints_seq() == line_hints_of(pz, li));
                            assert(pl_final.len() == line_len_of(pz, li));
                        } else {
                            assert(li_slot(lj, h) != li_slot(li, h)) by {
                                if li_slot(lj, h) == li_slot(li, h) {
                                    assert(lj == li);
                                }
                            }
                            assert(0 <= li_slot(lj, h) < h + pz.spec_w()) by {
                                match lj {
                                    LineIndex::Row(ra) => {},
                                    LineIndex::Col(cb) => {},
                                }
                            }
                            assert(loaded.queued@[li_slot(lj, h)] != true) by {
                                if loaded.queued@[li_slot(lj, h)] == true {
                                    assert(loaded.queued_at(li_slot(lj, h)) == true);
                                    assert(self.queued_at(li_slot(lj, h)) == true);
                                }
                            }
                            assert(at_head.queued@[li_slot(lj, h)] != true);
                            assert(line_saturated(
                                line_hints_of(pz, lj),
                                line_len_of(pz, lj),
                                line_cells(at_head.grid_view(), lj),
                                at_head.runs_of(lj),
                            ));
                            assert(self.runs_of(lj) == loaded.runs_of(lj));
                            assert(loaded.runs_of(lj) == at_head.runs_of(lj));
                            assert(line_cells(self.grid_view(), lj) =~= line_cells(
                                at_head.grid_view(),
                                lj,
                            )) by {
                                assert(loaded.grid_view() == at_head.grid_view());
                                assert forall|q: int|
                                    0 <= q < line_cells(at_head.grid_view(), lj).len() implies
                                    line_cells(self.grid_view(), lj)[q] == line_cells(
                                    at_head.grid_view(),
                                    lj,
                                )[q] by {
                                    let (a, b): (int, int) = match lj {
                                        LineIndex::Row(ra) => (ra as int, q),
                                        LineIndex::Col(cb) => (q, cb as int),
                                    };
                                    if off_line(li, a, b) {
                                        assert(self.grid_view()[a][b] == loaded.grid_view()[a][b]);
                                    } else {
                                        let onli: int = match li {
                                            LineIndex::Row(_) => b,
                                            LineIndex::Col(_) => a,
                                        };
                                        assert(line_cells(self.grid_view(), li)[onli]
                                            == pl_final.cells_seq()[onli]);
                                        assert(line_cells(loaded.grid_view(), li)[onli]
                                            == pl_final.init_seq()[onli]);
                                        assert(pl_final.cells_seq()[onli] == pl_final.init_seq()[
                                            onli
                                        ]) by {
                                            if pl_final.cells_seq()[onli] != pl_final.init_seq()[
                                                onli
                                            ] {
                                                assert(pl_final.dirty_seq().contains(
                                                    onli as usize,
                                                ));
                                                let e = choose|e: int|
                                                    0 <= e < pl_final.dirty_seq().len()
                                                        && pl_final.dirty_seq()[e]
                                                        == onli as usize;
                                                assert(self.queued_at(
                                                    li_slot(
                                                        cross_of(li, pl_final.dirty_seq()[e]),
                                                        h,
                                                    ),
                                                ) == true);
                                                assert(cross_of(li, pl_final.dirty_seq()[e])
                                                    == lj);
                                            }
                                        }
                                        assert(line_cells(self.grid_view(), lj)[q]
                                            == line_cells(self.grid_view(), li)[onli]);
                                        assert(line_cells(at_head.grid_view(), lj)[q]
                                            == line_cells(loaded.grid_view(), li)[onli]);
                                    }
                                }
                            }
                        }
                    }
                }
            }
            if progressed {
                proof {
                    assert(grid_unknowns(self.grid_view()) < grid_unknowns(pre.grid_view()));
                }
                return Ok(true);
            }
            proof {
                assert(pl_final.dirty_seq().len() == 0);
                assert(self.grid_view() =~~= pre.grid_view()) by {
                    assert forall|a: int| 0 <= a < pre.grid_view().len() implies self.grid_view()[a]
                        =~= pre.grid_view()[a] by {
                        assert forall|b: int|
                            0 <= b < pre.grid_view()[a].len() implies self.grid_view()[a][b]
                            == pre.grid_view()[a][b] by {
                            if !off_line(li, a, b) {
                                assert(pl_final.cells_seq() =~= pl_final.init_seq()) by {
                                    assert forall|k: int|
                                        0 <= k < pl_final.len() implies pl_final.cells_seq()[k]
                                        == pl_final.init_seq()[k] by {
                                        assert(!pl_final.dirty_seq().contains(k as usize));
                                    }
                                }
                                match li {
                                    LineIndex::Row(i) => {
                                        assert(line_cells(self.grid_view(), li)[b]
                                            == pl_final.cells_seq()[b]);
                                        assert(line_cells(loaded.grid_view(), li)[b]
                                            == pl_final.init_seq()[b]);
                                    },
                                    LineIndex::Col(j) => {
                                        assert(line_cells(self.grid_view(), li)[a]
                                            == pl_final.cells_seq()[a]);
                                        assert(line_cells(loaded.grid_view(), li)[a]
                                            == pl_final.init_seq()[a]);
                                    },
                                }
                            }
                        }
                    }
                }
            }
        }
        proof {
            assert(grid_le(pre.grid_view(), self.grid_view())) by {
                assert forall|a: int| 0 <= a < pre.grid_view().len() implies cells_le(
                    #[trigger] pre.grid_view()[a],
                    self.grid_view()[a],
                ) by {}
            }
            if pre.spec_solver().rules_seq() == seq![Rule::Overlap, Rule::GapFill] {
                let pz = pre.spec_puzzle();
                assert forall|li: LineIndex| line_valid(pz, li) implies #[trigger] line_saturated(
                    line_hints_of(pz, li),
                    line_len_of(pz, li),
                    line_cells(self.grid_view(), li),
                    self.runs_of(li),
                ) by {
                    assert(self.queued@[li_slot(li, h)] != true) by {
                        if self.queued@[li_slot(li, h)] == true {
                            assert(self.queue@.contains(li));
                        }
                    }
                }
            }
        }
        Ok(false)
    }

    /// Run propagation steps to the terminal outcome: the completed grid,
    /// or why there is none.  A puzzle whose hints do not fit is rejected
    /// as malformed; a contradiction is invalid; a fixed point short of
    /// completion is stuck.  A returned grid is checked line by line, so
    /// it always realises every hint of the puzzle; moreover it is the
    /// only completion extending the worker's starting knowledge, and
    /// `Invalid` is reported only when no completion extends it.  With
    /// the default rules, `Stuck` is reported only at a saturated fixed
    /// point: the worker can exhibit a partial state, short of complete,
    /// on which both rules are finished (`stuck_state`).  For a fresh
    /// worker the starting knowledge is blank, so these clauses speak of
    /// the puzzle itself (see `lemma_blank_grid_le`).
    pub fn solve(self) -> (r: Result<Grid, SolverError>)
        requires
            self.wf(),
            self.spec_solver().rules_seq() == seq![Rule::Overlap, Rule::GapFill]
                ==> self.settled_lines_saturated(),
        ensures
            r == Err::<Grid, SolverError>(SolverError::MalformedPuzzle) <==> !self.spec_puzzle().wf(),
            r matches Ok(g) ==> {
                &&& g.wf()
                &&& g.spec_h() == self.spec_puzzle().spec_h()
                &&& g.spec_w() == self.spec_puzzle().spec_w()
                &&& all_known(g@)
                &&& grid_matches(self.spec_puzzle(), g@)
            },
            r == Err::<Grid, SolverError>(SolverError::Invalid) ==> !(exists|
                g: Seq<Seq<PartialSquare>>,
            |
                #[trigger] is_completion(self.spec_puzzle(), g) && grid_le(self.grid_view(), g)),
            r matches Ok(gr) ==> (forall|g: Seq<Seq<PartialSquare>>|
                #[trigger] is_completion(self.spec_puzzle(), g) && grid_le(self.grid_view(), g)
                    ==> g == gr@),
            self.spec_puzzle().wf() && self.spec_puzzle().spec_h() == 0 ==> r is Ok,
            self.spec_solver().rules_seq() == seq![Rule::Overlap, Rule::GapFill] && r == Err::<
                Grid,
                SolverError,
            >(SolverError::Stuck) ==> exists|
                g: Seq<Seq<PartialSquare>>,
                rr: Seq<Seq<PartialRun>>,
                cr: Seq<Seq<PartialRun>>,
            |
                #[trigger] stuck_state(self.spec_puzzle(), g, rr, cr) && grid_le(
                    self.grid_view(),
                    g,
                ),
    {
        if !self.puzzle.is_well_formed() {
            return Err(SolverError::MalformedPuzzle);
        }
        let mut me = self;
        proof {
            assert forall|g: Seq<Seq<PartialSquare>>|
                #[trigger] is_completion(self.spec_puzzle(), g) && grid_le(self.grid_view(), g)
                implies grid_le(me.grid_view(), g) by {}
            assert(grid_le(self.grid_view(), me.grid_view())) by {
                assert forall|a: int| 0 <= a < self.grid_view().len() implies cells_le(
                    #[trigger] self.grid_view()[a],
                    me.grid_view()[a],
                ) by {}
            }
        }
        loop
            invariant
                me.wf(),
                me.spec_puzzle() == self.spec_puzzle(),
                me.spec_solver() == self.spec_solver(),
                self.spec_puzzle().wf(),
                self.spec_solver().rules_seq() == seq![Rule::Overlap, Rule::GapFill]
                    ==> me.settled_lines_saturated(),
                grid_le(self.grid_view(), me.grid_view()),
                forall|g: Seq<Seq<PartialSquare>>|
                    #[trigger] is_completion(self.spec_puzzle(), g) && grid_le(
                        self.grid_view(),
                        g,
                    ) ==> grid_le(me.grid_view(), g),
            decreases grid_unknowns(me.grid_view()),
        {
            let ghost at_loop = me.grid_view();
            proof {
                if self.spec_puzzle().spec_h() == 0 {
                    assert(at_loop.len() == 0);
                    assert(grid_unknowns(at_loop) == 0);
                }
            }
            match me.step() {
                Ok(true) => {
                    proof {
                        if self.spec_puzzle().spec_h() == 0 {
                            assert(false);
                        }
                        assert forall|g: Seq<Seq<PartialSquare>>|
                            #[trigger] is_completion(self.spec_puzzle(), g) && grid_le(
                                self.grid_view(),
                                g,
                            ) implies grid_le(me.grid_view(), g) by {
                            assert(grid_le(at_loop, g));
                        }
                        lemma_grid_le_trans(self.grid_view(), at_loop, me.grid_view());
                    }
                },
                Ok(false) => {
                    if me.verify() {
                        if me.check_lines() {
                            proof {
                                assert forall|g: Seq<Seq<PartialSquare>>|
                                    #[trigger] is_completion(self.spec_puzzle(), g) && grid_le(
                                        self.grid_view(),
                                        g,
                                    ) implies g == me.grid_view() by {
                                    assert(grid_le(me.grid_view(), g));
                                    assert(g =~~= me.grid_view()) by {
                                        assert forall|a: int|
                                            0 <= a < g.len() implies g[a] =~= me.grid_view()[a] by {
                                            assert(cells_le(me.grid_view()[a], g[a]));
                                            assert forall|b: int|
                                                0 <= b < g[a].len() implies g[a][b]
                                                == me.grid_view()[a][b] by {
                                                assert((#[trigger] me.grid_view()[a][b]) is Known);
                                                assert(sq_le(me.grid_view()[a][b], g[a][b]));
                                            }
                                        }
                                    }
                                }
                            }
                            return Ok(me.grid);
                        } else {
                            proof {
                                assert_by_contradiction!(!(exists|g: Seq<Seq<PartialSquare>>|
                                    #[trigger] is_completion(self.spec_puzzle(), g) && grid_le(
                                        self.grid_view(),
                                        g,
                                    )), {
                                    let g = choose|g: Seq<Seq<PartialSquare>>|
                                        #[trigger] is_completion(self.spec_puzzle(), g)
                                            && grid_le(self.grid_view(), g);
                                    assert(grid_le(me.grid_view(), g));
                                    assert(g =~~= me.grid_view()) by {
                                        assert forall|a: int|
                                            0 <= a < g.len() implies g[a] =~= me.grid_view()[a] by {
                                            assert(cells_le(me.grid_view()[a], g[a]));
                                            assert forall|b: int|
                                                0 <= b < g[a].len() implies g[a][b]
                                                == me.grid_view()[a][b] by {
                                                assert((#[trigger] me.grid_view()[a][b]) is Known);
                                                assert(sq_le(me.grid_view()[a][b], g[a][b]));
                                            }
                                        }
                                    }
                                    assert(grid_matches(self.spec_puzzle(), me.grid_view()));
                                });
                                if self.spec_puzzle().spec_h() == 0 {
                                    assert(me.grid_view().len() == 0);
                                    assert(grid_matches(self.spec_puzzle(), me.grid_view()));
                                    assert(false);
                                }
                            }
                            return Err(SolverError::Invalid);
                        }
                    } else {
                        proof {
                            if self.spec_puzzle().spec_h() == 0 {
                                assert(me.grid_view().len() == 0);
                                assert(all_known(me.grid_view()));
                                assert(false);
                            }
                            if self.spec_solver().rules_seq() == seq![
                                Rule::Overlap,
                                Rule::GapFill,
                            ] {
                                let pz = self.spec_puzzle();
                                let g = me.grid_view();
                                let rr = Seq::new(
                                    pz.spec_h() as nat,
                                    |i: int| me.runs_of(LineIndex::Row(i as usize)),
                                );
                                let cr = Seq::new(
                                    pz.spec_w() as nat,
                                    |j: int| me.runs_of(LineIndex::Col(j as usize)),
                                );
                                assert(stuck_state(pz, g, rr, cr)) by {
                                    assert forall|i: int| 0 <= i < pz.spec_h() implies
                                        #[trigger] line_saturated(
                                        pz.spec_row_hints()[i],
                                        pz.spec_w(),
                                        line_cells(g, LineIndex::Row(i as usize)),
                                        rr[i],
                                    ) by {
                                        assert(line_valid(pz, LineIndex::Row(i as usize)));
                                        assert(line_saturated(
                                            line_hints_of(pz, LineIndex::Row(i as usize)),
                                            line_len_of(pz, LineIndex::Row(i as usize)),
                                            line_cells(g, LineIndex::Row(i as usize)),
                                            me.runs_of(LineIndex::Row(i as usize)),
                                        ));
                                    }
                                    assert forall|j: int| 0 <= j < pz.spec_w() implies
                                        #[trigger] line_saturated(
                                        pz.spec_col_hints()[j],
                                        pz.spec_h(),
                                        line_cells(g, LineIndex::Col(j as usize)),
                                        cr[j],
                                    ) by {
                                        assert(line_valid(pz, LineIndex::Col(j as usize)));
                                        assert(line_saturated(
                                            line_hints_of(pz, LineIndex::Col(j as usize)),
                                            line_len_of(pz, LineIndex::Col(j as usize)),
                                            line_cells(g, LineIndex::Col(j as usize)),
                                            me.runs_of(LineIndex::Col(j as usize)),
                                        ));
                                    }
                                }
                            }
                        }
                        return Err(SolverError::Stuck);
                    }
                },
                Err(e) => {
                    proof {
                        if self.spec_puzzle().spec_h() == 0 {
                            assert(is_completion(self.spec_puzzle(), at_loop));
                            assert(grid_le(at_loop, at_loop));
                            assert(grid_matches(self.spec_puzzle(), at_loop));
                            assert(false);
                        }
                        assert_by_contradiction!(!(exists|g: Seq<Seq<PartialSquare>>|
                            #[trigger] is_completion(self.spec_puzzle(), g) && grid_le(
                                self.grid_view(),
                                g,
                            )), {
                            let g = choose|g: Seq<Seq<PartialSquare>>|
                                #[trigger] is_completion(self.spec_puzzle(), g) && grid_le(
                                    self.grid_view(),
                                    g,
                                );
                            assert(grid_le(at_loop, g));
                            assert(grid_matches(self.spec_puzzle(), g));
                        });
                    }
                    return Err(e);
                },
            }
        }
    }
}

impl Solver {
    /// A worker that will drive this solver's rules over `puzzle`.
    pub fn delegate<'a>(&'a self, puzzle: &'a Puzzle) -> (w: SolverWorker<'a>)
        requires
            puzzle.spec_h() <= isize::MAX,
            puzzle.spec_w() <= isize::MAX,
            puzzle.spec_h() * puzzle.spec_w() <= isize::MAX,
        ensures
            w.wf(),
            w.spec_puzzle() == *puzzle,
            w.spec_solver() == *self,
            w.grid_view() == Seq::new(
                puzzle.spec_h() as nat,
                |i: int| Seq::new(puzzle.spec_w() as nat, |j: int| PartialSquare::Unknown),
            ),
            w.queue_seq().len() == puzzle.spec_h() + puzzle.spec_w(),
            forall|q: int|
                0 <= q < puzzle.spec_h() ==> #[trigger] w.queue_seq()[q] == LineIndex::Row(
                    q as usize,
                ),
            forall|q: int|
                puzzle.spec_h() <= q < puzzle.spec_h() + puzzle.spec_w()
                    ==> #[trigger] w.queue_seq()[q] == LineIndex::Col(
                    (q - puzzle.spec_h()) as usize,
                ),
            forall|li: LineIndex|
                line_valid(*puzzle, li) ==> #[trigger] w.runs_of(li) == Seq::new(
                    line_hints_of(*puzzle, li).len(),
                    |t: int| PartialRun { lo: 0, hi: line_len_of(*puzzle, li) as usize },
                ),
            w.settled_lines_saturated(),
    {
        SolverWorker::new(self, puzzle)
    }
}

} // verus!

