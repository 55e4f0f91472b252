//! The puzzle data model: cell values, partial knowledge about cells and
//! hint runs, line addressing, and the immutable hint specification built
//! by the caller.

use vstd::prelude::*;

verus! {

/// The value of one cell in a completed picture.
#[derive(Clone, Copy, PartialEq, Eq, Structural, Debug)]
pub enum Square {
    Empty,
    Full,
}

/// Three-valued knowledge about one cell: nothing yet, or a settled value.
#[derive(Clone, Copy, PartialEq, Eq, Structural, Debug)]
pub enum PartialSquare {
    Unknown,
    Known(Square),
}

impl PartialSquare {
    /// The settled value of a cell that is known.
    pub fn collapse(self) -> (r: Square)
        requires
            self is Known,
        ensures
            self == PartialSquare::Known(r),
    {
        match self {
            PartialSquare::Known(inner) => inner,
            PartialSquare::Unknown => unreached(),
        }
    }

    pub fn is_known(&self) -> (r: bool)
        ensures
            r == (self is Known),
    {
        match self {
            PartialSquare::Unknown => false,
            PartialSquare::Known(_) => true,
        }
    }

    /// Overwrite this cell with the settled value `x`; report whether that
    /// changed anything.  The caller is responsible for checking that an
    /// already-known cell is not being contradicted.
    pub fn settle(&mut self, x: Square) -> (r: bool)
        ensures
            *final(self) == PartialSquare::Known(x),
            r == (*old(self) != PartialSquare::Known(x)),
    {
        let res = match *self {
            PartialSquare::Known(old) if old == x => false,
            _ => true,
        };
        *self = PartialSquare::Known(x);
        res
    }
}

/// The bracket `[lo, hi)` of cell positions inside which one hint's run of
/// `Full` cells must lie.  `lo` only ever increases and `hi` only ever
/// decreases.
#[derive(Clone, Copy, PartialEq, Eq, Structural, Debug)]
pub struct PartialRun {
    pub lo: usize,
    pub hi: usize,
}

impl PartialRun {
    /// The initial, fully unconstrained bracket of a line of length `len`.
    pub fn new(len: usize) -> (r: PartialRun)
        ensures
            r == (PartialRun { lo: 0, hi: len }),
    {
        PartialRun { lo: 0, hi: len }
    }

    /// Tighten the bracket: raise `lo` to at least `lo`, lower `hi` to at
    /// most `hi`.
    pub fn update(&mut self, lo: usize, hi: usize)
        ensures
            final(self).lo == if old(self).lo >= lo { old(self).lo } else { lo },
            final(self).hi == if old(self).hi <= hi { old(self).hi } else { hi },
    {
        if lo > self.lo {
            self.lo = lo;
        }
        if hi < self.hi {
            self.hi = hi;
        }
    }
}

/// Addresses one line of the grid: a row by its index from the top, or a
/// column by its index from the left.
#[derive(Clone, Copy, Hash, PartialEq, Eq, Structural, Debug)]
pub enum LineIndex {
    Row(usize),
    Col(usize),
}

impl LineIndex {
    /// The perpendicular line through position `k` of this line.
    pub fn line_through(&self, k: usize) -> (r: LineIndex)
        ensures
            self is Row ==> r == LineIndex::Col(k),
            self is Col ==> r == LineIndex::Row(k),
    {
        match self {
            LineIndex::Row(_) => LineIndex::Col(k),
            LineIndex::Col(_) => LineIndex::Row(k),
        }
    }
}

/// The sum of a line's hints.
pub open spec fn hint_sum(s: Seq<usize>) -> int
    decreases s.len(),
{
    if s.len() == 0 {
        0
    } else {
        hint_sum(s.drop_last()) + s.last()
    }
}

/// The least number of cells a line with hints `s` can occupy: every run,
/// plus one separating cell between adjacent runs.
pub open spec fn line_span(s: Seq<usize>) -> int {
    hint_sum(s) + if s.len() == 0 { 0int } else { s.len() - 1 }
}

/// Whether the hint sequence `s` is admissible for a line of `len` cells:
/// every hint names a non-empty run and the runs fit into the line.
pub open spec fn hints_fit(s: Seq<usize>, len: int) -> bool {
    &&& line_span(s) <= len
    &&& forall|t: int| 0 <= t < s.len() ==> #[trigger] s[t] >= 1
}

pub proof fn lemma_hint_sum_take_step(s: Seq<usize>, i: int)
    requires
        0 <= i < s.len(),
    ensures
        hint_sum(s.take(i + 1)) == hint_sum(s.take(i)) + s[i],
{
    assert(s.take(i + 1).drop_last() =~= s.take(i));
    assert(s.take(i + 1).last() == s[i]);
}

/// A prefix of a hint sequence never needs more room than the whole.
pub proof fn lemma_line_span_take_le(s: Seq<usize>, i: int)
    requires
        0 <= i <= s.len(),
    ensures
        line_span(s.take(i)) <= line_span(s),
    decreases s.len() - i,
{
    if i == s.len() {
        assert(s.take(i) =~= s);
    } else {
        lemma_hint_sum_take_step(s, i);
        lemma_line_span_take_le(s, i + 1);
    }
}

/// The immutable puzzle specification: an ordered hint sequence for every
/// row and every column.
pub struct Puzzle {
    row_hints: Vec<Vec<usize>>,
    col_hints: Vec<Vec<usize>>,
}

impl Puzzle {
    /// The hint sequences of the rows, top to bottom.
    pub closed spec fn spec_row_hints(&self) -> Seq<Seq<usize>> {
        self.row_hints@.map_values(|v: Vec<usize>| v@)
    }

    /// The hint sequences of the columns, left to right.
    pub closed spec fn spec_col_hints(&self) -> Seq<Seq<usize>> {
        self.col_hints@.map_values(|v: Vec<usize>| v@)
    }

    pub open spec fn spec_h(&self) -> int {
        self.spec_row_hints().len() as int
    }

    pub open spec fn spec_w(&self) -> int {
        self.spec_col_hints().len() as int
    }

    /// A puzzle is well formed when a dimension is zero only if both are,
    /// and every line's hints fit into that line.
    pub open spec fn wf(&self) -> bool {
        &&& (self.spec_h() == 0 <==> self.spec_w() == 0)
        &&& forall|i: int|
            0 <= i < self.spec_h() ==> hints_fit(
                #[trigger] self.spec_row_hints()[i],
                self.spec_w(),
            )
        &&& forall|j: int|
            0 <= j < self.spec_w() ==> hints_fit(
                #[trigger] self.spec_col_hints()[j],
                self.spec_h(),
            )
    }

    pub fn new() -> (r: Puzzle)
        ensures
            r.spec_row_hints() =~= Seq::<Seq<usize>>::empty(),
            r.spec_col_hints() =~= Seq::<Seq<usize>>::empty(),
    {
        let r = Puzzle { row_hints: Vec::new(), col_hints: Vec::new() };
        proof {
            assert(r.spec_row_hints() =~= Seq::<Seq<usize>>::empty());
            assert(r.spec_col_hints() =~= Seq::<Seq<usize>>::empty());
        }
        r
    }

    /// Like `new`; the requested capacities only affect allocation.
    pub fn with_capacity(w: usize, h: usize) -> (r: Puzzle)
        ensures
            r.spec_row_hints() =~= Seq::<Seq<usize>>::empty(),
            r.spec_col_hints() =~= Seq::<Seq<usize>>::empty(),
    {
        let r = Puzzle { row_hints: Vec::with_capacity(h), col_hints: Vec::with_capacity(w) };
        proof {
            assert(r.spec_row_hints() =~= Seq::<Seq<usize>>::empty());
            assert(r.spec_col_hints() =~= Seq::<Seq<usize>>::empty());
        }
        r
    }

    pub fn w(&self) -> (r: usize)
        ensures
            r == self.spec_w(),
    {
        self.col_hints.len()
    }

    pub fn h(&self) -> (r: usize)
        ensures
            r == self.spec_h(),
    {
        self.row_hints.len()
    }

    pub fn push_row(self, hints: Vec<usize>) -> (r: Puzzle)
        ensures
            r.spec_row_hints() =~= self.spec_row_hints().push(hints@),
            r.spec_col_hints() =~= self.spec_col_hints(),
    {
        let mut s = self;
        s.row_hints.push(hints);
        proof {
            assert(s.row_hints@.drop_last() =~= self.row_hints@);
        }
        s
    }

    pub fn push_col(self, hints: Vec<usize>) -> (r: Puzzle)
        ensures
            r.spec_row_hints() =~= self.spec_row_hints(),
            r.spec_col_hints() =~= self.spec_col_hints().push(hints@),
    {
        let mut s = self;
        s.col_hints.push(hints);
        proof {
            assert(s.col_hints@.drop_last() =~= self.col_hints@);
        }
        s
    }

    /// The hints of row `i` or column `j`.
    pub fn hints(&self, li: LineIndex) -> (r: &Vec<usize>)
        requires
            li matches LineIndex::Row(i) ==> i < self.spec_h(),
            li matches LineIndex::Col(j) ==> j < self.spec_w(),
        ensures
            li matches LineIndex::Row(i) ==> r@ == self.spec_row_hints()[i as int],
            li matches LineIndex::Col(j) ==> r@ == self.spec_col_hints()[j as int],
    {
        match li {
            LineIndex::Row(i) => &self.row_hints[i],
            LineIndex::Col(j) => &self.col_hints[j],
        }
    }

    /// All line indices in canonical order: rows top to bottom, then
    /// columns left to right.
    pub fn index_iter(&self) -> (r: LineIndexIterator)
        ensures
            r.spec_w() == self.spec_w(),
            r.spec_h() == self.spec_h(),
            r.wf(),
            r.current() == if self.spec_h() > 0 {
                Some(LineIndex::Row(0))
            } else if self.spec_w() > 0 {
                Some(LineIndex::Col(0))
            } else {
                None::<LineIndex>
            },
    {
        let li = if self.h() >= 1 {
            Some(LineIndex::Row(0))
        } else if self.w() >= 1 {
            Some(LineIndex::Col(0))
        } else {
            None
        };
        LineIndexIterator { w: self.w(), h: self.h(), li }
    }

    /// Whether every line's hints fit its length and the dimensions agree;
    /// a puzzle failing this is rejected before solving.
    pub fn is_well_formed(&self) -> (r: bool)
        ensures
            r == self.wf(),
    {
        if (self.h() == 0) != (self.w() == 0) {
            return false;
        }
        let mut i: usize = 0;
        while i < self.row_hints.len()
            invariant
                i <= self.spec_h(),
                forall|t: int|
                    0 <= t < i ==> hints_fit(#[trigger] self.spec_row_hints()[t], self.spec_w()),
            decreases self.spec_h() - i,
        {
            if !line_fits(&self.row_hints[i], self.w()) {
                proof {
                    assert(!hints_fit(self.spec_row_hints()[i as int], self.spec_w()));
                }
                return false;
            }
            i += 1;
        }
        let mut j: usize = 0;
        while j < self.col_hints.len()
            invariant
                j <= self.spec_w(),
                forall|t: int|
                    0 <= t < j ==> hints_fit(#[trigger] self.spec_col_hints()[t], self.spec_h()),
            decreases self.spec_w() - j,
        {
            if !line_fits(&self.col_hints[j], self.h()) {
                proof {
                    assert(!hints_fit(self.spec_col_hints()[j as int], self.spec_h()));
                }
                return false;
            }
            j += 1;
        }
        true
    }
}

/// Whether the hints fit into a line of `len` cells.
fn line_fits(hints: &Vec<usize>, len: usize) -> (r: bool)
    ensures
        r == hints_fit(hints@, len as int),
{
    let n = hints.len();
    let mut span: usize = 0;
    let mut idx: usize = 0;
    while idx < n
        invariant
            idx <= n,
            n == hints@.len(),
            span == line_span(hints@.take(idx as int)),
            span <= len,
            forall|t: int| 0 <= t < idx ==> #[trigger] hints@[t] >= 1,
        decreases n - idx,
    {
        let h = hints[idx];
        if h == 0 {
            return false;
        }
        let gap: usize = if idx > 0 {
            1
        } else {
            0
        };
        proof {
            lemma_hint_sum_take_step(hints@, idx as int);
        }
        if gap > len - span || h > len - span - gap {
            proof {
                lemma_line_span_take_le(hints@, idx as int + 1);
            }
            return false;
        }
        span = span + gap + h;
        idx += 1;
    }
    proof {
        assert(hints@.take(n as int) =~= hints@);
    }
    true
}

/// Walks the line indices of a puzzle in canonical order.
pub struct LineIndexIterator {
    w: usize,
    h: usize,
    li: Option<LineIndex>,
}

impl LineIndexIterator {
    pub closed spec fn spec_w(&self) -> int {
        self.w as int
    }

    pub closed spec fn spec_h(&self) -> int {
        self.h as int
    }

    /// The next line index to be yielded, if any.
    pub closed spec fn current(&self) -> Option<LineIndex> {
        self.li
    }

    /// The pending index, when there is one, addresses a real line.
    pub closed spec fn wf(&self) -> bool {
        match self.li {
            Some(LineIndex::Row(i)) => i < self.h,
            Some(LineIndex::Col(j)) => j < self.w,
            None => true,
        }
    }

    /// Yield the pending line index and advance: rows in order, then
    /// columns in order, then nothing.
    pub fn next(&mut self) -> (r: Option<LineIndex>)
        requires
            old(self).wf(),
        ensures
            final(self).wf(),
            final(self).spec_w() == old(self).spec_w(),
            final(self).spec_h() == old(self).spec_h(),
            r == old(self).current(),
            final(self).current() == match old(self).current() {
                None => None::<LineIndex>,
                Some(LineIndex::Row(i)) => if i + 1 < old(self).spec_h() {
                    Some(LineIndex::Row((i + 1) as usize))
                } else if old(self).spec_w() >= 1 {
                    Some(LineIndex::Col(0))
                } else {
                    None::<LineIndex>
                },
                Some(LineIndex::Col(j)) => if j + 1 < old(self).spec_w() {
                    Some(LineIndex::Col((j + 1) as usize))
                } else {
                    None::<LineIndex>
                },
            },
    {
        match self.li {
            None => None,
            Some(li) => {
                self.li = match li {
                    LineIndex::Row(i) => if i + 1 < self.h {
                        Some(LineIndex::Row(i + 1))
                    } else if self.w >= 1 {
                        Some(LineIndex::Col(0))
                    } else {
                        None
                    },
                    LineIndex::Col(j) => if j + 1 < self.w {
                        Some(LineIndex::Col(j + 1))
                    } else {
                        None
                    },
                };
                Some(li)
            },
        }
    }
}

} // verus!
