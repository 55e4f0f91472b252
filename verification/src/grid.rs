//! The grid of partial knowledge: a two-dimensional `ndarray` array of
//! `PartialSquare`, wrapped in a verified facade whose view is the sequence
//! of its rows.

use vstd::prelude::*;

use crate::model::PartialSquare;

verus! {

/// Owns the backing `ndarray` array.  Verus cannot accept a declaration of
/// `ndarray::ArrayBase` itself (its `RawData` bound cannot be stated here),
/// so the array lives in this opaque holder and is reached only through the
/// trusted wrappers below.
#[verifier::external_body]
#[derive(Debug, PartialEq)]
pub struct CellArray {
    a: ndarray::Array2<PartialSquare>,
}

/// What a two-dimensional cell array holds: its rows, top to bottom.
pub uninterp spec fn array_rows(a: CellArray) -> Seq<Seq<PartialSquare>>;

/// Relies on ndarray's `Array2::from_elem`: builds an `h` by `w` array in
/// which every element is a copy of `elem`.  Panics only when the product
/// of the non-zero axis lengths overflows `isize`, which the preconditions
/// rule out (each axis alone must fit, since the other may be zero).
#[verifier::external_body]
fn array_filled(h: usize, w: usize, elem: PartialSquare) -> (a: CellArray)
    requires
        h <= isize::MAX,
        w <= isize::MAX,
        h * w <= isize::MAX,
    ensures
        array_rows(a) == Seq::new(h as nat, |i: int| Seq::new(w as nat, |j: int| elem)),
{
    CellArray { a: ndarray::Array2::from_elem((h, w), elem) }
}

/// Relies on ndarray's `Index` impl for `(usize, usize)`: returns the
/// element in row `i`, column `j`.  Panics only out of bounds, which the
/// precondition rules out.
#[verifier::external_body]
fn array_get(a: &CellArray, i: usize, j: usize) -> (s: PartialSquare)
    requires
        i < array_rows(*a).len(),
        j < array_rows(*a)[i as int].len(),
    ensures
        s == array_rows(*a)[i as int][j as int],
{
    a.a[(i, j)]
}

/// Relies on ndarray's `IndexMut` impl for `(usize, usize)`: replaces the
/// element in row `i`, column `j` and touches nothing else.  Panics only
/// out of bounds, which the precondition rules out.
#[verifier::external_body]
fn array_set(a: &mut CellArray, i: usize, j: usize, x: PartialSquare)
    requires
        i < array_rows(*old(a)).len(),
        j < array_rows(*old(a))[i as int].len(),
    ensures
        array_rows(*final(a)) == array_rows(*old(a)).update(
            i as int,
            array_rows(*old(a))[i as int].update(j as int, x),
        ),
{
    a.a[(i, j)] = x;
}

/// An `h` by `w` grid of three-valued cells, stored row-major.
#[derive(Debug, PartialEq)]
pub struct Grid {
    h: usize,
    w: usize,
    cells: CellArray,
}

impl View for Grid {
    type V = Seq<Seq<PartialSquare>>;

    closed spec fn view(&self) -> Seq<Seq<PartialSquare>> {
        array_rows(self.cells)
    }
}

/// The stored dimensions are machine integers.
pub proof fn lemma_grid_dims(g: Grid)
    ensures
        0 <= g.spec_h() <= usize::MAX,
        0 <= g.spec_w() <= usize::MAX,
{
}

impl Grid {
    pub closed spec fn spec_h(&self) -> int {
        self.h as int
    }

    pub closed spec fn spec_w(&self) -> int {
        self.w as int
    }

    /// The stored dimensions agree with the array's contents.
    pub open spec fn wf(&self) -> bool {
        &&& self@.len() == self.spec_h()
        &&& forall|i: int| 0 <= i < self@.len() ==> (#[trigger] self@[i]).len() == self.spec_w()
    }

    /// A fresh grid in which nothing is known yet.
    pub fn new(h: usize, w: usize) -> (r: Grid)
        requires
            h <= isize::MAX,
            w <= isize::MAX,
            h * w <= isize::MAX,
        ensures
            r.wf(),
            r.spec_h() == h,
            r.spec_w() == w,
            r@ == Seq::new(h as nat, |i: int| Seq::new(w as nat, |j: int| PartialSquare::Unknown)),
    {
        Grid { h, w, cells: array_filled(h, w, PartialSquare::Unknown) }
    }

    pub fn h(&self) -> (r: usize)
        ensures
            r == self.spec_h(),
    {
        self.h
    }

    pub fn w(&self) -> (r: usize)
        ensures
            r == self.spec_w(),
    {
        self.w
    }

    /// The cell in row `i`, column `j`.
    pub fn get(&self, i: usize, j: usize) -> (s: PartialSquare)
        requires
            self.wf(),
            i < self.spec_h(),
            j < self.spec_w(),
        ensures
            s == self@[i as int][j as int],
    {
        array_get(&self.cells, i, j)
    }

    /// Replace the cell in row `i`, column `j`.
    pub fn set(&mut self, i: usize, j: usize, x: PartialSquare)
        requires
            old(self).wf(),
            i < old(self).spec_h(),
            j < old(self).spec_w(),
        ensures
            final(self).wf(),
            final(self).spec_h() == old(self).spec_h(),
            final(self).spec_w() == old(self).spec_w(),
            final(self)@ == old(self)@.update(
                i as int,
                old(self)@[i as int].update(j as int, x),
            ),
    {
        array_set(&mut self.cells, i, j, x);
    }
}

} // verus!
