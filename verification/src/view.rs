use vstd::prelude::*;
use crate::cursor::Cursor;
use crate::grid::GridError;
use crate::grid::TooDee;
use crate::flattenexact::FlattenExact;
use crate::flattenexact::uniform_rows;
use crate::flattenexact::lemma_flat_len;
use crate::flattenexact::lemma_flat_index;

verus! {

/// A rectangular window into a grid, in absolute grid coordinates:
/// rows `row_start..row_end`, columns `col_start..col_end`.
#[derive(Clone, Copy, Debug, PartialEq, Eq, Structural)]
pub struct TooDeeRegion {
    pub row_start: usize,
    pub col_start: usize,
    pub row_end: usize,
    pub col_end: usize,
}

impl TooDeeRegion {
    /// The window lies inside a grid of the given dimensions.
    pub open spec fn wf_for(self, width: int, height: int) -> bool {
        self.row_start <= self.row_end <= height && self.col_start <= self.col_end <= width
    }

    /// The window's own width.
    pub open spec fn num_cols(self) -> int {
        self.col_end - self.col_start
    }

    /// The window's own height.
    pub open spec fn num_rows(self) -> int {
        self.row_end - self.row_start
    }
}

impl<T> TooDee<T> {
    /// The given rows and columns of this grid read as a sequence of
    /// rows of cell values.
    pub open spec fn region_rows(self, reg: TooDeeRegion) -> Seq<Seq<T>> {
        Seq::new(
            reg.num_rows() as nat,
            |r: int|
                Seq::new(
                    reg.num_cols() as nat,
                    |c: int| self.cell(reg.row_start + r, reg.col_start + c),
                ),
        )
    }

    /// A window over rows `row_start..row_end` and columns
    /// `col_start..col_end`, for use with the mutating operations.
    /// The bounds are a precondition; `try_view` checks them instead.
    pub fn view_mut(
        &self,
        row_start: usize,
        col_start: usize,
        row_end: usize,
        col_end: usize,
    ) -> (reg: TooDeeRegion)
        requires
            row_start <= row_end <= self.height,
            col_start <= col_end <= self.width,
        ensures
            reg == (TooDeeRegion { row_start, col_start, row_end, col_end }),
            reg.wf_for(self.width as int, self.height as int),
    {
        TooDeeRegion { row_start, col_start, row_end, col_end }
    }

    /// A window with checked bounds: the requested end must not exceed
    /// the parent's extent, nor a start its end.
    pub fn try_view(
        &self,
        row_start: usize,
        col_start: usize,
        row_end: usize,
        col_end: usize,
    ) -> (res: Result<TooDeeRegion, GridError>)
        ensures
            row_start <= row_end <= self.height && col_start <= col_end <= self.width ==> res
                == Ok::<TooDeeRegion, GridError>(
                TooDeeRegion { row_start, col_start, row_end, col_end },
            ),
            !(row_start <= row_end <= self.height && col_start <= col_end <= self.width) ==> res
                == Err::<TooDeeRegion, GridError>(GridError::InvalidViewBounds),
    {
        if row_start <= row_end && row_end <= self.height && col_start <= col_end && col_end
            <= self.width {
            Ok(TooDeeRegion { row_start, col_start, row_end, col_end })
        } else {
            Err(GridError::InvalidViewBounds)
        }
    }

    /// A borrowed window over rows `row_start..row_end` and columns
    /// `col_start..col_end` of this grid.
    pub fn view<'a>(
        &'a self,
        row_start: usize,
        col_start: usize,
        row_end: usize,
        col_end: usize,
    ) -> (v: TooDeeView<'a, T>)
        requires
            self.wf(),
            row_start <= row_end <= self.height,
            col_start <= col_end <= self.width,
        ensures
            v.wf(),
            v.grid == self,
            v.reg == (TooDeeRegion { row_start, col_start, row_end, col_end }),
    {
        TooDeeView { grid: self, reg: TooDeeRegion { row_start, col_start, row_end, col_end } }
    }
}

/// A non-owning rectangular window into a grid's buffer, addressed
/// with the grid's original width as stride.
pub struct TooDeeView<'a, T> {
    pub grid: &'a TooDee<T>,
    pub reg: TooDeeRegion,
}

impl<'a, T> TooDeeView<'a, T> {
    /// The underlying grid is well formed and the window lies inside it.
    pub open spec fn wf(self) -> bool {
        self.grid.wf() && self.reg.wf_for(self.grid.width as int, self.grid.height as int)
    }

    /// The value of the view's logical cell `(r, c)`.
    pub open spec fn cell(self, r: int, c: int) -> T {
        self.grid.cell(self.reg.row_start + r, self.reg.col_start + c)
    }

    /// The view read as a sequence of rows of cell values.
    pub open spec fn rows_model(self) -> Seq<Seq<T>> {
        self.grid.region_rows(self.reg)
    }

    /// The view's cells in row-major order.
    pub open spec fn cells_model(self) -> Seq<T> {
        Seq::new(
            (self.reg.num_rows() * self.reg.num_cols()) as nat,
            |i: int| self.cell(i / self.reg.num_cols(), i % self.reg.num_cols()),
        )
    }

    /// The view's own width.
    pub fn width(&self) -> (w: usize)
        requires
            self.wf(),
        ensures
            w == self.reg.num_cols(),
    {
        self.reg.col_end - self.reg.col_start
    }

    /// The view's own height.
    pub fn height(&self) -> (h: usize)
        requires
            self.wf(),
        ensures
            h == self.reg.num_rows(),
    {
        self.reg.row_end - self.reg.row_start
    }

    /// Reads the view's logical cell `(r, c)`.
    pub fn get(&self, r: usize, c: usize) -> (v: &T)
        requires
            self.wf(),
            r < self.reg.num_rows(),
            c < self.reg.num_cols(),
        ensures
            *v == self.cell(r as int, c as int),
    {
        self.grid.get(self.reg.row_start + r, self.reg.col_start + c)
    }

    /// A sub-window of this view; its bounds compose additively with
    /// this view's own offsets, so nested sub-viewing is associative.
    pub fn subview(
        &self,
        row_start: usize,
        col_start: usize,
        row_end: usize,
        col_end: usize,
    ) -> (v: TooDeeView<'a, T>)
        requires
            self.wf(),
            row_start <= row_end <= self.reg.num_rows(),
            col_start <= col_end <= self.reg.num_cols(),
        ensures
            v.wf(),
            v.grid == self.grid,
            v.reg.row_start == self.reg.row_start + row_start,
            v.reg.col_start == self.reg.col_start + col_start,
            v.reg.row_end == self.reg.row_start + row_end,
            v.reg.col_end == self.reg.col_start + col_end,
    {
        TooDeeView {
            grid: self.grid,
            reg: TooDeeRegion {
                row_start: self.reg.row_start + row_start,
                col_start: self.reg.col_start + col_start,
                row_end: self.reg.row_start + row_end,
                col_end: self.reg.col_start + col_end,
            },
        }
    }
}

/// A cursor over the cells of one row of a window, exact-size and
/// double-ended. `front` and `back` are absolute column bounds of what
/// is still to be produced.
pub struct CellCursor<'a, T> {
    pub grid: &'a TooDee<T>,
    pub row: usize,
    pub front: usize,
    pub back: usize,
}

impl<'a, T: Copy> Cursor for CellCursor<'a, T> {
    type Elem = T;

    open spec fn inv(&self) -> bool {
        &&& self.grid.wf()
        &&& self.row < self.grid.height
        &&& self.front <= self.back <= self.grid.width
    }

    open spec fn remaining(&self) -> Seq<T> {
        Seq::new(
            (self.back - self.front) as nat,
            |k: int| self.grid.cell(self.row as int, self.front + k),
        )
    }

    fn len(&self) -> (n: usize) {
        self.back - self.front
    }

    fn next(&mut self) -> (r: Option<T>) {
        if self.front < self.back {
            let v = *self.grid.get(self.row, self.front);
            self.front = self.front + 1;
            proof {
                assert(self.remaining() =~= old(self).remaining().drop_first());
            }
            Some(v)
        } else {
            None
        }
    }

    fn next_back(&mut self) -> (r: Option<T>) {
        if self.front < self.back {
            self.back = self.back - 1;
            let v = *self.grid.get(self.row, self.back);
            proof {
                assert(self.remaining() =~= old(self).remaining().drop_last());
            }
            Some(v)
        } else {
            None
        }
    }

    fn nth(&mut self, n: usize) -> (r: Option<T>) {
        if n < self.back - self.front {
            let v = *self.grid.get(self.row, self.front + n);
            self.front = self.front + n + 1;
            proof {
                assert(self.remaining() =~= old(self).remaining().skip(n + 1));
            }
            Some(v)
        } else {
            self.front = self.back;
            proof {
                assert(self.remaining().len() == 0);
            }
            None
        }
    }

    fn nth_back(&mut self, n: usize) -> (r: Option<T>) {
        if n < self.back - self.front {
            self.back = self.back - n - 1;
            let v = *self.grid.get(self.row, self.back);
            proof {
                assert(self.remaining() =~= old(self).remaining().take(
                    old(self).remaining().len() - 1 - n,
                ));
            }
            Some(v)
        } else {
            self.back = self.front;
            None
        }
    }
}

/// A cursor over the rows of a window, exact-size and double-ended;
/// each item is a fresh cell cursor over one full row of the window.
/// `front` and `back` are absolute row bounds of what is still to be
/// produced.
pub struct RowCursor<'a, T> {
    pub grid: &'a TooDee<T>,
    pub reg: TooDeeRegion,
    pub front: usize,
    pub back: usize,
}

impl<'a, T: Copy> Cursor for RowCursor<'a, T> {
    type Elem = CellCursor<'a, T>;

    open spec fn inv(&self) -> bool {
        &&& self.grid.wf()
        &&& self.reg.wf_for(self.grid.width as int, self.grid.height as int)
        &&& self.reg.row_start <= self.front <= self.back <= self.reg.row_end
    }

    open spec fn remaining(&self) -> Seq<CellCursor<'a, T>> {
        Seq::new(
            (self.back - self.front) as nat,
            |k: int|
                CellCursor {
                    grid: self.grid,
                    row: (self.front + k) as usize,
                    front: self.reg.col_start,
                    back: self.reg.col_end,
                },
        )
    }

    fn len(&self) -> (n: usize) {
        self.back - self.front
    }

    fn next(&mut self) -> (r: Option<CellCursor<'a, T>>) {
        if self.front < self.back {
            let row = CellCursor {
                grid: self.grid,
                row: self.front,
                front: self.reg.col_start,
                back: self.reg.col_end,
            };
            self.front = self.front + 1;
            proof {
                assert(self.remaining() =~= old(self).remaining().drop_first());
            }
            Some(row)
        } else {
            None
        }
    }

    fn next_back(&mut self) -> (r: Option<CellCursor<'a, T>>) {
        if self.front < self.back {
            self.back = self.back - 1;
            let row = CellCursor {
                grid: self.grid,
                row: self.back,
                front: self.reg.col_start,
                back: self.reg.col_end,
            };
            proof {
                assert(self.remaining() =~= old(self).remaining().drop_last());
            }
            Some(row)
        } else {
            None
        }
    }

    fn nth(&mut self, n: usize) -> (r: Option<CellCursor<'a, T>>) {
        if n < self.back - self.front {
            let row = CellCursor {
                grid: self.grid,
                row: self.front + n,
                front: self.reg.col_start,
                back: self.reg.col_end,
            };
            self.front = self.front + n + 1;
            proof {
                assert(self.remaining() =~= old(self).remaining().skip(n + 1));
            }
            Some(row)
        } else {
            self.front = self.back;
            None
        }
    }

    fn nth_back(&mut self, n: usize) -> (r: Option<CellCursor<'a, T>>) {
        if n < self.back - self.front {
            self.back = self.back - n - 1;
            let row = CellCursor {
                grid: self.grid,
                row: self.back,
                front: self.reg.col_start,
                back: self.reg.col_end,
            };
            proof {
                assert(self.remaining() =~= old(self).remaining().take(
                    old(self).remaining().len() - 1 - n,
                ));
            }
            Some(row)
        } else {
            self.back = self.front;
            None
        }
    }
}

impl<'a, T: Copy> TooDeeView<'a, T> {
    /// A cursor over the view's rows, front first; every item is a
    /// full row of exactly `num_cols` cells.
    pub fn rows(&self) -> (rc: RowCursor<'a, T>)
        requires
            self.wf(),
        ensures
            rc.inv(),
            rc.remaining().len() == self.reg.num_rows(),
            uniform_rows(rc.remaining(), self.reg.num_cols()),
            forall|k: int|
                0 <= k < rc.remaining().len() ==> (#[trigger] rc.remaining()[k]).remaining()
                    == self.rows_model()[k],
    {
        let rc = RowCursor {
            grid: self.grid,
            reg: self.reg,
            front: self.reg.row_start,
            back: self.reg.row_end,
        };
        proof {
            assert forall|k: int| 0 <= k < rc.remaining().len() implies (
            #[trigger] rc.remaining()[k]).remaining() == self.rows_model()[k] by {
                assert(rc.remaining()[k].remaining() =~= self.rows_model()[k]);
            }
        }
        rc
    }

    /// Logical row `i` of the view, copied out as one fixed-length
    /// vector of `num_cols` cells.
    pub fn row(&self, i: usize) -> (r: Vec<T>)
        requires
            self.wf(),
            i < self.reg.num_rows(),
        ensures
            r@ == self.rows_model()[i as int],
    {
        let mut r: Vec<T> = Vec::new();
        let mut c: usize = 0;
        let w = self.width();
        while c < w
            invariant
                self.wf(),
                i < self.reg.num_rows(),
                w == self.reg.num_cols(),
                c <= w,
                r@.len() == c,
                forall|j: int| 0 <= j < c ==> r@[j] == self.cell(i as int, j),
            decreases w - c,
        {
            r.push(*self.get(i, c));
            c = c + 1;
        }
        proof {
            assert forall|j: int| 0 <= j < w implies r@[j] == self.rows_model()[i as int][j] by {
                assert(self.rows_model()[i as int][j] == self.cell(i as int, j));
            }
            assert(r@ =~= self.rows_model()[i as int]);
        }
        r
    }

    /// The view's cells as one exact-size, double-ended cursor in
    /// row-major order: `FlattenExact` applied to `rows()`.
    pub fn cells(&self) -> (fe: FlattenExact<RowCursor<'a, T>>)
        requires
            self.wf(),
        ensures
            fe.wf(),
            fe.len_per_iter == self.reg.num_cols(),
            fe.remaining() == self.cells_model(),
            fe.remaining().len() == self.reg.num_rows() * self.reg.num_cols(),
    {
        let rc = self.rows();
        let w = self.width();
        proof {
            assert(self.grid.data.len() == self.grid.data@.len());
            assert(self.reg.num_cols() * self.reg.num_rows() <= self.grid.width
                * self.grid.height) by (nonlinear_arith)
                requires
                    0 <= self.reg.num_cols() <= self.grid.width,
                    0 <= self.reg.num_rows() <= self.grid.height,
            ;
        }
        let fe = FlattenExact::new(rc, w);
        proof {
            lemma_flat_len(rc.remaining(), w as int);
            assert((w as int) * rc.remaining().len() == self.reg.num_rows()
                * self.reg.num_cols()) by (nonlinear_arith)
                requires
                    w == self.reg.num_cols(),
                    rc.remaining().len() == self.reg.num_rows(),
            ;
            if w > 0 {
                assert forall|i: int| 0 <= i < fe.remaining().len() implies fe.remaining()[i]
                    == self.cells_model()[i] by {
                    lemma_flat_index(rc.remaining(), w as int, i);
                    assert(rc.remaining()[i / (w as int)].remaining() == self.rows_model()[i / (
                    w as int)]);
                }
                assert(fe.remaining() =~= self.cells_model());
            } else {
                assert(fe.remaining() =~= self.cells_model());
            }
        }
        fe
    }
}

impl<T: Copy> TooDee<T> {
    /// Row `i` of the grid, copied out as one fixed-length vector.
    pub fn row(&self, i: usize) -> (r: Vec<T>)
        requires
            self.wf(),
            i < self.height,
        ensures
            r@ == self.rows_model()[i as int],
    {
        let mut r: Vec<T> = Vec::new();
        let mut c: usize = 0;
        while c < self.width
            invariant
                self.wf(),
                i < self.height,
                c <= self.width,
                r@.len() == c,
                forall|j: int| 0 <= j < c ==> r@[j] == self.cell(i as int, j),
            decreases self.width - c,
        {
            r.push(*self.get(i, c));
            c = c + 1;
        }
        proof {
            let ghost mi = self.rows_model()[i as int];
            assert forall|j: int| 0 <= j < self.width implies r@[j] == mi[j] by {
                assert(mi[j] == self.cell(i as int, j));
            }
            assert(r@ =~= mi);
        }
        r
    }

    /// A cursor over the whole grid's rows, front first.
    pub fn rows<'a>(&'a self) -> (rc: RowCursor<'a, T>)
        requires
            self.wf(),
        ensures
            rc.inv(),
            rc.remaining().len() == self.height,
            uniform_rows(rc.remaining(), self.width as int),
            forall|k: int|
                0 <= k < rc.remaining().len() ==> (#[trigger] rc.remaining()[k]).remaining()
                    == self.rows_model()[k],
    {
        let v = self.view(0, 0, self.height, self.width);
        proof {
            assert forall|k: int| 0 <= k < v.rows_model().len() implies v.rows_model()[k]
                == self.rows_model()[k] by {
                assert(v.rows_model()[k] =~= self.rows_model()[k]);
            }
        }
        v.rows()
    }

    /// The whole grid's cells as one exact-size, double-ended cursor:
    /// in row-major order they are exactly the flat buffer.
    pub fn cells<'a>(&'a self) -> (fe: FlattenExact<RowCursor<'a, T>>)
        requires
            self.wf(),
        ensures
            fe.wf(),
            fe.len_per_iter == self.width,
            fe.remaining() == self.data@,
    {
        let v = self.view(0, 0, self.height, self.width);
        let fe = v.cells();
        proof {
            assert((self.height as int) * (self.width as int) == (self.width as int) * (
            self.height as int)) by (nonlinear_arith);
            if self.width > 0 {
                assert forall|i: int| 0 <= i < v.cells_model().len() implies v.cells_model()[i]
                    == self.data@[i] by {
                    vstd::arithmetic::div_mod::lemma_fundamental_div_mod(i, self.width as int);
                    vstd::arithmetic::div_mod::lemma_mod_division_less_than_divisor(
                        i,
                        self.width as int,
                    );
                    assert((i / (self.width as int)) * (self.width as int) + i % (
                    self.width as int) == i) by (nonlinear_arith)
                        requires
                            i == (self.width as int) * (i / (self.width as int)) + i % (
                            self.width as int),
                    ;
                }
                assert(v.cells_model() =~= self.data@);
            } else {
                assert(self.data@.len() == 0);
                assert(v.cells_model() =~= self.data@);
            }
        }
        fe
    }
}

} // verus!
