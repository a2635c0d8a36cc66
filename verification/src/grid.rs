use vstd::prelude::*;
use vstd::pervasive::VecAdditionalExecFns;

verus! {

/// The two precondition violations the checked accessors report as values.
#[derive(Clone, Copy, Debug, PartialEq, Eq, Structural)]
pub enum GridError {
    /// A row or column index at or past the addressable dimension.
    IndexOutOfBounds,
    /// A sub-view whose start exceeds its end, or whose end exceeds the
    /// parent's extent.
    InvalidViewBounds,
}

/// An owning, contiguous, row-major two-dimensional array of fixed
/// width and height: cell `(r, c)` lives at `data[r * width + c]`.
pub struct TooDee<T> {
    pub width: usize,
    pub height: usize,
    pub data: Vec<T>,
}

/// A row index below `h` and a column index below `w` address a buffer
/// slot below `w * h`.
pub proof fn lemma_cell_index(w: int, h: int, r: int, c: int)
    requires
        0 <= r < h,
        0 <= c < w,
    ensures
        0 <= r * w + c < w * h,
{
    assert(0 <= r * w + c < w * h) by (nonlinear_arith)
        requires
            0 <= r < h,
            0 <= c < w,
    ;
}

impl<T> TooDee<T> {
    /// The buffer holds exactly `width * height` cells.
    pub open spec fn wf(self) -> bool {
        self.data@.len() == self.width * self.height
    }

    /// The value stored for cell `(r, c)`, row-major.
    pub open spec fn cell(self, r: int, c: int) -> T {
        self.data@[r * self.width + c]
    }

    /// The grid read as a sequence of rows, each row a sequence of cells.
    pub open spec fn rows_model(self) -> Seq<Seq<T>> {
        Seq::new(
            self.height as nat,
            |r: int| Seq::new(self.width as nat, |c: int| self.cell(r, c)),
        )
    }

    /// Takes ownership of a flat row-major buffer of length
    /// `width * height`.
    pub fn from_vec(width: usize, height: usize, data: Vec<T>) -> (g: TooDee<T>)
        requires
            data@.len() == width * height,
        ensures
            g.wf(),
            g.width == width,
            g.height == height,
            g.data@ == data@,
    {
        TooDee { width, height, data }
    }

    /// Reads the cell at `(r, c)`.
    pub fn get(&self, r: usize, c: usize) -> (v: &T)
        requires
            self.wf(),
            r < self.height,
            c < self.width,
        ensures
            *v == self.cell(r as int, c as int),
    {
        proof {
            lemma_cell_index(self.width as int, self.height as int, r as int, c as int);
            assert(self.data.len() == self.data@.len());
        }
        let idx = r * self.width + c;
        &self.data[idx]
    }

    /// Reads the cell at `(r, c)`, rejecting an out-of-range index.
    pub fn try_get(&self, r: usize, c: usize) -> (res: Result<&T, GridError>)
        requires
            self.wf(),
        ensures
            r < self.height && c < self.width ==> (res matches Ok(v) && *v == self.cell(
                r as int,
                c as int,
            )),
            !(r < self.height && c < self.width) ==> (res matches Err(e) && e
                == GridError::IndexOutOfBounds),
    {
        if r < self.height && c < self.width {
            Ok(self.get(r, c))
        } else {
            Err(GridError::IndexOutOfBounds)
        }
    }

    /// Overwrites the cell at `(r, c)` with `v`.
    pub fn set(&mut self, r: usize, c: usize, v: T)
        requires
            old(self).wf(),
            r < old(self).height,
            c < old(self).width,
        ensures
            final(self).wf(),
            final(self).width == old(self).width,
            final(self).height == old(self).height,
            final(self).data@ == old(self).data@.update(
                r as int * old(self).width + c,
                v,
            ),
            final(self).cell(r as int, c as int) == v,
            forall|r2: int, c2: int|
                0 <= r2 < final(self).height && 0 <= c2 < final(self).width && !(r2 == r as int
                    && c2 == c as int) ==> final(self).cell(r2, c2) == old(self).cell(r2, c2),
    {
        proof {
            lemma_cell_index(self.width as int, self.height as int, r as int, c as int);
            assert(self.data.len() == self.data@.len());
        }
        let idx = r * self.width + c;
        self.data.set(idx, v);
        proof {
            assert forall|r2: int, c2: int|
                0 <= r2 < self.height && 0 <= c2 < self.width && !(r2 == r as int && c2
                    == c as int) implies (*self).cell(r2, c2) == old(self).cell(r2, c2) by {
                lemma_cell_index(self.width as int, self.height as int, r2, c2);
                lemma_distinct_cells(self.width as int, r as int, c as int, r2, c2);
            }
        }
    }

    /// Overwrites the buffer slot at flat index `i`.
    pub fn set_flat(&mut self, i: usize, v: T)
        requires
            old(self).wf(),
            i < old(self).data@.len(),
        ensures
            final(self).wf(),
            final(self).width == old(self).width,
            final(self).height == old(self).height,
            final(self).data@ == old(self).data@.update(i as int, v),
    {
        self.data.set(i, v);
    }
}

/// Distinct cell coordinates address distinct buffer slots.
pub proof fn lemma_distinct_cells(w: int, r1: int, c1: int, r2: int, c2: int)
    requires
        0 <= c1 < w,
        0 <= c2 < w,
        0 <= r1,
        0 <= r2,
        !(r1 == r2 && c1 == c2),
    ensures
        r1 * w + c1 != r2 * w + c2,
{
    assert(r1 * w + c1 != r2 * w + c2) by (nonlinear_arith)
        requires
            0 <= c1 < w,
            0 <= c2 < w,
            0 <= r1,
            0 <= r2,
            !(r1 == r2 && c1 == c2),
    ;
}

impl<T: Copy> TooDee<T> {
    /// A `width` by `height` grid with every cell set to `fill`.
    pub fn new(width: usize, height: usize, fill: T) -> (g: TooDee<T>)
        requires
            width * height <= usize::MAX,
        ensures
            g.wf(),
            g.width == width,
            g.height == height,
            forall|i: int| 0 <= i < g.data@.len() ==> g.data@[i] == fill,
    {
        let n = width * height;
        let mut data: Vec<T> = Vec::new();
        let mut i: usize = 0;
        while i < n
            invariant
                i <= n,
                data@.len() == i,
                forall|j: int| 0 <= j < i ==> data@[j] == fill,
            decreases n - i,
        {
            data.push(fill);
            i = i + 1;
        }
        TooDee { width, height, data }
    }
}

} // verus!
