use vstd::prelude::*;
use vstd::arithmetic::div_mod::lemma_fundamental_div_mod_converse_div;
use vstd::arithmetic::div_mod::lemma_fundamental_div_mod_converse_mod;
use crate::cursor::Cursor;

verus! {

/// The items of a sequence of row cursors, flattened front to back.
pub open spec fn flat_remaining<R: Cursor>(rows: Seq<R>) -> Seq<R::Elem>
    decreases rows.len(),
{
    if rows.len() == 0 {
        Seq::empty()
    } else {
        rows[0].remaining() + flat_remaining(rows.drop_first())
    }
}

/// Every row cursor in `rows` is valid and has exactly `l` items left.
pub open spec fn uniform_rows<R: Cursor>(rows: Seq<R>, l: int) -> bool {
    forall|j: int|
        0 <= j < rows.len() ==> (#[trigger] rows[j]).inv() && rows[j].remaining().len() == l
}

/// A uniform tail or sub-range of rows is itself uniform.
proof fn lemma_uniform_skip<R: Cursor>(rows: Seq<R>, l: int, k: int)
    requires
        uniform_rows(rows, l),
        0 <= k <= rows.len(),
    ensures
        uniform_rows(rows.skip(k), l),
        uniform_rows(rows.take(k), l),
{
    assert forall|j: int| 0 <= j < rows.skip(k).len() implies (#[trigger] rows.skip(k)[j]).inv()
        && rows.skip(k)[j].remaining().len() == l by {
        assert(rows.skip(k)[j] == rows[j + k]);
    }
    assert forall|j: int| 0 <= j < rows.take(k).len() implies (#[trigger] rows.take(k)[j]).inv()
        && rows.take(k)[j].remaining().len() == l by {
        assert(rows.take(k)[j] == rows[j]);
    }
}

/// With uniform row length `l`, the flattened length is `l` per row.
pub proof fn lemma_flat_len<R: Cursor>(rows: Seq<R>, l: int)
    requires
        uniform_rows(rows, l),
    ensures
        flat_remaining(rows).len() == l * rows.len(),
    decreases rows.len(),
{
    if rows.len() == 0 {
        assert(l * 0 == 0) by (nonlinear_arith);
    } else {
        assert(rows.drop_first() == rows.skip(1));
        lemma_uniform_skip(rows, l, 1);
        lemma_flat_len(rows.drop_first(), l);
        assert(l * rows.len() == l + l * (rows.len() - 1)) by (nonlinear_arith);
    }
}

/// With uniform row length `l`, flat item `i` is item `i % l` of row
/// `i / l`.
pub proof fn lemma_flat_index<R: Cursor>(rows: Seq<R>, l: int, i: int)
    requires
        uniform_rows(rows, l),
        0 < l,
        0 <= i < l * rows.len(),
    ensures
        flat_remaining(rows)[i] == rows[i / l].remaining()[i % l],
        0 <= i / l < rows.len(),
        0 <= i % l < l,
    decreases rows.len(),
{
    lemma_flat_len(rows, l);
    assert(rows.len() > 0) by {
        assert(l * rows.len() > 0);
        if rows.len() == 0 {
            assert(l * 0 == 0) by (nonlinear_arith);
        }
    }
    assert(rows.drop_first() == rows.skip(1));
    lemma_uniform_skip(rows, l, 1);
    lemma_flat_len(rows.drop_first(), l);
    if i < l {
        lemma_fundamental_div_mod_converse_div(i, l, 0, i);
        lemma_fundamental_div_mod_converse_mod(i, l, 0, i);
    } else {
        assert(l * (rows.len() - 1) == l * rows.len() - l) by (nonlinear_arith);
        lemma_flat_index(rows.drop_first(), l, i - l);
        let q = (i - l) / l;
        let m = (i - l) % l;
        assert(i - l == q * l + m) by {
            vstd::arithmetic::div_mod::lemma_fundamental_div_mod(i - l, l);
            assert(l * q == q * l) by (nonlinear_arith);
        }
        assert(i == (q + 1) * l + m) by (nonlinear_arith)
            requires
                i - l == q * l + m,
        ;
        lemma_fundamental_div_mod_converse_div(i, l, q + 1, m);
        lemma_fundamental_div_mod_converse_mod(i, l, q + 1, m);
        assert(rows.drop_first()[q] == rows[q + 1]);
    }
}

/// Flattening splits around any row boundary.
pub proof fn lemma_flat_split<R: Cursor>(rows: Seq<R>, k: int)
    requires
        0 <= k <= rows.len(),
    ensures
        flat_remaining(rows) == flat_remaining(rows.take(k)) + flat_remaining(rows.skip(k)),
    decreases k,
{
    if k == 0 {
        assert(rows.take(0) =~= Seq::<R>::empty());
        assert(rows.skip(0) =~= rows);
        assert(flat_remaining(rows.take(0)) + flat_remaining(rows.skip(0)) =~= flat_remaining(
            rows,
        ));
    } else {
        assert(rows.drop_first() == rows.skip(1));
        lemma_flat_split(rows.drop_first(), k - 1);
        assert(rows.take(k)[0] == rows[0]);
        assert(rows.take(k).len() > 0);
        assert(rows.take(k).drop_first() =~= rows.drop_first().take(k - 1));
        assert(rows.skip(k) =~= rows.drop_first().skip(k - 1));
        assert(flat_remaining(rows) == rows[0].remaining() + flat_remaining(rows.drop_first()));
        assert(rows[0].remaining() + (flat_remaining(rows.drop_first().take(k - 1))
            + flat_remaining(rows.drop_first().skip(k - 1))) =~= (rows[0].remaining()
            + flat_remaining(rows.drop_first().take(k - 1))) + flat_remaining(
            rows.drop_first().skip(k - 1),
        ));
        assert(flat_remaining(rows.take(k)) == rows.take(k)[0].remaining() + flat_remaining(
            rows.take(k).drop_first(),
        ));
    }
}

/// Flattening splits off the last row.
pub proof fn lemma_flat_unsnoc<R: Cursor>(rows: Seq<R>)
    requires
        rows.len() > 0,
    ensures
        flat_remaining(rows) == flat_remaining(rows.drop_last()) + rows.last().remaining(),
{
    lemma_flat_split(rows, rows.len() - 1);
    let s1 = rows.skip(rows.len() - 1);
    assert(s1.len() == 1);
    assert(s1[0] == rows.last());
    assert(flat_remaining(s1) == s1[0].remaining() + flat_remaining(s1.drop_first()));
    assert(flat_remaining(s1) =~= rows.last().remaining());
    assert(rows.take(rows.len() - 1) == rows.drop_last());
}

/// An iterator adapter that flattens a cursor over fixed-length row
/// cursors into one exact-size, double-ended cursor over cells. Only
/// two bounded cursors of state are held: `frontiter` and `backiter`
/// each carry at most one partially consumed row. The uniform row
/// length `len_per_iter` is what makes exact length reporting and
/// one-step skipping possible.
pub struct FlattenExact<I> where I: Cursor, I::Elem: Cursor {
    pub iter: I,
    pub len_per_iter: usize,
    pub frontiter: Option<I::Elem>,
    pub backiter: Option<I::Elem>,
}

impl<I> FlattenExact<I> where I: Cursor, I::Elem: Cursor {
    /// The cells the front cursor still holds.
    pub open spec fn front_seq(self) -> Seq<<I::Elem as Cursor>::Elem> {
        match self.frontiter {
            Some(f) => f.remaining(),
            None => Seq::empty(),
        }
    }

    /// The cells the back cursor still holds.
    pub open spec fn back_seq(self) -> Seq<<I::Elem as Cursor>::Elem> {
        match self.backiter {
            Some(b) => b.remaining(),
            None => Seq::empty(),
        }
    }

    /// The cells still to be produced, in order: the front cursor's
    /// leftovers, then every untouched row, then the back cursor's
    /// leftovers.
    pub open spec fn remaining(self) -> Seq<<I::Elem as Cursor>::Elem> {
        self.front_seq() + flat_remaining(self.iter.remaining()) + self.back_seq()
    }

    /// The adapter's invariant: the outer cursor is valid, every
    /// untouched row has exactly `len_per_iter` cells, each boundary
    /// cursor is valid with at most `len_per_iter` cells left, and the
    /// total count fits the machine.
    pub open spec fn wf(self) -> bool {
        &&& self.iter.inv()
        &&& uniform_rows(self.iter.remaining(), self.len_per_iter as int)
        &&& match self.frontiter {
            Some(f) => f.inv() && f.remaining().len() <= self.len_per_iter,
            None => true,
        }
        &&& match self.backiter {
            Some(b) => b.inv() && b.remaining().len() <= self.len_per_iter,
            None => true,
        }
        &&& self.remaining().len() <= usize::MAX
    }

    /// Wraps `iter`, whose items must all hold exactly `len_per_iter`
    /// cells; the flattened length is one `len_per_iter` per row.
    pub fn new(iter: I, len_per_iter: usize) -> (r: FlattenExact<I>)
        requires
            iter.inv(),
            uniform_rows(iter.remaining(), len_per_iter as int),
            len_per_iter * iter.remaining().len() <= usize::MAX,
        ensures
            r == (FlattenExact { iter, len_per_iter, frontiter: None, backiter: None }),
            r.wf(),
            r.remaining() == flat_remaining(iter.remaining()),
            r.remaining().len() == len_per_iter * iter.remaining().len(),
    {
        let r = FlattenExact { iter, len_per_iter, frontiter: None, backiter: None };
        proof {
            lemma_flat_len(iter.remaining(), len_per_iter as int);
            assert(r.remaining() =~= flat_remaining(iter.remaining()));
        }
        r
    }

    /// The exact number of cells still to be produced, in constant
    /// time: `len_per_iter` cells per untouched row plus the boundary
    /// cursors' leftovers.
    pub fn len(&self) -> (n: usize)
        requires
            self.wf(),
        ensures
            n == self.remaining().len(),
    {
        proof {
            lemma_flat_len(self.iter.remaining(), self.len_per_iter as int);
        }
        let mut n = self.len_per_iter * self.iter.len();
        match &self.frontiter {
            Some(f) => { n = n + f.len(); },
            None => {},
        }
        match &self.backiter {
            Some(b) => { n = n + b.len(); },
            None => {},
        }
        n
    }

    /// The exact remaining count, as both the lower and the upper
    /// bound: the adapter's size is always known exactly.
    pub fn size_hint(&self) -> (r: (usize, Option<usize>))
        requires
            self.wf(),
        ensures
            r.0 == self.remaining().len(),
            r.1 == Some(r.0),
    {
        let n = self.len();
        (n, Some(n))
    }

    /// Produces the next cell in row-major front-to-back order, or
    /// nothing once the whole structure is exhausted. The front cursor
    /// is drained first, then rows are pulled from the front of the
    /// outer cursor; a leftover back cursor is drained last.
    pub fn next(&mut self) -> (r: Option<<I::Elem as Cursor>::Elem>)
        requires
            old(self).wf(),
        ensures
            final(self).wf(),
            final(self).len_per_iter == old(self).len_per_iter,
            old(self).remaining().len() == 0 ==> r is None && final(self).remaining().len() == 0,
            old(self).remaining().len() > 0 ==> r == Some(old(self).remaining()[0])
                && final(self).remaining() == old(self).remaining().drop_first(),
    {
        if self.len_per_iter == 0 {
            proof {
                lemma_flat_len(self.iter.remaining(), 0);
                assert(old(self).remaining().len() == 0);
            }
            return None;
        }
        let fopt = self.frontiter.take();
        match fopt {
            Some(mut f) => {
                if f.len() > 0 {
                    let r = f.next();
                    self.frontiter = Some(f);
                    proof {
                        assert(self.remaining() =~= old(self).remaining().drop_first());
                    }
                    return r;
                }
            },
            None => {},
        }
        proof {
            assert(self.remaining() =~= old(self).remaining());
        }
        let ghost mid = *self;
        match self.iter.next() {
            Some(mut row) => {
                proof {
                    assert(row == mid.iter.remaining()[0]);
                    assert(flat_remaining(mid.iter.remaining()) == row.remaining()
                        + flat_remaining(mid.iter.remaining().drop_first()));
                    lemma_uniform_skip(mid.iter.remaining(), self.len_per_iter as int, 1);
                }
                let r = row.next();
                self.frontiter = Some(row);
                proof {
                    assert(self.remaining() =~= mid.remaining().drop_first());
                    assert(r == Some(mid.remaining()[0]));
                }
                return r;
            },
            None => {
                proof {
                    assert(flat_remaining(self.iter.remaining()).len() == 0);
                }
                let bopt = self.backiter.take();
                match bopt {
                    Some(mut b) => {
                        if b.len() > 0 {
                            let r = b.next();
                            self.backiter = Some(b);
                            proof {
                                assert(self.remaining() =~= mid.remaining().drop_first());
                                assert(r == Some(mid.remaining()[0]));
                            }
                            return r;
                        }
                        proof {
                            assert(mid.remaining().len() == 0);
                            assert(self.remaining().len() == 0);
                        }
                        return None;
                    },
                    None => {
                        proof {
                            assert(mid.remaining().len() == 0);
                        }
                        return None;
                    },
                }
            },
        }
    }

    /// The symmetric mirror of `next`: produces the next cell from the
    /// back, draining the back cursor first, then pulling rows from
    /// the back of the outer cursor, then draining the front cursor.
    pub fn next_back(&mut self) -> (r: Option<<I::Elem as Cursor>::Elem>)
        requires
            old(self).wf(),
        ensures
            final(self).wf(),
            final(self).len_per_iter == old(self).len_per_iter,
            old(self).remaining().len() == 0 ==> r is None && final(self).remaining().len() == 0,
            old(self).remaining().len() > 0 ==> r == Some(old(self).remaining().last())
                && final(self).remaining() == old(self).remaining().drop_last(),
    {
        if self.len_per_iter == 0 {
            proof {
                lemma_flat_len(self.iter.remaining(), 0);
                assert(old(self).remaining().len() == 0);
            }
            return None;
        }
        let bopt = self.backiter.take();
        match bopt {
            Some(mut b) => {
                if b.len() > 0 {
                    let r = b.next_back();
                    self.backiter = Some(b);
                    proof {
                        assert(self.remaining() =~= old(self).remaining().drop_last());
                    }
                    return r;
                }
            },
            None => {},
        }
        proof {
            assert(self.remaining() =~= old(self).remaining());
        }
        let ghost mid = *self;
        match self.iter.next_back() {
            Some(mut row) => {
                proof {
                    assert(row == mid.iter.remaining().last());
                    lemma_flat_unsnoc(mid.iter.remaining());
                    lemma_uniform_skip(
                        mid.iter.remaining(),
                        self.len_per_iter as int,
                        mid.iter.remaining().len() - 1,
                    );
                    assert(mid.iter.remaining().take(mid.iter.remaining().len() - 1)
                        == mid.iter.remaining().drop_last());
                }
                let r = row.next_back();
                self.backiter = Some(row);
                proof {
                    assert(self.remaining() =~= mid.remaining().drop_last());
                    assert(r == Some(mid.remaining().last()));
                }
                return r;
            },
            None => {
                proof {
                    assert(flat_remaining(self.iter.remaining()).len() == 0);
                }
                let fopt = self.frontiter.take();
                match fopt {
                    Some(mut f) => {
                        if f.len() > 0 {
                            let r = f.next_back();
                            self.frontiter = Some(f);
                            proof {
                                assert(self.remaining() =~= mid.remaining().drop_last());
                                assert(r == Some(mid.remaining().last()));
                            }
                            return r;
                        }
                        proof {
                            assert(mid.remaining().len() == 0);
                            assert(self.remaining().len() == 0);
                        }
                        return None;
                    },
                    None => {
                        proof {
                            assert(mid.remaining().len() == 0);
                        }
                        return None;
                    },
                }
            },
        }
    }

    /// Skips `n` cells from the front in one step and produces the
    /// cell at offset `n`: whole rows are skipped on the outer cursor
    /// rather than cell by cell. Consumes everything when fewer than
    /// `n + 1` cells remain.
    #[verifier::rlimit(60)]
    #[verifier::spinoff_prover]
    pub fn nth(&mut self, n: usize) -> (r: Option<<I::Elem as Cursor>::Elem>)
        requires
            old(self).wf(),
        ensures
            final(self).wf(),
            final(self).len_per_iter == old(self).len_per_iter,
            n < old(self).remaining().len() ==> r == Some(old(self).remaining()[n as int])
                && final(self).remaining() == old(self).remaining().skip(n + 1),
            n >= old(self).remaining().len() ==> r is None && final(self).remaining().len() == 0,
    {
        if self.len_per_iter == 0 {
            proof {
                lemma_flat_len(self.iter.remaining(), 0);
                assert(old(self).remaining().len() == 0);
            }
            return None;
        }
        let mut m = n;
        let fopt = self.frontiter.take();
        match fopt {
            Some(mut f) => {
                let flen = f.len();
                if m < flen {
                    let r = f.nth(m);
                    self.frontiter = Some(f);
                    proof {
                        assert(r == Some(old(self).remaining()[n as int]));
                        assert(self.remaining() =~= old(self).remaining().skip(n + 1));
                    }
                    return r;
                }
                m = m - flen;
            },
            None => {},
        }
        proof {
            assert(self.remaining() =~= old(self).remaining().skip(n - m));
        }
        let ghost mid = *self;
        let ghost l = self.len_per_iter as int;
        let ghost rows = self.iter.remaining();
        let outer_len = self.iter.len();
        let q = m / self.len_per_iter;
        let iter_skip = if outer_len < q {
            outer_len
        } else {
            q
        };
        proof {
            vstd::arithmetic::div_mod::lemma_fundamental_div_mod(m as int, l);
            vstd::arithmetic::div_mod::lemma_mod_division_less_than_divisor(m as int, l);
            assert(l * (q as int) == (q as int) * l) by (nonlinear_arith);
            assert(iter_skip * l <= q * l) by (nonlinear_arith)
                requires
                    0 <= iter_skip <= q,
                    0 < l,
            ;
            lemma_flat_len(rows, l);
        }
        let skipped = iter_skip * self.len_per_iter;
        let m2 = m - skipped;
        match self.iter.nth(iter_skip) {
            Some(mut row) => {
                proof {
                    assert(iter_skip < rows.len());
                    assert(iter_skip == q);
                    assert(row == rows[q as int]);
                    assert(m2 as int == (m as int) % l);
                    assert(m < l * rows.len()) by (nonlinear_arith)
                        requires
                            q + 1 <= rows.len(),
                            0 < l,
                            m == l * (q as int) + m2,
                            0 <= m2 < l,
                    ;
                    lemma_flat_index(rows, l, m as int);
                }
                let r = row.nth(m2);
                self.frontiter = Some(row);
                proof {
                    assert(r == Some(mid.remaining()[m as int]));
                    lemma_uniform_skip(rows, l, q + 1);
                    lemma_flat_len(rows.skip(q + 1), l);
                    lemma_flat_split(rows, q as int);
                    lemma_uniform_skip(rows, l, q as int);
                    lemma_flat_len(rows.take(q as int), l);
                    assert(rows.skip(q as int)[0] == rows[q as int]);
                    assert(rows.skip(q as int).drop_first() =~= rows.skip(q + 1));
                    assert(flat_remaining(rows.skip(q as int)) == rows.skip(q as int)[0].remaining()
                        + flat_remaining(rows.skip(q as int).drop_first()));
                    assert(l * (rows.len() - q - 1) == l * rows.len() - (q as int) * l - l)
                        by (nonlinear_arith);
                    assert(self.remaining() =~= mid.remaining().skip(m + 1));
                    assert(mid.remaining().skip(m + 1) =~= old(self).remaining().skip(n + 1));
                }
                return r;
            },
            None => {
                proof {
                    assert(iter_skip == rows.len());
                    assert(self.iter.remaining().len() == 0);
                    assert(flat_remaining(self.iter.remaining()).len() == 0);
                    assert(m2 as int == m - (rows.len() as int) * l);
                }
                let bopt = self.backiter.take();
                match bopt {
                    Some(mut b) => {
                        let ghost bseq = b.remaining();
                        let r = b.nth(m2);
                        self.backiter = Some(b);
                        proof {
                            if m2 < bseq.len() {
                                assert(mid.remaining()[m as int] == bseq[m2 as int]);
                                assert(r == Some(old(self).remaining()[n as int]));
                                assert(self.remaining() =~= mid.remaining().skip(m + 1));
                                assert(mid.remaining().skip(m + 1) =~= old(self).remaining().skip(
                                    n + 1,
                                ));
                            } else {
                                assert(mid.remaining().len() <= m);
                                assert(self.remaining().len() == 0);
                            }
                        }
                        return r;
                    },
                    None => {
                        proof {
                            assert(mid.remaining().len() <= m);
                            assert(self.remaining().len() == 0);
                        }
                        return None;
                    },
                }
            },
        }
    }

    /// Skips `n` cells from the back in one step and produces the
    /// next cell in from the back, skipping whole rows on the outer
    /// cursor. Consumes everything when fewer than `n + 1` cells
    /// remain.
    #[verifier::rlimit(60)]
    #[verifier::spinoff_prover]
    pub fn nth_back(&mut self, n: usize) -> (r: Option<<I::Elem as Cursor>::Elem>)
        requires
            old(self).wf(),
        ensures
            final(self).wf(),
            final(self).len_per_iter == old(self).len_per_iter,
            n < old(self).remaining().len() ==> r == Some(
                old(self).remaining()[old(self).remaining().len() - 1 - n],
            ) && final(self).remaining() == old(self).remaining().take(
                old(self).remaining().len() - 1 - n,
            ),
            n >= old(self).remaining().len() ==> r is None && final(self).remaining().len() == 0,
    {
        if self.len_per_iter == 0 {
            proof {
                lemma_flat_len(self.iter.remaining(), 0);
                assert(old(self).remaining().len() == 0);
            }
            return None;
        }
        let mut m = n;
        let bopt = self.backiter.take();
        match bopt {
            Some(mut b) => {
                let blen = b.len();
                if m < blen {
                    let r = b.nth_back(m);
                    self.backiter = Some(b);
                    proof {
                        assert(r == Some(
                            old(self).remaining()[old(self).remaining().len() - 1 - n],
                        ));
                        assert(self.remaining() =~= old(self).remaining().take(
                            old(self).remaining().len() - 1 - n,
                        ));
                    }
                    return r;
                }
                m = m - blen;
            },
            None => {},
        }
        proof {
            assert(self.remaining() =~= old(self).remaining().take(
                old(self).remaining().len() - (n - m),
            ));
        }
        let ghost mid = *self;
        let ghost l = self.len_per_iter as int;
        let ghost rows = self.iter.remaining();
        let outer_len = self.iter.len();
        let q = m / self.len_per_iter;
        let iter_skip = if outer_len < q {
            outer_len
        } else {
            q
        };
        proof {
            vstd::arithmetic::div_mod::lemma_fundamental_div_mod(m as int, l);
            vstd::arithmetic::div_mod::lemma_mod_division_less_than_divisor(m as int, l);
            assert(l * (q as int) == (q as int) * l) by (nonlinear_arith);
            assert(iter_skip * l <= q * l) by (nonlinear_arith)
                requires
                    0 <= iter_skip <= q,
                    0 < l,
            ;
            lemma_flat_len(rows, l);
        }
        let skipped = iter_skip * self.len_per_iter;
        let m2 = m - skipped;
        match self.iter.nth_back(iter_skip) {
            Some(mut row) => {
                proof {
                    assert(iter_skip < rows.len());
                    assert(iter_skip == q);
                    let k = rows.len() - 1 - q;
                    assert(row == rows[k]);
                    assert(m2 as int == (m as int) % l);
                    let i = l * rows.len() - 1 - m;
                    assert(i == k * l + (l - 1 - m2)) by (nonlinear_arith)
                        requires
                            k == rows.len() - 1 - q,
                            i == l * rows.len() - 1 - m,
                            m == l * (q as int) + m2,
                            0 <= m2 < l,
                    ;
                    lemma_fundamental_div_mod_converse_div(i, l, k, l - 1 - m2);
                    lemma_fundamental_div_mod_converse_mod(i, l, k, l - 1 - m2);
                    assert(0 <= i < l * rows.len()) by (nonlinear_arith)
                        requires
                            i == k * l + (l - 1 - m2),
                            0 <= k < rows.len(),
                            0 <= m2 < l,
                    ;
                    lemma_flat_index(rows, l, i);
                }
                let r = row.nth_back(m2);
                self.backiter = Some(row);
                proof {
                    let k = rows.len() - 1 - q;
                    assert(r == Some(mid.remaining()[mid.remaining().len() - 1 - m]));
                    lemma_uniform_skip(rows, l, k);
                    lemma_flat_len(rows.take(k), l);
                    assert(l * k == k * l) by (nonlinear_arith);
                    assert(k * l == l * rows.len() - (q as int) * l - l) by (nonlinear_arith)
                        requires
                            k == rows.len() - 1 - q,
                    ;
                    lemma_flat_split(rows, k);
                    assert(rows.skip(k)[0] == rows[k]);
                    assert(flat_remaining(rows.skip(k)) == rows.skip(k)[0].remaining()
                        + flat_remaining(rows.skip(k).drop_first()));
                    assert(self.remaining() =~= mid.remaining().take(
                        mid.remaining().len() - 1 - m,
                    ));
                    assert(mid.remaining().take(mid.remaining().len() - 1 - m)
                        =~= old(self).remaining().take(old(self).remaining().len() - 1 - n));
                }
                return r;
            },
            None => {
                proof {
                    assert(iter_skip == rows.len());
                    assert(self.iter.remaining().len() == 0);
                    assert(flat_remaining(self.iter.remaining()).len() == 0);
                    assert(m2 as int == m - (rows.len() as int) * l);
                    assert(l * (rows.len() as int) == (rows.len() as int) * l)
                        by (nonlinear_arith);
                }
                let fopt = self.frontiter.take();
                match fopt {
                    Some(mut f) => {
                        let ghost fseq = f.remaining();
                        let r = f.nth_back(m2);
                        self.frontiter = Some(f);
                        proof {
                            if m2 < fseq.len() {
                                assert(mid.remaining()[mid.remaining().len() - 1 - m]
                                    == fseq[fseq.len() - 1 - m2]);
                                assert(r == Some(
                                    old(self).remaining()[old(self).remaining().len() - 1 - n],
                                ));
                                assert(self.remaining() =~= mid.remaining().take(
                                    mid.remaining().len() - 1 - m,
                                ));
                                assert(mid.remaining().take(mid.remaining().len() - 1 - m)
                                    =~= old(self).remaining().take(
                                    old(self).remaining().len() - 1 - n,
                                ));
                            } else {
                                assert(mid.remaining().len() <= m);
                                assert(self.remaining().len() == 0);
                            }
                        }
                        return r;
                    },
                    None => {
                        proof {
                            assert(mid.remaining().len() <= m);
                            assert(self.remaining().len() == 0);
                        }
                        return None;
                    },
                }
            },
        }
    }

    /// The current last remaining cell, by a single reverse pull.
    pub fn last(self) -> (r: Option<<I::Elem as Cursor>::Elem>)
        requires
            self.wf(),
        ensures
            self.remaining().len() == 0 ==> r is None,
            self.remaining().len() > 0 ==> r == Some(self.remaining().last()),
    {
        let mut s = self;
        s.next_back()
    }

    /// Folds `f` over every remaining cell in exactly the order
    /// repeated `next` calls would produce them: the front cursor's
    /// leftovers, each untouched row in outer order, then the back
    /// cursor's leftovers.
    #[verifier::loop_isolation(false)]
    pub fn fold<A, F: Fn(A, <I::Elem as Cursor>::Elem) -> A>(self, init: A, f: F) -> (res: A)
        requires
            self.wf(),
            forall|a: A, x: <I::Elem as Cursor>::Elem| #[trigger] call_requires(f, (a, x)),
        ensures
            folds(f, init, self.remaining(), res),
    {
        let ghost all = self.remaining();
        let mut it = self;
        let mut acc = init;
        let ghost mut done: int = 0;
        loop
            invariant
                it.wf(),
                forall|a: A, x: <I::Elem as Cursor>::Elem| #[trigger] call_requires(f, (a, x)),
                0 <= done <= all.len(),
                it.remaining() == all.skip(done),
                folds(f, init, all.take(done), acc),
            decreases it.remaining().len(),
        {
            match it.next() {
                Some(v) => {
                    proof {
                        assert(all.skip(done)[0] == all[done]);
                    }
                    let acc2 = f(acc, v);
                    proof {
                        lemma_folds_snoc(f, init, all.take(done), acc, v, acc2);
                        assert(all.take(done + 1) =~= all.take(done).push(v));
                        assert(all.skip(done).drop_first() =~= all.skip(done + 1));
                        done = done + 1;
                    }
                    acc = acc2;
                },
                None => {
                    proof {
                        assert(all.take(done) =~= all);
                    }
                    return acc;
                },
            }
        }
    }

    /// Folds `f` over every remaining cell in exactly the order
    /// repeated `next_back` calls would produce them: the reverse of
    /// the forward order.
    #[verifier::loop_isolation(false)]
    pub fn rfold<A, F: Fn(A, <I::Elem as Cursor>::Elem) -> A>(self, init: A, f: F) -> (res: A)
        requires
            self.wf(),
            forall|a: A, x: <I::Elem as Cursor>::Elem| #[trigger] call_requires(f, (a, x)),
        ensures
            folds(f, init, self.remaining().reverse(), res),
    {
        let ghost all = self.remaining();
        let ghost rev = all.reverse();
        let mut it = self;
        let mut acc = init;
        let ghost mut done: int = 0;
        loop
            invariant
                it.wf(),
                forall|a: A, x: <I::Elem as Cursor>::Elem| #[trigger] call_requires(f, (a, x)),
                0 <= done <= all.len(),
                it.remaining() == all.take(all.len() - done),
                folds(f, init, rev.take(done), acc),
                rev == all.reverse(),
            decreases it.remaining().len(),
        {
            match it.next_back() {
                Some(v) => {
                    proof {
                        assert(all.take(all.len() - done)[all.len() - done - 1] == all[all.len()
                            - done - 1]);
                        assert(rev[done] == all[all.len() - done - 1]);
                    }
                    let acc2 = f(acc, v);
                    proof {
                        lemma_folds_snoc(f, init, rev.take(done), acc, v, acc2);
                        assert(rev.take(done + 1) =~= rev.take(done).push(v));
                        assert(all.take(all.len() - done).drop_last() =~= all.take(
                            all.len() - (done + 1),
                        ));
                        done = done + 1;
                    }
                    acc = acc2;
                },
                None => {
                    proof {
                        assert(rev.take(done) =~= rev);
                    }
                    return acc;
                },
            }
        }
    }
}

/// `folds(f, init, s, res)` holds when `res` can arise from `init` by
/// one call of `f` per item of `s`, in order front to back, each call
/// meeting `f`'s postcondition.
pub open spec fn folds<T, A, F: Fn(A, T) -> A>(f: F, init: A, s: Seq<T>, res: A) -> bool
    decreases s.len(),
{
    if s.len() == 0 {
        res == init
    } else {
        exists|mid: A|
            #[trigger] call_ensures(f, (init, s[0]), mid) && folds(f, mid, s.drop_first(), res)
    }
}

/// Extends a fold chain by one more call at its end.
proof fn lemma_folds_snoc<T, A, F: Fn(A, T) -> A>(f: F, init: A, s: Seq<T>, mid: A, x: T, res: A)
    requires
        folds(f, init, s, mid),
        call_ensures(f, (mid, x), res),
    ensures
        folds(f, init, s.push(x), res),
    decreases s.len(),
{
    if s.len() == 0 {
        assert(s.push(x)[0] == x);
        assert(s.push(x).drop_first() =~= Seq::<T>::empty());
        assert(call_ensures(f, (init, s.push(x)[0]), res));
        assert(folds(f, res, s.push(x).drop_first(), res)) by {
            assert(s.push(x).drop_first().len() == 0);
        }
    } else {
        let mid0 = choose|mid0: A|
            #[trigger] call_ensures(f, (init, s[0]), mid0) && folds(f, mid0, s.drop_first(), mid);
        lemma_folds_snoc(f, mid0, s.drop_first(), mid, x, res);
        assert(s.drop_first().push(x) =~= s.push(x).drop_first());
        assert(s.push(x)[0] == s[0]);
        assert(call_ensures(f, (init, s.push(x)[0]), mid0) && folds(
            f,
            mid0,
            s.push(x).drop_first(),
            res,
        ));
    }
}

} // verus!
