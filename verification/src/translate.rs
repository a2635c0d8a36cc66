use vstd::prelude::*;
use vstd::arithmetic::div_mod::lemma_small_mod;
use vstd::arithmetic::div_mod::lemma_mod_self_0;
use vstd::arithmetic::div_mod::lemma_mod_sub_multiples_vanish;
use vstd::arithmetic::div_mod::lemma_mod_division_less_than_divisor;
use vstd::seq_lib::lemma_flatten_concat;
use crate::grid::TooDee;
use crate::view::TooDeeRegion;
use vstd::seq_lib::lemma_multiset_commutative;

verus! {

/// A shift distance reduced modulo a dimension; a zero dimension
/// leaves nothing to shift.
pub open spec fn reduced(d: int, m: int) -> int {
    if m <= 0 {
        0
    } else {
        d % m
    }
}

/// `s` rotated left by `k` places: the item at offset `k` comes first
/// and what falls off the front re-enters at the back.
pub open spec fn rot<A>(s: Seq<A>, k: int) -> Seq<A> {
    s.skip(k) + s.take(k)
}

/// Every row holds exactly `w` cells.
pub open spec fn rect<T>(rows: Seq<Seq<T>>, w: int) -> bool {
    forall|j: int| 0 <= j < rows.len() ==> (#[trigger] rows[j]).len() == w
}

/// The toroidal translation of a grid of rows by `(dx, dy)`: every
/// row is rotated left by `dx`, then the sequence of rows is rotated
/// up by `dy`, so the cell previously at `(dy, dx)` becomes the new
/// origin cell.
pub open spec fn translated_rows<T>(rows: Seq<Seq<T>>, dx: int, dy: int) -> Seq<Seq<T>> {
    rot(rows.map_values(|row: Seq<T>| rot(row, dx)), dy)
}

/// Rotation reads through a wrapped index: item `i` of the rotation
/// is item `(i + k) mod len` of the original.
pub proof fn lemma_rot_index<A>(s: Seq<A>, k: int, i: int)
    requires
        0 <= k <= s.len(),
        0 <= i < s.len(),
    ensures
        rot(s, k)[i] == s[(i + k) % (s.len() as int)],
{
    let n = s.len() as int;
    if i + k < n {
        lemma_small_mod((i + k) as nat, n as nat);
    } else {
        lemma_mod_sub_multiples_vanish(i + k, n);
        lemma_small_mod((i + k - n) as nat, n as nat);
        assert((i + k) % n == i + k - n);
    }
}

/// The translated grid reads through the wrap formula: its cell
/// `(r, c)` is the original cell `((r + dy) mod height, (c + dx) mod
/// width)`.
pub proof fn lemma_translated_rows_index<T>(
    rows: Seq<Seq<T>>,
    w: int,
    dx: int,
    dy: int,
    r: int,
    c: int,
)
    requires
        rect(rows, w),
        0 <= dx <= w,
        0 <= dy <= rows.len(),
        0 <= r < rows.len(),
        0 <= c < w,
    ensures
        translated_rows(rows, dx, dy).len() == rows.len(),
        translated_rows(rows, dx, dy)[r].len() == w,
        translated_rows(rows, dx, dy)[r][c] == rows[(r + dy) % (rows.len() as int)][(c + dx) % w],
{
    let mapped = rows.map_values(|row: Seq<T>| rot(row, dx));
    assert(mapped.len() == rows.len());
    lemma_rot_index(mapped, dy, r);
    let r2 = (r + dy) % (rows.len() as int);
    lemma_mod_division_less_than_divisor(r + dy, rows.len() as int);
    assert(mapped[r2] == rot(rows[r2], dx));
    lemma_rot_index(rows[r2], dx, c);
}

/// Translating by `(0, 0)` is the identity on any grid of rows.
pub proof fn lemma_translate_identity<T>(rows: Seq<Seq<T>>)
    ensures
        translated_rows(rows, 0, 0) == rows,
{
    let mapped = rows.map_values(|row: Seq<T>| rot(row, 0));
    assert forall|j: int| 0 <= j < rows.len() implies mapped[j] == rows[j] by {
        assert(rot(rows[j], 0) =~= rows[j]);
    }
    assert(mapped =~= rows);
    assert(rot(mapped, 0) =~= mapped);
}

/// Rotating left by `k` and then by the inverse distance restores the
/// sequence exactly.
proof fn lemma_rot_unrot<A>(s: Seq<A>, k: int)
    requires
        0 <= k <= s.len(),
    ensures
        rot(rot(s, k), reduced(s.len() - k, s.len() as int)) == s,
{
    let n = s.len() as int;
    if n == 0 {
        assert(rot(rot(s, 0), 0) =~= s);
    } else {
        let k2 = reduced(n - k, n);
        if k == 0 {
            lemma_mod_self_0(n);
            assert(k2 == 0);
            assert(rot(rot(s, 0), 0) =~= s);
        } else {
            lemma_small_mod((n - k) as nat, n as nat);
            assert(k2 == n - k);
            assert(rot(rot(s, k), n - k) =~= s);
        }
    }
}

/// Mapping a function over a rotation is the rotation of the mapped
/// sequence.
proof fn lemma_map_rot<A, B>(s: Seq<A>, fm: spec_fn(A) -> B, k: int)
    requires
        0 <= k <= s.len(),
    ensures
        rot(s, k).map_values(fm) == rot(s.map_values(fm), k),
{
    assert(rot(s, k).map_values(fm) =~= rot(s.map_values(fm), k));
}

/// Round trip: translating by `(dx, dy)` and then by the inverse
/// shift `(w - dx mod w, h - dy mod h)` restores the grid exactly.
pub proof fn lemma_translate_round_trip<T>(rows: Seq<Seq<T>>, w: int, dx: int, dy: int)
    requires
        rect(rows, w),
        0 <= dx <= w,
        0 <= dy <= rows.len(),
    ensures
        translated_rows(
            translated_rows(rows, dx, dy),
            reduced(w - dx, w),
            reduced(rows.len() - dy, rows.len() as int),
        ) == rows,
{
    let f = |row: Seq<T>| rot(row, dx);
    let dx2 = reduced(w - dx, w);
    let g = |row: Seq<T>| rot(row, dx2);
    let dy2 = reduced(rows.len() - dy, rows.len() as int);
    let m1 = rows.map_values(f);
    let t1 = rot(m1, dy);
    lemma_map_rot(m1, g, dy);
    let x = m1.map_values(g);
    assert(translated_rows(t1, dx2, dy2) == rot(rot(x, dy), dy2));
    lemma_rot_unrot(x, dy);
    assert(rot(rot(x, dy), dy2) == x);
    assert forall|j: int| 0 <= j < rows.len() implies x[j] == rows[j] by {
        assert(x[j] == rot(rot(rows[j], dx), dx2));
        lemma_rot_unrot(rows[j], dx);
    }
    assert(x =~= rows);
}

/// A rotation holds exactly the items of the original sequence.
proof fn lemma_rot_multiset<A>(s: Seq<A>, k: int)
    requires
        0 <= k <= s.len(),
    ensures
        rot(s, k).to_multiset() == s.to_multiset(),
{
    lemma_multiset_commutative(s.skip(k), s.take(k));
    lemma_multiset_commutative(s.take(k), s.skip(k));
    assert(s.take(k) + s.skip(k) =~= s);
    assert(rot(s, k).to_multiset() =~= s.to_multiset());
}

/// Rotating the rows leaves the multiset of all flattened cells
/// unchanged.
proof fn lemma_flatten_rot_multiset<T>(rows: Seq<Seq<T>>, k: int)
    requires
        0 <= k <= rows.len(),
    ensures
        rot(rows, k).flatten().to_multiset() == rows.flatten().to_multiset(),
{
    lemma_flatten_concat(rows.skip(k), rows.take(k));
    lemma_flatten_concat(rows.take(k), rows.skip(k));
    assert(rows.take(k) + rows.skip(k) =~= rows);
    lemma_multiset_commutative(rows.skip(k).flatten(), rows.take(k).flatten());
    lemma_multiset_commutative(rows.take(k).flatten(), rows.skip(k).flatten());
    assert(rot(rows, k).flatten().to_multiset() =~= rows.flatten().to_multiset());
}

/// Rotating each row in place leaves the multiset of all flattened
/// cells unchanged.
proof fn lemma_flatten_map_rot_multiset<T>(rows: Seq<Seq<T>>, w: int, dx: int)
    requires
        rect(rows, w),
        0 <= dx <= w,
    ensures
        rows.map_values(|row: Seq<T>| rot(row, dx)).flatten().to_multiset()
            == rows.flatten().to_multiset(),
    decreases rows.len(),
{
    let f = |row: Seq<T>| rot(row, dx);
    let mapped = rows.map_values(f);
    if rows.len() == 0 {
        assert(mapped.len() == 0);
    } else {
        assert(mapped.drop_first() =~= rows.drop_first().map_values(f));
        assert forall|j: int| 0 <= j < rows.drop_first().len() implies (#[trigger] rows.drop_first(
        )[j]).len() == w by {
            assert(rows.drop_first()[j] == rows[j + 1]);
        }
        lemma_flatten_map_rot_multiset(rows.drop_first(), w, dx);
        assert(mapped.flatten() == mapped.first() + mapped.drop_first().flatten());
        assert(rows.flatten() == rows.first() + rows.drop_first().flatten());
        lemma_multiset_commutative(mapped.first(), mapped.drop_first().flatten());
        lemma_multiset_commutative(rows.first(), rows.drop_first().flatten());
        assert(mapped.first() == rot(rows.first(), dx));
        assert(rows.first().len() == w);
        lemma_rot_multiset(rows.first(), dx);
        assert(mapped.flatten().to_multiset() =~= rows.flatten().to_multiset());
    }
}

/// The multiset of all cell values is invariant under translation: no
/// cell value is created or dropped, only relocated.
pub proof fn lemma_translate_preserves_cells<T>(rows: Seq<Seq<T>>, w: int, dx: int, dy: int)
    requires
        rect(rows, w),
        0 <= dx <= w,
        0 <= dy <= rows.len(),
    ensures
        translated_rows(rows, dx, dy).flatten().to_multiset() == rows.flatten().to_multiset(),
{
    let mapped = rows.map_values(|row: Seq<T>| rot(row, dx));
    lemma_flatten_rot_multiset(mapped, dy);
    lemma_flatten_map_rot_multiset(rows, w, dx);
}

impl<T: Copy> TooDee<T> {
    /// Rotates the cells of columns `cs..ce` of row `row` left by `k`
    /// places, through a temporary buffer of one row segment.
    fn rotate_row_in_place(&mut self, row: usize, cs: usize, ce: usize, k: usize)
        requires
            old(self).wf(),
            row < old(self).height,
            cs <= ce <= old(self).width,
            k < ce - cs,
        ensures
            final(self).wf(),
            final(self).width == old(self).width,
            final(self).height == old(self).height,
            forall|cc: int|
                cs <= cc < ce ==> #[trigger] final(self).cell(row as int, cc) == old(self).cell(
                    row as int,
                    cs + ((cc - cs + k) % (ce - cs)),
                ),
            forall|rr: int, cc: int|
                0 <= rr < old(self).height && 0 <= cc < old(self).width && !(rr == row as int && cs
                    <= cc < ce) ==> #[trigger] final(self).cell(rr, cc) == old(self).cell(rr, cc),
    {
        let w = ce - cs;
        let ghost orig = *self;
        let mut tmp: Vec<T> = Vec::new();
        let mut i: usize = 0;
        while i < w
            invariant
                *self == orig,
                orig.wf(),
                row < orig.height,
                cs <= ce <= orig.width,
                k < w,
                w == ce - cs,
                i <= w,
                tmp@.len() == i,
                forall|j: int|
                    0 <= j < i ==> #[trigger] tmp@[j] == orig.cell(
                        row as int,
                        cs + ((j + k) % (w as int)),
                    ),
            decreases w - i,
        {
            let src = if i < w - k {
                i + k
            } else {
                i - (w - k)
            };
            proof {
                if i + k < w {
                    lemma_small_mod((i + k) as nat, w as nat);
                } else {
                    lemma_mod_sub_multiples_vanish(i + k, w as int);
                    lemma_small_mod((i + k - w) as nat, w as nat);
                }
                assert(src as int == (i + k) % (w as int));
            }
            let v = *self.get(row, cs + src);
            tmp.push(v);
            i = i + 1;
        }
        let mut j: usize = 0;
        while j < w
            invariant
                self.wf(),
                self.width == orig.width,
                self.height == orig.height,
                orig.wf(),
                row < orig.height,
                cs <= ce <= orig.width,
                k < w,
                w == ce - cs,
                j <= w,
                tmp@.len() == w,
                forall|j2: int|
                    0 <= j2 < w ==> #[trigger] tmp@[j2] == orig.cell(
                        row as int,
                        cs + ((j2 + k) % (w as int)),
                    ),
                forall|cc: int|
                    cs <= cc < cs + j ==> #[trigger] self.cell(row as int, cc) == tmp@[cc - cs],
                forall|rr: int, cc: int|
                    0 <= rr < orig.height && 0 <= cc < orig.width && !(rr == row as int && cs <= cc
                        < cs + j) ==> #[trigger] self.cell(rr, cc) == orig.cell(rr, cc),
            decreases w - j,
        {
            let v = tmp[j];
            self.set(row, cs + j, v);
            j = j + 1;
        }
    }

    /// Rotates the cells of rows `rs..re` of column `col` up by `k`
    /// places, through a temporary buffer of one column segment.
    fn rotate_col_in_place(&mut self, col: usize, rs: usize, re: usize, k: usize)
        requires
            old(self).wf(),
            col < old(self).width,
            rs <= re <= old(self).height,
            k < re - rs,
        ensures
            final(self).wf(),
            final(self).width == old(self).width,
            final(self).height == old(self).height,
            forall|rr: int|
                rs <= rr < re ==> #[trigger] final(self).cell(rr, col as int) == old(self).cell(
                    rs + ((rr - rs + k) % (re - rs)),
                    col as int,
                ),
            forall|rr: int, cc: int|
                0 <= rr < old(self).height && 0 <= cc < old(self).width && !(cc == col as int && rs
                    <= rr < re) ==> #[trigger] final(self).cell(rr, cc) == old(self).cell(rr, cc),
    {
        let h = re - rs;
        let ghost orig = *self;
        let mut tmp: Vec<T> = Vec::new();
        let mut i: usize = 0;
        while i < h
            invariant
                *self == orig,
                orig.wf(),
                col < orig.width,
                rs <= re <= orig.height,
                k < h,
                h == re - rs,
                i <= h,
                tmp@.len() == i,
                forall|j: int|
                    0 <= j < i ==> #[trigger] tmp@[j] == orig.cell(
                        rs + ((j + k) % (h as int)),
                        col as int,
                    ),
            decreases h - i,
        {
            let src = if i < h - k {
                i + k
            } else {
                i - (h - k)
            };
            proof {
                if i + k < h {
                    lemma_small_mod((i + k) as nat, h as nat);
                } else {
                    lemma_mod_sub_multiples_vanish(i + k, h as int);
                    lemma_small_mod((i + k - h) as nat, h as nat);
                }
                assert(src as int == (i + k) % (h as int));
            }
            let v = *self.get(rs + src, col);
            tmp.push(v);
            i = i + 1;
        }
        let mut j: usize = 0;
        while j < h
            invariant
                self.wf(),
                self.width == orig.width,
                self.height == orig.height,
                orig.wf(),
                col < orig.width,
                rs <= re <= orig.height,
                k < h,
                h == re - rs,
                j <= h,
                tmp@.len() == h,
                forall|j2: int|
                    0 <= j2 < h ==> #[trigger] tmp@[j2] == orig.cell(
                        rs + ((j2 + k) % (h as int)),
                        col as int,
                    ),
                forall|rr: int|
                    rs <= rr < rs + j ==> #[trigger] self.cell(rr, col as int) == tmp@[rr - rs],
                forall|rr: int, cc: int|
                    0 <= rr < orig.height && 0 <= cc < orig.width && !(cc == col as int && rs <= rr
                        < rs + j) ==> #[trigger] self.cell(rr, cc) == orig.cell(rr, cc),
            decreases h - j,
        {
            let v = tmp[j];
            self.set(rs + j, col, v);
            j = j + 1;
        }
    }
}

impl<T: Copy> TooDee<T> {
    /// In-place toroidal translation of the cells of `reg`: afterwards
    /// the window's rows read as `translated_rows` of what they were,
    /// with both shifts reduced modulo the window's own dimensions.
    /// Cells outside the window are untouched. Works row by row and
    /// then column by column, with one segment of temporary storage.
    #[verifier::loop_isolation(false)]
    #[verifier::rlimit(60)]
    #[verifier::spinoff_prover]
    fn translate_region(&mut self, reg: TooDeeRegion, dx: usize, dy: usize)
        requires
            old(self).wf(),
            reg.wf_for(old(self).width as int, old(self).height as int),
        ensures
            final(self).wf(),
            final(self).width == old(self).width,
            final(self).height == old(self).height,
            final(self).region_rows(reg) == translated_rows(
                old(self).region_rows(reg),
                reduced(dx as int, reg.num_cols()),
                reduced(dy as int, reg.num_rows()),
            ),
            forall|rr: int, cc: int|
                0 <= rr < old(self).height && 0 <= cc < old(self).width && !(reg.row_start <= rr
                    < reg.row_end && reg.col_start <= cc < reg.col_end)
                    ==> #[trigger] final(self).cell(rr, cc) == old(self).cell(rr, cc),
    {
        let rs = reg.row_start;
        let re = reg.row_end;
        let cs = reg.col_start;
        let ce = reg.col_end;
        let wv = ce - cs;
        let hv = re - rs;
        if wv == 0 || hv == 0 {
            proof {
                let before = old(self).region_rows(reg);
                let t = translated_rows(
                    before,
                    reduced(dx as int, wv as int),
                    reduced(dy as int, hv as int),
                );
                assert forall|i: int| 0 <= i < before.len() implies t[i] == before[i] by {
                    assert(before[i] =~= Seq::<T>::empty());
                    let mapped = before.map_values(|row: Seq<T>| rot(row, 0));
                    assert(mapped[i] =~= Seq::<T>::empty());
                    let dyr = reduced(dy as int, hv as int);
                    lemma_rot_index(mapped, dyr, i);
                    if dyr > 0 {
                        lemma_mod_division_less_than_divisor(i + dyr, before.len() as int);
                    }
                    assert(t[i] =~= Seq::<T>::empty());
                }
                assert(self.region_rows(reg) =~= t);
            }
            return;
        }
        let dxr = dx % wv;
        let dyr = dy % hv;
        let ghost orig = *self;
        let mut r: usize = 0;
        while r < hv
            invariant
                self.wf(),
                self.width == orig.width,
                self.height == orig.height,
                r <= hv,
                forall|rr: int, cc: int|
                    rs <= rr < rs + r && cs <= cc < ce ==> #[trigger] self.cell(rr, cc)
                        == orig.cell(rr, cs + ((cc - cs + dxr) % (wv as int))),
                forall|rr: int, cc: int|
                    rs + r <= rr < re && cs <= cc < ce ==> #[trigger] self.cell(rr, cc)
                        == orig.cell(rr, cc),
                forall|rr: int, cc: int|
                    0 <= rr < orig.height && 0 <= cc < orig.width && !(rs <= rr < re && cs <= cc
                        < ce) ==> #[trigger] self.cell(rr, cc) == orig.cell(rr, cc),
            decreases hv - r,
        {
            let ghost before = *self;
            self.rotate_row_in_place(rs + r, cs, ce, dxr);
            proof {
                assert forall|rr: int, cc: int|
                    rs <= rr < rs + r + 1 && cs <= cc < ce implies #[trigger] self.cell(rr, cc)
                    == orig.cell(rr, cs + ((cc - cs + dxr) % (wv as int))) by {
                    if rr == rs + r {
                        lemma_mod_division_less_than_divisor(cc - cs + dxr, wv as int);
                        assert(self.cell(rr, cc) == before.cell(
                            rr,
                            cs + ((cc - cs + dxr) % (wv as int)),
                        ));
                    }
                }
            }
            r = r + 1;
        }
        let ghost mid = *self;
        let mut c: usize = 0;
        while c < wv
            invariant
                self.wf(),
                self.width == orig.width,
                self.height == orig.height,
                c <= wv,
                forall|rr: int, cc: int|
                    rs <= rr < re && cs <= cc < cs + c ==> #[trigger] self.cell(rr, cc)
                        == mid.cell(rs + ((rr - rs + dyr) % (hv as int)), cc),
                forall|rr: int, cc: int|
                    rs <= rr < re && cs + c <= cc < ce ==> #[trigger] self.cell(rr, cc)
                        == mid.cell(rr, cc),
                forall|rr: int, cc: int|
                    0 <= rr < orig.height && 0 <= cc < orig.width && !(rs <= rr < re && cs <= cc
                        < ce) ==> #[trigger] self.cell(rr, cc) == mid.cell(rr, cc),
            decreases wv - c,
        {
            let ghost before = *self;
            self.rotate_col_in_place(cs + c, rs, re, dyr);
            proof {
                assert forall|rr: int, cc: int|
                    rs <= rr < re && cs <= cc < cs + c + 1 implies #[trigger] self.cell(rr, cc)
                    == mid.cell(rs + ((rr - rs + dyr) % (hv as int)), cc) by {
                    if cc == cs + c {
                        lemma_mod_division_less_than_divisor(rr - rs + dyr, hv as int);
                        assert(self.cell(rr, cc) == before.cell(
                            rs + ((rr - rs + dyr) % (hv as int)),
                            cc,
                        ));
                    }
                }
            }
            c = c + 1;
        }
        proof {
            let before = orig.region_rows(reg);
            let t = translated_rows(before, dxr as int, dyr as int);
            assert forall|i: int| 0 <= i < (hv as int) implies self.region_rows(reg)[i] == t[i] by {
                assert forall|j: int| 0 <= j < (wv as int) implies self.region_rows(reg)[i][j]
                    == t[i][j] by {
                    assert(rect(before, wv as int)) by {
                        assert forall|j2: int| 0 <= j2 < before.len() implies (
                        #[trigger] before[j2]).len() == wv as int by {}
                    }
                    lemma_translated_rows_index(
                        before,
                        wv as int,
                        dxr as int,
                        dyr as int,
                        i,
                        j,
                    );
                    lemma_mod_division_less_than_divisor(i + dyr, hv as int);
                    lemma_mod_division_less_than_divisor(j + dxr, wv as int);
                    let i2 = (i + dyr) % (hv as int);
                    let j2 = (j + dxr) % (wv as int);
                    assert(self.cell(rs + i, cs + j) == mid.cell(rs + ((rs + i - rs + dyr) % (
                    hv as int)), cs + j));
                    assert((rs + i - rs + dyr) % (hv as int) == i2);
                    assert(mid.cell(rs + i2, cs + j) == orig.cell(rs + i2, cs + ((cs + j - cs
                        + dxr) % (wv as int))));
                    assert((cs + j - cs + dxr) % (wv as int) == j2);
                    assert(t[i][j] == before[i2][j2]);
                    assert(before[i2][j2] == orig.cell(rs + i2, cs + j2));
                }
                assert(self.region_rows(reg)[i] =~= t[i]);
            }
            assert(self.region_rows(reg) =~= t);
        }
    }

    /// In-place toroidal translation of the whole grid by `(dx, dy)`:
    /// afterwards cell `(r, c)` holds the value previously at
    /// `((r + dy) mod height, (c + dx) mod width)`. The shifts may be
    /// any values; they are reduced modulo the grid's own dimensions,
    /// and `(0, 0)` is the identity.
    pub fn translate_with_wrap(&mut self, dx: usize, dy: usize)
        requires
            old(self).wf(),
        ensures
            final(self).wf(),
            final(self).width == old(self).width,
            final(self).height == old(self).height,
            final(self).rows_model() == translated_rows(
                old(self).rows_model(),
                reduced(dx as int, old(self).width as int),
                reduced(dy as int, old(self).height as int),
            ),
            final(self).data@.to_multiset() == old(self).data@.to_multiset(),
    {
        let reg = TooDeeRegion {
            row_start: 0,
            col_start: 0,
            row_end: self.height,
            col_end: self.width,
        };
        self.translate_region(reg, dx, dy);
        proof {
            assert forall|i: int| 0 <= i < old(self).rows_model().len() implies old(
                self,
            ).region_rows(reg)[i] == old(self).rows_model()[i] by {
                assert(old(self).region_rows(reg)[i] =~= old(self).rows_model()[i]);
            }
            assert(old(self).region_rows(reg) =~= old(self).rows_model());
            assert forall|i: int| 0 <= i < self.rows_model().len() implies (*self).region_rows(
                reg,
            )[i] == (*self).rows_model()[i] by {
                assert((*self).region_rows(reg)[i] =~= (*self).rows_model()[i]);
            }
            assert((*self).region_rows(reg) =~= (*self).rows_model());
            let w = old(self).width as int;
            let h = old(self).height as int;
            let dxr = reduced(dx as int, w);
            let dyr = reduced(dy as int, h);
            assert(rect(old(self).rows_model(), w)) by {
                assert forall|j: int| 0 <= j < old(self).rows_model().len() implies (#[trigger] old(
                    self,
                ).rows_model()[j]).len() == w by {}
            }
            assert(0 <= dxr <= w && 0 <= dyr <= h) by {
                if w > 0 {
                    lemma_mod_division_less_than_divisor(dx as int, w);
                }
                if h > 0 {
                    lemma_mod_division_less_than_divisor(dy as int, h);
                }
            }
            lemma_translate_preserves_cells(old(self).rows_model(), w, dxr, dyr);
            lemma_rows_model_flatten(*old(self));
            lemma_rows_model_flatten(*self);
        }
    }
}

/// A suffix of the rows model flattens to the matching suffix of the
/// flat buffer.
proof fn lemma_rows_suffix_flatten<T>(g: TooDee<T>, r: int)
    requires
        g.wf(),
        0 <= r <= g.height,
    ensures
        g.rows_model().skip(r).flatten() == g.data@.skip(r * g.width),
    decreases g.height - r,
{
    let w = g.width as int;
    let h = g.height as int;
    assert((r + 1) * w == r * w + w) by (nonlinear_arith);
    assert(0 <= r * w && r * w <= h * w && h * w == w * h) by (nonlinear_arith)
        requires
            0 <= r <= h,
            0 <= w,
    ;
    if r == h {
        assert(g.rows_model().skip(r).len() == 0);
        assert(g.data@.skip(r * w) =~= Seq::<T>::empty());
    } else {
        assert((r + 1) * w <= h * w) by (nonlinear_arith)
            requires
                r + 1 <= h,
                0 <= w,
        ;
        lemma_rows_suffix_flatten(g, r + 1);
        let s = g.rows_model().skip(r);
        assert(s.len() > 0);
        assert(s.flatten() == s.first() + s.drop_first().flatten());
        assert(s.drop_first() =~= g.rows_model().skip(r + 1));
        assert(s.first() == g.rows_model()[r]);
        assert(g.data@.skip(r * w) =~= g.rows_model()[r] + g.data@.skip((r + 1) * w));
    }
}

/// The rows model flattens back to the flat row-major buffer.
pub proof fn lemma_rows_model_flatten<T>(g: TooDee<T>)
    requires
        g.wf(),
    ensures
        g.rows_model().flatten() == g.data@,
{
    lemma_rows_suffix_flatten(g, 0);
    assert(g.rows_model().skip(0) =~= g.rows_model());
    assert(g.data@.skip(0) =~= g.data@);
}

/// A full-extent window reads exactly as the whole grid: translating
/// through `TooDee::translate_with_wrap` or through such a window's
/// `translate_with_wrap` is specified by the same relation.
pub proof fn lemma_full_region_is_grid<T>(g: TooDee<T>)
    requires
        g.wf(),
    ensures
        g.region_rows(
            TooDeeRegion {
                row_start: 0,
                col_start: 0,
                row_end: g.height,
                col_end: g.width,
            },
        ) == g.rows_model(),
{
    let reg = TooDeeRegion { row_start: 0, col_start: 0, row_end: g.height, col_end: g.width };
    assert forall|i: int| 0 <= i < g.rows_model().len() implies g.region_rows(reg)[i]
        == g.rows_model()[i] by {
        assert(g.region_rows(reg)[i] =~= g.rows_model()[i]);
    }
    assert(g.region_rows(reg) =~= g.rows_model());
}

impl TooDeeRegion {
    /// In-place toroidal translation of this window of `grid` by
    /// `(dx, dy)`: the window is its own toroidal space, so a
    /// sub-view translates only within itself. Afterwards the
    /// window's logical cell `(r, c)` holds the value previously at
    /// `((r + dy) mod num_rows, (c + dx) mod num_cols)`; cells
    /// outside the window are untouched.
    pub fn translate_with_wrap<T: Copy>(&self, grid: &mut TooDee<T>, dx: usize, dy: usize)
        requires
            old(grid).wf(),
            self.wf_for(old(grid).width as int, old(grid).height as int),
        ensures
            final(grid).wf(),
            final(grid).width == old(grid).width,
            final(grid).height == old(grid).height,
            final(grid).region_rows(*self) == translated_rows(
                old(grid).region_rows(*self),
                reduced(dx as int, self.num_cols()),
                reduced(dy as int, self.num_rows()),
            ),
            forall|rr: int, cc: int|
                0 <= rr < old(grid).height && 0 <= cc < old(grid).width && !(self.row_start <= rr
                    < self.row_end && self.col_start <= cc < self.col_end)
                    ==> #[trigger] final(grid).cell(rr, cc) == old(grid).cell(rr, cc),
    {
        grid.translate_region(*self, dx, dy)
    }
}

} // verus!
