//! A dense matrix over GF(2) with Gauss-Jordan elimination and a solver for
//! A x = b.
use vstd::prelude::*;
use crate::gf2::{all_len, combine, rows_len, solve_system, views, xor_seq, zeros};

verus! {

/// The XOR of the entries `x[j]`, j < n, whose bit in `row` is 1.
pub open spec fn dot(row: Seq<u8>, x: Seq<u8>, n: nat) -> u8
    decreases n,
{
    if n == 0 {
        0
    } else if row[n - 1] == 1 {
        dot(row, x, (n - 1) as nat) ^ x[n - 1]
    } else {
        dot(row, x, (n - 1) as nat)
    }
}

/// Row `a` plus row `b` over GF(2), for rows of bits.
pub open spec fn add_bits(a: Seq<u8>, b: Seq<u8>) -> Seq<u8> {
    Seq::new(a.len(), |j: int| if a[j] == b[j] { 0u8 } else { 1u8 })
}

/// `dot` is linear in the row.
proof fn lemma_dot_add(a: Seq<u8>, b: Seq<u8>, x: Seq<u8>, n: nat)
    requires
        a.len() == b.len(),
        n <= a.len(),
        forall|j: int| 0 <= j < a.len() ==> #[trigger] a[j] <= 1 && b[j] <= 1,
    ensures
        dot(add_bits(a, b), x, n) == dot(a, x, n) ^ dot(b, x, n),
    decreases n,
{
    if n == 0 {
        crate::gf2::lemma_byte_xor(0, 0, 0, 0);
    } else {
        let m = (n - 1) as nat;
        lemma_dot_add(a, b, x, m);
        let da = dot(a, x, m);
        let db = dot(b, x, m);
        let v = x[m as int];
        let am = a[m as int];
        let bm = b[m as int];
        assert(am <= 1 && bm <= 1);
        assert(add_bits(a, b)[m as int] == if am == bm { 0u8 } else { 1u8 });
        crate::gf2::lemma_byte_xor(da, db, v, v);
        crate::gf2::lemma_byte_xor(da ^ db, v ^ v, 0, 0);
        crate::gf2::lemma_byte_xor(v, 0, 0, 0);
        if am == 1 && bm == 1 {
            assert(dot(add_bits(a, b), x, n) == da ^ db);
            assert(dot(a, x, n) == da ^ v);
            assert(dot(b, x, n) == db ^ v);
        } else if am == 1 {
            assert(dot(add_bits(a, b), x, n) == (da ^ db) ^ v);
            assert(dot(a, x, n) ^ dot(b, x, n) == (da ^ v) ^ db);
        } else if bm == 1 {
            assert(dot(add_bits(a, b), x, n) == (da ^ db) ^ v);
            assert(dot(a, x, n) ^ dot(b, x, n) == da ^ (db ^ v));
        } else {
            assert(dot(add_bits(a, b), x, n) == da ^ db);
        }
    }
}

/// Matrix over GF(2); each entry is 0 or 1.
pub struct BinaryMatrix {
    pub rows: usize,
    pub cols: usize,
    pub data: Vec<Vec<u8>>,
}

impl BinaryMatrix {
    pub open spec fn wf(&self) -> bool {
        &&& self.data.len() == self.rows
        &&& rows_len(self.data@, self.cols as nat)
        &&& forall|i: int, j: int|
            0 <= i < self.rows && 0 <= j < self.cols ==> #[trigger] self.data@[i]@[j] <= 1
    }

    /// Every row of the matrix is orthogonal to `x`: A x = 0.
    pub open spec fn kernel_has(&self, x: Seq<u8>) -> bool {
        forall|i: int| 0 <= i < self.rows ==> dot(#[trigger] self.data@[i]@, x, self.cols as nat) == 0
    }

    /// Only x = 0 solves A x = 0: for a square matrix, its rows are linearly
    /// independent.
    pub open spec fn kernel_trivial(&self) -> bool {
        forall|x: Seq<u8>|
            x.len() == self.cols && #[trigger] self.kernel_has(x) ==> forall|j: int| 0 <= j < self.cols ==> x[j] == 0
    }

    /// Rows `from` .. rows - 1 are zero.
    pub open spec fn zero_from(&self, from: int) -> bool {
        forall|i: int, j: int| from <= i < self.rows && 0 <= j < self.cols ==> #[trigger] self.entry(i, j) == 0
    }

    /// Entry (i, j).
    pub open spec fn entry(&self, i: int, j: int) -> u8 {
        self.data@[i]@[j]
    }

    /// The zero matrix of the given size.
    pub fn new(rows: usize, cols: usize) -> (r: Self)
        ensures
            r.wf(),
            r.rows == rows,
            r.cols == cols,
            forall|i: int, j: int| 0 <= i < rows && 0 <= j < cols ==> r.entry(i, j) == 0,
    {
        let mut data: Vec<Vec<u8>> = Vec::with_capacity(rows);
        let mut i: usize = 0;
        while i < rows
            invariant
                i <= rows,
                data.len() == i,
                forall|e: int| 0 <= e < i ==> (#[trigger] data@[e])@ == zeros(cols as nat),
            decreases rows - i,
        {
            data.push(crate::gf2::zero_vec(cols));
            i = i + 1;
        }
        BinaryMatrix { rows, cols, data }
    }

    /// The identity matrix of the given size.
    pub fn identity(size: usize) -> (r: Self)
        ensures
            r.wf(),
            r.rows == size,
            r.cols == size,
            forall|i: int, j: int|
                0 <= i < size && 0 <= j < size ==> r.entry(i, j) == if i == j {
                    1u8
                } else {
                    0u8
                },
    {
        let mut m = Self::new(size, size);
        let mut i: usize = 0;
        while i < size
            invariant
                i <= size,
                m.wf(),
                m.rows == size,
                m.cols == size,
                forall|a: int, b: int|
                    0 <= a < size && 0 <= b < size ==> m.entry(a, b) == if a == b && a < i {
                        1u8
                    } else {
                        0u8
                    },
            decreases size - i,
        {
            m.set(i, i, 1);
            i = i + 1;
        }
        m
    }

    /// Entry (i, j).
    pub fn get(&self, i: usize, j: usize) -> (r: u8)
        requires
            self.wf(),
            i < self.rows,
            j < self.cols,
        ensures
            r == self.entry(i as int, j as int),
    {
        self.data[i][j]
    }

    /// Sets entry (i, j) to the bit `v`.
    pub fn set(&mut self, i: usize, j: usize, v: u8)
        requires
            old(self).wf(),
            i < old(self).rows,
            j < old(self).cols,
            v <= 1,
        ensures
            final(self).wf(),
            final(self).rows == old(self).rows,
            final(self).cols == old(self).cols,
            forall|a: int, b: int|
                0 <= a < final(self).rows && 0 <= b < final(self).cols ==> final(self).entry(a, b)
                    == if a == i && b == j {
                    v
                } else {
                    old(self).entry(a, b)
                },
    {
        let mut row = crate::gf2::copy_vec(&self.data[i]);
        row.set(j, v);
        self.data.set(i, row);
    }

    /// Replaces row `i` with the bits `row`.
    pub fn set_row(&mut self, i: usize, row: Vec<u8>)
        requires
            old(self).wf(),
            i < old(self).rows,
            row@.len() == old(self).cols,
            forall|j: int| 0 <= j < row@.len() ==> #[trigger] row@[j] <= 1,
        ensures
            final(self).wf(),
            final(self).rows == old(self).rows,
            final(self).cols == old(self).cols,
            final(self).data@[i as int]@ == row@,
            forall|a: int| 0 <= a < old(self).rows && a != i ==> final(self).data@[a] == old(
                self,
            ).data@[a],
    {
        self.data.set(i, row);
    }

    /// Exchanges rows `a` and `b`.
    fn swap_rows(&mut self, a: usize, b: usize)
        requires
            old(self).wf(),
            a < old(self).rows,
            b < old(self).rows,
        ensures
            final(self).wf(),
            final(self).rows == old(self).rows,
            final(self).cols == old(self).cols,
            final(self).data@[a as int]@ == old(self).data@[b as int]@,
            final(self).data@[b as int]@ == old(self).data@[a as int]@,
            forall|e: int|
                0 <= e < old(self).rows && e != a && e != b ==> final(self).data@[e] == old(
                    self,
                ).data@[e],
    {
        if a != b {
            let ra = crate::gf2::copy_vec(&self.data[a]);
            let rb = crate::gf2::copy_vec(&self.data[b]);
            self.data.set(a, rb);
            self.data.set(b, ra);
        }
    }

    /// Adds row `p` to row `i` over GF(2).
    fn add_row(&mut self, i: usize, p: usize)
        requires
            old(self).wf(),
            i < old(self).rows,
            p < old(self).rows,
            i != p,
        ensures
            final(self).wf(),
            final(self).rows == old(self).rows,
            final(self).cols == old(self).cols,
            forall|j: int|
                0 <= j < old(self).cols ==> final(self).entry(i as int, j) == if old(self).entry(
                    i as int,
                    j,
                ) == old(self).entry(p as int, j) {
                    0u8
                } else {
                    1u8
                },
            forall|e: int| 0 <= e < old(self).rows && e != i ==> final(self).data@[e] == old(
                self,
            ).data@[e],
    {
        let n = self.cols;
        let mut row: Vec<u8> = Vec::with_capacity(n);
        let mut j: usize = 0;
        while j < n
            invariant
                self.wf(),
                n == self.cols,
                i < self.rows,
                p < self.rows,
                j <= n,
                row@.len() == j,
                forall|b: int|
                    0 <= b < j ==> row@[b] == if self.entry(i as int, b) == self.entry(p as int, b) {
                        0u8
                    } else {
                        1u8
                    },
            decreases n - j,
        {
            let v: u8 = if self.data[i][j] == self.data[p][j] {
                0
            } else {
                1
            };
            row.push(v);
            j = j + 1;
        }
        self.data.set(i, row);
    }

    /// Column `c` is the pivot of row `r`: a one there and zeros above and below.
    pub open spec fn is_pivot(&self, r: int, c: int) -> bool {
        &&& self.entry(r, c) == 1
        &&& forall|x: int| 0 <= x < self.rows && x != r ==> #[trigger] self.entry(x, c) == 0
    }

    /// Each of rows 0 .. n - 1 is zero before its pivot column.
    pub open spec fn leading(&self, pc: Seq<int>, n: int) -> bool {
        forall|r: int, j: int| 0 <= r < n && 0 <= j < pc[r] ==> #[trigger] self.entry(r, j) == 0
    }

    /// Rows 0 .. n - 1 have pivots in the strictly increasing columns `pc`.
    pub open spec fn pivots(&self, pc: Seq<int>, n: int) -> bool {
        &&& pc.len() == n
        &&& forall|r: int| 0 <= r < n ==> 0 <= #[trigger] pc[r] < self.cols && self.is_pivot(r, pc[r])
        &&& forall|a: int, b: int| 0 <= a < b < n ==> pc[a] < pc[b]
    }

    /// Brings the matrix to reduced row echelon form by Gauss-Jordan
    /// elimination; true when every row holds a pivot (full row rank).
    pub fn gaussian_elimination(&mut self) -> (r: bool)
        requires
            old(self).wf(),
        ensures
            final(self).wf(),
            final(self).rows == old(self).rows,
            final(self).cols == old(self).cols,
            forall|x: Seq<u8>|
                x.len() == old(self).cols ==> (#[trigger] old(self).kernel_has(x)
                    <==> #[trigger] final(self).kernel_has(x)),
            exists|pc: Seq<int>, rank: int|
                #![trigger final(self).pivots(pc, rank)]
                0 <= rank <= final(self).rows && final(self).pivots(pc, rank) && final(self).leading(pc, rank)
                    && final(self).zero_from(rank) && (r <==> rank == final(self).rows),
            r ==> exists|pc: Seq<int>| #[trigger] final(self).pivots(pc, final(self).rows as int),
            old(self).rows == old(self).cols ==> (r <==> old(self).kernel_trivial()),
            r && old(self).rows == old(self).cols ==> forall|i: int, j: int|
                0 <= i < final(self).rows && 0 <= j < final(self).cols ==> final(self).entry(i, j)
                    == if i == j {
                    1u8
                } else {
                    0u8
                },
    {
        let rows = self.rows;
        let cols = self.cols;
        let mut pivot_row: usize = 0;
        let mut pivot_col: usize = 0;
        let ghost mut pc: Seq<int> = Seq::empty();
        let ghost start = *self;
        while pivot_row < rows && pivot_col < cols
            invariant
                self.wf(),
                self.rows == rows,
                self.cols == cols,
                start == *old(self),
                forall|x: Seq<u8>|
                    x.len() == cols ==> (#[trigger] start.kernel_has(x) <==> #[trigger] self.kernel_has(x)),
                forall|i: int, j: int|
                    pivot_row <= i < rows && 0 <= j < pivot_col ==> #[trigger] self.entry(i, j) == 0,
                pivot_row <= rows,
                pivot_col <= cols,
                pivot_row <= pivot_col,
                self.pivots(pc, pivot_row as int),
                self.leading(pc, pivot_row as int),
                forall|r: int| 0 <= r < pivot_row ==> #[trigger] pc[r] < pivot_col,
            decreases cols - pivot_col,
        {
            let mut found: usize = rows;
            let mut i: usize = pivot_row;
            while i < rows
                invariant
                    self.wf(),
                    self.rows == rows,
                    self.cols == cols,
                    pivot_row <= i <= rows,
                    pivot_col < cols,
                    found == rows || (pivot_row <= found < rows && self.entry(
                        found as int,
                        pivot_col as int,
                    ) == 1),
                    found == rows ==> forall|q: int|
                        pivot_row <= q < i ==> #[trigger] self.entry(q, pivot_col as int) != 1,
                decreases rows - i,
            {
                if found == rows && self.data[i][pivot_col] == 1 {
                    found = i;
                }
                i = i + 1;
            }
            if found < rows {
                let ghost before = *self;
                self.swap_rows(found, pivot_row);
                proof {
                    assert forall|r: int| 0 <= r < pivot_row implies 0 <= #[trigger] pc[r] < cols
                        && self.is_pivot(r, pc[r]) by {
                        assert(before.is_pivot(r, pc[r]));
                        assert forall|x: int| 0 <= x < rows && x != r implies #[trigger] self.entry(
                            x,
                            pc[r],
                        ) == 0 by {
                            if x == found {
                                assert(before.entry(pivot_row as int, pc[r]) == 0);
                                assert(self.data@[x]@ == before.data@[pivot_row as int]@);
                            } else if x == pivot_row {
                                assert(before.entry(found as int, pc[r]) == 0);
                                assert(self.data@[x]@ == before.data@[found as int]@);
                            } else {
                                assert(before.entry(x, pc[r]) == 0);
                                assert(self.data@[x] == before.data@[x]);
                            }
                        }
                        assert(self.data@[r] == before.data@[r]);
                    }
                    assert(self.entry(pivot_row as int, pivot_col as int) == 1);
                    assert forall|x: Seq<u8>| x.len() == cols implies (#[trigger] before.kernel_has(x)
                        <==> #[trigger] self.kernel_has(x)) by {
                        if before.kernel_has(x) {
                            assert forall|i: int| 0 <= i < rows implies dot(#[trigger] self.data@[i]@, x, cols as nat) == 0 by {
                                if i == found {
                                    assert(dot(before.data@[pivot_row as int]@, x, cols as nat) == 0);
                                } else if i == pivot_row {
                                    assert(dot(before.data@[found as int]@, x, cols as nat) == 0);
                                } else {
                                    assert(self.data@[i] == before.data@[i]);
                                    assert(dot(before.data@[i]@, x, cols as nat) == 0);
                                }
                            }
                        }
                        if self.kernel_has(x) {
                            assert forall|i: int| 0 <= i < rows implies dot(#[trigger] before.data@[i]@, x, cols as nat) == 0 by {
                                if i == found {
                                    assert(dot(self.data@[pivot_row as int]@, x, cols as nat) == 0);
                                } else if i == pivot_row {
                                    assert(dot(self.data@[found as int]@, x, cols as nat) == 0);
                                } else {
                                    assert(self.data@[i] == before.data@[i]);
                                    assert(dot(self.data@[i]@, x, cols as nat) == 0);
                                }
                            }
                        }
                    }
                    assert forall|i: int, j: int|
                        pivot_row <= i < rows && 0 <= j < pivot_col implies #[trigger] self.entry(i, j) == 0 by {
                        if i == found {
                            assert(before.entry(pivot_row as int, j) == 0);
                        } else if i == pivot_row {
                            assert(before.entry(found as int, j) == 0);
                        } else {
                            assert(self.data@[i] == before.data@[i]);
                            assert(before.entry(i, j) == 0);
                        }
                    }
                    assert forall|x: Seq<u8>| x.len() == cols implies (#[trigger] start.kernel_has(x)
                        <==> #[trigger] self.kernel_has(x)) by {
                        assert(start.kernel_has(x) <==> before.kernel_has(x));
                        assert(before.kernel_has(x) <==> self.kernel_has(x));
                    }
                    assert forall|r: int, j: int| 0 <= r < pivot_row && 0 <= j < pc[r] implies #[trigger] self.entry(r, j) == 0 by {
                        assert(self.data@[r] == before.data@[r]);
                        assert(before.entry(r, j) == 0);
                    }
                }
                let mut e: usize = 0;
                while e < rows
                    invariant
                        self.wf(),
                        self.rows == rows,
                        self.cols == cols,
                        pivot_row < rows,
                        pivot_col < cols,
                        pivot_row <= pivot_col,
                        e <= rows,
                        start == *old(self),
                        forall|x: Seq<u8>|
                            x.len() == cols ==> (#[trigger] start.kernel_has(x) <==> #[trigger] self.kernel_has(x)),
                        forall|i: int, j: int|
                            pivot_row <= i < rows && 0 <= j < pivot_col ==> #[trigger] self.entry(i, j) == 0,
                        pc.len() == pivot_row,
                        forall|r: int| 0 <= r < pivot_row ==> #[trigger] pc[r] < pivot_col,
                        forall|r: int|
                            0 <= r < pivot_row ==> 0 <= #[trigger] pc[r] < cols && self.is_pivot(
                                r,
                                pc[r],
                            ),
                        forall|a: int, b: int| 0 <= a < b < pivot_row ==> pc[a] < pc[b],
                        self.leading(pc, pivot_row as int),
                        self.entry(pivot_row as int, pivot_col as int) == 1,
                        forall|x: int|
                            0 <= x < e && x != pivot_row ==> #[trigger] self.entry(
                                x,
                                pivot_col as int,
                            ) == 0,
                    decreases rows - e,
                {
                    if e != pivot_row && self.data[e][pivot_col] == 1 {
                        let ghost before = *self;
                        self.add_row(e, pivot_row);
                        proof {
                            assert forall|r: int| 0 <= r < pivot_row implies self.is_pivot(
                                r,
                                #[trigger] pc[r],
                            ) by {
                                assert(before.is_pivot(r, pc[r]));
                                assert(before.entry(pivot_row as int, pc[r]) == 0);
                                assert forall|x: int| 0 <= x < rows && x != r implies #[trigger] self.entry(
                                    x,
                                    pc[r],
                                ) == 0 by {
                                    assert(before.entry(x, pc[r]) == 0);
                                    if x != e {
                                        assert(self.data@[x] == before.data@[x]);
                                    } else {
                                        assert(self.entry(x, pc[r]) == if before.entry(x, pc[r])
                                            == before.entry(pivot_row as int, pc[r]) {
                                            0u8
                                        } else {
                                            1u8
                                        });
                                    }
                                }
                                if r != e {
                                    assert(self.data@[r] == before.data@[r]);
                                }
                            }
                            assert(self.data@[pivot_row as int] == before.data@[pivot_row as int]);
                            assert(self.data@[e as int]@.len() == cols);
                            assert(before.data@[e as int]@.len() == cols);
                            assert forall|j: int| 0 <= j < cols implies #[trigger] self.data@[e as int]@[j]
                                == add_bits(before.data@[e as int]@, before.data@[pivot_row as int]@)[j] by {
                                assert(self.entry(e as int, j) == if before.entry(e as int, j) == before.entry(
                                    pivot_row as int,
                                    j,
                                ) {
                                    0u8
                                } else {
                                    1u8
                                });
                            }
                            assert(self.data@[e as int]@ =~= add_bits(
                                before.data@[e as int]@,
                                before.data@[pivot_row as int]@,
                            ));
                            assert forall|j: int| 0 <= j < cols implies #[trigger] before.data@[e as int]@[j] <= 1
                                && before.data@[pivot_row as int]@[j] <= 1 by {
                                assert(before.entry(e as int, j) <= 1);
                                assert(before.entry(pivot_row as int, j) <= 1);
                            }
                            assert forall|x: Seq<u8>| x.len() == cols implies (#[trigger] before.kernel_has(x)
                                <==> #[trigger] self.kernel_has(x)) by {
                                lemma_dot_add(
                                    before.data@[e as int]@,
                                    before.data@[pivot_row as int]@,
                                    x,
                                    cols as nat,
                                );
                                let de = dot(before.data@[e as int]@, x, cols as nat);
                                let dp = dot(before.data@[pivot_row as int]@, x, cols as nat);
                                crate::gf2::lemma_byte_xor(de, dp, 0, 0);
                                crate::gf2::lemma_byte_xor(0, 0, 0, 0);
                                if before.kernel_has(x) {
                                    assert(de == 0 && dp == 0);
                                    assert forall|i: int| 0 <= i < rows implies dot(#[trigger] self.data@[i]@, x, cols as nat) == 0 by {
                                        if i != e {
                                            assert(self.data@[i] == before.data@[i]);
                                            assert(dot(before.data@[i]@, x, cols as nat) == 0);
                                        }
                                    }
                                }
                                if self.kernel_has(x) {
                                    assert(dot(self.data@[e as int]@, x, cols as nat) == 0);
                                    assert(dot(self.data@[pivot_row as int]@, x, cols as nat) == 0);
                                    assert(dp == 0);
                                    assert(de ^ dp == 0);
                                    assert forall|i: int| 0 <= i < rows implies dot(#[trigger] before.data@[i]@, x, cols as nat) == 0 by {
                                        if i != e {
                                            assert(self.data@[i] == before.data@[i]);
                                            assert(dot(self.data@[i]@, x, cols as nat) == 0);
                                        }
                                    }
                                }
                            }
                            assert forall|x: Seq<u8>| x.len() == cols implies (#[trigger] start.kernel_has(x)
                                <==> #[trigger] self.kernel_has(x)) by {
                                assert(start.kernel_has(x) <==> before.kernel_has(x));
                                assert(before.kernel_has(x) <==> self.kernel_has(x));
                            }
                            assert forall|r: int, j: int| 0 <= r < pivot_row && 0 <= j < pc[r] implies #[trigger] self.entry(r, j) == 0 by {
                                assert(before.entry(r, j) == 0);
                                if r != e {
                                    assert(self.data@[r] == before.data@[r]);
                                } else {
                                    assert(pc[r] < pivot_col);
                                    assert(before.entry(pivot_row as int, j) == 0);
                                }
                            }
                            assert forall|i: int, j: int|
                                pivot_row <= i < rows && 0 <= j < pivot_col implies #[trigger] self.entry(i, j) == 0 by {
                                assert(before.entry(pivot_row as int, j) == 0);
                                if i != e {
                                    assert(self.data@[i] == before.data@[i]);
                                    assert(before.entry(i, j) == 0);
                                } else {
                                    assert(before.entry(i, j) == 0);
                                }
                            }
                            assert forall|x: int|
                                0 <= x < e + 1 && x != pivot_row implies #[trigger] self.entry(
                                x,
                                pivot_col as int,
                            ) == 0 by {
                                if x != e {
                                    assert(before.entry(x, pivot_col as int) == 0);
                                    assert(self.data@[x] == before.data@[x]);
                                } else {
                                    assert(self.entry(x, pivot_col as int) == if before.entry(
                                        x,
                                        pivot_col as int,
                                    ) == before.entry(pivot_row as int, pivot_col as int) {
                                        0u8
                                    } else {
                                        1u8
                                    });
                                }
                            }
                        }
                    }
                    e = e + 1;
                }
                proof {
                    let pc0 = pc;
                    pc = pc.push(pivot_col as int);
                    assert forall|r: int, j: int| 0 <= r < pivot_row + 1 && 0 <= j < pc[r] implies #[trigger] self.entry(r, j) == 0 by {
                        if r < pivot_row {
                            assert(pc[r] == pc0[r]);
                        } else {
                            assert(pc[r] == pivot_col);
                        }
                    }
                    assert(self.is_pivot(pivot_row as int, pivot_col as int));
                    assert forall|r: int| 0 <= r < pivot_row + 1 implies 0 <= #[trigger] pc[r]
                        < cols && self.is_pivot(r, pc[r]) by {
                        if r < pivot_row {
                            assert(pc[r] == pc.drop_last()[r]);
                        }
                    }
                }
                pivot_row = pivot_row + 1;
            }
            pivot_col = pivot_col + 1;
        }
        proof {
            if pivot_row == rows && rows == cols {
                lemma_square_pivots(*self, pc);
                lemma_identity_kernel(*self);
            }
            if rows == cols {
                if pivot_row < rows {
                    assert(self.zero_from(pivot_row as int));
                    lemma_deficient_kernel(*self, pc, pivot_row as int);
                    let x = choose|x: Seq<u8>|
                        !(x.len() == cols && #[trigger] self.kernel_has(x) ==> forall|j: int|
                            0 <= j < cols ==> x[j] == 0);
                    assert(start.kernel_has(x));
                } else {
                    assert forall|x: Seq<u8>| x.len() == cols && #[trigger] start.kernel_has(x) implies forall|j: int|
                        0 <= j < cols ==> x[j] == 0 by {
                        assert(self.kernel_has(x));
                    }
                }
            }
        }
        pivot_row == rows
    }

    /// `x` solves A x = b over GF(2).
    pub open spec fn solved_by(&self, b: Seq<u8>, x: Seq<u8>) -> bool {
        &&& x.len() == self.cols
        &&& forall|i: int| 0 <= i < self.rows ==> dot(#[trigger] self.data@[i]@, x, self.cols as nat) == b[i]
    }

    /// A solution x of A x = b over GF(2), checked against every row; `None`
    /// exactly when `b` has the wrong length or the system has no solution.
    /// Where the system has several solutions, which one comes back is not
    /// part of the contract.
    pub fn solve(&mut self, b: &[u8]) -> (r: Option<Vec<u8>>)
        requires
            old(self).wf(),
        ensures
            *final(self) == *old(self),
            b@.len() != old(self).rows ==> r.is_none(),
            b@.len() == old(self).rows && (exists|x0: Seq<u8>| #[trigger] old(self).solved_by(b@, x0))
                ==> r is Some,
            (forall|i: int| 0 <= i < b@.len() ==> #[trigger] b@[i] <= 1) ==> (r matches Some(x)
                ==> forall|j: int| 0 <= j < x@.len() ==> #[trigger] x@[j] <= 1),
            r matches Some(x) ==> {
                &&& x@.len() == old(self).cols
                &&& forall|i: int|
                    0 <= i < old(self).rows ==> dot(
                        #[trigger] old(self).data@[i]@,
                        x@,
                        old(self).cols as nat,
                    ) == b@[i]
            },
    {
        if b.len() != self.rows {
            return None;
        }
        let mut rhs: Vec<Vec<u8>> = Vec::with_capacity(self.rows);
        let mut i: usize = 0;
        while i < self.rows
            invariant
                self.wf(),
                b@.len() == self.rows,
                i <= self.rows,
                rhs.len() == i,
                forall|e: int| 0 <= e < i ==> (#[trigger] rhs@[e])@ == seq![b@[e]],
            decreases self.rows - i,
        {
            let mut v: Vec<u8> = Vec::with_capacity(1);
            v.push(b[i]);
            rhs.push(v);
            i = i + 1;
        }
        assert(rows_len(rhs@, 1));
        proof {
            if forall|i: int| 0 <= i < b@.len() ==> #[trigger] b@[i] <= 1 {
                assert forall|i: int| 0 <= i < rhs.len() implies crate::gf2::is_bits(#[trigger] rhs@[i]@) by {
                    assert(b@[i] <= 1);
                }
            }
        }
        proof {
            if exists|x0: Seq<u8>| #[trigger] self.solved_by(b@, x0) {
                let x0 = choose|x0: Seq<u8>| #[trigger] self.solved_by(b@, x0);
                let c0 = Seq::new(self.cols as nat, |j: int| seq![x0[j]]);
                assert forall|i: int| 0 <= i < views(self.data@).len() implies crate::gf2::satisfies(
                    #[trigger] views(self.data@)[i],
                    c0,
                    1,
                    views(rhs@)[i],
                ) by {
                    assert(views(self.data@)[i] == self.data@[i]@);
                    assert(views(rhs@)[i] == rhs@[i]@);
                    lemma_combine_singletons(self.data@[i]@, c0, x0, self.cols as nat);
                }
                assert(crate::gf2::is_solution(views(self.data@), views(rhs@), c0, self.cols as nat, 1));
            }
        }
        let c = match solve_system(&self.data, &rhs, self.cols, 1, true) {
            None => {
                return None;
            },
            Some(c) => c,
        };
        let mut x: Vec<u8> = Vec::with_capacity(self.cols);
        let mut j: usize = 0;
        while j < self.cols
            invariant
                j <= self.cols,
                c.len() == self.cols,
                all_len(views(c@), 1),
                x@.len() == j,
                forall|e: int| 0 <= e < j ==> x@[e] == c@[e]@[0],
                (forall|i: int| 0 <= i < b@.len() ==> #[trigger] b@[i] <= 1) ==> forall|e: int|
                    0 <= e < c.len() ==> crate::gf2::is_bits(#[trigger] c@[e]@),
            decreases self.cols - j,
        {
            assert(views(c@)[j as int] == c@[j as int]@);
            x.push(c[j][0]);
            j = j + 1;
        }
        proof {
            if forall|i: int| 0 <= i < b@.len() ==> #[trigger] b@[i] <= 1 {
                assert forall|e: int| 0 <= e < x@.len() implies #[trigger] x@[e] <= 1 by {
                    assert(views(c@)[e] == c@[e]@);
                    assert(c@[e]@.len() == 1);
                    assert(crate::gf2::is_bits(c@[e]@));
                    assert(c@[e]@[0] <= 1);
                }
            }
            assert forall|e: int| 0 <= e < c.len() implies views(c@)[e] == seq![x@[e]] by {
                assert(views(c@)[e] == c@[e]@);
                assert(c@[e]@ =~= seq![x@[e]]);
            }
            assert forall|i: int| 0 <= i < self.rows implies dot(
                #[trigger] self.data@[i]@,
                x@,
                self.cols as nat,
            ) == b@[i] by {
                assert(views(self.data@)[i] == self.data@[i]@);
                assert(views(rhs@)[i] == rhs@[i]@);
                let row = self.data@[i]@;
                assert(combine(row, views(c@), 1, self.cols as nat) == seq![b@[i]]);
                lemma_combine_singletons(row, views(c@), x@, self.cols as nat);
                assert(seq![dot(row, x@, self.cols as nat)][0] == seq![b@[i]][0]);
            }
        }
        Some(x)
    }
}

/// Bit `a` of `row` picks `x[a]`, if below `n`.
pub open spec fn pick_byte(row: Seq<u8>, x: Seq<u8>, n: nat, a: nat) -> u8 {
    if a < n && row[a as int] == 1 {
        x[a as int]
    } else {
        0
    }
}

/// Where only columns `a` and `b` can contribute, `dot` is their two terms.
proof fn lemma_dot_two(row: Seq<u8>, x: Seq<u8>, n: nat, a: nat, b: nat)
    requires
        a != b,
        n <= row.len(),
        n <= x.len(),
        forall|j: int| 0 <= j < n && j != a && j != b ==> row[j] != 1 || x[j] == 0,
    ensures
        dot(row, x, n) == pick_byte(row, x, n, a) ^ pick_byte(row, x, n, b),
    decreases n,
{
    if n == 0 {
        crate::gf2::lemma_byte_xor(0, 0, 0, 0);
    } else {
        let m = (n - 1) as nat;
        lemma_dot_two(row, x, m, a, b);
        let pa = pick_byte(row, x, m, a);
        let pb = pick_byte(row, x, m, b);
        let v = x[m as int];
        crate::gf2::lemma_byte_xor(pa, pb, v, 0);
        crate::gf2::lemma_byte_xor(pb, v, pa, 0);
        crate::gf2::lemma_byte_xor(pa, v, pb, 0);
        crate::gf2::lemma_byte_xor(v, pb, 0, 0);
        crate::gf2::lemma_byte_xor(pa, 0, 0, 0);
        crate::gf2::lemma_byte_xor(0, pb, 0, 0);
        crate::gf2::lemma_byte_xor(0, v, 0, 0);
    }
}

/// A square identity matrix has only the zero kernel.
proof fn lemma_identity_kernel(m: BinaryMatrix)
    requires
        m.wf(),
        m.rows == m.cols,
        forall|i: int, j: int|
            0 <= i < m.rows && 0 <= j < m.cols ==> m.entry(i, j) == if i == j {
                1u8
            } else {
                0u8
            },
    ensures
        m.kernel_trivial(),
{
    assert forall|x: Seq<u8>| x.len() == m.cols && #[trigger] m.kernel_has(x) implies forall|j: int|
        0 <= j < m.cols ==> x[j] == 0 by {
        assert forall|j: int| 0 <= j < m.cols implies x[j] == 0 by {
            let row = m.data@[j]@;
            assert(dot(row, x, m.cols as nat) == 0);
            assert forall|k: int| 0 <= k < m.cols && k != j && k != m.cols implies row[k] != 1
                || x[k] == 0 by {
                assert(m.entry(j, k) == 0);
            }
            lemma_dot_two(row, x, m.cols as nat, j as nat, m.cols as nat);
            assert(m.entry(j, j) == 1);
            crate::gf2::lemma_byte_xor(x[j], 0, 0, 0);
        }
    }
}

/// Some column in [0, n) is not among `rank` < n strictly increasing values in [0, n).
proof fn lemma_free_column(pc: Seq<int>, rank: int, n: int) -> (f: int)
    requires
        pc.len() == rank,
        0 <= rank < n,
        forall|r: int| 0 <= r < rank ==> 0 <= #[trigger] pc[r] < n,
        forall|a: int, b: int| 0 <= a < b < rank ==> pc[a] < pc[b],
    ensures
        0 <= f < n,
        forall|r: int| 0 <= r < rank ==> #[trigger] pc[r] != f,
    decreases rank,
{
    if rank == 0 {
        0
    } else if pc[rank - 1] < n - 1 {
        n - 1
    } else {
        let f = lemma_free_column(pc.drop_last(), rank - 1, n - 1);
        assert forall|r: int| 0 <= r < rank implies #[trigger] pc[r] != f by {
            if r < rank - 1 {
                assert(pc.drop_last()[r] == pc[r]);
            }
        }
        f
    }
}

/// A matrix in reduced echelon form with fewer pivots than columns has a
/// nonzero kernel vector.
proof fn lemma_deficient_kernel(m: BinaryMatrix, pc: Seq<int>, rank: int)
    requires
        m.wf(),
        0 <= rank < m.cols,
        rank <= m.rows,
        m.pivots(pc, rank),
        m.zero_from(rank),
    ensures
        !m.kernel_trivial(),
{
    let n = m.cols as int;
    assert forall|r: int| 0 <= r < rank implies 0 <= #[trigger] pc[r] < n by {}
    let f = lemma_free_column(pc, rank, n);
    let x = Seq::new(
        n as nat,
        |j: int|
            if j == f {
                1u8
            } else if exists|i: int| 0 <= i < rank && pc[i] == j {
                m.entry(choose|i: int| 0 <= i < rank && pc[i] == j, f)
            } else {
                0u8
            },
    );
    assert forall|i: int| 0 <= i < m.rows implies dot(#[trigger] m.data@[i]@, x, m.cols as nat) == 0 by {
        let row = m.data@[i]@;
        if i < rank {
            let c = pc[i];
            assert(x[c] == m.entry(i, f)) by {
                let i2 = choose|i2: int| 0 <= i2 < rank && pc[i2] == c;
                if i2 != i {
                    if i2 < i {
                        assert(pc[i2] < pc[i]);
                    } else {
                        assert(pc[i] < pc[i2]);
                    }
                }
            }
            assert forall|k: int| 0 <= k < n && k != c && k != f implies row[k] != 1 || x[k] == 0 by {
                if exists|i3: int| 0 <= i3 < rank && pc[i3] == k {
                    let i3 = choose|i3: int| 0 <= i3 < rank && pc[i3] == k;
                    assert(m.is_pivot(i3, pc[i3]));
                    assert(i3 != i);
                    assert(m.entry(i, k) == 0);
                }
            }
            lemma_dot_two(row, x, n as nat, c as nat, f as nat);
            assert(m.is_pivot(i, c));
            assert(m.entry(i, f) <= 1);
            crate::gf2::lemma_byte_xor(m.entry(i, f), 0, 0, 0);
        } else {
            assert forall|k: int| 0 <= k < n && k != n && k != n + 1 implies row[k] != 1 || x[k] == 0 by {
                assert(m.entry(i, k) == 0);
            }
            lemma_dot_two(row, x, n as nat, n as nat, (n + 1) as nat);
            crate::gf2::lemma_byte_xor(0, 0, 0, 0);
        }
    }
    assert(m.kernel_has(x));
    assert(x[f] == 1);
}

/// Pivots in every row of a square matrix leave only the identity.
proof fn lemma_square_pivots(m: BinaryMatrix, pc: Seq<int>)
    requires
        m.wf(),
        m.rows == m.cols,
        m.pivots(pc, m.rows as int),
    ensures
        forall|i: int, j: int|
            0 <= i < m.rows && 0 <= j < m.cols ==> m.entry(i, j) == if i == j {
                1u8
            } else {
                0u8
            },
{
    let n = m.rows as int;
    assert forall|i: int| 0 <= i < n implies #[trigger] pc[i] == i by {
        lemma_increasing_bounds(pc, n, i);
    }
    assert forall|i: int, j: int| 0 <= i < n && 0 <= j < n implies m.entry(i, j) == if i == j {
        1u8
    } else {
        0u8
    } by {
        assert(pc[j] == j);
        assert(m.is_pivot(j, pc[j]));
    }
}

/// A strictly increasing sequence of n values in [0, n) is 0, 1, ..., n - 1.
proof fn lemma_increasing_bounds(pc: Seq<int>, n: int, i: int)
    requires
        pc.len() == n,
        forall|r: int| 0 <= r < n ==> 0 <= #[trigger] pc[r] < n,
        forall|a: int, b: int| 0 <= a < b < n ==> pc[a] < pc[b],
        0 <= i < n,
    ensures
        pc[i] == i,
{
    lemma_increasing_lower(pc, n, i);
    lemma_increasing_upper(pc, n, i);
}

proof fn lemma_increasing_lower(pc: Seq<int>, n: int, i: int)
    requires
        pc.len() == n,
        forall|r: int| 0 <= r < n ==> 0 <= #[trigger] pc[r],
        forall|a: int, b: int| 0 <= a < b < n ==> pc[a] < pc[b],
        0 <= i < n,
    ensures
        pc[i] >= i,
    decreases i,
{
    if i > 0 {
        lemma_increasing_lower(pc, n, i - 1);
    }
}

proof fn lemma_increasing_upper(pc: Seq<int>, n: int, i: int)
    requires
        pc.len() == n,
        forall|r: int| 0 <= r < n ==> #[trigger] pc[r] < n,
        forall|a: int, b: int| 0 <= a < b < n ==> pc[a] < pc[b],
        0 <= i < n,
    ensures
        pc[i] <= i,
    decreases n - i,
{
    if i < n - 1 {
        lemma_increasing_upper(pc, n, i + 1);
    }
}

/// Over symbols of one byte, a row combines to the one byte `dot` gives.
proof fn lemma_combine_singletons(row: Seq<u8>, c: Seq<Seq<u8>>, x: Seq<u8>, n: nat)
    requires
        n <= c.len(),
        n <= x.len(),
        forall|e: int| 0 <= e < c.len() ==> c[e] == seq![x[e]],
    ensures
        combine(row, c, 1, n) == seq![dot(row, x, n)],
    decreases n,
{
    if n == 0 {
        assert(zeros(1) =~= seq![0u8]);
    } else {
        lemma_combine_singletons(row, c, x, (n - 1) as nat);
        let acc = combine(row, c, 1, (n - 1) as nat);
        if row[n - 1] == 1 {
            assert(xor_seq(acc, c[n - 1]) =~= seq![dot(row, x, (n - 1) as nat) ^ x[n - 1]]);
        }
    }
}

} // verus!
