use vstd::prelude::*;

verus! {

/// A square matrix, stored row by row in a single sequence.
///
/// The matrix does not look into its elements: it places, reads and rearranges
/// them, whatever their type is.
#[derive(Clone, Debug)]
pub struct Matrix<T> {
    pub dimensions: usize,
    pub elements: Vec<T>,
}

/// The position of row `r`, column `c` in the row-major storage of a matrix with
/// `d` rows and columns.
pub open spec fn cell(d: int, r: int, c: int) -> int {
    d * r + c
}

/// The row or column of a matrix that lands on row or column `i` once row or
/// column `gone` is taken out.
pub open spec fn skipping(i: int, gone: int) -> int {
    if i < gone {
        i
    } else {
        i + 1
    }
}

/// Every cell of a `d` by `d` matrix has its own place in a sequence of `d * d`
/// elements.
pub proof fn lemma_cell_in_range(d: int, r: int, c: int)
    requires
        0 <= r < d,
        0 <= c < d,
    ensures
        0 <= d * r <= cell(d, r, c) < d * d,
        cell(d, r, c) + 1 == if c + 1 < d {
            cell(d, r, c + 1)
        } else {
            cell(d, r + 1, 0)
        },
{
    assert(0 <= d * r && d * r + c < d * d && d * (r + 1) == d * r + d) by (nonlinear_arith)
        requires
            0 <= r < d,
            0 <= c < d,
    ;
}

/// Every place in a sequence of `d * d` elements is the cell of one row and one
/// column.
pub proof fn lemma_cell_of_index(d: int, k: int)
    requires
        0 <= d,
        0 <= k < d * d,
    ensures
        0 <= k / d < d,
        0 <= k % d < d,
        cell(d, k / d, k % d) == k,
{
    assert(d > 0) by (nonlinear_arith)
        requires
            0 <= d,
            0 <= k < d * d,
    ;
    vstd::arithmetic::div_mod::lemma_fundamental_div_mod(k, d);
    vstd::arithmetic::div_mod::lemma_mod_pos_bound(k, d);
    let q = k / d;
    assert(0 <= q < d) by (nonlinear_arith)
        requires
            0 <= k < d * d,
            d > 0,
            k == d * q + k % d,
            0 <= k % d < d,
    ;
}

/// The cells of the rows above row `r` come before every cell of row `r`.
proof fn lemma_cell_before_row(d: int, i: int, j: int, r: int)
    requires
        0 <= i < r,
        0 <= j < d,
    ensures
        0 <= cell(d, i, j) < d * r,
{
    assert(0 <= d * i + j && d * i + j < d * r) by (nonlinear_arith)
        requires
            0 <= i < r,
            0 <= j < d,
    ;
}

/// Row `r + 1` starts where row `r` ends.
proof fn lemma_row_start(d: int, r: int)
    ensures
        d * (r + 1) == d * r + d,
{
    assert(d * (r + 1) == d * r + d) by (nonlinear_arith);
}

/// Whether `v` holds, row by row, the cells `f(i, j)` of the first `rows` rows of
/// a matrix of dimension `d` and the first `cols` cells of the row after them.
pub open spec fn tabulated<T>(v: Seq<T>, d: int, rows: int, cols: int, f: spec_fn(int, int) -> T) -> bool {
    &&& v.len() == d * rows + cols
    &&& forall|i: int, j: int| 0 <= i < rows && 0 <= j < d ==> v[#[trigger] cell(d, i, j)] == f(i, j)
    &&& forall|j: int| 0 <= j < cols ==> v[#[trigger] cell(d, rows, j)] == f(rows, j)
}

proof fn lemma_tabulated_push<T>(v: Seq<T>, d: int, r: int, c: int, f: spec_fn(int, int) -> T, x: T)
    requires
        tabulated(v, d, r, c, f),
        0 <= r,
        0 <= c < d,
        x == f(r, c),
    ensures
        tabulated(v.push(x), d, r, c + 1, f),
{
    let w = v.push(x);
    assert forall|i: int, j: int| 0 <= i < r && 0 <= j < d implies w[#[trigger] cell(d, i, j)] == f(
        i,
        j,
    ) by {
        lemma_cell_before_row(d, i, j, r);
        assert(v[cell(d, i, j)] == f(i, j));
    }
    assert forall|j: int| 0 <= j < c + 1 implies w[#[trigger] cell(d, r, j)] == f(r, j) by {
        if j < c {
            assert(v[cell(d, r, j)] == f(r, j));
        }
    }
}

proof fn lemma_tabulated_row<T>(v: Seq<T>, d: int, r: int, f: spec_fn(int, int) -> T)
    requires
        tabulated(v, d, r, d, f),
        0 <= r,
    ensures
        tabulated(v, d, r + 1, 0, f),
{
    lemma_row_start(d, r);
}

impl<T> View for Matrix<T> {
    type V = Seq<T>;

    open spec fn view(&self) -> Seq<T> {
        self.elements@
    }
}

impl<T: Copy> Matrix<T> {
    /// A matrix of dimension N holds N times N elements.
    pub open spec fn wf(&self) -> bool {
        self@.len() == self.dimensions * self.dimensions
    }

    /// The element in row `r`, column `c`.
    pub open spec fn spec_at(&self, r: int, c: int) -> T {
        self@[cell(self.dimensions as int, r, c)]
    }

    /// Whether the matrix is `other` mirrored at the diagonal: both have the same
    /// dimension, and each row of the one is the column of the other.
    pub open spec fn mirrors(&self, other: &Matrix<T>) -> bool {
        &&& self.wf()
        &&& other.wf()
        &&& self.dimensions == other.dimensions
        &&& forall|r: int, c: int|
            0 <= r < self.dimensions && 0 <= c < self.dimensions ==> #[trigger] self.spec_at(r, c)
                == other.spec_at(c, r)
    }

    /// Mirrored twice, a matrix is as it was.
    pub proof fn lemma_mirrored_twice(&self, once: &Matrix<T>, twice: &Matrix<T>)
        requires
            once.mirrors(self),
            twice.mirrors(once),
        ensures
            twice@ == self@,
            twice.dimensions == self.dimensions,
    {
        let d = self.dimensions as int;
        assert forall|k: int| 0 <= k < self@.len() implies twice@[k] == self@[k] by {
            lemma_cell_of_index(d, k);
            assert(twice.spec_at(k / d, k % d) == once.spec_at(k % d, k / d));
            assert(once.spec_at(k % d, k / d) == self.spec_at(k / d, k % d));
        }
        assert(twice@ =~= self@);
    }

    /// The mirror image of a matrix that mirrors itself holds the same elements.
    pub proof fn lemma_mirror_of_itself(&self, mirrored: &Matrix<T>)
        requires
            self.mirrors(self),
            mirrored.mirrors(self),
        ensures
            mirrored@ == self@,
    {
        let d = self.dimensions as int;
        assert forall|k: int| 0 <= k < self@.len() implies mirrored@[k] == self@[k] by {
            lemma_cell_of_index(d, k);
            assert(mirrored.spec_at(k / d, k % d) == self.spec_at(k % d, k / d));
            assert(self.spec_at(k / d, k % d) == self.spec_at(k % d, k / d));
        }
        assert(mirrored@ =~= self@);
    }

    /// The matrix of dimension `d` whose elements are those of `e`, row by row.
    pub fn from_vector(d: usize, e: &[T]) -> (m: Matrix<T>)
        requires
            e@.len() == d * d,
        ensures
            m.wf(),
            m.dimensions == d,
            m@ == e@,
    {
        let mut elements: Vec<T> = Vec::new();
        let mut i: usize = 0;
        while i < e.len()
            invariant
                i <= e@.len(),
                elements@ == e@.take(i as int),
            decreases e@.len() - i,
        {
            elements.push(e[i]);
            assert(elements@ =~= e@.take(i + 1));
            i += 1;
        }
        assert(e@.take(i as int) =~= e@);
        Matrix { dimensions: d, elements }
    }

    /// The element in row `r`, column `c`.
    pub fn at(&self, r: usize, c: usize) -> (v: T)
        requires
            self.wf(),
            r < self.dimensions,
            c < self.dimensions,
        ensures
            v == self.spec_at(r as int, c as int),
    {
        let len: usize = self.elements.len();
        proof {
            lemma_cell_in_range(self.dimensions as int, r as int, c as int);
        }
        let pos: usize = self.dimensions * r + c;
        self.elements[pos]
    }

    /// A copy of the matrix in which row `r`, column `c` holds `v`.
    pub fn update_at(&self, r: usize, c: usize, v: T) -> (m: Matrix<T>)
        requires
            self.wf(),
            r < self.dimensions,
            c < self.dimensions,
        ensures
            m.wf(),
            m.dimensions == self.dimensions,
            m@ == self@.update(cell(self.dimensions as int, r as int, c as int), v),
    {
        let len: usize = self.elements.len();
        proof {
            lemma_cell_in_range(self.dimensions as int, r as int, c as int);
        }
        let pos: usize = self.dimensions * r + c;
        let mut new_vec: Vec<T> = Vec::new();
        let mut i: usize = 0;
        while i < len
            invariant
                len == self.elements@.len(),
                i <= len,
                pos < len,
                new_vec@.len() == i,
                forall|k: int| 0 <= k < i ==> new_vec@[k] == self.elements@.update(pos as int, v)[k],
            decreases len - i,
        {
            if i == pos {
                new_vec.push(v);
            } else {
                new_vec.push(self.elements[i]);
            }
            i += 1;
        }
        assert(new_vec@ =~= self.elements@.update(pos as int, v));
        Matrix { dimensions: self.dimensions, elements: new_vec }
    }
    /// The matrix mirrored at its diagonal: row `r`, column `c` of the result
    /// holds what row `c`, column `r` held.
    pub fn transpose(&self) -> (m: Matrix<T>)
        requires
            self.wf(),
        ensures
            m.mirrors(self),
    {
        let d: usize = self.dimensions;
        let ghost f = |i: int, j: int| self.spec_at(j, i);
        let mut new_vec: Vec<T> = Vec::new();
        let mut r: usize = 0;
        while r < d
            invariant
                self.wf(),
                d == self.dimensions,
                r <= d,
                f == |i: int, j: int| self.spec_at(j, i),
                tabulated(new_vec@, d as int, r as int, 0, f),
            decreases d - r,
        {
            let mut c: usize = 0;
            while c < d
                invariant
                    self.wf(),
                    d == self.dimensions,
                    r < d,
                    c <= d,
                    f == |i: int, j: int| self.spec_at(j, i),
                    tabulated(new_vec@, d as int, r as int, c as int, f),
                decreases d - c,
            {
                let v = self.at(c, r);
                proof {
                    lemma_tabulated_push(new_vec@, d as int, r as int, c as int, f, v);
                }
                new_vec.push(v);
                c += 1;
            }
            proof {
                lemma_tabulated_row(new_vec@, d as int, r as int, f);
            }
            r += 1;
        }
        Matrix { dimensions: d, elements: new_vec }
    }

    /// The matrix without row `row` and column `col`: the rows and columns
    /// behind them move up by one.
    pub fn submatrix(&self, row: usize, col: usize) -> (m: Matrix<T>)
        requires
            self.wf(),
            row < self.dimensions,
            col < self.dimensions,
        ensures
            m.wf(),
            m.dimensions == self.dimensions - 1,
            forall|r: int, c: int|
                0 <= r < m.dimensions && 0 <= c < m.dimensions ==> #[trigger] m.spec_at(r, c)
                    == self.spec_at(skipping(r, row as int), skipping(c, col as int)),
    {
        let d: usize = self.dimensions - 1;
        let ghost f = |i: int, j: int| self.spec_at(skipping(i, row as int), skipping(j, col as int));
        let mut new_vec: Vec<T> = Vec::new();
        let mut r: usize = 0;
        while r < d
            invariant
                self.wf(),
                d == self.dimensions - 1,
                row <= d,
                col <= d,
                r <= d,
                f == |i: int, j: int|
                    self.spec_at(skipping(i, row as int), skipping(j, col as int)),
                tabulated(new_vec@, d as int, r as int, 0, f),
            decreases d - r,
        {
            let from_row: usize = if r < row { r } else { r + 1 };
            let mut c: usize = 0;
            while c < d
                invariant
                    self.wf(),
                    d == self.dimensions - 1,
                    row <= d,
                    col <= d,
                    r < d,
                    c <= d,
                    from_row == skipping(r as int, row as int),
                    f == |i: int, j: int|
                        self.spec_at(skipping(i, row as int), skipping(j, col as int)),
                    tabulated(new_vec@, d as int, r as int, c as int, f),
                decreases d - c,
            {
                let from_col: usize = if c < col { c } else { c + 1 };
                let v = self.at(from_row, from_col);
                proof {
                    lemma_tabulated_push(new_vec@, d as int, r as int, c as int, f, v);
                }
                new_vec.push(v);
                c += 1;
            }
            proof {
                lemma_tabulated_row(new_vec@, d as int, r as int, f);
            }
            r += 1;
        }
        Matrix { dimensions: d, elements: new_vec }
    }

    /// The matrix of dimension 4 with `one` in each cell of the diagonal and
    /// `zero` in every other cell.
    pub fn identity(zero: T, one: T) -> (m: Matrix<T>)
        ensures
            m.wf(),
            m.dimensions == 4,
            forall|r: int, c: int|
                0 <= r < 4 && 0 <= c < 4 ==> #[trigger] m.spec_at(r, c) == if r == c {
                    one
                } else {
                    zero
                },
    {
        let d: usize = 4;
        let ghost f = |i: int, j: int| if i == j { one } else { zero };
        let mut new_vec: Vec<T> = Vec::new();
        let mut r: usize = 0;
        while r < d
            invariant
                d == 4,
                r <= d,
                f == |i: int, j: int| if i == j { one } else { zero },
                tabulated(new_vec@, d as int, r as int, 0, f),
            decreases d - r,
        {
            let mut c: usize = 0;
            while c < d
                invariant
                    d == 4,
                    r < d,
                    c <= d,
                    f == |i: int, j: int| if i == j { one } else { zero },
                    tabulated(new_vec@, d as int, r as int, c as int, f),
                decreases d - c,
            {
                let v = if r == c { one } else { zero };
                proof {
                    lemma_tabulated_push(new_vec@, d as int, r as int, c as int, f, v);
                }
                new_vec.push(v);
                c += 1;
            }
            proof {
                lemma_tabulated_row(new_vec@, d as int, r as int, f);
            }
            r += 1;
        }
        Matrix { dimensions: d, elements: new_vec }
    }
}

} // verus!
