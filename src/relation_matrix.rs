use vstd::prelude::*;

verus! {

/// True iff some position holds `true` in both sequences.
pub open spec fn dot(row: Seq<bool>, col: Seq<bool>) -> bool {
    exists|k: int| 0 <= k < row.len() && #[trigger] row[k] && #[trigger] col[k]
}

/// Every row of `m` has `cols` entries.
pub open spec fn is_shape(m: Seq<Seq<bool>>, rows: nat, cols: nat) -> bool {
    &&& m.len() == rows
    &&& forall|i: int| 0 <= i < m.len() ==> (#[trigger] m[i]).len() == cols
}

/// Product over the Boolean semiring; `cols` is the width of `b`.
pub open spec fn mat_mul(a: Seq<Seq<bool>>, b: Seq<Seq<bool>>, cols: nat) -> Seq<Seq<bool>> {
    Seq::new(
        a.len(),
        |i: int|
            Seq::new(
                cols,
                |j: int| exists|k: int| 0 <= k < b.len() && #[trigger] a[i][k] && #[trigger] b[k][j],
            ),
    )
}

pub open spec fn mat_and(a: Seq<Seq<bool>>, b: Seq<Seq<bool>>) -> Seq<Seq<bool>> {
    Seq::new(a.len(), |i: int| Seq::new(a[i].len(), |j: int| a[i][j] && b[i][j]))
}

pub open spec fn mat_or(a: Seq<Seq<bool>>, b: Seq<Seq<bool>>) -> Seq<Seq<bool>> {
    Seq::new(a.len(), |i: int| Seq::new(a[i].len(), |j: int| a[i][j] || b[i][j]))
}

/// The transpose of a matrix of `rows` rows and `cols` columns.
pub open spec fn mat_transpose(a: Seq<Seq<bool>>, cols: nat) -> Seq<Seq<bool>> {
    Seq::new(cols, |j: int| Seq::new(a.len(), |i: int| a[i][j]))
}

pub open spec fn identity(n: nat) -> Seq<Seq<bool>> {
    Seq::new(n, |i: int| Seq::new(n, |j: int| i == j))
}

/// `m` (of size `n` by `n`) multiplied with itself `k` times.
pub open spec fn mat_pow(m: Seq<Seq<bool>>, n: nat, k: nat) -> Seq<Seq<bool>>
    decreases k,
{
    if k == 0 {
        identity(n)
    } else {
        mat_mul(mat_pow(m, n, (k - 1) as nat), m, n)
    }
}

pub proof fn lemma_pow_shape(m: Seq<Seq<bool>>, n: nat, k: nat)
    ensures
        is_shape(mat_pow(m, n, k), n, n),
    decreases k,
{
    if k > 0 {
        lemma_pow_shape(m, n, (k - 1) as nat);
    }
}

pub proof fn lemma_mul_identity_right(a: Seq<Seq<bool>>, n: nat)
    requires
        is_shape(a, a.len(), n),
    ensures
        mat_mul(a, identity(n), n) == a,
{
    let p = mat_mul(a, identity(n), n);
    assert forall|i: int, j: int| 0 <= i < a.len() && 0 <= j < n implies p[i][j] == a[i][j] by {
        if a[i][j] {
            assert(identity(n)[j][j]);
        }
    }
    assert(p =~~= a);
}

pub proof fn lemma_mul_identity_left(a: Seq<Seq<bool>>, n: nat)
    requires
        is_shape(a, n, a[0].len()) || n == 0,
        a.len() == n,
        forall|i: int| 0 <= i < n ==> (#[trigger] a[i]).len() == a[0].len(),
    ensures
        mat_mul(identity(n), a, if n == 0 { 0 } else { a[0].len() }) == a,
{
    let c: nat = if n == 0 { 0 } else { a[0].len() };
    let p = mat_mul(identity(n), a, c);
    assert forall|i: int, j: int| 0 <= i < n && 0 <= j < c implies p[i][j] == a[i][j] by {
        if a[i][j] {
            assert(identity(n)[i][i]);
        }
    }
    assert(p =~~= a);
}

pub proof fn lemma_mul_assoc(a: Seq<Seq<bool>>, b: Seq<Seq<bool>>, c: Seq<Seq<bool>>, n: nat)
    requires
        is_shape(a, n, n),
        is_shape(b, n, n),
        is_shape(c, n, n),
    ensures
        mat_mul(mat_mul(a, b, n), c, n) == mat_mul(a, mat_mul(b, c, n), n),
{
    let ab = mat_mul(a, b, n);
    let bc = mat_mul(b, c, n);
    let lhs = mat_mul(ab, c, n);
    let rhs = mat_mul(a, bc, n);
    assert forall|i: int, j: int| 0 <= i < n && 0 <= j < n implies lhs[i][j] == rhs[i][j] by {
        if lhs[i][j] {
            let l = choose|l: int| 0 <= l < n && #[trigger] ab[i][l] && #[trigger] c[l][j];
            let k = choose|k: int| 0 <= k < n && #[trigger] a[i][k] && #[trigger] b[k][l];
            assert(bc[k][j]);
        }
        if rhs[i][j] {
            let k = choose|k: int| 0 <= k < n && #[trigger] a[i][k] && #[trigger] bc[k][j];
            let l = choose|l: int| 0 <= l < n && #[trigger] b[k][l] && #[trigger] c[l][j];
            assert(ab[i][l]);
        }
    }
    assert(lhs =~~= rhs);
}

/// Powers add: `m^p * m^q == m^(p + q)`.
pub proof fn lemma_pow_add(m: Seq<Seq<bool>>, n: nat, p: nat, q: nat)
    requires
        is_shape(m, n, n),
    ensures
        mat_mul(mat_pow(m, n, p), mat_pow(m, n, q), n) == mat_pow(m, n, p + q),
    decreases q,
{
    lemma_pow_shape(m, n, p);
    if q == 0 {
        lemma_mul_identity_right(mat_pow(m, n, p), n);
    } else {
        lemma_pow_add(m, n, p, (q - 1) as nat);
        lemma_pow_shape(m, n, (q - 1) as nat);
        lemma_mul_assoc(mat_pow(m, n, p), mat_pow(m, n, (q - 1) as nat), m, n);
        assert(mat_pow(m, n, (p + q) as nat) == mat_mul(
            mat_pow(m, n, (p + q - 1) as nat),
            m,
            n,
        ));
        assert((p + q - 1) as nat == p + (q - 1) as nat);
    }
}

/// The zeroth power of a square matrix is the identity, and its first power is itself.
pub proof fn lemma_pow_zero_one(m: Seq<Seq<bool>>, n: nat)
    requires
        is_shape(m, n, n),
    ensures
        mat_pow(m, n, 0) == identity(n),
        mat_pow(m, n, 1) == m,
{
    lemma_mul_identity_left(m, n);
    assert(mat_pow(m, n, 0) == identity(n));
    assert(mat_pow(m, n, 1) == mat_mul(identity(n), m, n));
}

/// Raising a square matrix to the power `k + 1` is multiplying its `k`-th power by it.
pub proof fn lemma_pow_succ(m: Seq<Seq<bool>>, n: nat, k: nat)
    requires
        is_shape(m, n, n),
    ensures
        mat_pow(m, n, k + 1) == mat_mul(mat_pow(m, n, k), m, n),
{
    assert((k + 1 - 1) as nat == k);
}

/// A dense matrix of Boolean entries (0 is `false`, 1 is `true`).
#[derive(Debug, Clone)]
pub struct RelationMatrix {
    cols: usize,
    data: Vec<Vec<bool>>,
}

impl PartialEq for RelationMatrix {
    fn eq(&self, o: &RelationMatrix) -> (r: bool) {
        if self.cols != o.cols || self.data.len() != o.data.len() {
            assert(self.width() != o.width() || self@.len() != o@.len());
            return false;
        }
        let mut i: usize = 0;
        while i < self.data.len()
            invariant
                self.data.len() == o.data.len(),
                0 <= i <= self.data.len(),
                forall|k: int| 0 <= k < i ==> self.data@[k]@ == o.data@[k]@,
            decreases self.data.len() - i,
        {
            if self.data[i].len() != o.data[i].len() {
                assert(self@[i as int] != o@[i as int]);
                return false;
            }
            let mut j: usize = 0;
            while j < self.data[i].len()
                invariant
                    self.data.len() == o.data.len(),
                    0 <= i < self.data.len(),
                    self.data@[i as int].len() == o.data@[i as int].len(),
                    0 <= j <= self.data@[i as int].len(),
                    forall|k: int| 0 <= k < j ==> self.data@[i as int][k] == o.data@[i as int][k],
                decreases self.data@[i as int].len() - j,
            {
                if self.data[i][j] != o.data[i][j] {
                    assert(self@[i as int][j as int] != o@[i as int][j as int]);
                    return false;
                }
                j += 1;
            }
            assert(self.data@[i as int]@ =~= o.data@[i as int]@);
            i += 1;
        }
        assert(self@ =~= o@);
        true
    }
}

impl Eq for RelationMatrix {

}

impl vstd::std_specs::cmp::PartialEqSpecImpl for RelationMatrix {
    open spec fn obeys_eq_spec() -> bool {
        true
    }

    open spec fn eq_spec(&self, o: &RelationMatrix) -> bool {
        self.width() == o.width() && self@ == o@
    }
}

impl RelationMatrix {
    /// The entries, row by row.
    pub closed spec fn view(&self) -> Seq<Seq<bool>> {
        self.data@.map_values(|r: Vec<bool>| r@)
    }

    /// The number of columns.
    pub closed spec fn width(&self) -> nat {
        self.cols as nat
    }

    pub open spec fn wf(&self) -> bool {
        is_shape(self@, self@.len(), self.width())
    }

    pub fn nrows(&self) -> (r: usize)
        ensures
            r == self@.len(),
    {
        self.data.len()
    }

    pub fn ncols(&self) -> (r: usize)
        ensures
            r == self.width(),
    {
        self.cols
    }

    pub fn get(&self, i: usize, j: usize) -> (r: bool)
        requires
            self.wf(),
            i < self@.len(),
            j < self.width(),
        ensures
            r == self@[i as int][j as int],
    {
        assert(self@[i as int] == self.data@[i as int]@);
        self.data[i][j]
    }

    /// Builds a matrix of `ncols` columns from its rows; a nonzero entry is `true`.
    pub fn from_rows(ncols: usize, rows: &Vec<Vec<u8>>) -> (r: Self)
        requires
            forall|i: int| 0 <= i < rows@.len() ==> (#[trigger] rows@[i]).len() == ncols,
        ensures
            r.wf(),
            r.width() == ncols,
            r@.len() == rows@.len(),
            forall|i: int, j: int|
                0 <= i < rows@.len() && 0 <= j < ncols ==> r@[i][j] == (rows@[i][j] != 0),
    {
        let mut data: Vec<Vec<bool>> = Vec::new();
        let mut i: usize = 0;
        while i < rows.len()
            invariant
                0 <= i <= rows@.len(),
                data@.len() == i,
                forall|k: int| 0 <= k < rows@.len() ==> (#[trigger] rows@[k]).len() == ncols,
                forall|k: int| 0 <= k < i ==> (#[trigger] data@[k]).len() == ncols,
                forall|k: int, j: int|
                    0 <= k < i && 0 <= j < ncols ==> data@[k][j] == (rows@[k][j] != 0),
            decreases rows@.len() - i,
        {
            let mut row: Vec<bool> = Vec::new();
            let mut j: usize = 0;
            while j < ncols
                invariant
                    0 <= i < rows@.len(),
                    rows@[i as int].len() == ncols,
                    0 <= j <= ncols,
                    row@.len() == j,
                    forall|l: int| 0 <= l < j ==> row@[l] == (rows@[i as int][l] != 0),
                decreases ncols - j,
            {
                row.push(rows[i][j] != 0);
                j += 1;
            }
            data.push(row);
            i += 1;
        }
        let r = RelationMatrix { cols: ncols, data };
        assert(r.wf());
        r
    }

    /// The entries as rows of 0 and 1.
    pub fn to_rows(&self) -> (r: Vec<Vec<u8>>)
        requires
            self.wf(),
        ensures
            r@.len() == self@.len(),
            forall|i: int| 0 <= i < r@.len() ==> (#[trigger] r@[i]).len() == self.width(),
            forall|i: int, j: int|
                0 <= i < self@.len() && 0 <= j < self.width() ==> r@[i][j] == (if self@[i][j] {
                    1u8
                } else {
                    0u8
                }),
    {
        let mut out: Vec<Vec<u8>> = Vec::new();
        let mut i: usize = 0;
        while i < self.data.len()
            invariant
                self.wf(),
                0 <= i <= self@.len(),
                out@.len() == i,
                forall|k: int| 0 <= k < i ==> (#[trigger] out@[k]).len() == self.width(),
                forall|k: int, j: int|
                    0 <= k < i && 0 <= j < self.width() ==> out@[k][j] == (if self@[k][j] {
                        1u8
                    } else {
                        0u8
                    }),
            decreases self@.len() - i,
        {
            let mut row: Vec<u8> = Vec::new();
            let mut j: usize = 0;
            while j < self.cols
                invariant
                    self.wf(),
                    0 <= i < self@.len(),
                    0 <= j <= self.width(),
                    row@.len() == j,
                    forall|l: int| 0 <= l < j ==> row@[l] == (if self@[i as int][l] {
                        1u8
                    } else {
                        0u8
                    }),
                decreases self.width() - j,
            {
                assert(self@[i as int] == self.data@[i as int]@);
                row.push(if self.data[i][j] { 1u8 } else { 0u8 });
                j += 1;
            }
            out.push(row);
            i += 1;
        }
        out
    }
}


/// True iff `row` and `col` hold `true` at a common position.
pub fn scalar_multiplication(row: &Vec<bool>, col: &Vec<bool>) -> (r: bool)
    requires
        row@.len() == col@.len(),
    ensures
        r == dot(row@, col@),
{
    let mut k: usize = 0;
    while k < row.len()
        invariant
            row@.len() == col@.len(),
            0 <= k <= row@.len(),
            forall|l: int| 0 <= l < k ==> !(row@[l] && col@[l]),
        decreases row@.len() - k,
    {
        if row[k] && col[k] {
            assert(row@[k as int] && col@[k as int]);
            return true;
        }
        k += 1;
    }
    false
}

impl RelationMatrix {
    fn copy(&self) -> (r: Self)
        ensures
            r.width() == self.width(),
            r@ == self@,
    {
        let mut data: Vec<Vec<bool>> = Vec::new();
        let mut i: usize = 0;
        while i < self.data.len()
            invariant
                0 <= i <= self@.len(),
                data@.len() == i,
                forall|k: int| 0 <= k < i ==> (#[trigger] data@[k])@ == self@[k],
            decreases self@.len() - i,
        {
            let row = self.data[i].clone();
            data.push(row);
            i += 1;
        }
        let r = RelationMatrix { cols: self.cols, data };
        assert(r@ =~= self@);
        r
    }

    /// The identity matrix of size `n` by `n`.
    pub fn identity(n: usize) -> (r: Self)
        ensures
            r.wf(),
            r.width() == n,
            r@ == identity(n as nat),
    {
        let mut data: Vec<Vec<bool>> = Vec::new();
        let mut i: usize = 0;
        while i < n
            invariant
                0 <= i <= n,
                data@.len() == i,
                forall|k: int| 0 <= k < i ==> (#[trigger] data@[k])@ == identity(n as nat)[k],
            decreases n - i,
        {
            let mut row: Vec<bool> = Vec::new();
            let mut j: usize = 0;
            while j < n
                invariant
                    0 <= i < n,
                    0 <= j <= n,
                    row@.len() == j,
                    forall|l: int| 0 <= l < j ==> row@[l] == (i == l),
                decreases n - j,
            {
                row.push(i == j);
                j += 1;
            }
            assert(row@ =~= identity(n as nat)[i as int]);
            data.push(row);
            i += 1;
        }
        let r = RelationMatrix { cols: n, data };
        assert(r@ =~= identity(n as nat));
        r
    }

    /// Column `j`, top to bottom.
    pub fn column(&self, j: usize) -> (r: Vec<bool>)
        requires
            self.wf(),
            j < self.width(),
        ensures
            r@ == Seq::new(self@.len(), |i: int| self@[i][j as int]),
    {
        let mut col: Vec<bool> = Vec::new();
        let mut i: usize = 0;
        while i < self.data.len()
            invariant
                self.wf(),
                j < self.width(),
                0 <= i <= self@.len(),
                col@.len() == i,
                forall|l: int| 0 <= l < i ==> col@[l] == self@[l][j as int],
            decreases self@.len() - i,
        {
            assert(self@[i as int] == self.data@[i as int]@);
            col.push(self.data[i][j]);
            i += 1;
        }
        assert(col@ =~= Seq::new(self@.len(), |i: int| self@[i][j as int]));
        col
    }

    /// Column `j` as a matrix of one column.
    pub fn column_matrix(&self, j: usize) -> (r: Self)
        requires
            self.wf(),
            j < self.width(),
        ensures
            r.wf(),
            r.width() == 1,
            r@ == Seq::new(self@.len(), |i: int| seq![self@[i][j as int]]),
    {
        let col = self.column(j);
        let mut data: Vec<Vec<bool>> = Vec::new();
        let mut i: usize = 0;
        while i < col.len()
            invariant
                0 <= i <= col@.len(),
                col@ == Seq::new(self@.len(), |i: int| self@[i][j as int]),
                data@.len() == i,
                forall|k: int| 0 <= k < i ==> (#[trigger] data@[k])@ == seq![col@[k]],
            decreases col@.len() - i,
        {
            let mut one: Vec<bool> = Vec::new();
            one.push(col[i]);
            assert(one@ =~= seq![col@[i as int]]);
            data.push(one);
            i += 1;
        }
        let r = RelationMatrix { cols: 1, data };
        assert(r@ =~~= Seq::new(self@.len(), |i: int| seq![self@[i][j as int]]));
        r
    }

    /// Row `i` as a matrix of one row.
    pub fn row_matrix(&self, i: usize) -> (r: Self)
        requires
            self.wf(),
            i < self@.len(),
        ensures
            r.wf(),
            r.width() == self.width(),
            r@ == seq![self@[i as int]],
    {
        let mut data: Vec<Vec<bool>> = Vec::new();
        let row = self.data[i].clone();
        assert(self@[i as int] == self.data@[i as int]@);
        data.push(row);
        let r = RelationMatrix { cols: self.cols, data };
        assert(r@ =~~= seq![self@[i as int]]);
        r
    }

    /// The transpose: entry (i, j) of the result is entry (j, i) of `self`.
    pub fn transpose(&self) -> (r: Self)
        requires
            self.wf(),
        ensures
            r.wf(),
            r.width() == self@.len(),
            r@ == mat_transpose(self@, self.width()),
    {
        let mut data: Vec<Vec<bool>> = Vec::new();
        let mut j: usize = 0;
        while j < self.cols
            invariant
                self.wf(),
                0 <= j <= self.width(),
                data@.len() == j,
                forall|k: int|
                    0 <= k < j ==> (#[trigger] data@[k])@ == mat_transpose(self@, self.width())[k],
            decreases self.width() - j,
        {
            let col = self.column(j);
            assert(col@ =~= mat_transpose(self@, self.width())[j as int]);
            data.push(col);
            j += 1;
        }
        let r = RelationMatrix { cols: self.data.len(), data };
        assert(r@ =~= mat_transpose(self@, self.width()));
        r
    }

    /// Entrywise combination of two matrices of one shape, by AND or by OR.
    fn entrywise(&self, rhs: &Self, use_or: bool) -> (r: Self)
        requires
            self.wf(),
            rhs.wf(),
            self@.len() == rhs@.len(),
            self.width() == rhs.width(),
        ensures
            r.wf(),
            r.width() == self.width(),
            r@ == if use_or {
                mat_or(self@, rhs@)
            } else {
                mat_and(self@, rhs@)
            },
    {
        let ghost target = if use_or {
            mat_or(self@, rhs@)
        } else {
            mat_and(self@, rhs@)
        };
        let mut data: Vec<Vec<bool>> = Vec::new();
        let mut i: usize = 0;
        while i < self.data.len()
            invariant
                self.wf(),
                rhs.wf(),
                self@.len() == rhs@.len(),
                self.width() == rhs.width(),
                target == if use_or {
                    mat_or(self@, rhs@)
                } else {
                    mat_and(self@, rhs@)
                },
                0 <= i <= self@.len(),
                data@.len() == i,
                forall|k: int| 0 <= k < i ==> (#[trigger] data@[k])@ == target[k],
            decreases self@.len() - i,
        {
            assert(self@[i as int] == self.data@[i as int]@);
            assert(rhs@[i as int] == rhs.data@[i as int]@);
            let mut row: Vec<bool> = Vec::new();
            let mut j: usize = 0;
            while j < self.cols
                invariant
                    self.wf(),
                    rhs.wf(),
                    self@.len() == rhs@.len(),
                    self.width() == rhs.width(),
                    0 <= i < self@.len(),
                    self@[i as int] == self.data@[i as int]@,
                    rhs@[i as int] == rhs.data@[i as int]@,
                    0 <= j <= self.width(),
                    row@.len() == j,
                    forall|l: int|
                        0 <= l < j ==> row@[l] == if use_or {
                            self@[i as int][l] || rhs@[i as int][l]
                        } else {
                            self@[i as int][l] && rhs@[i as int][l]
                        },
                decreases self.width() - j,
            {
                let x = self.data[i][j];
                let y = rhs.data[i][j];
                row.push(if use_or { x || y } else { x && y });
                j += 1;
            }
            assert(row@ =~= target[i as int]);
            data.push(row);
            i += 1;
        }
        let r = RelationMatrix { cols: self.cols, data };
        assert(r@ =~= target);
        r
    }

    /// Entrywise AND of two matrices of the same shape.
    pub fn bitand(&self, rhs: &Self) -> (r: Self)
        requires
            self.wf(),
            rhs.wf(),
            self@.len() == rhs@.len(),
            self.width() == rhs.width(),
        ensures
            r.wf(),
            r.width() == self.width(),
            r@ == mat_and(self@, rhs@),
    {
        self.entrywise(rhs, false)
    }

    /// Entrywise OR of two matrices of the same shape.
    pub fn bitor(&self, rhs: &Self) -> (r: Self)
        requires
            self.wf(),
            rhs.wf(),
            self@.len() == rhs@.len(),
            self.width() == rhs.width(),
        ensures
            r.wf(),
            r.width() == self.width(),
            r@ == mat_or(self@, rhs@),
    {
        self.entrywise(rhs, true)
    }

    /// Product over the Boolean semiring: OR for sum, AND for product.
    pub fn mul(&self, rhs: &Self) -> (r: Self)
        requires
            self.wf(),
            rhs.wf(),
            self.width() == rhs@.len(),
        ensures
            r.wf(),
            r.width() == rhs.width(),
            r@ == mat_mul(self@, rhs@, rhs.width()),
    {
        let ghost target = mat_mul(self@, rhs@, rhs.width());
        let mut data: Vec<Vec<bool>> = Vec::new();
        let mut i: usize = 0;
        while i < self.data.len()
            invariant
                self.wf(),
                rhs.wf(),
                self.width() == rhs@.len(),
                target == mat_mul(self@, rhs@, rhs.width()),
                0 <= i <= self@.len(),
                data@.len() == i,
                forall|k: int| 0 <= k < i ==> (#[trigger] data@[k])@ == target[k],
            decreases self@.len() - i,
        {
            assert(self@[i as int] == self.data@[i as int]@);
            let mut row: Vec<bool> = Vec::new();
            let mut j: usize = 0;
            while j < rhs.cols
                invariant
                    self.wf(),
                    rhs.wf(),
                    self.width() == rhs@.len(),
                    target == mat_mul(self@, rhs@, rhs.width()),
                    0 <= i < self@.len(),
                    self@[i as int] == self.data@[i as int]@,
                    0 <= j <= rhs.width(),
                    row@.len() == j,
                    forall|l: int| 0 <= l < j ==> row@[l] == target[i as int][l],
                decreases rhs.width() - j,
            {
                let col = rhs.column(j);
                let x = scalar_multiplication(&self.data[i], &col);
                proof {
                    if x {
                        let k = choose|k: int|
                            0 <= k < self@[i as int].len() && #[trigger] self@[i as int][k]
                                && #[trigger] col@[k];
                        assert(rhs@[k][j as int]);
                    }
                    if target[i as int][j as int] {
                        let k = choose|k: int|
                            0 <= k < rhs@.len() && #[trigger] self@[i as int][k]
                                && #[trigger] rhs@[k][j as int];
                        assert(col@[k]);
                    }
                }
                row.push(x);
                j += 1;
            }
            assert(row@ =~= target[i as int]);
            data.push(row);
            i += 1;
        }
        let r = RelationMatrix { cols: rhs.cols, data };
        assert(r@ =~= target);
        r
    }

    /// `self` raised to the power `exp`, by square-and-multiply.
    pub fn fast_pow(&self, exp: u64) -> (r: Self)
        requires
            self.wf(),
            self.width() == self@.len(),
        ensures
            r.wf(),
            r.width() == self.width(),
            r@ == mat_pow(self@, self.width(), exp as nat),
    {
        let ghost m = self@;
        let ghost n = self.width();
        let mut e = exp;
        let mut base = self.copy();
        let mut result = RelationMatrix::identity(self.data.len());
        let ghost mut p: nat = 1;
        let ghost mut q: nat = 0;
        proof {
            lemma_mul_identity_left(m, n);
            assert(mat_pow(m, n, 0) == identity(n));
            assert(mat_pow(m, n, 1) == mat_mul(identity(n), m, n));
        }
        while e > 0
            invariant
                is_shape(m, n, n),
                base.wf(),
                result.wf(),
                base.width() == n,
                result.width() == n,
                base@ == mat_pow(m, n, p),
                result@ == mat_pow(m, n, q),
                q + p * e == exp,
            decreases e,
        {
            proof {
                lemma_pow_shape(m, n, p);
                lemma_pow_shape(m, n, q);
            }
            let ghost e0 = e as nat;
            let ghost p0 = p;
            let ghost q0 = q;
            if e % 2 == 1 {
                result = result.mul(&base);
                proof {
                    lemma_pow_add(m, n, q, p);
                    q = q + p;
                }
            }
            base = base.mul(&base);
            proof {
                lemma_pow_add(m, n, p, p);
                p = p + p;
            }
            e = e / 2;
            proof {
                let h = e as nat;
                assert(e0 == 2 * h + e0 % 2);
                assert(q + p * h == exp) by (nonlinear_arith)
                    requires
                        q0 + p0 * e0 == exp,
                        p == p0 + p0,
                        e0 == 2 * h + e0 % 2,
                        e0 % 2 == 1 ==> q == q0 + p0,
                        e0 % 2 != 1 ==> q == q0,
                        e0 % 2 == 0 || e0 % 2 == 1,
                ;
            }
        }
        result
    }
}

} // verus!
