use vstd::prelude::*;
use crate::cycle::{apply_cycles, SwapStore, swap_at};
use crate::order::{order_by, orders, par_order_by, sorting_order};
use crate::permutation::is_perm;

verus! {

/// The element type declared for a matrix.
#[derive(Clone, Copy, Debug, PartialEq, Eq, Structural)]
pub enum DataType {
    Real,
    Complex,
    Integer,
    Bool,
}

/// The order in which to list the entries of a matrix.
#[derive(Clone, Copy, Debug, PartialEq, Eq, Structural)]
pub enum SortOrder {
    /// By ascending (row, column).
    RowMajor,
    /// By ascending (column, row).
    ColMajor,
}

/// The values of a matrix, one array per component, position-aligned with its rows and
/// columns. `R` is the real type and `I` the integer type.
pub enum MatrixData<R, I> {
    Real(Vec<R>),
    Complex(Vec<R>, Vec<R>),
    Integer(Vec<I>),
    Bool(),
}

/// The value of one entry.
#[derive(Clone, Copy, Debug)]
pub enum Value<R, I> {
    Real(R),
    Complex(R, R),
    Integer(I),
    Bool,
}

impl<R, I> Value<R, I> {
    /// The element type of this value.
    pub open spec fn kind(&self) -> DataType {
        match self {
            Value::Real(_) => DataType::Real,
            Value::Complex(_, _) => DataType::Complex,
            Value::Integer(_) => DataType::Integer,
            Value::Bool => DataType::Bool,
        }
    }
}

/// One entry of a matrix: its row, its column and its value.
pub type Entry<R, I> = (usize, usize, Value<R, I>);

impl<R: Copy, I: Copy> MatrixData<R, I> {
    /// The element type these values hold.
    pub open spec fn data_type(&self) -> DataType {
        match self {
            MatrixData::Real(_) => DataType::Real,
            MatrixData::Complex(_, _) => DataType::Complex,
            MatrixData::Integer(_) => DataType::Integer,
            MatrixData::Bool() => DataType::Bool,
        }
    }

    /// Every value array holds `n` values.
    pub open spec fn has_len(&self, n: nat) -> bool {
        match self {
            MatrixData::Real(xs) => xs@.len() == n,
            MatrixData::Complex(xs, ys) => xs@.len() == n && ys@.len() == n,
            MatrixData::Integer(xs) => xs@.len() == n,
            MatrixData::Bool() => true,
        }
    }

    /// The value at position `i`.
    pub open spec fn value(&self, i: int) -> Value<R, I> {
        match self {
            MatrixData::Real(xs) => Value::Real(xs@[i]),
            MatrixData::Complex(xs, ys) => Value::Complex(xs@[i], ys@[i]),
            MatrixData::Integer(xs) => Value::Integer(xs@[i]),
            MatrixData::Bool() => Value::Bool,
        }
    }

    /// `v` is a value of the element type these values hold.
    pub open spec fn fits(&self, v: Value<R, I>) -> bool {
        match (self, v) {
            (MatrixData::Real(_), Value::Real(_)) => true,
            (MatrixData::Complex(_, _), Value::Complex(_, _)) => true,
            (MatrixData::Integer(_), Value::Integer(_)) => true,
            (MatrixData::Bool(), Value::Bool) => true,
            _ => false,
        }
    }

    /// Appends the value `v`.
    pub fn push(&mut self, v: Value<R, I>, Ghost(n): Ghost<nat>)
        requires
            old(self).has_len(n),
            old(self).fits(v),
        ensures
            final(self).has_len(n + 1),
            final(self).data_type() == old(self).data_type(),
            forall|i: int| 0 <= i < n ==> #[trigger] final(self).value(i) == old(self).value(i),
            final(self).value(n as int) == v,
    {
        match (self, v) {
            (MatrixData::Real(xs), Value::Real(x)) => {
                xs.push(x);
            },
            (MatrixData::Complex(xs, ys), Value::Complex(x, y)) => {
                xs.push(x);
                ys.push(y);
            },
            (MatrixData::Integer(xs), Value::Integer(x)) => {
                xs.push(x);
            },
            _ => {},
        }
    }

    /// Empty values of the given element type.
    pub fn new(data_type: DataType) -> (r: Self)
        ensures
            r.data_type() == data_type,
            r.has_len(0),
    {
        match data_type {
            DataType::Real => MatrixData::Real(Vec::new()),
            DataType::Complex => MatrixData::Complex(Vec::new(), Vec::new()),
            DataType::Integer => MatrixData::Integer(Vec::new()),
            DataType::Bool => MatrixData::Bool(),
        }
    }

    /// Empty values of the given element type, with room for `nvals` values.
    pub fn with_capacity(data_type: DataType, nvals: usize) -> (r: Self)
        ensures
            r.data_type() == data_type,
            r.has_len(0),
    {
        match data_type {
            DataType::Real => MatrixData::Real(Vec::with_capacity(nvals)),
            DataType::Complex => MatrixData::Complex(Vec::with_capacity(nvals), Vec::with_capacity(nvals)),
            DataType::Integer => MatrixData::Integer(Vec::with_capacity(nvals)),
            DataType::Bool => MatrixData::Bool(),
        }
    }
}

/// The entries of `e` listed at the positions `p`: entry `i` of the result is `e[p[i]]`.
pub open spec fn permuted<E>(e: Seq<E>, p: Seq<usize>) -> Seq<E> {
    Seq::new(p.len(), |i: int| e[p[i] as int])
}

/// The row of each entry.
pub open spec fn row_keys<R, I>(e: Seq<Entry<R, I>>) -> Seq<usize> {
    Seq::new(e.len(), |i: int| e[i].0)
}

/// The column of each entry.
pub open spec fn col_keys<R, I>(e: Seq<Entry<R, I>>) -> Seq<usize> {
    Seq::new(e.len(), |i: int| e[i].1)
}

/// The positions of `e` by ascending (row, column); entries with the same pair keep their
/// relative order.
pub open spec fn row_major_order<R, I>(e: Seq<Entry<R, I>>) -> Seq<usize> {
    sorting_order(row_keys(e), col_keys(e))
}

/// The positions of `e` by ascending (column, row); entries with the same pair keep their
/// relative order.
pub open spec fn col_major_order<R, I>(e: Seq<Entry<R, I>>) -> Seq<usize> {
    sorting_order(col_keys(e), row_keys(e))
}

/// The entries of `e` in row-major order.
pub open spec fn row_major<R, I>(e: Seq<Entry<R, I>>) -> Seq<Entry<R, I>> {
    permuted(e, row_major_order(e))
}

/// The entries of `e` in column-major order.
pub open spec fn col_major<R, I>(e: Seq<Entry<R, I>>) -> Seq<Entry<R, I>> {
    permuted(e, col_major_order(e))
}

/// The entries are listed by ascending (row, column).
pub open spec fn is_row_major<R, I>(e: Seq<Entry<R, I>>) -> bool {
    forall|i: int, j: int| 0 <= i < j < e.len() ==> (#[trigger] e[i]).0 < (#[trigger] e[j]).0 || (e[i].0 == e[j].0 && e[i].1 <= e[j].1)
}

/// The entries are listed by ascending (column, row).
pub open spec fn is_col_major<R, I>(e: Seq<Entry<R, I>>) -> bool {
    forall|i: int, j: int| 0 <= i < j < e.len() ==> (#[trigger] e[i]).1 < (#[trigger] e[j]).1 || (e[i].1 == e[j].1 && e[i].0 <= e[j].0)
}

/// The order of `e` by the given ordering.
pub open spec fn order_of<R, I>(e: Seq<Entry<R, I>>, order: SortOrder) -> Seq<usize> {
    match order {
        SortOrder::RowMajor => row_major_order(e),
        SortOrder::ColMajor => col_major_order(e),
    }
}

/// Entries listed in an order of their (row, column) keys are in row-major order.
proof fn lemma_orders_row_major<R, I>(e: Seq<Entry<R, I>>, p: Seq<usize>)
    requires
        orders(row_keys(e), col_keys(e), p),
    ensures
        is_row_major(permuted(e, p)),
{
    let s = permuted(e, p);
    assert forall|i: int, j: int| 0 <= i < j < s.len() implies (#[trigger] s[i]).0 < (#[trigger] s[j]).0 || (s[i].0 == s[j].0 && s[i].1 <= s[j].1) by {
        assert(crate::order::key_lt(
            crate::order::key_at(row_keys(e), col_keys(e), p[i] as int),
            crate::order::key_at(row_keys(e), col_keys(e), p[j] as int),
        ));
    }
}

/// Entries listed in an order of their (column, row) keys are in column-major order.
proof fn lemma_orders_col_major<R, I>(e: Seq<Entry<R, I>>, p: Seq<usize>)
    requires
        orders(col_keys(e), row_keys(e), p),
    ensures
        is_col_major(permuted(e, p)),
{
    let s = permuted(e, p);
    assert forall|i: int, j: int| 0 <= i < j < s.len() implies (#[trigger] s[i]).1 < (#[trigger] s[j]).1 || (s[i].1 == s[j].1 && s[i].0 <= s[j].0) by {
        assert(crate::order::key_lt(
            crate::order::key_at(col_keys(e), row_keys(e), p[i] as int),
            crate::order::key_at(col_keys(e), row_keys(e), p[j] as int),
        ));
    }
}

/// Any two orders that list the entries by ascending key give the same entries, position for
/// position: reordering in place and reordering by sort-and-scatter agree.
pub proof fn lemma_reorderings_agree<R, I>(e: Seq<Entry<R, I>>, order: SortOrder, p: Seq<usize>, q: Seq<usize>)
    requires
        order == SortOrder::RowMajor ==> orders(row_keys(e), col_keys(e), p) && orders(row_keys(e), col_keys(e), q),
        order == SortOrder::ColMajor ==> orders(col_keys(e), row_keys(e), p) && orders(col_keys(e), row_keys(e), q),
    ensures
        p == q,
        permuted(e, p) == permuted(e, q),
{
    match order {
        SortOrder::RowMajor => crate::order::lemma_orders_unique(row_keys(e), col_keys(e), p, q),
        SortOrder::ColMajor => crate::order::lemma_orders_unique(col_keys(e), row_keys(e), p, q),
    }
}

/// Reordering moves whole entries: entry `i` afterwards, with its row, its column and all of
/// its value components, is the entry that stood at `p[i]` before, and no entry from before is
/// taken twice.
pub proof fn lemma_entries_move_whole<R, I>(e: Seq<Entry<R, I>>, p: Seq<usize>)
    requires
        is_perm(p),
        p.len() == e.len(),
    ensures
        permuted(e, p).len() == e.len(),
        forall|i: int| 0 <= i < e.len() ==> 0 <= p[i] < e.len() && #[trigger] permuted(e, p)[i] == e[p[i] as int],
        forall|i: int, j: int| 0 <= i < e.len() && 0 <= j < e.len() && i != j ==> p[i] != p[j],
{
}

/// The values at the positions `p`, in that order.
fn gather<T: Copy>(v: &Vec<T>, p: &Vec<usize>) -> (r: Vec<T>)
    requires
        forall|i: int| 0 <= i < p@.len() ==> #[trigger] p@[i] < v@.len(),
    ensures
        r@ == permuted(v@, p@),
{
    let n = p.len();
    let mut r: Vec<T> = Vec::with_capacity(n);
    let mut i: usize = 0;
    while i < n
        invariant
            i <= n,
            n == p@.len(),
            forall|k: int| 0 <= k < p@.len() ==> #[trigger] p@[k] < v@.len(),
            r@ == permuted(v@, p@).subrange(0, i as int),
        decreases n - i,
    {
        r.push(v[p[i]]);
        i += 1;
        proof {
            assert(r@ =~= permuted(v@, p@).subrange(0, i as int));
        }
    }
    proof {
        assert(r@ =~= permuted(v@, p@));
    }
    r
}

/// A sparse matrix in coordinate form: parallel arrays of rows, columns and values.
pub struct Matrix<R, I> {
    rows: Vec<usize>,
    cols: Vec<usize>,
    vals: MatrixData<R, I>,
    nrows: usize,
    ncols: usize,
    nvals: usize,
}

impl<R: Copy, I: Copy> Matrix<R, I> {
    /// The arrays all hold `nvals` entries.
    pub closed spec fn wf(&self) -> bool {
        &&& self.rows@.len() == self.nvals
        &&& self.cols@.len() == self.nvals
        &&& self.vals.has_len(self.nvals as nat)
    }

    /// The entries in their current order.
    pub closed spec fn entries(&self) -> Seq<Entry<R, I>> {
        Seq::new(self.nvals as nat, |i: int| (self.rows@[i], self.cols@[i], self.vals.value(i)))
    }

    /// The declared element type.
    pub closed spec fn data_type(&self) -> DataType {
        self.vals.data_type()
    }

    /// The number of rows, as declared.
    pub closed spec fn row_count(&self) -> usize {
        self.nrows
    }

    /// The number of columns, as declared.
    pub closed spec fn col_count(&self) -> usize {
        self.ncols
    }

    /// The number of stored entries.
    pub closed spec fn entry_count(&self) -> usize {
        self.nvals
    }

    /// The matrix with no entries and all dimensions 0.
    pub fn empty(data_type: DataType) -> (r: Self)
        ensures
            r.wf(),
            r.row_count() == 0,
            r.col_count() == 0,
            r.entry_count() == 0,
            r.entries() == Seq::<Entry<R, I>>::empty(),
            r.data_type() == data_type,
    {
        let r = Matrix {
            rows: Vec::new(),
            cols: Vec::new(),
            vals: MatrixData::new(data_type),
            nrows: 0,
            ncols: 0,
            nvals: 0,
        };
        proof {
            assert(r.entries() =~= Seq::<Entry<R, I>>::empty());
        }
        r
    }

    /// A matrix of the given dimensions with the given arrays, or `None` when an array's length
    /// differs from the number of rows given.
    pub fn from_parts(nrows: usize, ncols: usize, rows: Vec<usize>, cols: Vec<usize>, vals: MatrixData<R, I>) -> (r: Option<Self>)
        ensures
            r.is_some() == (cols@.len() == rows@.len() && vals.has_len(rows@.len())),
            r.is_some() ==> {
                let m = r.unwrap();
                &&& m.wf()
                &&& m.row_count() == nrows
                &&& m.col_count() == ncols
                &&& m.entry_count() == rows@.len()
                &&& m.data_type() == vals.data_type()
                &&& m.entries() == Seq::new(rows@.len(), |i: int| (rows@[i], cols@[i], vals.value(i)))
            },
    {
        let nvals = rows.len();
        if cols.len() != nvals {
            return None;
        }
        let fits = match &vals {
            MatrixData::Real(xs) => xs.len() == nvals,
            MatrixData::Complex(xs, ys) => xs.len() == nvals && ys.len() == nvals,
            MatrixData::Integer(xs) => xs.len() == nvals,
            MatrixData::Bool() => true,
        };
        if !fits {
            return None;
        }
        Some(Matrix { rows, cols, vals, nrows, ncols, nvals })
    }

    /// The number of rows, as declared.
    pub fn nrows(&self) -> (r: usize)
        ensures
            r == self.row_count(),
    {
        self.nrows
    }

    /// The number of columns, as declared.
    pub fn ncols(&self) -> (r: usize)
        ensures
            r == self.col_count(),
    {
        self.ncols
    }

    /// The number of stored entries.
    pub fn nvals(&self) -> (r: usize)
        ensures
            r == self.entry_count(),
    {
        self.nvals
    }

    /// The declared element type.
    pub fn element_type(&self) -> (r: DataType)
        ensures
            r == self.data_type(),
    {
        match &self.vals {
            MatrixData::Real(_) => DataType::Real,
            MatrixData::Complex(_, _) => DataType::Complex,
            MatrixData::Integer(_) => DataType::Integer,
            MatrixData::Bool() => DataType::Bool,
        }
    }

    /// The entry at position `i`.
    pub fn entry(&self, i: usize) -> (r: Entry<R, I>)
        requires
            self.wf(),
            i < self.entry_count(),
        ensures
            r == self.entries()[i as int],
    {
        let v = match &self.vals {
            MatrixData::Real(xs) => Value::Real(xs[i]),
            MatrixData::Complex(xs, ys) => Value::Complex(xs[i], ys[i]),
            MatrixData::Integer(xs) => Value::Integer(xs[i]),
            MatrixData::Bool() => Value::Bool,
        };
        (self.rows[i], self.cols[i], v)
    }

    /// Sorts the entries in the given order, by sort-and-scatter.
    pub fn sort(&mut self, order: SortOrder)
        requires
            old(self).wf(),
        ensures
            final(self).wf(),
            final(self).row_count() == old(self).row_count(),
            final(self).col_count() == old(self).col_count(),
            final(self).entry_count() == old(self).entry_count(),
            final(self).data_type() == old(self).data_type(),
            is_perm(order_of(old(self).entries(), order)),
            final(self).entries() == permuted(old(self).entries(), order_of(old(self).entries(), order)),
    {
        match order {
            SortOrder::RowMajor => self.sort_row_major(),
            SortOrder::ColMajor => self.sort_col_major(),
        }
    }

    /// Sorts the entries in the given order, in place by following the cycles of the order.
    pub fn permute(&mut self, order: SortOrder)
        requires
            old(self).wf(),
            old(self).entry_count() <= isize::MAX,
        ensures
            final(self).wf(),
            final(self).row_count() == old(self).row_count(),
            final(self).col_count() == old(self).col_count(),
            final(self).entry_count() == old(self).entry_count(),
            final(self).data_type() == old(self).data_type(),
            is_perm(order_of(old(self).entries(), order)),
            final(self).entries() == permuted(old(self).entries(), order_of(old(self).entries(), order)),
    {
        match order {
            SortOrder::RowMajor => self.permute_row_major(),
            SortOrder::ColMajor => self.permute_col_major(),
        }
    }

    /// A matrix has as many entries as it stores.
    pub proof fn lemma_entry_count(&self)
        ensures
            self.entries().len() == self.entry_count(),
    {
    }

    /// Every value of a matrix is of its declared element type.
    pub proof fn lemma_value_kinds(&self)
        ensures
            forall|k: int| 0 <= k < self.entries().len() ==> (#[trigger] self.entries()[k]).2.kind() == self.data_type(),
    {
    }

    /// The rows and columns of the entries are those of the matrix's own arrays.
    proof fn lemma_keys(&self)
        requires
            self.wf(),
        ensures
            row_keys(self.entries()) == self.rows@,
            col_keys(self.entries()) == self.cols@,
            self.entries().len() == self.nvals,
    {
        assert(row_keys(self.entries()) =~= self.rows@);
        assert(col_keys(self.entries()) =~= self.cols@);
    }

    /// The positions of the entries listed in the given order, computed on one thread: a
    /// permutation of `0..entry_count`. Entries with the same pair keep their relative order.
    pub fn compute_order(&self, order: SortOrder) -> (r: Vec<usize>)
        requires
            self.wf(),
        ensures
            is_perm(r@),
            r@.len() == self.entry_count(),
            r@ == order_of(self.entries(), order),
            order == SortOrder::RowMajor ==> orders(row_keys(self.entries()), col_keys(self.entries()), r@),
            order == SortOrder::ColMajor ==> orders(col_keys(self.entries()), row_keys(self.entries()), r@),
    {
        proof {
            self.lemma_keys();
        }
        match order {
            SortOrder::RowMajor => order_by(&self.rows, &self.cols),
            SortOrder::ColMajor => order_by(&self.cols, &self.rows),
        }
    }

    /// Reorders the entries so that entry `i` afterwards is entry `permutation[i]` before,
    /// following the cycles of the permutation in place (no second copy of the entries). The
    /// permutation is consumed: its slots are left marked.
    pub fn apply_permutation(&mut self, permutation: Vec<usize>)
        requires
            old(self).wf(),
            is_perm(permutation@),
            permutation@.len() == old(self).entry_count(),
            old(self).entry_count() <= isize::MAX,
        ensures
            final(self).wf(),
            final(self).row_count() == old(self).row_count(),
            final(self).col_count() == old(self).col_count(),
            final(self).entry_count() == old(self).entry_count(),
            final(self).data_type() == old(self).data_type(),
            final(self).entries() == permuted(old(self).entries(), permutation@),
    {
        let mut permutation = permutation;
        let ghost p = permutation@;
        let ghost e = self.entries();
        apply_cycles(&mut permutation, self);
        proof {
            assert(self.entries() =~= permuted(e, p));
        }
    }

    /// Replaces the entries by those at the positions `p`, in that order.
    fn scatter(&mut self, p: &Vec<usize>)
        requires
            old(self).wf(),
            is_perm(p@),
            p@.len() == old(self).nvals,
        ensures
            final(self).wf(),
            final(self).nrows == old(self).nrows,
            final(self).ncols == old(self).ncols,
            final(self).nvals == old(self).nvals,
            final(self).data_type() == old(self).data_type(),
            final(self).entries() == permuted(old(self).entries(), p@),
    {
        let ghost e = self.entries();
        let rows = gather(&self.rows, p);
        let cols = gather(&self.cols, p);
        let vals = match &self.vals {
            MatrixData::Real(xs) => MatrixData::Real(gather(xs, p)),
            MatrixData::Complex(xs, ys) => MatrixData::Complex(gather(xs, p), gather(ys, p)),
            MatrixData::Integer(xs) => MatrixData::Integer(gather(xs, p)),
            MatrixData::Bool() => MatrixData::Bool(),
        };
        self.rows = rows;
        self.cols = cols;
        self.vals = vals;
        proof {
            assert(self.entries() =~= permuted(e, p@));
        }
    }

    /// Sorts the entries by ascending (row, column), in place: computes the order on one thread,
    /// then follows its cycles. Entries with the same pair keep their relative order.
    pub fn permute_row_major(&mut self)
        requires
            old(self).wf(),
            old(self).entry_count() <= isize::MAX,
        ensures
            final(self).wf(),
            final(self).row_count() == old(self).row_count(),
            final(self).col_count() == old(self).col_count(),
            final(self).entry_count() == old(self).entry_count(),
            final(self).data_type() == old(self).data_type(),
            is_perm(row_major_order(old(self).entries())),
            final(self).entries() == row_major(old(self).entries()),
            is_row_major(final(self).entries()),
    {
        proof {
            self.lemma_keys();
        }
        let permutation = self.compute_order(SortOrder::RowMajor);
        proof {
            lemma_orders_row_major(self.entries(), permutation@);
        }
        self.apply_permutation(permutation);
    }

    /// Sorts the entries by ascending (column, row), in place: computes the order on one thread,
    /// then follows its cycles. Entries with the same pair keep their relative order.
    pub fn permute_col_major(&mut self)
        requires
            old(self).wf(),
            old(self).entry_count() <= isize::MAX,
        ensures
            final(self).wf(),
            final(self).row_count() == old(self).row_count(),
            final(self).col_count() == old(self).col_count(),
            final(self).entry_count() == old(self).entry_count(),
            final(self).data_type() == old(self).data_type(),
            is_perm(col_major_order(old(self).entries())),
            final(self).entries() == col_major(old(self).entries()),
            is_col_major(final(self).entries()),
    {
        proof {
            self.lemma_keys();
        }
        let permutation = self.compute_order(SortOrder::ColMajor);
        proof {
            lemma_orders_col_major(self.entries(), permutation@);
        }
        self.apply_permutation(permutation);
    }

    /// Sorts the entries by ascending (row, column): sorts the keys on a pool of threads, then
    /// writes the entries back in that order. Entries with the same pair keep their relative
    /// order.
    pub fn sort_row_major(&mut self)
        requires
            old(self).wf(),
        ensures
            final(self).wf(),
            final(self).row_count() == old(self).row_count(),
            final(self).col_count() == old(self).col_count(),
            final(self).entry_count() == old(self).entry_count(),
            final(self).data_type() == old(self).data_type(),
            is_perm(row_major_order(old(self).entries())),
            final(self).entries() == row_major(old(self).entries()),
            is_row_major(final(self).entries()),
    {
        proof {
            self.lemma_keys();
        }
        let order = par_order_by(&self.rows, &self.cols);
        proof {
            lemma_orders_row_major(self.entries(), order@);
        }
        self.scatter(&order);
    }

    /// Sorts the entries by ascending (column, row): sorts the keys on a pool of threads, then
    /// writes the entries back in that order. Entries with the same pair keep their relative
    /// order.
    pub fn sort_col_major(&mut self)
        requires
            old(self).wf(),
        ensures
            final(self).wf(),
            final(self).row_count() == old(self).row_count(),
            final(self).col_count() == old(self).col_count(),
            final(self).entry_count() == old(self).entry_count(),
            final(self).data_type() == old(self).data_type(),
            is_perm(col_major_order(old(self).entries())),
            final(self).entries() == col_major(old(self).entries()),
            is_col_major(final(self).entries()),
    {
        proof {
            self.lemma_keys();
        }
        let order = par_order_by(&self.cols, &self.rows);
        proof {
            lemma_orders_col_major(self.entries(), order@);
        }
        self.scatter(&order);
    }

    /// Exchanges the entries at `a` and `b`: row, column and every value component together.
    fn swap(&mut self, a: usize, b: usize)
        requires
            old(self).wf(),
            a < old(self).nvals,
            b < old(self).nvals,
        ensures
            final(self).wf(),
            final(self).nrows == old(self).nrows,
            final(self).ncols == old(self).ncols,
            final(self).nvals == old(self).nvals,
            final(self).data_type() == old(self).data_type(),
            final(self).entries() == old(self).entries().update(a as int, old(self).entries()[b as int]).update(
                b as int,
                old(self).entries()[a as int],
            ),
    {
        let ghost e = self.entries();
        swap_at(&mut self.rows, a, b);
        swap_at(&mut self.cols, a, b);
        match &mut self.vals {
            MatrixData::Real(xs) => {
                swap_at(xs, a, b);
            },
            MatrixData::Complex(xs, ys) => {
                swap_at(xs, a, b);
                swap_at(ys, a, b);
            },
            MatrixData::Integer(xs) => {
                swap_at(xs, a, b);
            },
            MatrixData::Bool() => {
                /* nothing to do */
            },
        }
        proof {
            assert(self.entries() =~= e.update(a as int, e[b as int]).update(b as int, e[a as int]));
        }
    }
}

impl<R: Copy, I: Copy> SwapStore for Matrix<R, I> {
    type Entry = Entry<R, I>;

    type Meta = (usize, usize, usize, DataType);

    open spec fn entries(&self) -> Seq<Entry<R, I>> {
        Matrix::entries(self)
    }

    open spec fn store_wf(&self) -> bool {
        self.wf()
    }

    open spec fn meta(&self) -> (usize, usize, usize, DataType) {
        (self.row_count(), self.col_count(), self.entry_count(), self.data_type())
    }

    fn swap_entries(&mut self, a: usize, b: usize) {
        self.swap(a, b)
    }
}

} // verus!
