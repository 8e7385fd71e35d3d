//! Core value types: grid coordinates and the dense 2-D matrix.
//!
//! The matrix is stored in an `ndarray::Array2`, which the verifier treats as
//! an opaque collection: its contents and dimensions are named by
//! uninterpreted functions, and a small set of trusted wrappers (one per
//! `ndarray` operation used) relates every call to those names.

use vstd::prelude::*;

verus! {

/// Row–column coordinate of one grid cell.
pub type Pnt = (usize, usize);

/// Is `p` a valid coordinate of a `rows` × `cols` grid?
pub open spec fn in_bounds(p: Pnt, rows: usize, cols: usize) -> bool {
    p.0 < rows && p.1 < cols
}

/// Row-major flat index of `p` in a grid with `cols` columns.
pub open spec fn flat(p: Pnt, cols: usize) -> int {
    p.0 * cols + p.1
}

/// 8-connectivity: distinct cells whose rows and columns each differ by at
/// most one.
pub open spec fn adj(p: Pnt, q: Pnt) -> bool {
    p != q
    && -1 <= p.0 - q.0 <= 1
    && -1 <= p.1 - q.1 <= 1
}

/// The flat index of an in-bounds coordinate lies inside the grid's
/// element range.
pub proof fn lemma_flat_in_range(p: Pnt, rows: usize, cols: usize)
    requires
        in_bounds(p, rows, cols),
    ensures
        0 <= flat(p, cols) < rows * cols,
{
    assert(p.0 * cols + p.1 < rows * cols) by (nonlinear_arith)
        requires
            p.0 < rows,
            p.1 < cols,
    ;
}

/// An in-bounds coordinate's flat index lies inside the grid's element
/// range.
pub broadcast proof fn lemma_in_bounds_flat(p: Pnt, rows: usize, cols: usize)
    ensures
        #[trigger] in_bounds(p, rows, cols) ==> 0 <= flat(p, cols) < rows * cols,
{
    if in_bounds(p, rows, cols) {
        lemma_flat_in_range(p, rows, cols);
    }
}

/// Distinct in-bounds coordinates have distinct flat indices.
pub broadcast proof fn lemma_flat_injective(p: Pnt, q: Pnt, cols: usize)
    requires
        p.1 < cols,
        q.1 < cols,
    ensures
        #![trigger flat(p, cols), flat(q, cols)]
        flat(p, cols) == flat(q, cols) ==> p == q,
{
    if flat(p, cols) == flat(q, cols) {
        assert(p.0 == q.0 && p.1 == q.1) by (nonlinear_arith)
            requires
                p.0 * cols + p.1 == q.0 * cols + q.1,
                p.1 < cols,
                q.1 < cols,
        ;
    }
}

/// A smaller flat index means an earlier cell in row-major scan order.
pub proof fn lemma_flat_lex(q: Pnt, r: usize, c: usize, cols: usize)
    requires
        q.1 < cols,
        c <= cols,
        flat(q, cols) < r * cols + c,
    ensures
        q.0 < r || (q.0 == r && q.1 < c),
{
    assert(q.0 < r || (q.0 == r && q.1 < c)) by (nonlinear_arith)
        requires
            q.0 * cols + q.1 < r * cols + c,
            q.1 < cols,
            c <= cols,
    ;
}

/// Every flat index within the grid's element range is the index of some
/// in-bounds coordinate.
pub proof fn lemma_point_of_index(t: int, rows: usize, cols: usize)
    requires
        0 <= t < rows * cols,
    ensures
        exists|p: Pnt| in_bounds(p, rows, cols) && #[trigger] flat(p, cols) == t,
{
    assert(cols > 0) by (nonlinear_arith)
        requires
            0 <= t < rows * cols,
    ;
    let r = t / (cols as int);
    let c = t % (cols as int);
    assert(0 <= r < rows && 0 <= c < cols && r * (cols as int) + c == t) by (nonlinear_arith)
        requires
            cols > 0,
            0 <= t < rows * cols,
            r == t / (cols as int),
            c == t % (cols as int),
    ;
    let p: Pnt = (r as usize, c as usize);
    assert(in_bounds(p, rows, cols) && flat(p, cols) == t);
}

/// The coordinate whose row-major flat index is `t`.
pub open spec fn pt_of(t: int, cols: usize) -> Pnt {
    (((t / (cols as int)) as usize), ((t % (cols as int)) as usize))
}

/// Within the grid's element range, `pt_of` inverts `flat`.
pub proof fn lemma_div_mod_point(t: int, rows: usize, cols: usize)
    requires
        0 <= t < rows * cols,
    ensures
        in_bounds(pt_of(t, cols), rows, cols),
        flat(pt_of(t, cols), cols) == t,
{
    assert(cols > 0) by (nonlinear_arith)
        requires
            0 <= t < rows * cols,
    ;
    let r = t / (cols as int);
    let c = t % (cols as int);
    assert(0 <= r < rows && 0 <= c < cols && r * (cols as int) + c == t) by (nonlinear_arith)
        requires
            cols > 0,
            0 <= t < rows * cols,
            r == t / (cols as int),
            c == t % (cols as int),
    ;
}

/// A walk over in-bounds foreground cells of the grid `v`, consecutive
/// steps 8-adjacent.
pub open spec fn is_path(v: Seq<bool>, rows: usize, cols: usize, path: Seq<Pnt>) -> bool {
    &&& path.len() >= 1
    &&& forall|t: int| 0 <= t < path.len()
        ==> in_bounds(#[trigger] path[t], rows, cols) && v[flat(path[t], cols)]
    &&& forall|t: int| 0 <= t < path.len() - 1 ==> adj(#[trigger] path[t], path[t + 1])
}

/// Two cells joined by an 8-connected foreground path.
pub open spec fn connected(v: Seq<bool>, rows: usize, cols: usize, a: Pnt, b: Pnt) -> bool {
    exists|path: Seq<Pnt>| is_path(v, rows, cols, path) && path.first() == a && path.last() == b
}

/// Two cells joined by an 8-connected foreground path of exactly `n`
/// steps.
pub open spec fn connected_within(
    v: Seq<bool>,
    rows: usize,
    cols: usize,
    a: Pnt,
    b: Pnt,
    n: int,
) -> bool {
    exists|path: Seq<Pnt>|
        is_path(v, rows, cols, path) && path.first() == a && path.last() == b && path.len() == n
            + 1
}

/// An in-bounds foreground cell reaches itself in zero steps.
pub proof fn lemma_connected_within_refl(v: Seq<bool>, rows: usize, cols: usize, a: Pnt)
    requires
        in_bounds(a, rows, cols),
        v[flat(a, cols)],
    ensures
        connected_within(v, rows, cols, a, a, 0),
{
    let path = seq![a];
    assert(is_path(v, rows, cols, path));
    assert(path.first() == a && path.last() == a && path.len() == 1);
}

/// A step-counted walk extends across one adjacent foreground step.
pub proof fn lemma_connected_within_step(
    v: Seq<bool>,
    rows: usize,
    cols: usize,
    a: Pnt,
    b: Pnt,
    c: Pnt,
    n: int,
)
    requires
        connected_within(v, rows, cols, a, b, n),
        adj(b, c),
        in_bounds(c, rows, cols),
        v[flat(c, cols)],
    ensures
        connected_within(v, rows, cols, a, c, n + 1),
{
    let path = choose|path: Seq<Pnt>|
        is_path(v, rows, cols, path) && path.first() == a && path.last() == b && path.len() == n
            + 1;
    let longer = path.push(c);
    assert forall|t: int| 0 <= t < longer.len() - 1 implies adj(#[trigger] longer[t], longer[t + 1]) by {
        if t < path.len() - 1 {
            assert(adj(path[t], path[t + 1]));
        } else {
            assert(longer[t] == b && longer[t + 1] == c);
        }
    }
    assert(is_path(v, rows, cols, longer));
    assert(longer.first() == a && longer.last() == c && longer.len() == n + 2);
}

/// A step-counted walk of at least one step has a penultimate cell: a
/// foreground neighbour of the target reached in one step fewer.
pub proof fn lemma_connected_within_unsnoc(
    v: Seq<bool>,
    rows: usize,
    cols: usize,
    a: Pnt,
    b: Pnt,
    n: int,
)
    requires
        connected_within(v, rows, cols, a, b, n),
        n >= 1,
    ensures
        exists|q: Pnt|
            #[trigger] adj(q, b) && in_bounds(q, rows, cols) && v[flat(q, cols)]
                && connected_within(v, rows, cols, a, q, n - 1),
{
    let path = choose|path: Seq<Pnt>|
        is_path(v, rows, cols, path) && path.first() == a && path.last() == b && path.len() == n
            + 1;
    let q = path[path.len() - 2];
    assert(adj(path[path.len() - 2], path[path.len() - 1]));
    let prefix = path.drop_last();
    assert(is_path(v, rows, cols, prefix));
    assert(prefix.first() == a && prefix.last() == q && prefix.len() == n);
    assert(connected_within(v, rows, cols, a, q, n - 1));
    assert(adj(q, b) && in_bounds(q, rows, cols) && v[flat(q, cols)]);
}

/// The grid with cell `m` forced to foreground: the grid on which a seeded
/// traversal is connected to its seed, which takes part whether or not the
/// grid holds it.
pub open spec fn with_seed(v: Seq<bool>, cols: usize, m: Pnt) -> Seq<bool> {
    v.update(flat(m, cols), true)
}

/// An in-bounds foreground cell is connected to itself.
pub proof fn lemma_connected_refl(v: Seq<bool>, rows: usize, cols: usize, a: Pnt)
    requires
        in_bounds(a, rows, cols),
        v[flat(a, cols)],
    ensures
        connected(v, rows, cols, a, a),
{
    let path = seq![a];
    assert(is_path(v, rows, cols, path));
    assert(path.first() == a && path.last() == a);
}

/// Connectivity extends across one adjacent foreground step.
pub proof fn lemma_connected_step(v: Seq<bool>, rows: usize, cols: usize, a: Pnt, b: Pnt, c: Pnt)
    requires
        connected(v, rows, cols, a, b),
        adj(b, c),
        in_bounds(c, rows, cols),
        v[flat(c, cols)],
    ensures
        connected(v, rows, cols, a, c),
{
    let path = choose|path: Seq<Pnt>|
        is_path(v, rows, cols, path) && path.first() == a && path.last() == b;
    let longer = path.push(c);
    assert forall|t: int| 0 <= t < longer.len() - 1 implies adj(#[trigger] longer[t], longer[t + 1]) by {
        if t < path.len() - 1 {
            assert(adj(path[t], path[t + 1]));
        } else {
            assert(longer[t] == b && longer[t + 1] == c);
        }
    }
    assert(is_path(v, rows, cols, longer));
    assert(longer.first() == a && longer.last() == c);
}

/// A path stays a path when the grid is read backwards, because adjacency
/// is symmetric; hence connectivity is symmetric.
pub proof fn lemma_connected_sym(v: Seq<bool>, rows: usize, cols: usize, a: Pnt, b: Pnt)
    requires
        connected(v, rows, cols, a, b),
    ensures
        connected(v, rows, cols, b, a),
{
    let path = choose|path: Seq<Pnt>|
        is_path(v, rows, cols, path) && path.first() == a && path.last() == b;
    let rev = path.reverse();
    assert forall|t: int| 0 <= t < rev.len() implies
        in_bounds(#[trigger] rev[t], rows, cols) && v[flat(rev[t], cols)] by {
        assert(rev[t] == path[path.len() - 1 - t]);
    }
    assert forall|t: int| 0 <= t < rev.len() - 1 implies adj(#[trigger] rev[t], rev[t + 1]) by {
        let s = path.len() - 2 - t;
        assert(adj(path[s], path[s + 1]));
        assert(rev[t] == path[s + 1] && rev[t + 1] == path[s]);
    }
    assert(is_path(v, rows, cols, rev));
    assert(rev.first() == b && rev.last() == a);
}

/// Connectivity composes end to end.
pub proof fn lemma_connected_trans(v: Seq<bool>, rows: usize, cols: usize, a: Pnt, b: Pnt, c: Pnt)
    requires
        connected(v, rows, cols, a, b),
        connected(v, rows, cols, b, c),
    ensures
        connected(v, rows, cols, a, c),
{
    let p1 = choose|p: Seq<Pnt>| is_path(v, rows, cols, p) && p.first() == a && p.last() == b;
    let p2 = choose|p: Seq<Pnt>| is_path(v, rows, cols, p) && p.first() == b && p.last() == c;
    let joined = p1 + p2.drop_first();
    assert forall|t: int| 0 <= t < joined.len() implies
        in_bounds(#[trigger] joined[t], rows, cols) && v[flat(joined[t], cols)] by {
        if t < p1.len() {
            assert(joined[t] == p1[t]);
        } else {
            assert(joined[t] == p2[t - p1.len() + 1]);
        }
    }
    assert forall|t: int| 0 <= t < joined.len() - 1 implies adj(#[trigger] joined[t], joined[t + 1]) by {
        if t < p1.len() - 1 {
            assert(joined[t] == p1[t] && joined[t + 1] == p1[t + 1]);
        } else if t == p1.len() - 1 {
            assert(joined[t] == p1[p1.len() - 1]);
            if p2.len() >= 2 {
                assert(joined[t + 1] == p2[1]);
                assert(adj(p2[0], p2[1]));
            }
        } else {
            let s = t - p1.len() + 1;
            assert(joined[t] == p2[s] && joined[t + 1] == p2[s + 1]);
            assert(adj(p2[s], p2[s + 1]));
        }
    }
    if p2.len() == 1 {
        assert(joined =~= p1);
        assert(joined.last() == b && b == c);
    } else {
        assert(joined.last() == p2[p2.len() - 1]);
    }
    assert(is_path(v, rows, cols, joined));
    assert(joined.first() == a && joined.last() == c);
}

/// Number of `false` entries of a boolean sequence; the termination measure
/// of the visited-marking traversals.
pub open spec fn count_false(s: Seq<bool>) -> nat
    decreases s.len(),
{
    if s.len() == 0 {
        0
    } else {
        count_false(s.drop_last()) + if s.last() {
            0nat
        } else {
            1nat
        }
    }
}

/// A sequence of nothing but `false` has the full measure.
pub proof fn lemma_count_false_all(s: Seq<bool>)
    requires
        forall|t: int| 0 <= t < s.len() ==> !s[t],
    ensures
        count_false(s) == s.len(),
    decreases s.len(),
{
    if s.len() > 0 {
        lemma_count_false_all(s.drop_last());
    }
}

/// The measure never exceeds the sequence's length.
pub proof fn lemma_count_false_le_len(s: Seq<bool>)
    ensures
        0 <= count_false(s) <= s.len(),
    decreases s.len(),
{
    if s.len() > 0 {
        lemma_count_false_le_len(s.drop_last());
    }
}

/// Marking one unvisited cell visited lowers the measure by exactly one.
pub proof fn lemma_count_false_update(s: Seq<bool>, i: int)
    requires
        0 <= i < s.len(),
        !s[i],
    ensures
        count_false(s.update(i, true)) == count_false(s) - 1,
    decreases s.len(),
{
    let u = s.update(i, true);
    if i == s.len() - 1 {
        assert(u.drop_last() =~= s.drop_last());
        assert(u.last());
        assert(!s.last());
    } else {
        lemma_count_false_update(s.drop_last(), i);
        assert(u.drop_last() =~= s.drop_last().update(i, true));
        assert(u.last() == s.last());
    }
}

/// Dense 2-D storage, backed by `ndarray::Array2`. The verifier never looks
/// inside; the trusted wrappers of this crate are the only operations on it.
#[verifier::external_body]
#[verifier::reject_recursive_types(T)]
pub struct Cells<T> {
    pub(crate) inner: ndarray::Array2<T>,
}

/// The elements of a boolean array, row major.
pub uninterp spec fn bool_cells(c: Cells<bool>) -> Seq<bool>;

/// The (rows, cols) shape of a boolean array.
pub uninterp spec fn bool_dims(c: Cells<bool>) -> (usize, usize);

/// The elements of a `u32` array, row major.
pub uninterp spec fn u32_cells(c: Cells<u32>) -> Seq<u32>;

/// The (rows, cols) shape of a `u32` array.
pub uninterp spec fn u32_dims(c: Cells<u32>) -> (usize, usize);

/// The elements of a `usize` array, row major.
pub uninterp spec fn usize_cells(c: Cells<usize>) -> Seq<usize>;

/// The (rows, cols) shape of a `usize` array.
pub uninterp spec fn usize_dims(c: Cells<usize>) -> (usize, usize);

/// Relies on `ndarray::Array2::from_elem`: a `rows` × `cols` array whose
/// elements are all copies of `v`, laid out row major. Panics only if the
/// element count, or the byte size of the allocation, overflows `isize`;
/// the precondition leaves room for sixteen bytes per element.
#[verifier::external_body]
fn bool_cells_filled(rows: usize, cols: usize, v: bool) -> (r: Cells<bool>)
    requires
        rows * cols <= usize::MAX / 16,
    ensures
        bool_dims(r) == (rows, cols),
        bool_cells(r) == Seq::new((rows * cols) as nat, |i: int| v),
{
    Cells { inner: ndarray::Array2::from_elem((rows, cols), v) }
}

/// Relies on `ndarray` 2-D indexing: the element at row `i`, column `j`.
#[verifier::external_body]
fn bool_cells_get(c: &Cells<bool>, i: usize, j: usize) -> (r: bool)
    requires
        i < bool_dims(*c).0,
        j < bool_dims(*c).1,
    ensures
        r == bool_cells(*c)[i * bool_dims(*c).1 + j],
{
    c.inner[(i, j)]
}

/// Relies on `ndarray` 2-D index assignment: replaces the element at row
/// `i`, column `j` and leaves everything else unchanged.
#[verifier::external_body]
fn bool_cells_set(c: &mut Cells<bool>, i: usize, j: usize, v: bool)
    requires
        i < bool_dims(*old(c)).0,
        j < bool_dims(*old(c)).1,
    ensures
        bool_dims(*final(c)) == bool_dims(*old(c)),
        bool_cells(*final(c)) == bool_cells(*old(c)).update(
            i * bool_dims(*old(c)).1 + j,
            v,
        ),
{
    c.inner[(i, j)] = v;
}

/// Relies on `ndarray::ArrayBase::clone`: an identical copy of the array.
#[verifier::external_body]
fn bool_cells_clone(c: &Cells<bool>) -> (r: Cells<bool>)
    ensures
        bool_dims(r) == bool_dims(*c),
        bool_cells(r) == bool_cells(*c),
{
    Cells { inner: c.inner.clone() }
}

/// Relies on `ndarray::Array2::from_elem`, as the boolean variant does.
#[verifier::external_body]
fn u32_cells_filled(rows: usize, cols: usize, v: u32) -> (r: Cells<u32>)
    requires
        rows * cols <= usize::MAX / 16,
    ensures
        u32_dims(r) == (rows, cols),
        u32_cells(r) == Seq::new((rows * cols) as nat, |i: int| v),
{
    Cells { inner: ndarray::Array2::from_elem((rows, cols), v) }
}

/// Relies on `ndarray` 2-D indexing: the element at row `i`, column `j`.
#[verifier::external_body]
fn u32_cells_get(c: &Cells<u32>, i: usize, j: usize) -> (r: u32)
    requires
        i < u32_dims(*c).0,
        j < u32_dims(*c).1,
    ensures
        r == u32_cells(*c)[i * u32_dims(*c).1 + j],
{
    c.inner[(i, j)]
}

/// Relies on `ndarray` 2-D index assignment, as the boolean variant does.
#[verifier::external_body]
fn u32_cells_set(c: &mut Cells<u32>, i: usize, j: usize, v: u32)
    requires
        i < u32_dims(*old(c)).0,
        j < u32_dims(*old(c)).1,
    ensures
        u32_dims(*final(c)) == u32_dims(*old(c)),
        u32_cells(*final(c)) == u32_cells(*old(c)).update(
            i * u32_dims(*old(c)).1 + j,
            v,
        ),
{
    c.inner[(i, j)] = v;
}

/// Relies on `ndarray::Array2::from_elem`, as the boolean variant does.
#[verifier::external_body]
fn usize_cells_filled(rows: usize, cols: usize, v: usize) -> (r: Cells<usize>)
    requires
        rows * cols <= usize::MAX / 16,
    ensures
        usize_dims(r) == (rows, cols),
        usize_cells(r) == Seq::new((rows * cols) as nat, |i: int| v),
{
    Cells { inner: ndarray::Array2::from_elem((rows, cols), v) }
}

/// Relies on `ndarray` 2-D indexing: the element at row `i`, column `j`.
#[verifier::external_body]
fn usize_cells_get(c: &Cells<usize>, i: usize, j: usize) -> (r: usize)
    requires
        i < usize_dims(*c).0,
        j < usize_dims(*c).1,
    ensures
        r == usize_cells(*c)[i * usize_dims(*c).1 + j],
{
    c.inner[(i, j)]
}

/// Relies on `ndarray` 2-D index assignment, as the boolean variant does.
#[verifier::external_body]
fn usize_cells_set(c: &mut Cells<usize>, i: usize, j: usize, v: usize)
    requires
        i < usize_dims(*old(c)).0,
        j < usize_dims(*old(c)).1,
    ensures
        usize_dims(*final(c)) == usize_dims(*old(c)),
        usize_cells(*final(c)) == usize_cells(*old(c)).update(
            i * usize_dims(*old(c)).1 + j,
            v,
        ),
{
    c.inner[(i, j)] = v;
}

/// A rectangular grid of scalar values with its dimensions tracked
/// alongside the opaque storage.
#[verifier::reject_recursive_types(T)]
pub struct Matrix<T> {
    pub rows: usize,
    pub cols: usize,
    pub cells: Cells<T>,
}

impl View for Matrix<bool> {
    type V = Seq<bool>;

    open spec fn view(&self) -> Seq<bool> {
        bool_cells(self.cells)
    }
}

impl View for Matrix<u32> {
    type V = Seq<u32>;

    open spec fn view(&self) -> Seq<u32> {
        u32_cells(self.cells)
    }
}

impl View for Matrix<usize> {
    type V = Seq<usize>;

    open spec fn view(&self) -> Seq<usize> {
        usize_cells(self.cells)
    }
}

impl Matrix<bool> {
    /// The stored dimensions agree with the storage and the element count
    /// fits comfortably in a `usize`.
    pub open spec fn wf(self) -> bool {
        bool_dims(self.cells) == (self.rows, self.cols)
        && self@.len() == self.rows * self.cols
        && self.rows * self.cols <= usize::MAX / 16
    }

    /// A `rows` × `cols` grid with every cell set to `v`.
    pub fn filled(rows: usize, cols: usize, v: bool) -> (r: Self)
        requires
            rows * cols <= usize::MAX / 16,
        ensures
            r.wf(),
            r.rows == rows,
            r.cols == cols,
            r@ == Seq::new((rows * cols) as nat, |i: int| v),
    {
        let cells = bool_cells_filled(rows, cols, v);
        Matrix { rows, cols, cells }
    }

    /// The value stored at `p`.
    pub fn get(&self, p: Pnt) -> (r: bool)
        requires
            self.wf(),
            in_bounds(p, self.rows, self.cols),
        ensures
            r == self@[flat(p, self.cols)],
    {
        bool_cells_get(&self.cells, p.0, p.1)
    }

    /// Replaces the value stored at `p`.
    pub fn set(&mut self, p: Pnt, v: bool)
        requires
            old(self).wf(),
            in_bounds(p, old(self).rows, old(self).cols),
        ensures
            final(self).wf(),
            final(self).rows == old(self).rows,
            final(self).cols == old(self).cols,
            final(self)@ == old(self)@.update(flat(p, old(self).cols), v),
    {
        proof {
            lemma_flat_in_range(p, self.rows, self.cols);
        }
        bool_cells_set(&mut self.cells, p.0, p.1, v)
    }

    /// An independent copy of the grid.
    pub fn duplicate(&self) -> (r: Self)
        requires
            self.wf(),
        ensures
            r.wf(),
            r.rows == self.rows,
            r.cols == self.cols,
            r@ == self@,
    {
        let cells = bool_cells_clone(&self.cells);
        Matrix { rows: self.rows, cols: self.cols, cells }
    }
}

impl Matrix<u32> {
    /// The stored dimensions agree with the storage and the element count
    /// fits comfortably in a `usize`.
    pub open spec fn wf(self) -> bool {
        u32_dims(self.cells) == (self.rows, self.cols)
        && self@.len() == self.rows * self.cols
        && self.rows * self.cols <= usize::MAX / 16
    }

    /// A `rows` × `cols` grid with every cell set to `v`.
    pub fn filled(rows: usize, cols: usize, v: u32) -> (r: Self)
        requires
            rows * cols <= usize::MAX / 16,
        ensures
            r.wf(),
            r.rows == rows,
            r.cols == cols,
            r@ == Seq::new((rows * cols) as nat, |i: int| v),
    {
        let cells = u32_cells_filled(rows, cols, v);
        Matrix { rows, cols, cells }
    }

    /// The value stored at `p`.
    pub fn get(&self, p: Pnt) -> (r: u32)
        requires
            self.wf(),
            in_bounds(p, self.rows, self.cols),
        ensures
            r == self@[flat(p, self.cols)],
    {
        u32_cells_get(&self.cells, p.0, p.1)
    }

    /// Replaces the value stored at `p`.
    pub fn set(&mut self, p: Pnt, v: u32)
        requires
            old(self).wf(),
            in_bounds(p, old(self).rows, old(self).cols),
        ensures
            final(self).wf(),
            final(self).rows == old(self).rows,
            final(self).cols == old(self).cols,
            final(self)@ == old(self)@.update(flat(p, old(self).cols), v),
    {
        proof {
            lemma_flat_in_range(p, self.rows, self.cols);
        }
        u32_cells_set(&mut self.cells, p.0, p.1, v)
    }
}

impl Matrix<usize> {
    /// The stored dimensions agree with the storage and the element count
    /// fits comfortably in a `usize`.
    pub open spec fn wf(self) -> bool {
        usize_dims(self.cells) == (self.rows, self.cols)
        && self@.len() == self.rows * self.cols
        && self.rows * self.cols <= usize::MAX / 16
    }

    /// A `rows` × `cols` grid with every cell set to `v`.
    pub fn filled(rows: usize, cols: usize, v: usize) -> (r: Self)
        requires
            rows * cols <= usize::MAX / 16,
        ensures
            r.wf(),
            r.rows == rows,
            r.cols == cols,
            r@ == Seq::new((rows * cols) as nat, |i: int| v),
    {
        let cells = usize_cells_filled(rows, cols, v);
        Matrix { rows, cols, cells }
    }

    /// The value stored at `p`.
    pub fn get(&self, p: Pnt) -> (r: usize)
        requires
            self.wf(),
            in_bounds(p, self.rows, self.cols),
        ensures
            r == self@[flat(p, self.cols)],
    {
        usize_cells_get(&self.cells, p.0, p.1)
    }

    /// Replaces the value stored at `p`.
    pub fn set(&mut self, p: Pnt, v: usize)
        requires
            old(self).wf(),
            in_bounds(p, old(self).rows, old(self).cols),
        ensures
            final(self).wf(),
            final(self).rows == old(self).rows,
            final(self).cols == old(self).cols,
            final(self)@ == old(self)@.update(flat(p, old(self).cols), v),
    {
        proof {
            lemma_flat_in_range(p, self.rows, self.cols);
        }
        usize_cells_set(&mut self.cells, p.0, p.1, v)
    }
}

} // verus!
