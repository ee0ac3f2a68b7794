use crate::binary32::Binary32;
use vstd::prelude::*;

verus! {

/// A two-dimensional array of single-precision numbers, held as their bits.
///
/// The array stands in a field that Verus does not look into: it takes no declaration of
/// `ndarray`'s array type, whose element type is bound through its storage.
#[verifier::external_body]
#[derive(Debug)]
pub struct Matrix {
    values: ndarray::Array2<u32>,
}

/// The rows of a matrix, from the first, each from its first column.
pub uninterp spec fn matrix_rows(m: Matrix) -> Seq<Seq<u32>>;

/// The number of columns of a matrix, which it has even without rows.
pub uninterp spec fn matrix_columns(m: Matrix) -> nat;

/// A four-dimensional array of single-precision numbers, held as their bits, in a field as that of
/// [`Matrix`].
#[verifier::external_body]
#[derive(Debug)]
pub struct Tensor {
    values: ndarray::Array4<u32>,
}

/// What a tensor holds at each of its indices. An index outside its shape is not in the domain.
pub uninterp spec fn tensor_elements(t: Tensor) -> Map<(int, int, int, int), u32>;

/// The error of `ndarray` for data that does not fill a shape.
#[verifier::external_type_specification]
#[verifier::external_body]
pub struct ExShapeError(ndarray::ShapeError);

/// An axis length as it counts towards the size limit of a shape.
pub open spec fn counted(length: int) -> int {
    if length == 0 {
        1
    } else {
        length
    }
}

/// The product of the axis lengths that are not 0 fits `isize`.
pub open spec fn shape_fits(rows: int, columns: int) -> bool {
    counted(rows) * counted(columns) <= isize::MAX
}

/// Values cut into rows.
pub open spec fn rows_of(values: Seq<u32>, rows: nat, columns: nat) -> Seq<Seq<u32>> {
    Seq::new(rows, |i: int| values.subrange(i * columns, (i + 1) * columns))
}

/// Every index within the shape, at 0.
pub open spec fn zeros_of(a: int, b: int, c: int, d: int) -> Map<(int, int, int, int), u32> {
    Map::new(
        |k: (int, int, int, int)| in_shape(k, a, b, c, d),
        |k: (int, int, int, int)| 0u32,
    )
}

/// Calls `ndarray::Array2::from_shape_vec` with a row-major shape. It succeeds exactly where the
/// shape is within the size limit and the vector fills it; the array then has that shape, and the
/// vector is cut into its rows.
#[verifier::external_body]
fn matrix_from_shape_vec(rows: usize, columns: usize, values: Vec<u32>) -> (r: Result<Matrix, ndarray::ShapeError>)
    ensures
        r is Ok <==> (rows * columns == values@.len() && shape_fits(rows as int, columns as int)),
        r matches Ok(m) ==> matrix_rows(m) == rows_of(values@, rows as nat, columns as nat),
        r matches Ok(m) ==> matrix_columns(m) == columns,
{
    ndarray::Array2::from_shape_vec((rows, columns), values).map(|values| Matrix { values })
}

/// Calls `nrows` of `ndarray::Array2`: the number of rows.
#[verifier::external_body]
fn matrix_nrows(m: &Matrix) -> (r: usize)
    ensures
        r == matrix_rows(*m).len(),
{
    m.values.nrows()
}

/// Indexes an `ndarray::Array2` by row and column, within its shape.
#[verifier::external_body]
fn matrix_index(m: &Matrix, row: usize, column: usize) -> (r: u32)
    requires
        row < matrix_rows(*m).len(),
        column < matrix_rows(*m)[row as int].len(),
    ensures
        r == matrix_rows(*m)[row as int][column as int],
{
    m.values[[row, column]]
}

/// Calls `ndarray::Array4::zeros`: every element within the shape is 0. The bits of the number 0
/// are 0 too. The elements' bytes must fit `isize`, or the call panics.
#[verifier::external_body]
fn tensor_zeros(a: usize, b: usize, c: usize, d: usize) -> (r: Tensor)
    requires
        0 < a && 0 < b && 0 < c && 0 < d,
        4 * (a * b * c * d) <= isize::MAX,
    ensures
        tensor_elements(r) == zeros_of(a as int, b as int, c as int, d as int),
{
    Tensor { values: ndarray::Array4::zeros((a, b, c, d)) }
}

/// Indexes an `ndarray::Array4`, within its shape.
#[verifier::external_body]
fn tensor_index(t: &Tensor, a: usize, b: usize, c: usize, d: usize) -> (r: u32)
    requires
        tensor_elements(*t).dom().contains((a as int, b as int, c as int, d as int)),
    ensures
        r == tensor_elements(*t)[(a as int, b as int, c as int, d as int)],
{
    t.values[[a, b, c, d]]
}

/// Assigns to an indexed element of an `ndarray::Array4`, within its shape. No other element
/// changes.
#[verifier::external_body]
fn tensor_index_assign(t: &mut Tensor, a: usize, b: usize, c: usize, d: usize, value: u32)
    requires
        tensor_elements(*old(t)).dom().contains((a as int, b as int, c as int, d as int)),
    ensures
        tensor_elements(*final(t)) == tensor_elements(*old(t)).insert(
            (a as int, b as int, c as int, d as int),
            value,
        ),
{
    t.values[[a, b, c, d]] = value;
}

/// An index is within the shape.
pub open spec fn in_shape(k: (int, int, int, int), a: int, b: int, c: int, d: int) -> bool {
    0 <= k.0 < a && 0 <= k.1 < b && 0 <= k.2 < c && 0 <= k.3 < d
}

impl View for Matrix {
    type V = Seq<Seq<u32>>;

    open spec fn view(&self) -> Seq<Seq<u32>> {
        matrix_rows(*self)
    }
}

impl View for Tensor {
    type V = Map<(int, int, int, int), u32>;

    open spec fn view(&self) -> Map<(int, int, int, int), u32> {
        tensor_elements(*self)
    }
}

impl Matrix {
    /// The number of columns, which a matrix has even without rows.
    pub open spec fn columns(self) -> nat {
        matrix_columns(self)
    }

    /// The matrix of the given shape, filled row by row; `None` where the values do not fill it.
    pub fn from_rows(rows: usize, columns: usize, values: Vec<u32>) -> (r: Option<Matrix>)
        ensures
            r is Some <==> rows * columns == values@.len() && shape_fits(rows as int, columns as int),
            r matches Some(m) ==> m@ == rows_of(values@, rows as nat, columns as nat),
            r matches Some(m) ==> m.columns() == columns,
    {
        match matrix_from_shape_vec(rows, columns, values) {
            Ok(m) => Some(m),
            Err(_) => None,
        }
    }

    /// The number of rows.
    pub fn row_count(&self) -> (r: usize)
        ensures
            r == self@.len(),
    {
        matrix_nrows(self)
    }

    /// The number at a row and a column.
    pub fn at(&self, row: usize, column: usize) -> (r: Binary32)
        requires
            row < self@.len(),
            column < self@[row as int].len(),
        ensures
            r.bits == self@[row as int][column as int],
    {
        Binary32::from_bits(matrix_index(self, row, column))
    }
}

impl Tensor {
    /// A tensor of zeros.
    pub fn zeros(a: usize, b: usize, c: usize, d: usize) -> (r: Tensor)
        requires
            0 < a && 0 < b && 0 < c && 0 < d,
            4 * (a * b * c * d) <= isize::MAX,
        ensures
            r@ == zeros_of(a as int, b as int, c as int, d as int),
    {
        tensor_zeros(a, b, c, d)
    }

    /// The number at an index.
    pub fn at(&self, a: usize, b: usize, c: usize, d: usize) -> (r: Binary32)
        requires
            self@.dom().contains((a as int, b as int, c as int, d as int)),
        ensures
            r.bits == self@[(a as int, b as int, c as int, d as int)],
    {
        Binary32::from_bits(tensor_index(self, a, b, c, d))
    }

    /// Puts a number at an index.
    pub fn set(&mut self, a: usize, b: usize, c: usize, d: usize, value: Binary32)
        requires
            old(self)@.dom().contains((a as int, b as int, c as int, d as int)),
        ensures
            final(self)@ == old(self)@.insert((a as int, b as int, c as int, d as int), value.bits),
    {
        tensor_index_assign(self, a, b, c, d, value.bits)
    }
}

} // verus!
