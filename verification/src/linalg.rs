//! The non-numeric parts of `numpy.linalg`: QR modes, norm axes, axis
//! normalization and the least-squares result.
use vstd::prelude::*;

use crate::dtype_info::str_eq;
use crate::nd::NdArray;

verus! {

/// Which factors `qr` returns.
#[derive(Clone, Copy, Debug, PartialEq, Eq, Structural)]
pub enum QrMode {
    /// `Q (m x k)`, `R (k x n)` where `k = min(m, n)`; numpy's default.
    Reduced,
    /// `Q (m x m)`, `R (m x n)`.
    Complete,
    /// Just `R (k x n)`.
    R,
}

/// The mode a name selects: `"reduced"`, `"complete"` or `"r"`.
pub open spec fn spec_parse_qr_mode(s: Seq<char>) -> Option<QrMode> {
    if s == "reduced"@ {
        Some(QrMode::Reduced)
    } else if s == "complete"@ {
        Some(QrMode::Complete)
    } else if s == "r"@ {
        Some(QrMode::R)
    } else {
        None
    }
}

impl QrMode {
    /// `parse`: the mode named by `s`, if any.
    pub fn parse(s: &str) -> (r: Option<QrMode>)
        ensures
            r == spec_parse_qr_mode(s@),
    {
        if str_eq(s, "reduced") {
            Some(QrMode::Reduced)
        } else if str_eq(s, "complete") {
            Some(QrMode::Complete)
        } else if str_eq(s, "r") {
            Some(QrMode::R)
        } else {
            None
        }
    }
}

/// The axes a norm is taken over: one (vector norm) or two (matrix norm).
#[derive(Clone, Copy, Debug, PartialEq, Eq, Structural)]
pub enum NormAxis {
    Single(isize),
    Pair(isize, isize),
}

/// An axis number outside the array's dimensions.
#[derive(Clone, Copy, Debug, PartialEq, Eq, Structural)]
pub struct AxisError {
    pub axis: isize,
    pub ndim: usize,
}

/// The axis that `ax` names in an array of `nd` dimensions (negative
/// numbers count from the end), if it names one.
pub open spec fn spec_normalize_axis(ax: int, nd: int) -> Option<int> {
    let actual = if ax < 0 { ax + nd } else { ax };
    if actual < 0 || actual >= nd { None } else { Some(actual) }
}

/// `normalize_axis`: the axis `ax` names, or an error naming the axis and
/// the number of dimensions.
pub fn normalize_axis(ax: isize, nd: usize) -> (r: Result<usize, AxisError>)
    requires
        nd <= isize::MAX,
    ensures
        match r {
            Ok(a) => spec_normalize_axis(ax as int, nd as int) == Some(a as int),
            Err(e) => spec_normalize_axis(ax as int, nd as int) is None && e == (AxisError { axis: ax, ndim: nd }),
        },
{
    let nd_i = nd as isize;
    let actual: isize = if ax < 0 { ax + nd_i } else { ax };
    if actual < 0 || actual >= nd_i {
        return Err(AxisError { axis: ax, ndim: nd });
    }
    Ok(actual as usize)
}

/// The result of a least-squares solve: the solution, the residual sums of
/// squares, the rank of the matrix and its singular values.
pub struct LstsqResult<T> {
    pub solution: NdArray<T>,
    pub residuals: NdArray<T>,
    pub rank: i64,
    pub singular: NdArray<T>,
}

} // verus!
