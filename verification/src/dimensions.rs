//! Reconciles the sizes of the channel maps that were loaded for one material.
//!
//! Maps are never resized: either all of them share one size, or the
//! material fails.

use crate::text::{decimal, decimal_string};
use vstd::prelude::*;
use vstd::string::*;

verus! {

/// Why a set of channel maps has no common size.
#[derive(Clone, Copy, Debug, PartialEq, Eq)]
pub enum DimensionError {
    /// No map was loaded, so there is no size to composite at.
    NoInputMaps,
    /// Two loaded maps differ in size: `expected` is the size of the first
    /// map, `found` the size of the first map that differs from it.
    Mismatch { expected: (u32, u32), found: (u32, u32) },
}

/// Every size in `dims` equals `d`.
pub open spec fn all_equal(dims: Seq<(u32, u32)>, d: (u32, u32)) -> bool {
    forall|i: int| 0 <= i < dims.len() ==> #[trigger] dims[i] == d
}

/// `k` is the position of the first size in `dims` that differs from the first one.
pub open spec fn first_conflict(dims: Seq<(u32, u32)>, k: int) -> bool {
    &&& 0 < k < dims.len()
    &&& dims[k] != dims[0]
    &&& forall|i: int| 0 <= i < k ==> #[trigger] dims[i] == dims[0]
}

/// The size that all of `dims` share, or why there is none.
pub open spec fn reconciled(dims: Seq<(u32, u32)>) -> Result<(u32, u32), DimensionError> {
    if dims.len() == 0 {
        Err(DimensionError::NoInputMaps)
    } else if all_equal(dims, dims[0]) {
        Ok(dims[0])
    } else {
        let k = choose|k: int| first_conflict(dims, k);
        Err(DimensionError::Mismatch { expected: dims[0], found: dims[k] })
    }
}

/// Only one position is the first conflict.
pub proof fn lemma_first_conflict_unique(dims: Seq<(u32, u32)>, j: int, k: int)
    requires
        first_conflict(dims, j),
        first_conflict(dims, k),
    ensures
        j == k,
{
    if j < k {
        assert(dims[j] == dims[0]);
    }
    if k < j {
        assert(dims[k] == dims[0]);
    }
}

/// The common size of the loaded maps, given as `(width, height)` pairs in
/// channel order. Fails if there is no map, or if two maps differ.
pub fn validate_dimensions(dimensions: &[(u32, u32)]) -> (res: Result<(u32, u32), DimensionError>)
    ensures
        res == reconciled(dimensions@),
        res is Ok <==> dimensions@.len() > 0 && all_equal(dimensions@, dimensions@[0]),
        res == Err::<(u32, u32), DimensionError>(DimensionError::NoInputMaps) <==> dimensions@.len()
            == 0,
{
    if dimensions.len() == 0 {
        return Err(DimensionError::NoInputMaps);
    }
    let first = dimensions[0];
    let mut i: usize = 1;
    while i < dimensions.len()
        invariant
            1 <= i <= dimensions@.len(),
            first == dimensions@[0],
            forall|j: int| 0 <= j < i ==> #[trigger] dimensions@[j] == first,
        decreases dimensions@.len() - i,
    {
        let d = dimensions[i];
        if d.0 != first.0 || d.1 != first.1 {
            proof {
                assert(first_conflict(dimensions@, i as int));
                let k = choose|k: int| first_conflict(dimensions@, k);
                lemma_first_conflict_unique(dimensions@, i as int, k);
            }
            return Err(DimensionError::Mismatch { expected: first, found: d });
        }
        i += 1;
    }
    Ok(first)
}

/// Two sizes that differ make the set fail, wherever they stand in it.
pub proof fn lemma_mismatch_fails(dims: Seq<(u32, u32)>, i: int, j: int)
    requires
        0 <= i < dims.len(),
        0 <= j < dims.len(),
        dims[i] != dims[j],
    ensures
        reconciled(dims) matches Err(DimensionError::Mismatch { expected, found }) && expected
            == dims[0] && found != expected,
{
    assert(!all_equal(dims, dims[0]));
    let k = lemma_first_conflict_exists(dims, dims.len() as int);
    let c = choose|c: int| first_conflict(dims, c);
    lemma_first_conflict_unique(dims, k, c);
}

/// Where the first `n` sizes are not all equal to the first one, one of them
/// is the first to differ.
proof fn lemma_first_conflict_exists(dims: Seq<(u32, u32)>, n: int) -> (k: int)
    requires
        0 <= n <= dims.len(),
        exists|i: int| 0 <= i < n && #[trigger] dims[i] != dims[0],
    ensures
        first_conflict(dims, k),
        k < n,
    decreases n,
{
    if exists|i: int| 0 <= i < n - 1 && #[trigger] dims[i] != dims[0] {
        lemma_first_conflict_exists(dims, n - 1)
    } else {
        n - 1
    }
}

/// A size as text: `(width, height)`.
pub open spec fn size_text(d: (u32, u32)) -> Seq<char> {
    "("@ + decimal(d.0 as nat) + ", "@ + decimal(d.1 as nat) + ")"@
}

/// The diagnostic for a failure; a mismatch names both sizes.
pub open spec fn message_of(e: DimensionError) -> Seq<char> {
    match e {
        DimensionError::NoInputMaps => "No input maps were provided."@,
        DimensionError::Mismatch { expected, found } => "Input maps have inconsistent dimensions: "@
            + size_text(expected) + " and "@ + size_text(found),
    }
}

fn append_size(text: &mut String, d: (u32, u32))
    ensures
        final(text)@ == old(text)@ + size_text(d),
{
    text.append("(");
    text.append(decimal_string(d.0).as_str());
    text.append(", ");
    text.append(decimal_string(d.1).as_str());
    text.append(")");
    assert(text@ =~= old(text)@ + size_text(d));
}

impl DimensionError {
    /// The diagnostic for this failure.
    pub fn message(&self) -> (text: String)
        ensures
            text@ == message_of(*self),
    {
        match self {
            DimensionError::NoInputMaps => String::from_str("No input maps were provided."),
            DimensionError::Mismatch { expected, found } => {
                let mut text = String::from_str("Input maps have inconsistent dimensions: ");
                append_size(&mut text, *expected);
                text.append(" and ");
                append_size(&mut text, *found);
                text
            },
        }
    }
}

} // verus!
