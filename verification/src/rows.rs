//! Row-parallel processing of an image.
//!
//! An image is cut into rows of equal width and each row is handed, with its
//! number, to a row kernel. A kernel writes its own row only and reads
//! nothing that another row's kernel writes, so the rows can be worked on by
//! several threads at once.

use vstd::prelude::*;
use rayon::iter::IndexedParallelIterator;
use rayon::iter::ParallelIterator;
use rayon::slice::ParallelSliceMut;

verus! {

/// Work that is done on one row of an image at a time.
pub trait RowKernel {
    /// The kernel can be run on row number `y` holding `row`.
    spec fn accepts(&self, y: int, row: Seq<u32>) -> bool;

    /// Run on row number `y` holding `before`, the kernel leaves `after`.
    spec fn produces(&self, y: int, before: Seq<u32>, after: Seq<u32>) -> bool;

    /// Rewrites one row in place.
    fn apply(&self, y: usize, row: &mut [u32])
        requires
            self.accepts(y as int, old(row)@),
        ensures
            self.produces(y as int, old(row)@, final(row)@),
    ;
}

/// Row number `y` of an image `width` pixels wide.
pub open spec fn row_at(image: Seq<u32>, width: int, y: int) -> Seq<u32> {
    image.subrange(y * width, y * width + width)
}

/// Runs `kernel` once on every row of `image`, the rows spread over rayon's
/// thread pool.
///
/// Stands for `par_chunks_mut(width).enumerate().for_each(..)` of the rayon
/// crate: the slice is cut into consecutive chunks of `width` elements that do
/// not overlap, each chunk is paired with its position, and the closure is
/// called once for every pair; the call returns when all of them are done.
/// The contract claims just that, for an image that is a whole number of rows:
/// each row ends as the kernel leaves it when run on that row's old content.
#[verifier::external_body]
pub(crate) fn for_each_row<K: RowKernel + Sync>(image: &mut [u32], width: usize, kernel: &K)
    requires
        width > 0,
        (old(image)@.len() as int) % (width as int) == 0,
        forall|y: int|
            0 <= y < (old(image)@.len() as int) / (width as int) ==> kernel.accepts(
                y,
                #[trigger] row_at(old(image)@, width as int, y),
            ),
    ensures
        final(image)@.len() == old(image)@.len(),
        forall|y: int|
            0 <= y < (old(image)@.len() as int) / (width as int) ==> kernel.produces(
                y,
                row_at(old(image)@, width as int, y),
                #[trigger] row_at(final(image)@, width as int, y),
            ),
{
    image.par_chunks_mut(width).enumerate().for_each(|(y, row)| kernel.apply(y, row));
}

} // verus!
