//! The interface that every tile transform implements.
use vstd::prelude::*;
use crate::tile::{TileData, TransformError};

verus! {

/// The result of a transform, with the tiles taken as a sequence.
pub open spec fn seq_result(r: Result<Vec<TileData>, TransformError>) -> Result<
    Seq<TileData>,
    TransformError,
> {
    match r {
        Ok(v) => Ok(v@),
        Err(e) => Err(e),
    }
}

/// A transform from a sequence of tiles to a sequence of tiles.
///
/// An implementation states, through `transforms_to`, which results it may
/// give for which input; `transform` gives one of them.
pub trait TileTransform: Send + Sync {
    /// The name the transform reports, where the implementation states it.
    open spec fn spec_name(&self) -> Option<Seq<char>> {
        None
    }

    /// `result` is what the transform may give for `input`; an implementation
    /// that does not state it promises nothing.
    open spec fn transforms_to(
        &self,
        input: Seq<TileData>,
        result: Result<Seq<TileData>, TransformError>,
    ) -> bool {
        true
    }

    /// The name the transform reports.
    fn name(&self) -> (r: &str)
        ensures
            self.spec_name() matches Some(n) ==> r@ == n,
    ;

    /// Runs the transform on `tiles`.
    fn transform(&self, tiles: Vec<TileData>) -> (r: Result<Vec<TileData>, TransformError>)
        ensures
            self.transforms_to(tiles@, seq_result(r)),
    ;
}

} // verus!
