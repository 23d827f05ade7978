//! Tile transforms: composable, trackable operations on sequences of tiles.
//!
//! Every built-in transform states, through `TileTransform::transforms_to`,
//! exactly which tiles it gives for which input.
pub mod arith;
pub mod base64;
pub mod filter;
pub mod group;
pub mod map;
pub mod pipeline;
pub mod select;
pub mod sort;
pub mod string_map;
pub mod text;
pub mod tile;
pub mod transform;

pub use base64::{base64_decode_bytes, base64_encode, base64_encode_bytes};
pub use filter::{FilterOp, FilterTransform};
pub use group::{ChunkTransform, FlattenTransform};
pub use map::{MapOp, MapTransform};
pub use pipeline::{PipelineTransform, StageRecord, TransformChain};
pub use select::{DeduplicateTransform, HeadTransform, SampleTransform, TailTransform};
pub use sort::SortTransform;
pub use string_map::StringMap;
pub use tile::{TileData, TransformError, TransformSpec};
pub use transform::TileTransform;
