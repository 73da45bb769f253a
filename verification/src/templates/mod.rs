//! The dataflow primitive blocks.

pub mod endpoints;
pub mod flatmap;
pub mod map;
pub mod matmul;
pub mod reduce;
pub mod repeat;
pub mod scan;
pub mod types;
pub mod zip;

pub use endpoints::{ConsumerContext, GeneratorContext};
pub use flatmap::{Flatmap, FlatmapOp, FlatmapTimings};
pub use map::{MapBlock, MapOp, MapTimings};
pub use matmul::{Matmul, MatmulBehavior, MatmulTiming, ShapeInfo};
pub use reduce::{Reduce, ReduceOp, ReduceTimings};
pub use repeat::Repeat;
pub use scan::{Scan, ScanOp, ScanTimings};
pub use types::{BroadcastSender, Receiver, Sender};
pub use zip::Zip;
