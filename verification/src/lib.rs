//! Geometry, planning and batching of block-stored tensors.

pub mod backend;
pub mod batch_laws;
pub mod batches;
pub mod binary;
pub mod copy;
pub mod copy_laws;
pub mod element;
pub mod element_laws;
pub mod error;
pub mod expression;
pub mod geometry;
pub mod groups;
pub mod index_page;
pub mod inline;
pub mod mapping;
pub mod matmul;
pub mod matmul_laws;
pub mod matmul_plan;
pub mod matrix;
pub mod metadata;
pub mod occupied;
pub mod range_laws;
pub mod read;
pub mod reduce;
pub mod reduce_laws;
pub mod regions;
pub mod request;
pub mod request_laws;
pub mod room;
pub mod scalar;
pub mod schema;
pub mod selection;
pub mod slice;
pub mod slice_laws;
pub mod slice_plan;
pub mod sorted;
pub mod storage_laws;
pub mod storage_read;
pub mod tensor;
pub mod traits;
pub mod transform;
pub mod transform_laws;
pub mod unary;
pub mod validate;
pub mod view;
pub mod view_laws;
pub mod write;
pub mod write_through;

pub use error::{Error, Result};
pub use inline::{Axes, AxisRange, Coord, Range, Shape, Strides};
