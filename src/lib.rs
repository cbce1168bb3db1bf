//! Tile backdrop accumulation for a vector-graphics rasterizer, with the
//! resource-binding layer that drives it from positional byte slots laid
//! out exactly as the compute shader's buffers.

pub mod wire;
pub mod kernel;
pub mod binding;
pub mod laws;
pub mod select;

pub use binding::backdrop;
pub use binding::CpuBinding;
pub use kernel::backdrop_main;
pub use kernel::BackdropError;
pub use wire::Config;
pub use wire::PathDesc;
pub use wire::Tile;
