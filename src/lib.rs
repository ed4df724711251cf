//! Packs many small geometries into two shared, growable GPU buffers so that
//! they draw with a single indexed draw call.
pub mod batch;
pub mod calc;
pub mod device;
pub mod mesh;
pub mod span;

pub use batch::{BatchRenderer, Idx};
pub use calc::{inherit_offset, inherit_size, BaseOffset, BaseSize, GuiCalc, SelfSize, WidgetLayout};
pub use device::{Command, RESTART_INDEX};
pub use mesh::{Mesh, TriangleStrip};
pub use span::{BufferAlloc, SpanAllocator};
