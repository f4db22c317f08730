use vstd::prelude::*;

pub mod pbf;
pub mod strings;
pub mod window;
pub mod wire;

pub use pbf::{BlockIndex, BlockType, PbfError};
pub use strings::StringTable;
pub use window::OrderedWindow;

verus! {

} // verus!
