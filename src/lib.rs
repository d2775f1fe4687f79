//! Directory listing pages for a static mirror: human-readable sizes,
//! deterministic entry ordering and the HTML page around them.

pub mod order;
pub mod page;
pub mod size;
pub mod timestamp;
