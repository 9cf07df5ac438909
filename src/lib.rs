//! Media discovery: file classification, tag and cover extraction, and
//! ordered track and background listings over walked directory entries.

pub mod backgrounds;
pub mod classify;
pub mod laws;
pub mod names;
pub mod order;
pub mod scan;
pub mod tags;

pub use backgrounds::BackgroundImage;
pub use scan::Track;
pub use tags::CoverArt;
