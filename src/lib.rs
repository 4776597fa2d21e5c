//! Resolution and installation planning for Android SDK components: a package
//! catalog read from the repository's XML manifest, the transitive closure of
//! requested components, archive selection for the host platform, and the
//! per-entry plan for unpacking each archive into the SDK directory layout.
pub mod archive;
pub mod catalog;
pub mod extract;
pub mod filter;
pub mod paths;
pub mod resolve;
pub mod select;
pub mod text;
pub mod xml;

pub use filter::MatchType;
pub use select::HostOs;
