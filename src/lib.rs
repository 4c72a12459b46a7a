//! Parsing and ordering of artifact version strings.
//!
//! A version string is split into segments of items (numbers and words), which are then ordered
//! by a fixed set of rules: trailing zeros do not count, some qualifiers such as `alpha` or
//! `snapshot` come before a release and others after it, and numbers of any size compare by
//! value.

pub mod item;
pub mod segment;
pub mod comparable_version;
pub mod artifact_version;
pub mod text;

pub use item::{Item, ItemModel};
pub use segment::{Segment, SegmentModel};
pub use artifact_version::ArtifactVersion;
pub use comparable_version::ComparableVersion;
pub use text::lower_of;
