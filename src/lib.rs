//! A typed, queryable model of an Xcode project file (`project.pbxproj`):
//! a flat table of nodes keyed by opaque identifiers, with read-only
//! navigation over it.
pub mod objects;
pub mod table;
pub mod walk;
