//! Replays OpenStreetMap edit history as a sequence of git commits: the
//! parsers for the two OSM dialects, the object store's file operations, the
//! grouping of deltas by changeset and the content of each commit.
pub mod changesets;
pub mod codec;
pub mod commit;
pub mod events;
pub mod objects;
pub mod replay;
pub mod sequence;
pub mod tags;
pub mod text;
pub mod xml;
