//! A small version-control engine: a content-addressed object store,
//! snapshots of a directory as tree objects, commits, references, and the
//! difference between two trees.
//!
//! The library works on values: a [`data::Repository`] holds the objects
//! and the references, an [`entry::Node`] stands for a file or a
//! directory of the working directory, and an [`entry::Restore`] says
//! what a restore is to do to the working directory. Reading these from
//! disk and writing them back is left to the caller.
//!
//! Every function states in its contract what it returns and what it
//! changes, over character sequences and maps. What holds of several
//! functions together is stated by proof functions whose names begin with
//! `law_`.

pub mod commit;
pub mod data;
pub mod diff;
pub mod entry;
pub mod nesting;
pub mod reference;
pub mod roundtrip;
pub mod store;
pub mod text;
