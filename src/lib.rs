//! A small content-addressed version-control engine: object codecs, an
//! object store, the staging index, ref and HEAD resolution, and the
//! reconciliation of a working tree against stored trees.
pub mod builder;
pub mod bytes;
pub mod commit;
pub mod crypto;
pub mod error;
pub mod hexcode;
pub mod history;
pub mod index;
pub mod objects;
pub mod refs;
pub mod store;
pub mod worktree;
