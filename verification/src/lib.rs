//! An in-memory tree of named directories, addressed by slash-separated paths.
//!
//! A directory owns its children, each under a name that no sibling bears, and holds
//! files: at most one ([`DirSingle`]) or any number under names of their own
//! ([`DirMulti`]). A tree ([`DirMapSingle`], [`DirMapMulti`]) is a named root directory.
//! Each directory records its name, its path from the root and its depth. Whenever a
//! directory is attached to a parent, it and all that lies below it record these anew,
//! so that in every tree the path of a directory is the path of its parent followed by
//! its name, and its depth the depth of its parent plus one.
//!
//! Every directory has a mathematical model, a [`NodeView`], and every operation says
//! in its contract what it does to the model: the traits [`DirHierarchy`], [`DirFile`]
//! and [`DirFiles`] carry these contracts, and the module [`model`] defines what they
//! speak of. The module [`laws`] proves what follows for sequences of operations.
//!
//! The names of the children of a directory are kept in a hash map of the `ahash`
//! crate, which maps each name to the place of the child in a row: the children
//! themselves cannot stand in that map, since Verus admits no type that holds itself
//! inside an outside type. The listing of a tree is painted by the `colored` crate.
//! What is assumed of these crates stands in the modules [`index`] and [`listing`].

pub mod error;
pub mod files;
pub mod index;
pub mod laws;
pub mod listing;
pub mod model;
pub mod multi;
pub mod names;
pub mod path;
pub mod single;
pub mod table;
pub mod traits;
pub mod tree_multi;
pub mod tree_single;

pub use error::DirError;
pub use error::Failure;
pub use files::Files;
pub use files::FilesView;
pub use listing::Line;
pub use listing::LineKind;
pub use model::NodeView;
pub use model::Payload;
pub use multi::DirMulti;
pub use single::DirSingle;
pub use traits::DirFile;
pub use traits::DirFiles;
pub use traits::DirHierarchy;
pub use traits::DirNode;
pub use tree_multi::DirMapMulti;
pub use tree_single::DirMapSingle;
