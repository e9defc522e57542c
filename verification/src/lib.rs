//! Verified core of the earp compiler: the data model of programs and
//! source positions; the front end's last operator pass and the builder
//! that turns parsed statements into a build tree; the incremental
//! topological sorter used for instruction reordering; register equivalence
//! classes; bundle bookkeeping; and the register-level passes that run on
//! linearized code (size checking, dead-code removal).

pub mod model;
pub mod render;
pub mod text;
pub mod names;
pub mod position;
pub mod source;
pub mod toposort;
pub mod equiv;
pub mod checking;
pub mod unbundleaux;
pub mod bundlestack;
pub mod buildunbundle;
pub mod parsetree;
pub mod reduce;
pub mod strings;
pub mod codeblocks;
pub mod buildtree;
pub mod buildtreebuilder;
pub mod culdesac;
pub mod preprocess;
