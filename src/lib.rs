//! Decisions of a machine provisioner: whether each declared archive,
//! package set and repository needs any action, and which.

pub mod archive;
pub mod pkg;
pub mod post;
pub mod repo;
pub mod text;
pub mod unless;
pub mod util;
