//! Backing up configuration files ("dotfiles") per package between a home
//! directory and a repository directory: which entry holds a package's
//! configuration, what storing and staging it clear and copy, and the steps of
//! a recursive delete and copy. The file system itself is probed and changed
//! by the caller, which hands in what it found.
pub mod path;
pub mod resolve;
pub mod mirror;
pub mod sync;
