//! Named identities (name, email, signing key, SSH key) kept in a hierarchical
//! key-value configuration store, and their activation in a narrower scope.
//!
//! An identity `work` is stored in the global scope under the keys
//! `user.work.name`, `user.work.email`, `user.work.signingkey` and
//! `user.work.sshkey`. Activating it copies its fields into the local scope
//! under `user.name`, `user.email`, `user.signingkey` and `user.sshkey`.
//!
//! - [`identity`]: an identity and the entries that store it.
//! - [`codec`]: between identities and namespaced keys, in both directions.
//! - [`config`]: one scope of the store, as a mapping held in memory.
//! - [`registry`]: listing, lookup, storing and removal within one scope.
//! - [`manager`]: the global and the local scope together, and activation.
//! - [`error`]: the failures that these report.
//! - [`text`], [`path`]: keys as sequences of characters, paths as text.
//!
//! The scopes are held in memory. A program that keeps them in files reads the
//! files into scopes first, and afterwards writes to the files what an
//! operation says it wrote or deleted.

pub mod codec;
pub mod config;
pub mod error;
pub mod identity;
pub mod manager;
pub mod path;
pub mod registry;
pub mod text;
