//! The transactional core of a version-control engine.
//!
//! A [`transaction::Repo`] is the repository as of one operation. A
//! [`transaction::Transaction`] on top of it holds a [`repo::MutableRepo`]: a working copy
//! of the view, the index as it grows, and the fates of the commits that were replaced.
//! Commits are written through a [`commit_builder::CommitBuilder`] into a
//! [`backend::Store`]; [`repo::MutableRepo::rebase_descendants`] propagates the fates to
//! the descendants; committing the transaction writes the view and an operation into an
//! [`op_store::OpStore`].
//!
//! Every function states what it does over a mathematical model of its arguments; the
//! module [`laws`] holds what follows for the operations taken together, and the module
//! [`propagation`] what a rebase of descendants writes and leaves behind where no commit
//! was rewritten divergently.
//!
//! Beside the core, the crate holds the decisions of the user interface ([`ui`]), of the
//! colocation of a workspace with git ([`colocate`]), and the template language
//! ([`template_syntax`], [`template_parser`]).

pub mod assoc;
pub mod backend;
pub mod colocate;
pub mod commit_builder;
pub mod edit;
pub mod id;
pub mod idlist;
pub mod index;
pub mod laws;
pub mod model;
pub mod op_store;
pub mod operation;
pub mod propagation;
pub mod rebase;
pub mod refs;
pub mod repo;
pub mod rewrite;
pub mod signing;
pub mod template_parser;
pub mod template_syntax;
pub mod transaction;
pub mod ui;
