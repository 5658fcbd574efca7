//! A notebook kept as a tree: folders ("books") nested inside one another,
//! notes as the leaves, both addressed by slash-separated paths.
//!
//! The rows of the tree live in a [`store::Store`], a table of folders and a
//! table of notes. [`folder::Folder`] and [`note::Note`] resolve paths against
//! the store and change it; [`commands::Command`] is what a user asks for, and
//! [`views`] holds the state of a terminal front end.
//!
//! Every operation is described over the mathematical view of the store,
//! [`model::Tables`]: what it leaves behind and what it reports is given by a
//! function of the tables before, the path and the identifiers on offer. A
//! failed operation leaves the tables as they were. What holds of the
//! operations taken together is proved in [`laws`].
//!
//! New rows get random identifiers. The operations that file rows come in two
//! forms: one that draws the identifiers itself, and one, named `..._with_ids`,
//! that takes them from the caller, so that its outcome is fixed.

pub mod commands;
pub mod error;
pub mod folder;
pub mod ids;
pub mod laws;
pub mod listing;
pub mod model;
pub mod note;
pub mod path;
pub mod store;
pub mod text;
pub mod tree;
pub mod views;
pub mod words;
