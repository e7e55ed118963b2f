//! A map of a Rust codebase as text.
//!
//! The library holds what the `rmap` command decides and prints; it reads and
//! writes nothing itself. Paths, texts of files and facts about the file system
//! come in as plain values, and what is to be printed goes out as a `String`.
//!
//! - [`walk`] and [`render`]: the tree of files and its brace map.
//! - [`syntax`] and [`parse`]: the items of a Rust file and their summary.
//! - [`refs`], [`body`] and [`similar`]: where a name is defined and used, the
//!   bodies of its definitions, and which names may have been meant.
//! - [`modtree`], [`deps`] and [`graph`]: modules, imports and reachability;
//!   [`drawing`] and [`outline`]: the lines of a Mermaid block, and what the
//!   graph of a crate shows.
//! - [`krate`]: the sources of a crate in the local registry.
//! - [`cli`]: what the arguments of the command mean.
//! - [`text`], [`order`], [`names`], [`store`] and [`paths`]: what the others
//!   are made of.

pub mod body;
pub mod cli;
pub mod deps;
pub mod drawing;
pub mod graph;
pub mod krate;
pub mod modtree;
pub mod names;
pub mod order;
pub mod outline;
pub mod parse;
pub mod paths;
pub mod refs;
pub mod render;
pub mod similar;
pub mod store;
pub mod syntax;
pub mod text;
pub mod walk;
