//! Headless engine of a read-only dashboard over many local git repositories:
//! finding repositories, reading their state from git's output, and deciding
//! what a batch fetch / pull does to each of them.
//!
//! - `text`: the character-level text operations the rest relies on;
//! - `order`: byte order, and sorting values by a key;
//! - `path`: paths as their components, in the order of `std::path::Path`;
//! - `git`: the reply of one git run as plain values;
//! - `status`: the state of a repository, read from git's output;
//! - `scan`: the decisions of the directory walk that finds repositories;
//! - `batch`: what a batch fetch / pull runs, skips and reports;
//! - `commands`: settings and the lists of repositories the commands work on;
//! - `laws`: properties that hold over all inputs.

pub mod batch;
pub mod commands;
pub mod git;
pub mod laws;
pub mod order;
pub mod path;
pub mod scan;
pub mod status;
pub mod text;
