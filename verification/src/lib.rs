//! An ordered cursor over the files of a directory tree.
//!
//! The files of a tree are visited as one flat sequence: directories in
//! depth-first pre-order, the eligible files of each directory in path order.
//! The library never touches the file system itself. Each operation that needs
//! the entries of a directory says so, and goes on once the host has handed
//! them in, so every decision is a function of plain values.
//!
//! - `text`, `glob` and `filter`: paths and their order, shell patterns, and
//!   the rule by which a file is eligible.
//! - `path`: the listing of one directory, and the walk from one directory to
//!   the next or to the one before.
//! - `state`: the cursor and its operations.
//! - `utils`, `image` and `key_action`: what a viewer of images needs around
//!   the cursor.
//! - `model`, `order`, `journey`, `ends` and `fetching`: what holds of walks,
//!   of the cursor and of fetches on a tree that does not change. Each walk
//!   undoes the other, the walk forward passes no directory over, a move is
//!   taken back by the move the other way, and every operation ends.

pub mod ends;
pub mod fetching;
pub mod filter;
pub mod glob;
pub mod image;
pub mod journey;
pub mod key_action;
pub mod model;
pub mod order;
pub mod path;
pub mod state;
pub mod text;
pub mod utils;
