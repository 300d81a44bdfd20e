//! A music library in memory: the tracks of a directory tree in the order of
//! their paths, a folder index over them, and their cover images, each stored
//! once. The library is built from what a walk of the directory found, is
//! never changed afterwards, and can be taken apart into plain values and put
//! together again. Beside it stand the rules by which files are taken or left
//! out, the checks on paths that clients send, the rendering of playlists and
//! folder listings, and the state of the rescan controller.

pub mod artworks;
pub mod digest;
pub mod folders;
pub mod keyindex;
pub mod library;
pub mod order;
pub mod path_utils;
pub mod playlist;
pub mod scan_facts;
pub mod server;
pub mod snapshot;
pub mod sorting;
pub mod text;
pub mod traversal;
pub mod urlcode;
