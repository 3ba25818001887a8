//! Page pair renamer: swaps the file names of consecutive image pages in a
//! flat directory ("book"), pairing the lexicographically sorted page names
//! two at a time and exchanging each pair's names through temporary
//! `.bak`-suffixed names so that no intermediate rename collides with an
//! existing name.
//!
//! File names are handled as byte strings (`Vec<u8>`), ordered byte-wise.

pub mod name;
pub mod listing;
pub mod pairing;
pub mod plan;
pub mod semantics;
pub mod laws;
pub mod directory;
