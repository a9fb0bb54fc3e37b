//! A playlist-ordering engine: a fixed list of playable items, a permutation
//! of their indices (the play order), and a cursor into that permutation with
//! explicit "unset" sentinels at either end of the list.

pub mod lex;
pub mod lines;
pub mod playlist;
