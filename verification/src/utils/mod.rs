//! Small data structures shared by the rest of the library.

pub mod player_bit_set;

pub use self::player_bit_set::{ActivePlayerBitSetIter, PlayerBitSet};
