//! An ordered map from byte-string keys to values, built on a prefix tree
//! (trie), and a companion set. Keys are sequences of bytes; iteration
//! yields entries in strict lexicographic order of the keys.

pub mod iter;
pub mod map;
pub mod node;
pub mod order;
pub mod set;

pub use map::Entry;
pub use map::OccupiedEntry;
pub use map::PrefixTreeMap;
pub use map::VacantEntry;
pub use order::lex_lt;
pub use set::PrefixTreeSet;
