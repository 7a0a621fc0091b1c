//! Deferred reclamation and a hash-trie map, with their contracts proved.
pub mod bucket;
pub mod channel;
pub mod incinerator;
pub mod keys;
pub mod map;
pub mod table;

use vstd::prelude::*;

verus! {

} // verus!
