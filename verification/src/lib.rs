//! An associative container built on a flat slot array with open
//! addressing: collisions are resolved by linear probing, and the
//! table grows by doubling once the load factor threshold is crossed.

pub mod key;
pub mod hashmap;
