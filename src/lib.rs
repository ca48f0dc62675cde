//! Approximate and exact set-membership filters over 64-bit keys, with
//! verified contracts for their construction, insertion and query rules.

mod bitvector;
mod blocked;
mod bloom;
mod cuckoo;
mod fuse;
mod hashing;
mod keyfile;
mod keys;
mod morton;
mod quotient;
mod static_filters;
mod tabulation;

pub use bitvector::BitVector;
pub use blocked::{BlockedBloomFilter, RegisterAlignedBloomFilter};
pub use bloom::{BloomFilter, CountingBloomFilter, HashScheme, Reduction};
pub use cuckoo::CuckooFilter;
pub use hashing::{closest_power_of_two, hash, HashFunction};
pub use keyfile::parse_keys;
pub use keys::KeyGenerator;
pub use morton::{MortonBlock, MortonFilter};
pub use quotient::{QuotientFilter, QuotientInfo};
pub use static_filters::{
    BinaryFuseFilter, FourWiseBinaryFuseFilter8, ThreeWiseBinaryFuseFilter8, XorFilter, MAX_KEYS,
};
pub use tabulation::TabulationHashing;
