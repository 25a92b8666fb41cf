pub mod blockstore;
pub mod cid;
pub mod digest;
pub mod metadata;
pub mod name_map;
pub mod names;
pub mod pathnodes;
pub mod random;
pub mod share;
