pub mod directory;
pub mod forest;
pub mod header;
pub mod node;
pub mod previous;
pub mod ratchet;
