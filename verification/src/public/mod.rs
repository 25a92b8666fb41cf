pub mod directory;
pub mod history;
pub mod node;
