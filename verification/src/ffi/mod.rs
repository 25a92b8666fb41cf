pub mod ls_output;
pub mod path;
pub mod private_forest;
