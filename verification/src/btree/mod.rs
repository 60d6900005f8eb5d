pub mod dummy;
pub mod insert;
pub mod node;
pub mod reference;
pub mod remove;
