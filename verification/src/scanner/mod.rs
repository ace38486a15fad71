pub mod probe;
pub mod range;
