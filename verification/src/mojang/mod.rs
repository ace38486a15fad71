pub mod blocked;
pub mod profile;
