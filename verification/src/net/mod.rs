pub mod https;
pub mod resolve;
