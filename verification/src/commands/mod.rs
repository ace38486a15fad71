pub mod scan;
pub mod serve;
pub mod status;
