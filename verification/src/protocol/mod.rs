pub mod legacy;
pub mod packet;
pub mod slp;
pub mod varint;
