pub mod clock;
pub mod varint;
pub mod frame;
pub mod envelope;
pub mod dispatch;
pub mod input;
pub mod directory;
