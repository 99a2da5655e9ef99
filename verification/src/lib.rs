pub mod digits;
pub mod division;
pub mod laws;
pub mod nsi;

pub use nsi::Digits;
pub use nsi::NonSmallInt;
