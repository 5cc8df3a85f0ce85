//! Reading and writing tar archives in the ustar layout: header blocks of
//! 512 bytes with octal number fields, file contents padded to whole blocks,
//! and two zero blocks at the end.

pub mod octal;
pub mod header;
pub mod entar;
pub mod untar;
pub mod roundtrip;
pub mod walk;
