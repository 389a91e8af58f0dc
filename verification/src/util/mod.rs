pub mod decimal;
pub mod tokens;
pub mod export;
pub mod import;
pub mod roundtrip;
pub mod obj;
pub mod objmodel;
pub mod imageformat;
