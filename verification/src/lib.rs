pub mod encoding;
pub mod error;
pub mod fft;
pub mod field;
pub mod fmath;
pub mod hash;
pub mod ole;
pub mod params;
pub mod shamir;
pub mod poly;
pub mod rng;
pub mod roundtrip;
