//! Laws of the library as a whole: what its results have to do with what goes
//! in, and with one another.

pub mod contents;
pub mod glyphs;
pub mod numbers;
pub mod paths;
pub mod requests;
pub mod session;
pub mod wire;
