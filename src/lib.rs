pub mod intervals;
pub mod trace;
pub mod extract;
pub mod path;
pub mod findings;
