//! The edit contract: what an agent asks to change, checked before any
//! byte of a file is touched.

pub mod apply;
pub mod bytes;
pub mod equality;
pub mod gate;
pub mod guard;
pub mod json;
pub mod locate;
pub mod minimal;
pub mod outcome;
pub mod plan;
pub mod reading;
pub mod round_trip;
pub mod value;
pub mod multi_file;
