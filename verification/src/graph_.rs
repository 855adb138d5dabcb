//! Connected components and two colours on graphs with vertices of any
//! type that can be a key of a hash map.

pub mod cc;
pub mod two_color;
