//! A binary codec for `Event` records: six length-prefixed fields written in a
//! fixed order behind one outer total-length prefix, and the inverse parser
//! that validates lengths and UTF-8 text while never reading out of bounds.



pub mod event;
pub mod path;
pub mod wire;
