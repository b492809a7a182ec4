pub mod course;
pub mod db;
pub mod laws;
pub mod review;
pub mod text;
pub mod vec_ext;

pub use course::{Course, Instructor, ReqGroup, ReqNode, ReqOperator, Schedule};
pub use db::{Db, ReviewError, SearchField};
pub use review::{DateEntry, NumberLong, RawTimestamp, Review, Timestamp, TimestampError};
