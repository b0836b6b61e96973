//! Two parallel columns of unsigned integers, read from line-oriented text,
//! and two aggregate statistics over them: the total positional distance of
//! the sorted columns, and a weighted co-occurrence score.

pub mod distance;
pub mod parse;
pub mod similarity;

pub use distance::difference;
pub use distance::difference_checked;
pub use parse::parse_file;
pub use similarity::similarity_score;
pub use similarity::similarity_score_checked;
