pub mod array_utils;
pub mod statistics;

pub use array_utils::chunk_vec;
pub use array_utils::find_pairs_with_sum;
pub use array_utils::remove_duplicates;
pub use statistics::mode;
