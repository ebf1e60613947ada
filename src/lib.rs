//! Single-pass aggregation of directory-tree statistics: running totals, a
//! bounded selection of the largest files, an extension histogram and an age
//! breakdown by last modification time.

pub mod age;
pub mod file_info;
pub mod histogram;
pub mod top_files;
pub mod utils;
pub mod text;
