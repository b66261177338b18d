//! A Burrows-Wheeler Transform library with supporting transforms
//! (move-to-front, post-BWT run-length coding), with verified contracts.

pub mod order;
pub mod sort;
pub mod ranks;
pub mod rotation;
pub mod suffix;
pub mod bwt_forward;
pub mod bwt_inverse;
pub mod mtf;
pub mod rle_post;
