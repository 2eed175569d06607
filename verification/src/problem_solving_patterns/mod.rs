//! Common patterns: divide and conquer, counting frequencies, several
//! pointers, sliding windows.

pub mod divide_and_conquer;
pub mod frequency_counter;
pub mod multiple_pointers;
pub mod sliding_window;
