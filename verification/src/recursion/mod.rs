//! Small recursive functions, each in a plain and in a tail-recursive form.

pub mod advanced_recursion;
pub mod basic_recursion;
