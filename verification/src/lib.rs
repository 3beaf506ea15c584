//! Classic data-structure and algorithm exercises: a fixed-capacity
//! sequential list, a dynamic stack with a few stack-based algorithms, and an
//! expression pipeline (tokenizer, infix-to-postfix conversion, and the
//! structural part of postfix evaluation).

pub mod expression;
pub mod linear;
pub mod list;
pub mod stack;
pub mod utils;
