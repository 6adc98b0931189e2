use vstd::prelude::*;

pub mod arith;
pub mod bmw;
pub mod bytes;
pub mod compression;
pub mod heap;
pub mod lex;
pub mod segment;
pub mod sorting;
pub mod topk;
pub mod types;
