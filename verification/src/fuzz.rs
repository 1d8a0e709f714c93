//! Random expressions and random strings to try the rewriting on.
use vstd::prelude::*;

pub mod accepted;
pub mod chance;
pub mod matrix;
pub mod regex_generator;
pub mod runner;
pub mod str_generator;
