//! Fusion of several score axes, bounded candidate admission, set selection under
//! constraints, and an account of every rejection.

pub mod text;
pub mod candidate;
pub mod score;
pub mod constraint;
pub mod evidence;
pub mod fuse;
pub mod error;
pub mod config;
pub mod order;
pub mod pool;
pub mod select;
pub mod matroid;
pub mod audit;
