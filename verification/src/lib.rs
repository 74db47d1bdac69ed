pub mod common;
pub mod heap;
pub mod objectmodel;
pub mod gcbench;
