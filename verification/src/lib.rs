//! A small register virtual machine, its program encoding, and the
//! evolutionary search and maze tooling built around it.

pub mod darwin;
pub mod encoder;
pub mod maze;
pub mod passages;
pub mod random;
pub mod ranking;
pub mod route;
pub mod training;
pub mod vm;
