//! A teaching model of a Unix-style process tree evolving under `fork` and
//! `exit`, together with a small CPU run-queue model.

pub mod names;
pub mod tree;
pub mod action;
pub mod render;
pub mod simulator;
pub mod seed;
pub mod generator;
pub mod process_run;
