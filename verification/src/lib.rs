//! Installing files: the decisions of the `install` command, over a string
//! model of Unix paths.

pub mod install;
pub mod mode;
pub mod options;
pub mod paths;
