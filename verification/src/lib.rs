//! Activation tasks, their dependency graph and the order in which they run.
pub mod dconf;
pub mod eval;
pub mod exec_node;
pub mod gsettings;
pub mod node;
pub mod text;
pub mod exec;
pub mod lua;
