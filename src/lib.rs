pub mod guarantees;
pub mod runtime;
pub mod timer;
