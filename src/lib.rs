pub mod classify;
pub mod detect;
pub mod disk;
pub mod grid;
pub mod laws;
pub mod mask;
pub mod report;
pub mod walk;
