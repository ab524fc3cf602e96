pub mod board;
pub mod color;
pub mod walk;
