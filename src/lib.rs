pub mod board;
pub mod explore;
pub mod strategy;

pub use board::Board;
pub use board::Move;
pub use strategy::Strategy;
