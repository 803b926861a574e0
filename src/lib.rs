pub mod board;
pub mod laws;
pub mod search;
pub mod text;

pub use board::Game;
pub use text::{classify_line, InputError, Message};
