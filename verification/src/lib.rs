pub mod util;
pub mod console;
pub mod display;
pub mod field;
pub mod game;
pub mod random;
