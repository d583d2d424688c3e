pub mod button;
pub mod codec;
pub mod display;
pub mod keypad;
pub mod symbols;
