pub mod button;
pub mod shapes;
pub mod text2d;
pub mod text_input;
pub mod wrap;
