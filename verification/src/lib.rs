pub mod ngram;
pub mod order;
pub mod program;
pub mod saturation;
pub mod tape;
pub mod window;
