pub mod generate;
pub mod model;
pub mod words;
