pub mod rx;
pub mod text;
pub mod unicode;
