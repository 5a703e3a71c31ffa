pub mod text;
pub mod parse;
pub mod vm;
pub mod session;
