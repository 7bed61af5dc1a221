pub mod byte_code;
pub mod lex;
pub mod parse;
pub mod token;
pub mod value;
pub mod vm;

pub use byte_code::ByteCode;
pub use value::Value;
