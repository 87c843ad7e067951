pub mod clock;
pub mod interface;
pub mod keys;
pub mod lex;
pub mod model;
pub mod sled_storage;
