pub mod export;
pub mod layout;
pub mod text;
