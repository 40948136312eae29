pub mod text;
pub mod node;
pub mod index;
pub mod links;
pub mod export;
pub mod repatch;
