pub mod collector;
pub mod deps;
pub mod ir;
pub mod laws;
pub mod order;
pub mod statements;
pub mod transform;
