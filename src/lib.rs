pub mod git;
pub mod model;
pub mod parser;
pub mod pipeline;
pub mod semantics;
pub mod store;
pub mod text;
pub mod timestamp;
