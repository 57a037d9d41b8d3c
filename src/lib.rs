pub mod corpus;
pub mod embedded;
pub mod error;
pub mod evaluate;
pub mod flatten;
pub mod json;
pub mod laws;
pub mod order;
pub mod similarity;
pub mod template;
