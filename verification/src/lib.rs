pub mod aggregate;
pub mod graph;
pub mod groups;
pub mod record;
