pub mod comparator;
pub mod types;
