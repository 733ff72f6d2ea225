pub mod aggregate;
pub mod group;
pub mod labels;
pub mod laws;
pub mod top;
pub mod value;
