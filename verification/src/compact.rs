//! The compact encoding and its canonic subset.
pub mod de;
pub mod generated;
pub mod laws;
pub mod ser;
pub mod test_value;
pub mod wire;
