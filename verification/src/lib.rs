//! Valuable values: a self-describing data model with a compact byte encoding, its canonic
//! subset, and a human-readable text encoding.
//!
//! The value type, its equality and its two orders stand in `value`, `order`, `compare`,
//! `meaningful` and `bounds`; the two codecs in `compact` and `human`; the cursor that both
//! decoders read with in `parser_helper`. The modules whose names end in `laws`, and
//! `bounds_commute`, `bounds_extreme` and the two `generated`, hold what is proved of them.
pub mod bounds;
pub mod bounds_commute;
pub mod bounds_extreme;
pub mod bounds_laws;
pub mod compact;
pub mod compare;
pub mod de;
pub mod entries;
pub mod helper;
pub mod human;
pub mod meaningful;
pub mod meaningful_laws;
pub mod order;
pub mod order_laws;
pub mod parser_helper;
pub mod ser;
pub mod test_type;
pub mod test_value;
pub mod text;
pub mod utf8;
pub mod value;

pub use crate::value::Value;
