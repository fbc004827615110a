//! Records writes to the leaf fields of a nested schema in bounded memory
//! and hands them back as an ordered sequence of changes.
pub mod bitset;
pub mod changes;
pub mod recorder;
pub mod schema;
pub mod setter;

pub use bitset::{BitSet, BitSetOffsetted};
pub use changes::Change;
pub use recorder::{BitFieldSet, OptFieldSet, PerfFieldSet};
pub use schema::{Schema, SchemaError, Slot};
pub use setter::{
    BitFieldLeafSetter, BitFieldSetter, FieldSetter, OptFieldSetter, PerfFieldLeafSetter, PerfFieldSetter,
    RawFieldSetter, replay,
};
