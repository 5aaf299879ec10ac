//! Typed ingestion of a game-data export: tagged groups of item descriptors
//! and recipes, decoded from a parsed JSON tree with every rule verified.
pub mod decimal;
pub mod groups;
pub mod json;
pub mod records;

pub use decimal::{parse_decimal, parse_stringed_float, CoercionError, Decimal};
pub use json::{JsonType, JsonValue};
pub use records::{decode_item_descriptor, decode_recipe, Field, ItemDescriptor, Recipe, RecordError};
pub use groups::{
    decode_group, decode_item_descriptors, decode_recipes, ingest, ClassGroup, GroupError,
    IngestError, RecordKind,
};
