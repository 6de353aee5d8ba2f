//! Formats JSON for language models: entity-like records stay on one line
//! while the structure around them is expanded, trading whitespace for
//! readability where it pays.
pub mod entities;
pub mod formatter;
pub mod heuristics;
pub mod index;
pub mod laws;
pub mod layout;
pub mod parse;
pub mod purpose;
pub mod schema;
pub mod sort;
pub mod stats;
pub mod table;
pub mod text;
pub mod value;

pub use entities::{entity_paths_given, parse_entity_paths, trim_text};
pub use formatter::{Config, FormatMode, FormatterError, LlmJsonFormatter, Metadata, Result, SortStrategy};
pub use heuristics::{get_base_type, is_map_like, key_weight, merge_objects, type_signature, MapKind};
pub use index::{JsonIndex, PathInfo, ValueType};
pub use parse::parse_json;
pub use schema::{generate_schema, schema_of_json};
pub use value::JsonValue;
