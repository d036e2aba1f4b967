//! Migration of a structured configuration document between schema
//! versions: restructuring passes, a keep-first merge with reference
//! defaults, declarative rules applied by priority, and validation.
pub mod merge;
pub mod migrate;
pub mod passes;
pub mod path;
pub mod pipeline;
pub mod reporter;
pub mod schema_registry;
pub mod schema_version;
pub mod text;
pub mod transformation_engine;
pub mod transformation_rule;
pub mod tree;
pub mod validation;

pub use reporter::{TransformationReport, TransformationReporter};
pub use schema_registry::SchemaRegistry;
pub use schema_version::SchemaVersion;
pub use transformation_engine::{SchemaTransformationEngine, TransformationResult};
pub use transformation_rule::{AppliedTransformation, TransformationRule, TransformationType};
pub use tree::ConfigValue;
pub use validation::{ValidationError, ValidationReport, ValidationWarning};
