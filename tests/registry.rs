use config_migrator::path::field_exists;
use config_migrator::schema_registry::{RegistryError, SchemaRegistry};
use config_migrator::schema_version::SchemaVersion;
use config_migrator::transformation_engine::SchemaTransformationEngine;
use config_migrator::transformation_rule::{TransformationRule, TransformationType};
use config_migrator::tree::ConfigValue;
use config_migrator::validation::{FieldType, SchemaDefinition};

fn s(x: &str) -> ConfigValue {
    ConfigValue::Str(x.to_string())
}

fn map(entries: Vec<(&str, ConfigValue)>) -> ConfigValue {
    ConfigValue::Mapping(entries.into_iter().map(|(k, v)| (k.to_string(), v)).collect())
}

#[test]
fn test_schema_registry_creation() {
    let registry = SchemaRegistry::new();
    assert!(registry.get_available_versions().is_empty());
    assert!(registry.get_latest_version().is_none());
}

#[test]
fn test_add_schema() {
    let mut registry = SchemaRegistry::new();
    let version = SchemaVersion::new(25, 2, 9);
    let schema = SchemaDefinition::new(version.clone());

    registry.add_schema(schema);

    let versions = registry.get_available_versions();
    assert_eq!(versions.len(), 1);
    assert_eq!(versions[0], version);
    assert_eq!(registry.get_latest_version(), Some(version));
}

#[test]
fn test_add_transformation_rules() {
    let mut registry = SchemaRegistry::new();
    let source = SchemaVersion::new(5, 0, 10);
    let target = SchemaVersion::new(25, 2, 9);

    let rule = TransformationRule::new(
        "test_rule".to_string(),
        "old.path".to_string(),
        "new.path".to_string(),
        TransformationType::Move,
    );

    let result = registry.add_transformation_rules(source.clone(), target.clone(), vec![rule]);
    assert!(result.is_ok());

    let retrieved_rules = registry.get_transformation_rules(&source, &target);
    assert!(retrieved_rules.is_ok());
    assert_eq!(retrieved_rules.unwrap().len(), 1);
}

#[test]
fn test_field_exists() {
    let config = map(vec![("level1", map(vec![("level2", map(vec![("field", s("value"))]))]))]);

    assert!(field_exists(&config, "level1.level2.field"));
    assert!(!field_exists(&config, "level1.missing.field"));
    assert!(!field_exists(&config, "missing"));
}

#[test]
fn test_validate_configuration() {
    let mut registry = SchemaRegistry::new();
    let version = SchemaVersion::new(25, 2, 9);
    let mut schema = SchemaDefinition::new(version.clone());

    schema.add_required_field("image.tag".to_string(), FieldType::String);
    schema.add_deprecated_field("old.field".to_string());

    registry.add_schema(schema);

    let config_with_required = map(vec![("image", map(vec![("tag", s("v25.2.9"))]))]);
    let config_missing_required = map(vec![("other", map(vec![("field", s("value"))]))]);

    let report_valid = registry.validate_configuration(&config_with_required, &version).unwrap();
    assert!(report_valid.is_valid);
    assert_eq!(report_valid.missing_required_fields.len(), 0);

    let report_invalid = registry.validate_configuration(&config_missing_required, &version).unwrap();
    assert!(!report_invalid.is_valid);
    assert_eq!(report_invalid.missing_required_fields.len(), 1);
}

#[test]
fn test_transformation_engine_creation() {
    let registry = SchemaRegistry::new();
    let _engine = SchemaTransformationEngine::new(registry);
}

#[test]
fn available_versions_are_sorted_and_latest_is_greatest() {
    let mut registry = SchemaRegistry::new();
    for v in [SchemaVersion::new(25, 2, 9), SchemaVersion::new(5, 0, 10), SchemaVersion::new(23, 2, 24), SchemaVersion::new(5, 0, 10)] {
        registry.add_schema(SchemaDefinition::new(v));
    }
    assert_eq!(
        registry.get_available_versions(),
        vec![SchemaVersion::new(5, 0, 10), SchemaVersion::new(23, 2, 24), SchemaVersion::new(25, 2, 9)]
    );
    assert_eq!(registry.get_latest_version(), Some(SchemaVersion::new(25, 2, 9)));
}

#[test]
fn registration_refuses_malformed_rules() {
    let mut registry = SchemaRegistry::new();
    let a = SchemaVersion::new(1, 0, 0);
    let b = SchemaVersion::new(2, 0, 0);
    let no_id = TransformationRule::new(String::new(), "x".to_string(), "y".to_string(), TransformationType::Copy);
    match registry.add_transformation_rules(a, b, vec![no_id]) {
        Err(RegistryError::RuleValidationFailed(m)) => assert_eq!(m, "Rule ID cannot be empty"),
        _ => panic!("accepted a rule without an id"),
    }
    let no_source = TransformationRule::new("r1".to_string(), String::new(), "y".to_string(), TransformationType::Copy);
    match registry.add_transformation_rules(a, b, vec![no_source]) {
        Err(e) => assert_eq!(e.message(), "Rule validation failed: Source path cannot be empty for rule r1"),
        Ok(_) => panic!("accepted a rule without a source path"),
    }
    match registry.get_transformation_rules(&a, &b) {
        Err(e) => assert_eq!(e.message(), "No transformation rules found from 1.0.0 to 2.0.0"),
        Ok(_) => panic!("refused rules were registered"),
    }
}

#[test]
fn validate_configuration_of_unknown_version() {
    let registry = SchemaRegistry::new();
    match registry.validate_configuration(&map(vec![]), &SchemaVersion::new(9, 9, 9)) {
        Err(RegistryError::SchemaNotFound(v)) => assert_eq!(v, SchemaVersion::new(9, 9, 9)),
        _ => panic!("validated against an unknown version"),
    }
}

#[test]
fn migration_paths() {
    let mut registry = SchemaRegistry::new();
    let v = |a| SchemaVersion::new(a, 0, 0);
    registry.add_migration_path(v(1), vec![v(2), v(3), v(4)]);
    assert_eq!(registry.get_migration_path(&v(1), &v(3)), Some(vec![v(2), v(3)]));
    assert_eq!(registry.get_migration_path(&v(1), &v(9)), Some(vec![v(9)]));
    assert_eq!(registry.get_migration_path(&v(5), &v(5)), Some(vec![v(5)]));
    assert!(registry.load_rules_from_config("rules.yaml").is_ok());
}
