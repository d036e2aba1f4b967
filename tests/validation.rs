use config_migrator::schema_version::SchemaVersion;
use config_migrator::tree::ConfigValue;
use config_migrator::validation::{
    check_tiered_storage, validate, FieldType, SchemaDefinition, TieredStorageStatus,
    ValidationError, ValidationErrorType, ValidationReport, ValidationWarning,
    ValidationWarningType,
};

fn s(x: &str) -> ConfigValue {
    ConfigValue::Str(x.to_string())
}

fn map(entries: Vec<(&str, ConfigValue)>) -> ConfigValue {
    ConfigValue::Mapping(entries.into_iter().map(|(k, v)| (k.to_string(), v)).collect())
}

#[test]
fn test_validation_report_creation() {
    let report = ValidationReport::new();
    assert!(report.is_valid);
    assert!(!report.has_errors());
    assert!(!report.has_warnings());
}

#[test]
fn test_validation_report_add_error() {
    let mut report = ValidationReport::new();
    let error = ValidationError::new(
        "test.field".to_string(),
        ValidationErrorType::MissingRequiredField,
        "Field is required".to_string(),
    );

    report.add_error(error);
    assert!(!report.is_valid);
    assert!(report.has_errors());
    assert_eq!(report.errors.len(), 1);
}

#[test]
fn test_validation_report_add_warning() {
    let mut report = ValidationReport::new();
    let warning = ValidationWarning::new(
        "test.field".to_string(),
        ValidationWarningType::DeprecatedField,
        "Field is deprecated".to_string(),
    );

    report.add_warning(warning);
    assert!(report.is_valid);
    assert!(report.has_warnings());
    assert_eq!(report.warnings.len(), 1);
}

#[test]
fn test_schema_definition_creation() {
    let version = SchemaVersion::new(25, 2, 9);
    let mut schema = SchemaDefinition::new(version.clone());

    schema.add_required_field("image.tag".to_string(), FieldType::String);
    schema.add_deprecated_field("old.field".to_string());

    assert_eq!(schema.version, version);
    assert_eq!(schema.required_fields.len(), 1);
    assert_eq!(schema.deprecated_fields.len(), 1);
    assert!(schema.has_field_type(&"image.tag".to_string()));
}

#[test]
fn test_validation_error_with_suggested_fix() {
    let error = ValidationError::new(
        "test.field".to_string(),
        ValidationErrorType::MissingRequiredField,
        "Field is required".to_string(),
    )
    .with_suggested_fix("Add the field with a valid value".to_string());

    assert!(error.suggested_fix.is_some());
    assert_eq!(error.suggested_fix.unwrap(), "Add the field with a valid value");
}

#[test]
fn missing_required_field_invalidates_and_stays_invalid() {
    let mut report = ValidationReport::new();
    report.add_missing_required_field("image.tag".to_string());
    assert!(!report.is_valid);
    report.add_warning(ValidationWarning::new(
        "x".to_string(),
        ValidationWarningType::PotentialIssue,
        "m".to_string(),
    ));
    report.add_deprecated_field("old".to_string());
    assert!(!report.is_valid);
    assert!(report.has_errors());
    assert!(report.has_warnings());
}

#[test]
fn field_type_keeps_the_last_given() {
    let mut schema = SchemaDefinition::new(SchemaVersion::new(1, 0, 0));
    schema.add_field_type("a".to_string(), FieldType::Integer);
    schema.add_field_type("a".to_string(), FieldType::Boolean);
    assert_eq!(schema.field_type(&"a".to_string()), Some(FieldType::Boolean));
    assert_eq!(schema.field_type(&"b".to_string()), None);
}

#[test]
fn validate_lists_missing_and_deprecated_in_order() {
    let mut schema = SchemaDefinition::new(SchemaVersion::new(25, 2, 9));
    schema.add_required_field("image.tag".to_string(), FieldType::String);
    schema.add_required_field("image.repository".to_string(), FieldType::String);
    schema.add_required_field("storage".to_string(), FieldType::Object);
    schema.add_deprecated_field("old.field".to_string());
    schema.add_deprecated_field("image".to_string());
    let config = map(vec![("image", map(vec![("tag", s("v1"))])), ("old", map(vec![("field", s("x"))]))]);
    let report = validate(&config, &schema);
    assert!(!report.is_valid);
    assert_eq!(report.missing_required_fields, vec!["image.repository".to_string(), "storage".to_string()]);
    assert_eq!(report.deprecated_fields, vec!["old.field".to_string(), "image".to_string()]);
}

fn tiered(config: ConfigValue) -> ConfigValue {
    map(vec![("storage", map(vec![("tiered", map(vec![("config", config)]))]))])
}

#[test]
fn tiered_storage_statuses() {
    assert_eq!(check_tiered_storage(&map(vec![])), TieredStorageStatus::NotConfigured);
    assert_eq!(
        check_tiered_storage(&tiered(map(vec![("cloud_storage_enabled", ConfigValue::Bool(false))]))),
        TieredStorageStatus::Disabled
    );
    assert_eq!(
        check_tiered_storage(&tiered(map(vec![
            ("cloud_storage_enabled", ConfigValue::Bool(true)),
            ("cloud_storage_bucket", s("b")),
        ]))),
        TieredStorageStatus::MissingBucketOrRegion
    );
    let base = || {
        vec![
            ("cloud_storage_enabled", ConfigValue::Bool(true)),
            ("cloud_storage_bucket", s("b")),
            ("cloud_storage_region", s("r")),
        ]
    };
    assert_eq!(check_tiered_storage(&tiered(map(base()))), TieredStorageStatus::MissingCredentials);
    let mut half = base();
    half.push(("cloud_storage_access_key", s("k")));
    assert_eq!(check_tiered_storage(&tiered(map(half))), TieredStorageStatus::MissingSecretKey);
    let mut keys = base();
    keys.push(("cloud_storage_access_key", s("k")));
    keys.push(("cloud_storage_secret_key", s("sk")));
    assert_eq!(
        check_tiered_storage(&tiered(map(keys))),
        TieredStorageStatus::AccessKeyAuth { explicit_endpoint: false }
    );
    let mut source = base();
    source.push(("cloud_storage_credentials_source", s("aws_instance_metadata")));
    source.push(("cloud_storage_api_endpoint", s("e")));
    assert_eq!(
        check_tiered_storage(&tiered(map(source))),
        TieredStorageStatus::CredentialsSource {
            explicit_endpoint: true,
            source: Some("aws_instance_metadata".to_string())
        }
    );
}
