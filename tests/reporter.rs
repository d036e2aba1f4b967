use config_migrator::reporter::{
    ReportFormat, TransformationReport, TransformationReporter, TransformationSummary,
    ValidationSummary,
};
use config_migrator::schema_version::SchemaVersion;
use config_migrator::transformation_rule::{AppliedTransformation, ChangeType, TransformationType};
use config_migrator::validation::ValidationReport;

#[test]
fn test_transformation_reporter_creation() {
    let reporter = TransformationReporter::new();
    assert!(matches!(reporter.output_format, ReportFormat::Console));
}

#[test]
fn test_reporter_with_format() {
    let reporter = TransformationReporter::new().with_format(ReportFormat::Json);
    assert!(matches!(reporter.output_format, ReportFormat::Json));
}

#[test]
fn test_generate_report() {
    let reporter = TransformationReporter::new();
    let source_version = Some(SchemaVersion::new(5, 0, 10));
    let target_version = SchemaVersion::new(25, 2, 9);
    let transformations = Vec::new();
    let validation_report = ValidationReport::new();

    let report = reporter.generate_report(
        source_version.clone(),
        target_version.clone(),
        transformations,
        validation_report,
    );

    assert_eq!(report.source_version, source_version);
    assert_eq!(report.target_version, target_version);
    assert!(report.validation_summary.is_valid);
}

fn empty_report(recommendations: Vec<String>) -> TransformationReport {
    TransformationReport {
        source_version: Some(SchemaVersion::new(5, 0, 10)),
        target_version: SchemaVersion::new(25, 2, 9),
        applied_transformations: Vec::new(),
        field_changes: Vec::new(),
        removed_fields: Vec::new(),
        added_fields: Vec::new(),
        validation_summary: ValidationSummary {
            total_errors: 0,
            total_warnings: 0,
            deprecated_fields_count: 0,
            missing_required_fields_count: 0,
            is_valid: true,
        },
        recommendations,
        transformation_summary: TransformationSummary {
            total_transformations: 0,
            successful_transformations: 0,
            skipped_transformations: 0,
            fields_moved: 0,
            fields_copied: 0,
            fields_removed: 0,
            fields_transformed: 0,
        },
    }
}

#[test]
fn test_format_console_report() {
    let reporter = TransformationReporter::new();
    let report = empty_report(vec!["Test recommendation".to_string()]);

    let formatted = reporter.format_console_report(&report).unwrap();
    assert!(formatted.contains("Schema Transformation Report"));
    assert!(formatted.contains("5.0.10"));
    assert!(formatted.contains("25.2.9"));
    assert!(formatted.contains("Test recommendation"));
}

#[test]
fn console_report_exact_text() {
    let reporter = TransformationReporter::new();
    let mut report = empty_report(vec!["a".to_string(), "b".to_string()]);
    report.source_version = None;
    report.transformation_summary.total_transformations = 12;
    report.validation_summary.is_valid = false;
    let text = reporter.format_console_report(&report).unwrap();
    assert_eq!(
        text,
        "=== Schema Transformation Report ===\n\nSource Version: Unknown\nTarget Version: 25.2.9\n\nTransformations Applied: 12\nValidation Status: INVALID\n\nRecommendations:\n  • a\n  • b\n"
    );
}

#[test]
fn html_report_exact_text() {
    let reporter = TransformationReporter::new().with_format(ReportFormat::Html);
    let report = empty_report(Vec::new());
    let html = reporter.format_html_report(&report).unwrap();
    assert_eq!(
        html,
        "<!DOCTYPE html><html><head><title>Transformation Report</title></head><body><h1>Schema Transformation Report</h1><p><strong>Source Version:</strong> 5.0.10</p><p><strong>Target Version:</strong> 25.2.9</p><p><strong>Transformations:</strong> 0</p></body></html>"
    );
}

fn applied(id: &str, target: &str, kind: TransformationType) -> AppliedTransformation {
    AppliedTransformation {
        rule_id: id.to_string(),
        source_path: "src".to_string(),
        target_path: target.to_string(),
        old_value: None,
        new_value: None,
        transformation_type: kind,
    }
}

#[test]
fn report_counts_and_categorizes_changes() {
    let reporter = TransformationReporter::new();
    let ts = vec![
        applied("m", "a.b", TransformationType::Move),
        applied("c", "c.d", TransformationType::Copy),
        applied("r", "e", TransformationType::Remove),
        applied("t", "f", TransformationType::Transform("up".to_string())),
        applied("g", "g", TransformationType::Merge(Vec::new())),
    ];
    let mut validation = ValidationReport::new();
    validation.add_missing_required_field("image.tag".to_string());
    validation.add_deprecated_field("old".to_string());
    let report = reporter.generate_report(None, SchemaVersion::new(1, 0, 0), ts, validation);
    assert_eq!(report.field_changes.len(), 5);
    assert_eq!(report.field_changes[0].change_type, ChangeType::Moved);
    assert_eq!(report.field_changes[0].reason, "Applied rule: m");
    assert_eq!(report.added_fields, vec!["c.d".to_string()]);
    assert_eq!(report.removed_fields, vec!["e".to_string()]);
    let s = report.transformation_summary;
    assert_eq!((s.total_transformations, s.fields_moved, s.fields_copied, s.fields_removed, s.fields_transformed), (5, 1, 1, 1, 1));
    assert!(!report.validation_summary.is_valid);
    assert_eq!(report.validation_summary.missing_required_fields_count, 1);
    assert_eq!(
        report.recommendations,
        vec![
            "Review and add missing required fields to ensure proper configuration".to_string(),
            "Consider removing deprecated fields to prepare for future schema versions".to_string(),
        ]
    );
}

#[test]
fn recommendations_when_all_is_well() {
    let reporter = TransformationReporter::default();
    let r = reporter.generate_recommendations(&ValidationReport::new());
    assert_eq!(r, vec!["Configuration transformation completed successfully".to_string()]);
}
