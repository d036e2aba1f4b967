use config_migrator::path::get_nested_value;
use config_migrator::schema_registry::SchemaRegistry;
use config_migrator::schema_version::SchemaVersion;
use config_migrator::transformation_engine::{
    apply_transformation_rules, SchemaTransformationEngine, TransformationError,
    TransformationWarning, TransformationWarningType,
};
use config_migrator::transformation_rule::{
    apply_single_rule, Condition, ConditionType, TransformationRule, TransformationType,
};
use config_migrator::tree::ConfigValue;
use config_migrator::validation::{FieldType, SchemaDefinition};

fn s(x: &str) -> ConfigValue {
    ConfigValue::Str(x.to_string())
}

fn map(entries: Vec<(&str, ConfigValue)>) -> ConfigValue {
    ConfigValue::Mapping(entries.into_iter().map(|(k, v)| (k.to_string(), v)).collect())
}

fn at<'a>(v: &'a ConfigValue, path: &str) -> Option<&'a ConfigValue> {
    get_nested_value(v, path)
}

fn rule(id: &str, src: &str, tgt: &str, kind: TransformationType) -> TransformationRule {
    TransformationRule::new(id.to_string(), src.to_string(), tgt.to_string(), kind)
}

#[test]
fn test_transformation_rule_creation() {
    let rule = TransformationRule::new(
        "test_rule".to_string(),
        "old.path".to_string(),
        "new.path".to_string(),
        TransformationType::Move,
    );

    assert_eq!(rule.rule_id, "test_rule");
    assert_eq!(rule.source_path, "old.path");
    assert_eq!(rule.target_path, "new.path");
    assert_eq!(rule.priority, 100);
}

#[test]
fn test_condition_field_exists() {
    let condition = Condition {
        field_path: "test.field".to_string(),
        condition_type: ConditionType::FieldExists,
        expected_value: None,
    };

    let rule = TransformationRule::new(
        "test".to_string(),
        "source".to_string(),
        "target".to_string(),
        TransformationType::Move,
    )
    .with_condition(condition);

    let config_with_field = map(vec![("test", map(vec![("field", s("value"))]))]);
    let config_without_field = map(vec![("other", map(vec![("field", s("value"))]))]);

    assert!(rule.condition_satisfied(&config_with_field));
    assert!(!rule.condition_satisfied(&config_without_field));
}

#[test]
fn test_get_nested_value() {
    let config = map(vec![("level1", map(vec![("level2", map(vec![("level3", s("test_value"))]))]))]);

    let value = get_nested_value(&config, "level1.level2.level3");
    assert_eq!(value.unwrap().as_str().unwrap(), "test_value");

    let missing = get_nested_value(&config, "level1.missing.level3");
    assert!(missing.is_none());
}

#[test]
fn test_transformation_warning_creation() {
    let warning = TransformationWarning::new(
        "Test warning".to_string(),
        TransformationWarningType::PartialTransformation,
    )
    .with_field_path("test.field".to_string());

    assert_eq!(warning.message, "Test warning");
    assert_eq!(warning.field_path, Some("test.field".to_string()));
}

#[test]
fn value_conditions() {
    let config = map(vec![("mode", s("fast"))]);
    let cond = |t, v: Option<ConfigValue>| Condition { field_path: "mode".to_string(), condition_type: t, expected_value: v };
    let r = |c| rule("r", "x", "y", TransformationType::Copy).with_condition(c);
    assert!(r(cond(ConditionType::ValueEquals, Some(s("fast")))).condition_satisfied(&config));
    assert!(!r(cond(ConditionType::ValueEquals, Some(s("slow")))).condition_satisfied(&config));
    assert!(!r(cond(ConditionType::ValueEquals, None)).condition_satisfied(&config));
    assert!(r(cond(ConditionType::ValueNotEquals, Some(s("slow")))).condition_satisfied(&config));
    assert!(!r(cond(ConditionType::ValueNotEquals, Some(s("fast")))).condition_satisfied(&config));
    assert!(r(cond(ConditionType::ValueNotEquals, None)).condition_satisfied(&config));
}

#[test]
fn single_rule_kinds() {
    let base = || map(vec![("a", map(vec![("b", s("v"))])), ("t", map(vec![("k", s("keep"))]))]);

    let mut c = base();
    let a = apply_single_rule(&mut c, &rule("mv", "a.b", "x.y", TransformationType::Move)).unwrap().unwrap();
    assert!(at(&c, "a.b").is_none());
    assert_eq!(at(&c, "x.y").unwrap().as_str(), Some("v"));
    assert!(a.old_value.is_none());
    assert_eq!(a.new_value.unwrap().as_str(), Some("v"));

    let mut c = base();
    apply_single_rule(&mut c, &rule("cp", "a.b", "x", TransformationType::Copy)).unwrap().unwrap();
    assert_eq!(at(&c, "a.b").unwrap().as_str(), Some("v"));
    assert_eq!(at(&c, "x").unwrap().as_str(), Some("v"));

    let mut c = base();
    apply_single_rule(&mut c, &rule("sp", "a.b", "p", TransformationType::Split(vec!["q.r".to_string()]))).unwrap().unwrap();
    assert_eq!(at(&c, "p").unwrap().as_str(), Some("v"));
    assert_eq!(at(&c, "q.r").unwrap().as_str(), Some("v"));

    let mut c = base();
    apply_single_rule(&mut c, &rule("mg", "a", "t", TransformationType::Merge(Vec::new()))).unwrap().unwrap();
    assert_eq!(at(&c, "t.k").unwrap().as_str(), Some("keep"));
    assert_eq!(at(&c, "t.b").unwrap().as_str(), Some("v"));

    let mut c = base();
    let a = apply_single_rule(&mut c, &rule("rm", "a.b", "", TransformationType::Remove)).unwrap().unwrap();
    assert!(at(&c, "a.b").is_none());
    assert_eq!(a.old_value.unwrap().as_str(), Some("v"));

    let mut c = base();
    assert!(apply_single_rule(&mut c, &rule("no", "missing", "x", TransformationType::Copy)).unwrap().is_none());
    assert!(c.equals(&base()));

    let mut c = base();
    assert_eq!(
        apply_single_rule(&mut c, &rule("tf", "a.b", "x", TransformationType::Transform("upper".to_string()))).unwrap_err(),
        "no transform function named upper"
    );
    assert!(c.equals(&base()));
}

#[test]
fn failing_rule_stops_the_rules() {
    let mut c = map(vec![("a", s("v"))]);
    let rules = vec![rule("tf", "a", "b", TransformationType::Transform("f".to_string()))];
    match apply_transformation_rules(&mut c, &rules) {
        Err(TransformationError::RuleApplicationFailed(id, _)) => assert_eq!(id, "tf"),
        _ => panic!("a failing rule did not stop the rules"),
    }
}

#[test]
fn field_absent_condition_gates_the_rule() {
    let gated = || {
        rule("gate", "src", "dst", TransformationType::Copy).with_condition(Condition {
            field_path: "p".to_string(),
            condition_type: ConditionType::FieldAbsent,
            expected_value: None,
        })
    };
    let mut present = map(vec![("p", s("here")), ("src", s("v"))]);
    let (applied, warnings) = apply_transformation_rules(&mut present, &vec![gated()]).unwrap();
    assert!(applied.is_empty());
    assert_eq!(warnings.len(), 1);
    assert_eq!(warnings[0].warning_type, TransformationWarningType::ConditionalSkipped);
    assert_eq!(at(&present, "p").unwrap().as_str(), Some("here"));
    assert!(at(&present, "dst").is_none());

    let mut absent = map(vec![("src", s("v"))]);
    let (applied, warnings) = apply_transformation_rules(&mut absent, &vec![gated()]).unwrap();
    assert_eq!(applied.len(), 1);
    assert!(warnings.is_empty());
    assert_eq!(at(&absent, "dst").unwrap().as_str(), Some("v"));
}

#[test]
fn higher_priority_rule_wins() {
    let low = rule("low", "legacy.value", "new.low", TransformationType::Move).with_priority(10);
    let high = rule("high", "legacy.value", "new.high", TransformationType::Move).with_priority(50);
    let mut c = map(vec![("legacy", map(vec![("value", s("v"))]))]);
    let (applied, warnings) = apply_transformation_rules(&mut c, &vec![low, high]).unwrap();
    assert_eq!(applied.len(), 1);
    assert_eq!(applied[0].rule_id, "high");
    assert_eq!(warnings.len(), 1);
    assert_eq!(at(&c, "new.high").unwrap().as_str(), Some("v"));
    assert!(at(&c, "new.low").is_none());
}

#[test]
fn engine_applies_detected_rules() {
    let old = SchemaVersion::new(1, 0, 0);
    let new = SchemaVersion::new(2, 0, 0);
    let mut old_schema = SchemaDefinition::new(old);
    old_schema.add_required_field("legacy".to_string(), FieldType::String);
    let mut new_schema = SchemaDefinition::new(new);
    new_schema.add_required_field("modern".to_string(), FieldType::String);
    new_schema.add_deprecated_field("legacy".to_string());
    let mut registry = SchemaRegistry::new();
    registry.add_schema(old_schema);
    registry.add_schema(new_schema);
    registry
        .add_transformation_rules(old, new, vec![rule("mv", "legacy", "modern", TransformationType::Move)])
        .unwrap();
    let mut engine = SchemaTransformationEngine::new(registry);
    let result = engine.transform(map(vec![("legacy", s("v"))])).unwrap();
    assert_eq!(result.source_version, Some(old));
    assert_eq!(result.target_version, new);
    assert_eq!(result.applied_transformations.len(), 1);
    assert!(result.validation_report.is_valid);
    assert_eq!(at(&result.transformed_config, "modern").unwrap().as_str(), Some("v"));
}

#[test]
fn engine_without_schemas_refuses() {
    let mut engine = SchemaTransformationEngine::new(SchemaRegistry::new());
    match engine.transform(map(vec![])) {
        Err(TransformationError::RegistryError(m)) => assert_eq!(m, "No schema versions available"),
        _ => panic!("transformed without any schema"),
    }
}

#[test]
fn engine_without_a_fitting_schema_leaves_the_document() {
    let old = SchemaVersion::new(1, 0, 0);
    let new = SchemaVersion::new(2, 0, 0);
    let mut old_schema = SchemaDefinition::new(old);
    old_schema.add_required_field("legacy".to_string(), FieldType::String);
    let mut new_schema = SchemaDefinition::new(new);
    new_schema.add_required_field("modern".to_string(), FieldType::String);
    let mut registry = SchemaRegistry::new();
    registry.add_schema(old_schema);
    registry.add_schema(new_schema);
    registry
        .add_transformation_rules(old, new, vec![rule("mv", "legacy", "modern", TransformationType::Move)])
        .unwrap();
    let mut engine = SchemaTransformationEngine::new(registry);
    let result = engine.transform_with_target_version(map(vec![("other", s("v"))]), new).unwrap();
    assert_eq!(result.source_version, None);
    assert!(result.applied_transformations.is_empty());
    assert!(!result.validation_report.is_valid);
    assert_eq!(result.validation_report.missing_required_fields, vec!["modern".to_string()]);
    assert_eq!(at(&result.transformed_config, "other").unwrap().as_str(), Some("v"));
}

#[test]
fn skipped_rules_are_warned_at_their_source() {
    let mut c = map(vec![("a", s("v"))]);
    let rules = vec![rule("absent", "nothing.here", "x", TransformationType::Copy), rule("cp", "a", "b", TransformationType::Copy)];
    let (applied, warnings) = apply_transformation_rules(&mut c, &rules).unwrap();
    assert_eq!(applied.len(), 1);
    assert_eq!(applied[0].rule_id, "cp");
    assert_eq!(warnings.len(), 1);
    assert_eq!(warnings[0].warning_type, TransformationWarningType::ConditionalSkipped);
    assert_eq!(warnings[0].field_path, Some("nothing.here".to_string()));
}

#[test]
fn failing_rule_is_named_and_earlier_rules_stay_applied() {
    let mut c = map(vec![("a", s("v"))]);
    let rules = vec![
        rule("tf", "a", "z", TransformationType::Transform("f".to_string())).with_priority(1),
        rule("cp", "a", "b", TransformationType::Copy).with_priority(9),
    ];
    match apply_transformation_rules(&mut c, &rules) {
        Err(TransformationError::RuleApplicationFailed(id, _)) => assert_eq!(id, "tf"),
        _ => panic!("a failing rule did not stop the rules"),
    }
    assert_eq!(at(&c, "b").unwrap().as_str(), Some("v"));
    assert!(at(&c, "z").is_none());
}

#[test]
fn engine_reports_missing_schema_and_missing_hop() {
    let old = SchemaVersion::new(1, 0, 0);
    let new = SchemaVersion::new(2, 0, 0);
    let mut old_schema = SchemaDefinition::new(old);
    old_schema.add_required_field("legacy".to_string(), FieldType::String);
    let mut new_schema = SchemaDefinition::new(new);
    new_schema.add_required_field("modern".to_string(), FieldType::String);
    let mut registry = SchemaRegistry::new();
    registry.add_schema(old_schema);
    registry.add_schema(new_schema);
    let mut engine = SchemaTransformationEngine::new(registry);
    match engine.transform_with_target_version(map(vec![("legacy", s("v"))]), SchemaVersion::new(3, 0, 0)) {
        Err(TransformationError::RegistryError(m)) => assert_eq!(m, "Schema version not found: 3.0.0"),
        _ => panic!("transformed to an unknown version"),
    }
    match engine.transform_with_target_version(map(vec![("legacy", s("v"))]), new) {
        Err(TransformationError::RegistryError(m)) => assert_eq!(m, "No transformation rules found from 1.0.0 to 2.0.0"),
        _ => panic!("transformed without a rule set"),
    }
}

#[test]
fn value_conditions_ignore_mapping_order() {
    let config = map(vec![("m", map(vec![("a", s("x")), ("b", s("y"))]))]);
    let cond = |t, v: Option<ConfigValue>| Condition { field_path: "m".to_string(), condition_type: t, expected_value: v };
    let r = |c| rule("r", "x", "y", TransformationType::Copy).with_condition(c);
    let swapped = map(vec![("b", s("y")), ("a", s("x"))]);
    assert!(r(cond(ConditionType::ValueEquals, Some(swapped.copy()))).condition_satisfied(&config));
    assert!(!r(cond(ConditionType::ValueNotEquals, Some(swapped))).condition_satisfied(&config));
    let other = map(vec![("b", s("y")), ("a", s("z"))]);
    assert!(!r(cond(ConditionType::ValueEquals, Some(other.copy()))).condition_satisfied(&config));
    let fewer = map(vec![("a", s("x"))]);
    assert!(!r(cond(ConditionType::ValueEquals, Some(fewer))).condition_satisfied(&config));
    let seq_a = ConfigValue::Sequence(vec![s("1"), s("2")]);
    let seq_b = ConfigValue::Sequence(vec![s("2"), s("1")]);
    assert!(!seq_a.equals(&seq_b));
}

#[test]
fn failing_rule_reports_its_cause() {
    let mut c = map(vec![("a", s("v"))]);
    let rules = vec![rule("tf", "a", "b", TransformationType::Transform("upper".to_string()))];
    match apply_transformation_rules(&mut c, &rules) {
        Err(TransformationError::RuleApplicationFailed(id, cause)) => {
            assert_eq!(id, "tf");
            assert_eq!(cause, "no transform function named upper");
        },
        _ => panic!("a failing rule did not stop the rules"),
    }
}
