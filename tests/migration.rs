use config_migrator::merge::merge;
use config_migrator::migrate::{map_statefulset_to_podtemplate, rename_nested_keys};
use config_migrator::passes::{clean_deprecated_fields, clean_empty_cloud_storage, clean_old_resource_format};
use config_migrator::path::get_nested_value;
use config_migrator::pipeline::{migrate_values, output_file_name, stages, MigrationError, Stage};
use config_migrator::tree::ConfigValue;
use config_migrator::validation::TieredStorageStatus;

fn s(x: &str) -> ConfigValue {
    ConfigValue::Str(x.to_string())
}

fn n(x: &str) -> ConfigValue {
    ConfigValue::Number(x.to_string())
}

fn map(entries: Vec<(&str, ConfigValue)>) -> ConfigValue {
    ConfigValue::Mapping(entries.into_iter().map(|(k, v)| (k.to_string(), v)).collect())
}

fn seq(items: Vec<ConfigValue>) -> ConfigValue {
    ConfigValue::Sequence(items)
}

fn at<'a>(v: &'a ConfigValue, path: &str) -> Option<&'a ConfigValue> {
    get_nested_value(v, path)
}

fn text(v: &ConfigValue, path: &str) -> Option<String> {
    at(v, path).and_then(|c| c.as_str()).map(|t| t.to_string())
}

#[test]
fn merge_keeps_primary_and_fills_gaps() {
    let mut primary = map(vec![("a", n("1")), ("m", map(vec![("x", s("p"))])), ("l", seq(vec![n("1")]))]);
    let secondary = map(vec![
        ("a", n("2")),
        ("b", n("3")),
        ("m", map(vec![("x", s("s")), ("y", s("t"))])),
        ("l", seq(vec![n("2"), n("3")])),
    ]);
    merge(&mut primary, &secondary);
    assert!(at(&primary, "a").unwrap().equals(&n("1")));
    assert!(at(&primary, "b").unwrap().equals(&n("3")));
    assert_eq!(text(&primary, "m.x"), Some("p".to_string()));
    assert_eq!(text(&primary, "m.y"), Some("t".to_string()));
    assert!(at(&primary, "l").unwrap().equals(&seq(vec![n("1")])));
}

#[test]
fn merge_is_not_commutative() {
    let a = map(vec![("x", n("1"))]);
    let b = map(vec![("x", n("2"))]);
    let mut ab = a.copy();
    merge(&mut ab, &b);
    let mut ba = b.copy();
    merge(&mut ba, &a);
    assert!(at(&ab, "x").unwrap().equals(&n("1")));
    assert!(at(&ba, "x").unwrap().equals(&n("2")));
    assert!(!ab.equals(&ba));
}

#[test]
fn merge_into_non_mapping_keeps_primary() {
    let mut primary = s("scalar");
    merge(&mut primary, &map(vec![("a", n("1"))]));
    assert!(primary.equals(&s("scalar")));
}

fn sample() -> ConfigValue {
    map(vec![
        ("license_secret_ref", map(vec![("secret_name", s("redpanda-license")), ("secret_key", s("redpanda.license"))])),
        ("license_key", s("KEY")),
        ("nodeSelector", map(vec![("zone", s("a"))])),
        ("tolerations", seq(vec![s("t1")])),
        ("affinity", map(vec![])),
        ("connectors", map(vec![("enabled", ConfigValue::Bool(false))])),
        ("image", map(vec![("tag", s("v23.2.1")), ("pullPolicy", s("Always"))])),
        ("resources", map(vec![
            ("cpu", map(vec![("cores", n("4"))])),
            ("memory", map(vec![("container", map(vec![("max", s("8Gi"))]))])),
        ])),
        ("statefulset", map(vec![
            ("nodeSelector", map(vec![("zone", s("b"))])),
            ("priorityClassName", s("high")),
            ("podAffinity", map(vec![("rule", s("r"))])),
            ("initContainers", map(vec![("tuning", map(vec![])), ("configurator", map(vec![("resources", map(vec![]))]))])),
        ])),
        ("storage", map(vec![
            ("tieredConfig", map(vec![("cloud_storage_enabled", ConfigValue::Bool(false)), ("cloud_storage_bucket", s(""))])),
            ("tieredStorageHostPath", s("/mnt")),
            ("tiered", map(vec![("mountType", s("none"))])),
        ])),
        ("enterprise", map(vec![("licenseSecretRef", map(vec![]))])),
    ])
}

#[test]
fn license_secret_ref_is_renamed() {
    let mut v = map(vec![(
        "license_secret_ref",
        map(vec![("secret_name", s("redpanda-license")), ("secret_key", s("redpanda.license"))]),
    )]);
    rename_nested_keys(&mut v);
    assert!(at(&v, "license_secret_ref").is_none());
    let expected = map(vec![("name", s("redpanda-license")), ("key", s("redpanda.license"))]);
    assert!(at(&v, "enterprise.licenseSecretRef").unwrap().equals(&expected));
}

#[test]
fn rename_converts_resources_and_tiered_storage() {
    let mut v = sample();
    rename_nested_keys(&mut v);
    assert!(at(&v, "resources.cpu").is_none());
    assert!(at(&v, "resources.memory").is_none());
    assert!(at(&v, "resources.requests.cpu").unwrap().equals(&n("4")));
    assert!(at(&v, "resources.limits.cpu").unwrap().equals(&n("4")));
    assert_eq!(text(&v, "resources.requests.memory"), Some("8Gi".to_string()));
    assert!(at(&v, "storage.tieredConfig").is_none());
    assert_eq!(at(&v, "storage.tiered.config.cloud_storage_enabled").unwrap().as_bool(), Some(false));
    assert_eq!(text(&v, "storage.tiered.hostPath"), Some("/mnt".to_string()));
    assert_eq!(text(&v, "storage.tiered.mountType"), Some("none".to_string()));
    assert_eq!(text(&v, "enterprise.license"), Some("KEY".to_string()));
    assert!(at(&v, "license_key").is_none());
}

#[test]
fn pod_settings_move_to_pod_template() {
    let mut v = sample();
    map_statefulset_to_podtemplate(&mut v);
    assert_eq!(text(&v, "podTemplate.spec.nodeSelector.zone"), Some("b".to_string()));
    assert!(at(&v, "podTemplate.spec.tolerations").unwrap().equals(&seq(vec![s("t1")])));
    assert_eq!(text(&v, "podTemplate.spec.priorityClassName"), Some("high".to_string()));
    assert_eq!(text(&v, "podTemplate.spec.affinity.podAffinity.rule"), Some("r".to_string()));
    assert_eq!(text(&v, "nodeSelector.zone"), Some("a".to_string()));
}

#[test]
fn root_scheduling_settings_fill_only_gaps() {
    let mut v = map(vec![("nodeSelector", map(vec![("zone", s("root"))]))]);
    map_statefulset_to_podtemplate(&mut v);
    assert_eq!(text(&v, "podTemplate.spec.nodeSelector.zone"), Some("root".to_string()));
    let mut w = map(vec![("tolerations", seq(vec![]))]);
    map_statefulset_to_podtemplate(&mut w);
    assert!(at(&w, "podTemplate").is_none());
}

#[test]
fn deprecated_fields_are_removed() {
    let mut v = sample();
    clean_deprecated_fields(&mut v);
    for gone in ["nodeSelector", "tolerations", "affinity", "connectors", "image.pullPolicy", "statefulset.nodeSelector",
        "statefulset.priorityClassName", "statefulset.podAffinity", "statefulset.initContainers.tuning",
        "statefulset.initContainers.configurator.resources", "enterprise.licenseSecretRef"] {
        assert!(at(&v, gone).is_none(), "{} is still there", gone);
    }
    assert_eq!(text(&v, "image.tag"), Some("v23.2.1".to_string()));
    assert!(at(&v, "statefulset.initContainers.configurator").is_some());
}

#[test]
fn disabled_cloud_storage_is_cleaned() {
    let mut v = map(vec![(
        "storage",
        map(vec![(
            "tiered",
            map(vec![(
                "config",
                map(vec![
                    ("cloud_storage_enabled", ConfigValue::Bool(false)),
                    ("cloud_storage_bucket", s("")),
                    ("cloud_storage_region", s("")),
                ]),
            )]),
        )]),
    )]);
    clean_empty_cloud_storage(&mut v);
    assert!(at(&v, "storage.tiered.config.cloud_storage_bucket").is_none());
    assert!(at(&v, "storage.tiered.config.cloud_storage_region").is_none());
    assert_eq!(at(&v, "storage.tiered.config.cloud_storage_enabled").unwrap().as_bool(), Some(false));
}

#[test]
fn enabled_cloud_storage_is_kept() {
    let enabled = map(vec![(
        "storage",
        map(vec![(
            "tiered",
            map(vec![
                ("config", map(vec![("cloud_storage_enabled", ConfigValue::Bool(true)), ("cloud_storage_bucket", s("b"))])),
                ("credentialsSecretRef", map(vec![("name", s("creds"))])),
            ]),
        )]),
    )]);
    let mut v = enabled.copy();
    clean_empty_cloud_storage(&mut v);
    assert!(v.equals(&enabled));
}

#[test]
fn old_resource_keys_go_when_new_ones_exist() {
    let mut v = map(vec![(
        "resources",
        map(vec![
            ("requests", map(vec![("cpu", n("1"))])),
            ("limits", map(vec![("cpu", n("1"))])),
            ("cpu", map(vec![("cores", n("9"))])),
        ]),
    )]);
    clean_old_resource_format(&mut v);
    assert!(at(&v, "resources.cpu").is_none());
    assert!(at(&v, "resources.requests.cpu").unwrap().equals(&n("1")));
}

#[test]
fn every_pass_is_idempotent() {
    let passes: Vec<fn(&mut ConfigValue)> = vec![
        rename_nested_keys,
        map_statefulset_to_podtemplate,
        clean_deprecated_fields,
        clean_empty_cloud_storage,
        clean_old_resource_format,
    ];
    for pass in passes {
        let mut once = sample();
        pass(&mut once);
        let mut twice = once.copy();
        pass(&mut twice);
        assert!(twice.equals(&once));
    }
}

#[test]
fn stage_order_keeps_the_deprecation_phases_apart() {
    let order = stages();
    let pos = |s: Stage| order.iter().position(|x| *x == s).unwrap();
    assert!(pos(Stage::MigratePodSettings) < pos(Stage::RemoveDeprecated));
    assert!(pos(Stage::RemoveDeprecated) < pos(Stage::MergeDefaults));
    assert!(pos(Stage::MergeDefaults) < pos(Stage::CleanCloudStorage));
    assert!(pos(Stage::MergeDefaults) < pos(Stage::CleanResourceFormat));
}

fn defaults() -> ConfigValue {
    map(vec![
        ("image", map(vec![("repository", s("docker.redpanda.com/redpandadata/redpanda")), ("tag", s(""))])),
        ("resources", map(vec![("cpu", map(vec![("cores", n("1"))])), ("memory", map(vec![]))])),
        ("storage", map(vec![("tiered", map(vec![("config", map(vec![("cloud_storage_bucket", s("")), ("cloud_storage_region", s(""))]))]))])),
    ])
}

#[test]
fn migration_needs_a_version() {
    let mut v = map(vec![("image", map(vec![("repository", s("r"))]))]);
    match migrate_values(&mut v, &defaults(), None) {
        Err(MigrationError::VersionRequired) => {},
        _ => panic!("migrated without a version"),
    }
    assert!(at(&v, "image.tag").is_none());
}

#[test]
fn migration_pins_the_version() {
    let mut v = map(vec![("image", map(vec![("repository", s("r"))]))]);
    let status = migrate_values(&mut v, &defaults(), Some("v24.1.1")).unwrap();
    assert_eq!(text(&v, "image.tag"), Some("v24.1.1".to_string()));
    assert_eq!(text(&v, "image.repository"), Some("r".to_string()));
    assert_eq!(status, TieredStorageStatus::Disabled);
}

#[test]
fn migration_refuses_a_malformed_version() {
    let mut v = map(vec![("image", map(vec![("tag", s("v1.0.0"))]))]);
    match migrate_values(&mut v, &defaults(), Some("24.1")) {
        Err(MigrationError::InvalidVersion(t)) => assert_eq!(t, "24.1"),
        _ => panic!("accepted a malformed version"),
    }
    assert_eq!(text(&v, "image.tag"), Some("v1.0.0".to_string()));
}

#[test]
fn migration_removes_what_the_merge_brings_back() {
    let mut v = sample();
    migrate_values(&mut v, &defaults(), None).unwrap();
    assert!(at(&v, "resources.cpu").is_none());
    assert!(at(&v, "resources.memory").is_none());
    assert!(at(&v, "resources.requests.cpu").unwrap().equals(&n("4")));
    assert!(at(&v, "storage.tiered.config.cloud_storage_bucket").is_none());
    assert!(at(&v, "storage.tiered.config.cloud_storage_region").is_none());
    assert!(at(&v, "nodeSelector").is_none());
    assert_eq!(text(&v, "podTemplate.spec.nodeSelector.zone"), Some("b".to_string()));
    assert_eq!(text(&v, "image.tag"), Some("v23.2.1".to_string()));
    assert_eq!(text(&v, "image.repository"), Some("docker.redpanda.com/redpandadata/redpanda".to_string()));
}

#[test]
fn output_file_names() {
    assert_eq!(output_file_name("updated-values.yaml", 0), "updated-values.yaml");
    assert_eq!(output_file_name("updated-values.yaml", 1), "updated-values-1.yaml");
    assert_eq!(output_file_name("updated-values.yaml", 42), "updated-values-42.yaml");
}

#[test]
fn tiered_config_keeps_existing_config_values() {
    let mut v = map(vec![
        ("tieredConfig", map(vec![("a", s("1")), ("b", s("x"))])),
        ("tiered", map(vec![("config", map(vec![("a", s("2"))]))])),
    ]);
    rename_nested_keys(&mut v);
    assert!(at(&v, "tieredConfig").is_none());
    assert_eq!(text(&v, "tiered.config.a"), Some("2".to_string()));
    assert_eq!(text(&v, "tiered.config.b"), Some("x".to_string()));
}

#[test]
fn host_path_creates_tiered() {
    let mut v = map(vec![("tieredStorageHostPath", s("h")), ("tieredStoragePersistentVolume", map(vec![("enabled", ConfigValue::Bool(true))]))]);
    rename_nested_keys(&mut v);
    assert!(at(&v, "tieredStorageHostPath").is_none());
    assert_eq!(text(&v, "tiered.hostPath"), Some("h".to_string()));
    assert_eq!(at(&v, "tiered.persistentVolume.enabled").unwrap().as_bool(), Some(true));
}

#[test]
fn migration_refuses_a_non_mapping_document() {
    let mut v = s("not a document");
    match migrate_values(&mut v, &defaults(), Some("v1.0.0")) {
        Err(MigrationError::NotAMapping) => {},
        _ => panic!("migrated a scalar document"),
    }
    assert!(v.equals(&s("not a document")));
}

#[test]
fn migration_pins_over_a_scalar_image() {
    let mut v = map(vec![("image", s("repo:old"))]);
    migrate_values(&mut v, &defaults(), Some("v24.1.1-rc1")).unwrap();
    assert_eq!(text(&v, "image.tag"), Some("v24.1.1-rc1".to_string()));
}
