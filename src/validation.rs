use vstd::prelude::*;

use crate::passes::storage_enabled;
use crate::path::{field_exists, split_path};
use crate::schema_version::SchemaVersion;
use crate::tree::{key, keys_view, ConfigValue, Tree};

verus! {

/// The outcome of a validation: `is_valid` is false exactly when an error
/// or a missing required field has been recorded.
#[derive(Debug, Clone)]
pub struct ValidationReport {
    pub is_valid: bool,
    pub errors: Vec<ValidationError>,
    pub warnings: Vec<ValidationWarning>,
    pub deprecated_fields: Vec<String>,
    pub missing_required_fields: Vec<String>,
}

/// An error found by a validation.
#[derive(Debug, Clone)]
pub struct ValidationError {
    pub field_path: String,
    pub error_type: ValidationErrorType,
    pub message: String,
    pub suggested_fix: Option<String>,
}

#[derive(Debug, Clone, Copy, PartialEq, Eq, Structural)]
pub enum ValidationErrorType {
    MissingRequiredField,
    InvalidFieldType,
    InvalidFieldValue,
    StructureViolation,
    SchemaViolation,
}

/// A finding that does not make the configuration invalid.
#[derive(Debug, Clone)]
pub struct ValidationWarning {
    pub field_path: String,
    pub warning_type: ValidationWarningType,
    pub message: String,
    pub recommendation: Option<String>,
}

#[derive(Debug, Clone, Copy, PartialEq, Eq, Structural)]
pub enum ValidationWarningType {
    DeprecatedField,
    SuboptimalConfiguration,
    MissingOptionalField,
    PotentialIssue,
}

/// The fields a schema version requires or deprecates, and their types.
#[derive(Debug, Clone)]
pub struct SchemaDefinition {
    pub version: SchemaVersion,
    pub required_fields: Vec<String>,
    pub deprecated_fields: Vec<String>,
    pub field_types: Vec<(String, FieldType)>,
}

#[derive(Debug, Clone, Copy, PartialEq, Eq, Structural)]
pub enum FieldType {
    String,
    Integer,
    Float,
    Boolean,
    Array,
    Object,
    Any,
}

impl ValidationReport {
    pub open spec fn consistent(&self) -> bool {
        self.is_valid == (self.errors@.len() == 0 && self.missing_required_fields@.len() == 0)
    }

    pub fn new() -> (r: Self)
        ensures
            r.is_valid,
            r.errors@.len() == 0,
            r.warnings@.len() == 0,
            r.deprecated_fields@.len() == 0,
            r.missing_required_fields@.len() == 0,
            r.consistent(),
    {
        ValidationReport {
            is_valid: true,
            errors: Vec::new(),
            warnings: Vec::new(),
            deprecated_fields: Vec::new(),
            missing_required_fields: Vec::new(),
        }
    }

    pub fn add_error(&mut self, error: ValidationError)
        ensures
            !final(self).is_valid,
            final(self).errors@ == old(self).errors@.push(error),
            final(self).warnings@ == old(self).warnings@,
            final(self).deprecated_fields@ == old(self).deprecated_fields@,
            final(self).missing_required_fields@ == old(self).missing_required_fields@,
            final(self).consistent(),
    {
        self.is_valid = false;
        self.errors.push(error);
    }

    pub fn add_warning(&mut self, warning: ValidationWarning)
        ensures
            final(self).is_valid == old(self).is_valid,
            final(self).errors@ == old(self).errors@,
            final(self).warnings@ == old(self).warnings@.push(warning),
            final(self).deprecated_fields@ == old(self).deprecated_fields@,
            final(self).missing_required_fields@ == old(self).missing_required_fields@,
            old(self).consistent() ==> final(self).consistent(),
    {
        self.warnings.push(warning);
    }

    pub fn add_deprecated_field(&mut self, field_path: String)
        ensures
            final(self).is_valid == old(self).is_valid,
            final(self).errors@ == old(self).errors@,
            final(self).warnings@ == old(self).warnings@,
            final(self).deprecated_fields@ == old(self).deprecated_fields@.push(field_path),
            final(self).missing_required_fields@ == old(self).missing_required_fields@,
            old(self).consistent() ==> final(self).consistent(),
    {
        self.deprecated_fields.push(field_path);
    }

    pub fn add_missing_required_field(&mut self, field_path: String)
        ensures
            !final(self).is_valid,
            final(self).errors@ == old(self).errors@,
            final(self).warnings@ == old(self).warnings@,
            final(self).deprecated_fields@ == old(self).deprecated_fields@,
            final(self).missing_required_fields@ == old(self).missing_required_fields@.push(
                field_path,
            ),
            final(self).consistent(),
    {
        self.is_valid = false;
        self.missing_required_fields.push(field_path);
    }

    pub fn has_errors(&self) -> (r: bool)
        ensures
            r == (self.errors@.len() > 0 || self.missing_required_fields@.len() > 0),
    {
        self.errors.len() > 0 || self.missing_required_fields.len() > 0
    }

    pub fn has_warnings(&self) -> (r: bool)
        ensures
            r == (self.warnings@.len() > 0 || self.deprecated_fields@.len() > 0),
    {
        self.warnings.len() > 0 || self.deprecated_fields.len() > 0
    }
}

impl Default for ValidationReport {
    fn default() -> (r: Self)
        ensures
            r.is_valid,
            r.errors@.len() == 0,
            r.warnings@.len() == 0,
            r.deprecated_fields@.len() == 0,
            r.missing_required_fields@.len() == 0,
    {
        ValidationReport::new()
    }
}

impl ValidationError {
    pub fn new(field_path: String, error_type: ValidationErrorType, message: String) -> (r: Self)
        ensures
            r.field_path == field_path,
            r.error_type == error_type,
            r.message == message,
            r.suggested_fix is None,
    {
        ValidationError { field_path, error_type, message, suggested_fix: None }
    }

    pub fn with_suggested_fix(self, fix: String) -> (r: Self)
        ensures
            r.field_path == self.field_path,
            r.error_type == self.error_type,
            r.message == self.message,
            r.suggested_fix == Some(fix),
    {
        ValidationError { suggested_fix: Some(fix), ..self }
    }
}

impl ValidationWarning {
    pub fn new(field_path: String, warning_type: ValidationWarningType, message: String) -> (r:
        Self)
        ensures
            r.field_path == field_path,
            r.warning_type == warning_type,
            r.message == message,
            r.recommendation is None,
    {
        ValidationWarning { field_path, warning_type, message, recommendation: None }
    }

    pub fn with_recommendation(self, recommendation: String) -> (r: Self)
        ensures
            r.field_path == self.field_path,
            r.warning_type == self.warning_type,
            r.message == self.message,
            r.recommendation == Some(recommendation),
    {
        ValidationWarning { recommendation: Some(recommendation), ..self }
    }
}

/// The type recorded for `path`: the last one given for it.
pub open spec fn type_of_field(types: Seq<(String, FieldType)>, path: Seq<char>) -> Option<
    FieldType,
>
    decreases types.len(),
{
    if types.len() == 0 {
        None
    } else if types.last().0@ == path {
        Some(types.last().1)
    } else {
        type_of_field(types.drop_last(), path)
    }
}

impl SchemaDefinition {
    pub fn new(version: SchemaVersion) -> (r: Self)
        ensures
            r.version == version,
            r.required_fields@.len() == 0,
            r.deprecated_fields@.len() == 0,
            r.field_types@.len() == 0,
    {
        SchemaDefinition {
            version,
            required_fields: Vec::new(),
            deprecated_fields: Vec::new(),
            field_types: Vec::new(),
        }
    }

    /// Requires `field_path`, of type `field_type`.
    pub fn add_required_field(&mut self, field_path: String, field_type: FieldType)
        ensures
            final(self).version == old(self).version,
            final(self).required_fields@ == old(self).required_fields@.push(field_path),
            final(self).deprecated_fields@ == old(self).deprecated_fields@,
            type_of_field(final(self).field_types@, field_path@) == Some(field_type),
            forall|p: Seq<char>|
                p != field_path@ ==> #[trigger] type_of_field(final(self).field_types@, p)
                    == type_of_field(old(self).field_types@, p),
    {
        self.required_fields.push(field_path.clone());
        self.add_field_type(field_path, field_type);
    }

    pub fn add_deprecated_field(&mut self, field_path: String)
        ensures
            final(self).version == old(self).version,
            final(self).required_fields@ == old(self).required_fields@,
            final(self).deprecated_fields@ == old(self).deprecated_fields@.push(field_path),
            final(self).field_types@ == old(self).field_types@,
    {
        self.deprecated_fields.push(field_path);
    }

    /// Records `field_type` as the type of `field_path`.
    pub fn add_field_type(&mut self, field_path: String, field_type: FieldType)
        ensures
            final(self).version == old(self).version,
            final(self).required_fields@ == old(self).required_fields@,
            final(self).deprecated_fields@ == old(self).deprecated_fields@,
            type_of_field(final(self).field_types@, field_path@) == Some(field_type),
            forall|p: Seq<char>|
                p != field_path@ ==> #[trigger] type_of_field(final(self).field_types@, p)
                    == type_of_field(old(self).field_types@, p),
    {
        let ghost before = self.field_types@;
        self.field_types.push((field_path, field_type));
        proof {
            assert(self.field_types@.drop_last() =~= before);
        }
    }

    /// The type recorded for `field_path`.
    pub fn field_type(&self, field_path: &String) -> (r: Option<FieldType>)
        ensures
            r == type_of_field(self.field_types@, field_path@),
    {
        let mut i = self.field_types.len();
        proof {
            assert(self.field_types@.subrange(0, i as int) =~= self.field_types@);
        }
        while i > 0
            invariant
                i <= self.field_types@.len(),
                type_of_field(self.field_types@, field_path@) == type_of_field(
                    self.field_types@.subrange(0, i as int),
                    field_path@,
                ),
            decreases i,
        {
            let ghost s = self.field_types@.subrange(0, i as int);
            proof {
                assert(s.drop_last() =~= self.field_types@.subrange(0, i - 1));
                assert(s.last() == self.field_types@[i - 1]);
            }
            if self.field_types[i - 1].0 == *field_path {
                return Some(self.field_types[i - 1].1);
            }
            i = i - 1;
        }
        None
    }

    pub fn has_field_type(&self, field_path: &String) -> (r: bool)
        ensures
            r == type_of_field(self.field_types@, field_path@) is Some,
    {
        self.field_type(field_path).is_some()
    }
}

/// Whether the dot-separated path `p` leads to a node of `t`.
pub open spec fn has_field(t: Tree, p: Seq<char>) -> bool {
    t.get_path(split_path(p)) is Some
}

/// The paths of `paths` that `t` lacks, in order.
pub open spec fn missing_fields(t: Tree, paths: Seq<Seq<char>>) -> Seq<Seq<char>> {
    paths.filter(|p: Seq<char>| !has_field(t, p))
}

/// The paths of `paths` that `t` has, in order.
pub open spec fn present_fields(t: Tree, paths: Seq<Seq<char>>) -> Seq<Seq<char>> {
    paths.filter(|p: Seq<char>| has_field(t, p))
}

/// Checks the required and deprecated fields of `schema` against `config`:
/// each absent required field is missing, each present deprecated field is
/// reported as deprecated.
pub fn validate(config: &ConfigValue, schema: &SchemaDefinition) -> (r: ValidationReport)
    ensures
        keys_view(r.missing_required_fields@) == missing_fields(
            config@,
            keys_view(schema.required_fields@),
        ),
        keys_view(r.deprecated_fields@) == present_fields(
            config@,
            keys_view(schema.deprecated_fields@),
        ),
        r.errors@.len() == 0,
        r.warnings@.len() == 0,
        r.is_valid == (r.missing_required_fields@.len() == 0),
        r.consistent(),
{
    let mut report = ValidationReport::new();
    let ghost req = keys_view(schema.required_fields@);
    let ghost dep = keys_view(schema.deprecated_fields@);
    let mut i: usize = 0;
    proof {
        reveal(Seq::filter);
        assert(req.subrange(0, 0) =~= Seq::<Seq<char>>::empty());
        assert(keys_view(report.missing_required_fields@) =~= Seq::<Seq<char>>::empty());
    }
    while i < schema.required_fields.len()
        invariant
            0 <= i <= schema.required_fields@.len(),
            req == keys_view(schema.required_fields@),
            keys_view(report.missing_required_fields@) == missing_fields(
                config@,
                req.subrange(0, i as int),
            ),
            report.errors@.len() == 0,
            report.warnings@.len() == 0,
            report.deprecated_fields@.len() == 0,
            report.consistent(),
        decreases schema.required_fields@.len() - i,
    {
        let field = &schema.required_fields[i];
        let ghost before = report.missing_required_fields@;
        proof {
            reveal(Seq::filter);
            let s = req.subrange(0, i + 1);
            assert(s.drop_last() =~= req.subrange(0, i as int));
            assert(s.last() == field@);
        }
        if !field_exists(config, field.as_str()) {
            report.add_missing_required_field(field.clone());
            proof {
                assert(keys_view(report.missing_required_fields@) =~= keys_view(before).push(
                    field@,
                ));
            }
        }
        i = i + 1;
    }
    proof {
        assert(req.subrange(0, req.len() as int) =~= req);
        assert(dep.subrange(0, 0) =~= Seq::<Seq<char>>::empty());
        assert(keys_view(report.deprecated_fields@) =~= Seq::<Seq<char>>::empty());
    }
    let mut j: usize = 0;
    while j < schema.deprecated_fields.len()
        invariant
            0 <= j <= schema.deprecated_fields@.len(),
            dep == keys_view(schema.deprecated_fields@),
            req == keys_view(schema.required_fields@),
            keys_view(report.missing_required_fields@) == missing_fields(config@, req),
            keys_view(report.deprecated_fields@) == present_fields(
                config@,
                dep.subrange(0, j as int),
            ),
            report.errors@.len() == 0,
            report.warnings@.len() == 0,
            report.consistent(),
        decreases schema.deprecated_fields@.len() - j,
    {
        let field = &schema.deprecated_fields[j];
        let ghost before = report.deprecated_fields@;
        proof {
            reveal(Seq::filter);
            let s = dep.subrange(0, j + 1);
            assert(s.drop_last() =~= dep.subrange(0, j as int));
            assert(s.last() == field@);
        }
        if field_exists(config, field.as_str()) {
            report.add_deprecated_field(field.clone());
            proof {
                assert(keys_view(report.deprecated_fields@) =~= keys_view(before).push(field@));
            }
        }
        j = j + 1;
    }
    proof {
        assert(dep.subrange(0, dep.len() as int) =~= dep);
    }
    report
}

// ---------------------------------------------------------------------
// Cross-field check of the tiered storage settings
// ---------------------------------------------------------------------
/// What the tiered storage settings amount to.
#[derive(Debug, Clone, PartialEq, Eq)]
pub enum TieredStorageStatus {
    /// There is no `storage.tiered.config` mapping.
    NotConfigured,
    /// `cloud_storage_enabled` is not `true`.
    Disabled,
    /// Enabled, but the bucket or the region is not set.
    MissingBucketOrRegion,
    /// Enabled with bucket and region, but neither access keys nor a
    /// credentials source.
    MissingCredentials,
    /// An access key without its secret key.
    MissingSecretKey,
    /// Complete, with access key authentication.
    AccessKeyAuth { explicit_endpoint: bool },
    /// Complete, with a credentials source (its name where it is a string).
    CredentialsSource { explicit_endpoint: bool, source: Option<String> },
}

/// The `storage.tiered.config` mapping, if there is one.
pub open spec fn tiered_config_of(t: Tree) -> Option<Tree> {
    match t.get("storage"@) {
        Some(s) => match s.get("tiered"@) {
            Some(td) => match td.get("config"@) {
                Some(c) => if c is Mapping {
                    Some(c)
                } else {
                    None
                },
                None => None,
            },
            None => None,
        },
        None => None,
    }
}

pub open spec fn source_name(c: Tree) -> Option<Seq<char>> {
    match c.get("cloud_storage_credentials_source"@) {
        Some(Tree::Str(s)) => Some(s),
        _ => None,
    }
}

impl TieredStorageStatus {
    /// The status that the settings of `t` call for.
    pub open spec fn describes(self, t: Tree) -> bool {
        match tiered_config_of(t) {
            None => self is NotConfigured,
            Some(c) => {
                let bucket = c.contains("cloud_storage_bucket"@);
                let region = c.contains("cloud_storage_region"@);
                let access = c.contains("cloud_storage_access_key"@);
                let secret = c.contains("cloud_storage_secret_key"@);
                let source = c.contains("cloud_storage_credentials_source"@);
                let endpoint = c.contains("cloud_storage_api_endpoint"@);
                if !storage_enabled(c) {
                    self is Disabled
                } else if !bucket || !region {
                    self is MissingBucketOrRegion
                } else if !access && !source {
                    self is MissingCredentials
                } else if access && !secret {
                    self is MissingSecretKey
                } else if access {
                    self == TieredStorageStatus::AccessKeyAuth { explicit_endpoint: endpoint }
                } else {
                    match self {
                        TieredStorageStatus::CredentialsSource {
                            explicit_endpoint,
                            source,
                        } => explicit_endpoint == endpoint && match source {
                            Some(s) => source_name(c) == Some(s@),
                            None => source_name(c) is None,
                        },
                        _ => false,
                    }
                }
            },
        }
    }
}

/// Checks that enabled tiered storage names a bucket, a region and one
/// complete way to authenticate.
pub fn check_tiered_storage(val: &ConfigValue) -> (r: TieredStorageStatus)
    ensures
        r.describes(val@),
{
    let config = match val.get(&key("storage")) {
        Some(s) => match s.get(&key("tiered")) {
            Some(td) => match td.get(&key("config")) {
                Some(c) => if c.is_mapping() {
                    Some(c)
                } else {
                    None
                },
                None => None,
            },
            None => None,
        },
        None => None,
    };
    match config {
        None => TieredStorageStatus::NotConfigured,
        Some(c) => {
            let enabled = match c.get(&key("cloud_storage_enabled")) {
                Some(ConfigValue::Bool(b)) => *b,
                _ => false,
            };
            if !enabled {
                return TieredStorageStatus::Disabled;
            }
            let bucket = c.contains_key(&key("cloud_storage_bucket"));
            let region = c.contains_key(&key("cloud_storage_region"));
            if !bucket || !region {
                return TieredStorageStatus::MissingBucketOrRegion;
            }
            let access = c.contains_key(&key("cloud_storage_access_key"));
            let secret = c.contains_key(&key("cloud_storage_secret_key"));
            let source = c.contains_key(&key("cloud_storage_credentials_source"));
            if !access && !source {
                return TieredStorageStatus::MissingCredentials;
            }
            if access && !secret {
                return TieredStorageStatus::MissingSecretKey;
            }
            let endpoint = c.contains_key(&key("cloud_storage_api_endpoint"));
            if access {
                TieredStorageStatus::AccessKeyAuth { explicit_endpoint: endpoint }
            } else {
                let name = match c.get(&key("cloud_storage_credentials_source")) {
                    Some(ConfigValue::Str(s)) => Some(s.clone()),
                    _ => None,
                };
                TieredStorageStatus::CredentialsSource { explicit_endpoint: endpoint, source: name }
            }
        },
    }
}

} // verus!
