use vstd::prelude::*;

use crate::schema_version::SchemaVersion;
use crate::transformation_rule::TransformationRule;
use crate::tree::ConfigValue;
use crate::tree::keys_view;
use crate::validation::{missing_fields, present_fields, validate, SchemaDefinition, ValidationReport};
use vstd::string::StrSliceExecFns;

verus! {

/// Rules to go from one version to another.
pub struct RuleSet {
    pub source: SchemaVersion,
    pub target: SchemaVersion,
    pub rules: Vec<TransformationRule>,
}

/// The known schema versions, the rules between pairs of them and the
/// migration paths. Each version, pair and path start occurs once.
pub struct SchemaRegistry {
    schemas: Vec<SchemaDefinition>,
    rule_sets: Vec<RuleSet>,
    migration_paths: Vec<(SchemaVersion, Vec<SchemaVersion>)>,
}

#[derive(Debug, Clone)]
pub enum RegistryError {
    SchemaNotFound(SchemaVersion),
    NoTransformationRules(String, String),
    RuleValidationFailed(String),
    SchemaDefinitionError(String),
}

impl RegistryError {
    /// The error as a sentence.
    pub fn message(&self) -> (r: String)
        ensures
            r@ == match self {
                RegistryError::SchemaNotFound(v) => "Schema version not found: "@ + v.text(),
                RegistryError::NoTransformationRules(a, b) => "No transformation rules found from "@
                    + a@ + " to "@ + b@,
                RegistryError::RuleValidationFailed(s) => "Rule validation failed: "@ + s@,
                RegistryError::SchemaDefinitionError(s) => "Schema definition error: "@ + s@,
            },
    {
        match self {
            RegistryError::SchemaNotFound(v) => {
                let mut m = String::from_str("Schema version not found: ");
                m.append(v.to_string().as_str());
                m
            },
            RegistryError::NoTransformationRules(a, b) => {
                let mut m = String::from_str("No transformation rules found from ");
                m.append(a.as_str());
                m.append(" to ");
                m.append(b.as_str());
                m
            },
            RegistryError::RuleValidationFailed(s) => {
                let mut m = String::from_str("Rule validation failed: ");
                m.append(s.as_str());
                m
            },
            RegistryError::SchemaDefinitionError(s) => {
                let mut m = String::from_str("Schema definition error: ");
                m.append(s.as_str());
                m
            },
        }
    }
}

/// A rule that registration refuses: no id or no source path.
pub open spec fn rule_malformed(r: TransformationRule) -> bool {
    r.rule_id@.len() == 0 || r.source_path@.len() == 0
}

/// Position of the schema of version `v`, or -1.
pub open spec fn schema_position(s: Seq<SchemaDefinition>, v: SchemaVersion) -> int
    decreases s.len(),
{
    if s.len() == 0 {
        -1
    } else if s.last().version == v {
        s.len() - 1
    } else {
        schema_position(s.drop_last(), v)
    }
}

pub open spec fn rule_set_position(s: Seq<RuleSet>, a: SchemaVersion, b: SchemaVersion) -> int
    decreases s.len(),
{
    if s.len() == 0 {
        -1
    } else if s.last().source == a && s.last().target == b {
        s.len() - 1
    } else {
        rule_set_position(s.drop_last(), a, b)
    }
}

pub open spec fn path_position(s: Seq<(SchemaVersion, Vec<SchemaVersion>)>, a: SchemaVersion) -> int
    decreases s.len(),
{
    if s.len() == 0 {
        -1
    } else if s.last().0 == a {
        s.len() - 1
    } else {
        path_position(s.drop_last(), a)
    }
}

proof fn lemma_schema_position(s: Seq<SchemaDefinition>, v: SchemaVersion)
    ensures
        -1 <= schema_position(s, v) < s.len(),
        schema_position(s, v) >= 0 ==> s[schema_position(s, v)].version == v,
        schema_position(s, v) < 0 ==> forall|i: int| 0 <= i < s.len() ==> s[i].version != v,
    decreases s.len(),
{
    if s.len() > 0 {
        lemma_schema_position(s.drop_last(), v);
        if s.last().version != v {
            assert forall|i: int| 0 <= i < s.len() && schema_position(s, v) < 0 implies s[i].version
                != v by {
                if i < s.len() - 1 {
                    assert(s[i] == s.drop_last()[i]);
                }
            }
        }
    }
}

proof fn lemma_rule_set_position(s: Seq<RuleSet>, a: SchemaVersion, b: SchemaVersion)
    ensures
        -1 <= rule_set_position(s, a, b) < s.len(),
        rule_set_position(s, a, b) >= 0 ==> s[rule_set_position(s, a, b)].source == a && s[rule_set_position(s, a, b)].target == b,
    decreases s.len(),
{
    if s.len() > 0 {
        lemma_rule_set_position(s.drop_last(), a, b);
    }
}

proof fn lemma_path_position(s: Seq<(SchemaVersion, Vec<SchemaVersion>)>, a: SchemaVersion)
    ensures
        -1 <= path_position(s, a) < s.len(),
        path_position(s, a) >= 0 ==> s[path_position(s, a)].0 == a,
    decreases s.len(),
{
    if s.len() > 0 {
        lemma_path_position(s.drop_last(), a);
    }
}

/// Updating an element other than the last match leaves the position as it is.
proof fn lemma_schema_position_update(s: Seq<SchemaDefinition>, i: int, d: SchemaDefinition, v: SchemaVersion)
    requires
        0 <= i < s.len(),
        s[i].version == d.version,
    ensures
        schema_position(s.update(i, d), v) == schema_position(s, v),
    decreases s.len(),
{
    let u = s.update(i, d);
    if i == s.len() - 1 {
        assert(u.drop_last() =~= s.drop_last());
    } else {
        assert(u.drop_last() =~= s.drop_last().update(i, d));
        lemma_schema_position_update(s.drop_last(), i, d, v);
    }
}

impl SchemaRegistry {
    /// Each version has one schema.
    pub closed spec fn well_formed(&self) -> bool {
        forall|i: int, j: int|
            0 <= i < j < self.schemas@.len() ==> self.schemas@[i].version
                != self.schemas@[j].version
    }

    /// The schema of version `v`.
    pub closed spec fn schema_of(&self, v: SchemaVersion) -> Option<SchemaDefinition> {
        let i = schema_position(self.schemas@, v);
        if i >= 0 {
            Some(self.schemas@[i])
        } else {
            None
        }
    }

    /// The rules from `a` to `b`.
    pub closed spec fn rules_of(&self, a: SchemaVersion, b: SchemaVersion) -> Option<
        Seq<TransformationRule>,
    > {
        let i = rule_set_position(self.rule_sets@, a, b);
        if i >= 0 {
            Some(self.rule_sets@[i].rules@)
        } else {
            None
        }
    }

    /// The migration path recorded from `a`.
    pub closed spec fn path_of(&self, a: SchemaVersion) -> Option<Seq<SchemaVersion>> {
        let i = path_position(self.migration_paths@, a);
        if i >= 0 {
            Some(self.migration_paths@[i].1@)
        } else {
            None
        }
    }

    pub fn new() -> (r: Self)
        ensures
            r.well_formed(),
            forall|v: SchemaVersion| #[trigger] r.schema_of(v) is None,
            forall|a: SchemaVersion, b: SchemaVersion| #[trigger] r.rules_of(a, b) is None,
            forall|a: SchemaVersion| #[trigger] r.path_of(a) is None,
    {
        SchemaRegistry { schemas: Vec::new(), rule_sets: Vec::new(), migration_paths: Vec::new() }
    }

    /// Registers `schema`, in place of an earlier one of the same version.
    pub fn add_schema(&mut self, schema: SchemaDefinition)
        requires
            old(self).well_formed(),
        ensures
            final(self).well_formed(),
            final(self).schema_of(schema.version) == Some(schema),
            forall|v: SchemaVersion|
                v != schema.version ==> #[trigger] final(self).schema_of(v) == old(self).schema_of(
                    v,
                ),
            forall|a: SchemaVersion, b: SchemaVersion|
                #[trigger] final(self).rules_of(a, b) == old(self).rules_of(a, b),
            forall|a: SchemaVersion| #[trigger] final(self).path_of(a) == old(self).path_of(a),
    {
        let v = schema.version;
        let ghost s0 = self.schemas@;
        proof {
            lemma_schema_position(s0, v);
        }
        match self.find_schema(&v) {
            Some(i) => {
                self.schemas.set(i, schema);
                proof {
                    assert forall|w: SchemaVersion| true implies #[trigger] schema_position(
                        self.schemas@,
                        w,
                    ) == schema_position(s0, w) by {
                        lemma_schema_position_update(s0, i as int, schema, w);
                    }
                    assert forall|w: SchemaVersion| w != v implies #[trigger] self.schema_of(w)
                        == old(self).schema_of(w) by {
                        lemma_schema_position(s0, w);
                        let p = schema_position(s0, w);
                        if p >= 0 {
                            assert(p != i);
                            assert(self.schemas@[p] == s0[p]);
                        }
                    }
                }
            },
            None => {
                self.schemas.push(schema);
                proof {
                    assert(self.schemas@.drop_last() =~= s0);
                    assert forall|w: SchemaVersion| w != v implies #[trigger] self.schema_of(w)
                        == old(self).schema_of(w) by {
                        lemma_schema_position(s0, w);
                        let p = schema_position(s0, w);
                        if p >= 0 {
                            assert(self.schemas@[p] == s0[p]);
                        }
                    }
                }
            },
        }
    }

    /// Whether a schema of version `v` is registered.
    pub fn has_schema(&self, v: &SchemaVersion) -> (r: bool)
        ensures
            r == self.schema_of(*v) is Some,
    {
        let found = self.find_schema(v);
        proof {
            lemma_schema_position(self.schemas@, *v);
        }
        found.is_some()
    }

    /// Position of the schema of version `v`.
    fn find_schema(&self, v: &SchemaVersion) -> (r: Option<usize>)
        ensures
            match r {
                Some(i) => i < self.schemas@.len() && schema_position(self.schemas@, *v) == i,
                None => schema_position(self.schemas@, *v) == -1,
            },
    {
        let ghost s = self.schemas@;
        let mut i = self.schemas.len();
        proof {
            assert(s.subrange(0, i as int) =~= s);
        }
        while i > 0
            invariant
                i <= s.len(),
                s == self.schemas@,
                schema_position(s, *v) == schema_position(s.subrange(0, i as int), *v),
            decreases i,
        {
            proof {
                assert(s.subrange(0, i as int).drop_last() =~= s.subrange(0, i - 1));
                assert(s.subrange(0, i as int).last() == s[i - 1]);
            }
            if self.schemas[i - 1].version == *v {
                return Some(i - 1);
            }
            i = i - 1;
        }
        proof {
            assert(s.subrange(0, 0) =~= Seq::<SchemaDefinition>::empty());
        }
        None
    }

    /// Registers the rules from `source` to `target`, where none of them
    /// lacks an id or a source path.
    pub fn add_transformation_rules(
        &mut self,
        source: SchemaVersion,
        target: SchemaVersion,
        rules: Vec<TransformationRule>,
    ) -> (r: Result<(), RegistryError>)
        requires
            old(self).well_formed(),
        ensures
            final(self).well_formed(),
            r is Ok <==> forall|i: int| 0 <= i < rules@.len() ==> !rule_malformed(#[trigger] rules@[i]),
            r is Ok ==> final(self).rules_of(source, target) == Some(rules@),
            r is Ok ==> forall|a: SchemaVersion, b: SchemaVersion|
                !(a == source && b == target) ==> #[trigger] final(self).rules_of(a, b) == old(
                    self,
                ).rules_of(a, b),
            r is Err ==> *final(self) == *old(self),
            r matches Err(e) ==> e is RuleValidationFailed,
            forall|v: SchemaVersion| #[trigger] final(self).schema_of(v) == old(self).schema_of(v),
    {
        if let Err(e) = validate_rules(&rules) {
            return Err(e);
        }
        let ghost s0 = self.rule_sets@;
        self.rule_sets.push(RuleSet { source, target, rules });
        proof {
            assert(self.rule_sets@.drop_last() =~= s0);
            assert forall|a: SchemaVersion, b: SchemaVersion|
                !(a == source && b == target) implies #[trigger] self.rules_of(a, b) == old(
                self,
            ).rules_of(a, b) by {
                lemma_rule_set_position(s0, a, b);
                let p = rule_set_position(s0, a, b);
                if p >= 0 {
                    assert(self.rule_sets@[p] == s0[p]);
                }
            }
        }
        Ok(())
    }

    /// The rules from `source` to `target`.
    pub fn get_transformation_rules(&self, source: &SchemaVersion, target: &SchemaVersion) -> (r:
        Result<&Vec<TransformationRule>, RegistryError>)
        ensures
            match r {
                Ok(rs) => self.rules_of(*source, *target) == Some(rs@),
                Err(e) => self.rules_of(*source, *target) is None && (e matches RegistryError::NoTransformationRules(a, b) && a@ == source.text() && b@ == target.text()),
            },
    {
        let ghost s = self.rule_sets@;
        let mut i = self.rule_sets.len();
        proof {
            assert(s.subrange(0, i as int) =~= s);
        }
        while i > 0
            invariant
                i <= s.len(),
                s == self.rule_sets@,
                rule_set_position(s, *source, *target) == rule_set_position(
                    s.subrange(0, i as int),
                    *source,
                    *target,
                ),
            decreases i,
        {
            proof {
                assert(s.subrange(0, i as int).drop_last() =~= s.subrange(0, i - 1));
            }
            if self.rule_sets[i - 1].source == *source && self.rule_sets[i - 1].target == *target {
                return Ok(&self.rule_sets[i - 1].rules);
            }
            i = i - 1;
        }
        proof {
            assert(s.subrange(0, 0) =~= Seq::<RuleSet>::empty());
        }
        Err(RegistryError::NoTransformationRules(source.to_string(), target.to_string()))
    }

    /// The greatest registered version.
    pub fn get_latest_version(&self) -> (r: Option<SchemaVersion>)
        ensures
            r is None <==> forall|v: SchemaVersion| #[trigger] self.schema_of(v) is None,
            r matches Some(v) ==> self.schema_of(v) is Some,
            r matches Some(v) ==> forall|w: SchemaVersion| #[trigger] self.schema_of(w) is Some ==> !v.precedes(w),
    {
        let ghost s = self.schemas@;
        if self.schemas.len() == 0 {
            proof {
                assert forall|v: SchemaVersion| #[trigger] self.schema_of(v) is None by {
                    lemma_schema_position(s, v);
                }
            }
            return None;
        }
        let mut best = self.schemas[0].version;
        let mut i: usize = 1;
        while i < self.schemas.len()
            invariant
                1 <= i <= s.len(),
                s == self.schemas@,
                exists|k: int| 0 <= k < i && s[k].version == best,
                forall|k: int| 0 <= k < i ==> !best.precedes(#[trigger] s[k].version),
            decreases s.len() - i,
        {
            if best.is_before(&self.schemas[i].version) {
                best = self.schemas[i].version;
            }
            i = i + 1;
        }
        proof {
            let k = choose|k: int| 0 <= k < s.len() && s[k].version == best;
            lemma_schema_position(s, best);
            assert forall|w: SchemaVersion| #[trigger] self.schema_of(w) is Some implies !best.precedes(
                w,
            ) by {
                lemma_schema_position(s, w);
                assert(s[schema_position(s, w)].version == w);
            }
        }
        Some(best)
    }

    /// The registered versions, in increasing order.
    pub fn get_available_versions(&self) -> (r: Vec<SchemaVersion>)
        requires
            self.well_formed(),
        ensures
            forall|v: SchemaVersion| r@.contains(v) <==> #[trigger] self.schema_of(v) is Some,
            forall|i: int, j: int| 0 <= i < j < r@.len() ==> r@[i].precedes(r@[j]),
    {
        let ghost s = self.schemas@;
        let mut out: Vec<SchemaVersion> = Vec::new();
        let mut i: usize = 0;
        while i < self.schemas.len()
            invariant
                0 <= i <= s.len(),
                s == self.schemas@,
                self.well_formed(),
                forall|v: SchemaVersion|
                    out@.contains(v) <==> exists|k: int| 0 <= k < i && #[trigger] s[k].version == v,
                forall|a: int, b: int| 0 <= a < b < out@.len() ==> out@[a].precedes(out@[b]),
            decreases s.len() - i,
        {
            let v = self.schemas[i].version;
            proof {
                assert(!out@.contains(v)) by {
                    if out@.contains(v) {
                        let k = choose|k: int| 0 <= k < i && s[k].version == v;
                        assert(s[k].version != s[i as int].version);
                    }
                }
            }
            let mut j: usize = 0;
            while j < out.len() && out[j].is_before(&v)
                invariant
                    0 <= j <= out@.len(),
                    forall|a: int| 0 <= a < j ==> out@[a].precedes(v),
                decreases out@.len() - j,
            {
                j = j + 1;
            }
            let ghost before = out@;
            proof {
                if j < before.len() {
                    assert(!before[j as int].precedes(v));
                    assert(before[j as int] != v) by {
                        assert(before.contains(before[j as int]));
                    }
                }
            }
            out.insert(j, v);
            proof {
                assert forall|a: int, b: int| 0 <= a < b < out@.len() implies out@[a].precedes(
                    out@[b],
                ) by {
                    if a < j && b < j {
                        assert(out@[a] == before[a] && out@[b] == before[b]);
                    } else if a < j && b == j {
                    } else if a < j {
                        assert(out@[a] == before[a] && out@[b] == before[b - 1]);
                        assert(before[a].precedes(before[j as int]));
                    } else if a == j {
                        assert(out@[b] == before[b - 1]);
                        if b - 1 > j {
                            assert(before[j as int].precedes(before[b - 1]));
                        }
                    } else {
                        assert(out@[a] == before[a - 1] && out@[b] == before[b - 1]);
                    }
                }
                assert forall|w: SchemaVersion|
                    out@.contains(w) <==> exists|k: int| 0 <= k < i + 1 && #[trigger] s[k].version
                        == w by {
                    if out@.contains(w) {
                        let p = choose|p: int| 0 <= p < out@.len() && out@[p] == w;
                        if p < j {
                            assert(before[p] == w);
                            assert(before.contains(w));
                        } else if p > j {
                            assert(before[p - 1] == w);
                            assert(before.contains(w));
                        } else {
                            assert(s[i as int].version == w);
                        }
                    }
                    if exists|k: int| 0 <= k < i + 1 && #[trigger] s[k].version == w {
                        let k = choose|k: int| 0 <= k < i + 1 && #[trigger] s[k].version == w;
                        if k < i {
                            assert(before.contains(w));
                            let p = choose|p: int| 0 <= p < before.len() && before[p] == w;
                            if p < j {
                                assert(out@[p] == w);
                            } else {
                                assert(out@[p + 1] == w);
                            }
                        } else {
                            assert(out@[j as int] == w);
                        }
                    }
                }
            }
            i = i + 1;
        }
        proof {
            assert forall|v: SchemaVersion| out@.contains(v) <==> #[trigger] self.schema_of(v) is Some by {
                lemma_schema_position(s, v);
                if self.schema_of(v) is Some {
                    assert(s[schema_position(s, v)].version == v);
                }
            }
        }
        out
    }

    /// Checks `config` against the schema of `version`.
    pub fn validate_configuration(&self, config: &ConfigValue, version: &SchemaVersion) -> (r:
        Result<ValidationReport, RegistryError>)
        ensures
            match r {
                Ok(report) => self.schema_of(*version) is Some && report.consistent() && keys_view(
                    report.missing_required_fields@,
                ) == missing_fields(
                    config@,
                    keys_view(self.schema_of(*version)->0.required_fields@),
                ) && keys_view(report.deprecated_fields@) == present_fields(
                    config@,
                    keys_view(self.schema_of(*version)->0.deprecated_fields@),
                ) && report.errors@.len() == 0 && report.warnings@.len() == 0,
                Err(e) => self.schema_of(*version) is None && e == RegistryError::SchemaNotFound(
                    *version,
                ),
            },
    {
        if let Some(i) = self.find_schema(version) {
            return Ok(validate(config, &self.schemas[i]));
        }
        Err(RegistryError::SchemaNotFound(*version))
    }

    /// Loading rule definitions from a file is not supported: nothing is
    /// loaded and the registry is unchanged.
    pub fn load_rules_from_config(&mut self, config_path: &str) -> (r: Result<(), RegistryError>)
        ensures
            r is Ok,
            *final(self) == *old(self),
    {
        Ok(())
    }

    /// Records `path` as the migration path from `source`.
    pub fn add_migration_path(&mut self, source: SchemaVersion, path: Vec<SchemaVersion>)
        ensures
            final(self).path_of(source) == Some(path@),
            forall|a: SchemaVersion|
                a != source ==> #[trigger] final(self).path_of(a) == old(self).path_of(a),
            forall|v: SchemaVersion| #[trigger] final(self).schema_of(v) == old(self).schema_of(v),
            final(self).well_formed() == old(self).well_formed(),
    {
        let ghost s0 = self.migration_paths@;
        self.migration_paths.push((source, path));
        proof {
            assert(self.migration_paths@.drop_last() =~= s0);
            assert forall|a: SchemaVersion| a != source implies #[trigger] self.path_of(a) == old(
                self,
            ).path_of(a) by {
                lemma_path_position(s0, a);
                let p = path_position(s0, a);
                if p >= 0 {
                    assert(self.migration_paths@[p] == s0[p]);
                }
            }
        }
    }

    /// The versions to pass through from `source` to `target`: just
    /// `target` for the same version or where no recorded path from `source`
    /// reaches it; else the recorded path up to its first `target`.
    pub fn get_migration_path(&self, source: &SchemaVersion, target: &SchemaVersion) -> (r: Option<
        Vec<SchemaVersion>,
    >)
        ensures
            r matches Some(p) && p@ == migration_path_spec(self.path_of(*source), *source, *target),
    {
        if *source == *target {
            let mut v = Vec::new();
            v.push(*target);
            return Some(v);
        }
        let ghost s = self.migration_paths@;
        let mut i = self.migration_paths.len();
        proof {
            assert(s.subrange(0, i as int) =~= s);
        }
        while i > 0
            invariant
                i <= s.len(),
                s == self.migration_paths@,
                path_position(s, *source) == path_position(s.subrange(0, i as int), *source),
                *source != *target,
            decreases i,
        {
            proof {
                assert(s.subrange(0, i as int).drop_last() =~= s.subrange(0, i - 1));
            }
            if self.migration_paths[i - 1].0 == *source {
                proof {
                    assert(s.subrange(0, i as int).last() == s[i - 1]);
                    assert(path_position(s, *source) == i - 1);
                }
                let path = &self.migration_paths[i - 1].1;
                let mut out: Vec<SchemaVersion> = Vec::new();
                let mut k: usize = 0;
                while k < path.len()
                    invariant
                        0 <= k <= path@.len(),
                        s == self.migration_paths@,
                        0 < i <= s.len(),
                        path_position(s, *source) == i - 1,
                        path@ == s[i - 1].1@,
                        *source != *target,
                        out@ == path@.subrange(0, k as int),
                        forall|m: int| 0 <= m < k ==> path@[m] != *target,
                    decreases path@.len() - k,
                {
                    out.push(path[k]);
                    proof {
                        assert(out@ =~= path@.subrange(0, k + 1));
                    }
                    if path[k] == *target {
                        proof {
                            lemma_first_target(path@, *target, k as int);
                            lemma_path_position(s, *source);
                            assert(self.path_of(*source) == Some(path@));
                            assert(out@ == path@.subrange(0, first_position(path@, *target) + 1));
                        }
                        return Some(out);
                    }
                    k = k + 1;
                }
                proof {
                    lemma_no_target(path@, *target);
                    assert(self.path_of(*source) == Some(path@));
                }
                let mut v = Vec::new();
                v.push(*target);
                return Some(v);
            }
            i = i - 1;
        }
        proof {
            assert(s.subrange(0, 0) =~= Seq::<(SchemaVersion, Vec<SchemaVersion>)>::empty());
        }
        let mut v = Vec::new();
        v.push(*target);
        Some(v)
    }
}

/// Position of the first `target` in `path`, or -1.
pub open spec fn first_position(path: Seq<SchemaVersion>, target: SchemaVersion) -> int
    decreases path.len(),
{
    if path.len() == 0 {
        -1
    } else if path[0] == target {
        0
    } else {
        let r = first_position(path.drop_first(), target);
        if r < 0 {
            -1
        } else {
            r + 1
        }
    }
}

proof fn lemma_first_target(path: Seq<SchemaVersion>, target: SchemaVersion, k: int)
    requires
        0 <= k < path.len(),
        path[k] == target,
        forall|m: int| 0 <= m < k ==> path[m] != target,
    ensures
        first_position(path, target) == k,
    decreases k,
{
    if k > 0 {
        lemma_first_target(path.drop_first(), target, k - 1);
    }
}

proof fn lemma_no_target(path: Seq<SchemaVersion>, target: SchemaVersion)
    requires
        forall|m: int| 0 <= m < path.len() ==> path[m] != target,
    ensures
        first_position(path, target) == -1,
    decreases path.len(),
{
    if path.len() > 0 {
        lemma_no_target(path.drop_first(), target);
    }
}

/// The migration path from `source` to `target` given the recorded one.
pub open spec fn migration_path_spec(
    recorded: Option<Seq<SchemaVersion>>,
    source: SchemaVersion,
    target: SchemaVersion,
) -> Seq<SchemaVersion> {
    if source == target {
        seq![target]
    } else {
        match recorded {
            Some(p) => if first_position(p, target) >= 0 {
                p.subrange(0, first_position(p, target) + 1)
            } else {
                seq![target]
            },
            None => seq![target],
        }
    }
}

/// Checks the rules before they are registered: the first one without an
/// id or a source path is refused.
fn validate_rules(rules: &Vec<TransformationRule>) -> (r: Result<(), RegistryError>)
    ensures
        r is Ok <==> forall|i: int| 0 <= i < rules@.len() ==> !rule_malformed(#[trigger] rules@[i]),
        r matches Err(e) ==> e is RuleValidationFailed,
{
    let mut i: usize = 0;
    while i < rules.len()
        invariant
            0 <= i <= rules@.len(),
            forall|k: int| 0 <= k < i ==> !rule_malformed(#[trigger] rules@[k]),
        decreases rules@.len() - i,
    {
        let rule = &rules[i];
        if rule.rule_id.as_str().unicode_len() == 0 {
            return Err(RegistryError::RuleValidationFailed(String::from_str("Rule ID cannot be empty")));
        }
        if rule.source_path.as_str().unicode_len() == 0 {
            let mut m = String::from_str("Source path cannot be empty for rule ");
            m.append(rule.rule_id.as_str());
            return Err(RegistryError::RuleValidationFailed(m));
        }
        i = i + 1;
    }
    Ok(())
}


impl Default for SchemaRegistry {
    fn default() -> (r: Self)
        ensures
            r.well_formed(),
            forall|v: SchemaVersion| #[trigger] r.schema_of(v) is None,
    {
        SchemaRegistry::new()
    }
}

} // verus!
