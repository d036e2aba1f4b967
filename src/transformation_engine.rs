use vstd::prelude::*;

use crate::reporter::TransformationReporter;
use crate::schema_registry::SchemaRegistry;
use crate::schema_version::SchemaVersion;
use crate::transformation_rule::{
    apply_single_rule, condition_holds, failure_cause, rule_result, AppliedTransformation, TransformationRule,
};
use crate::path::{diverge, lemma_remove_path_absent, lemma_set_path_other, lemma_split_path_len, remove_path, set_path, split_path};
use crate::transformation_rule::ConditionType;
use crate::tree::{keys_view, ConfigValue, Tree};
use crate::validation::{missing_fields, present_fields, SchemaDefinition, ValidationReport};

verus! {

/// A note on something the transformation did not do.
#[derive(Debug, Clone)]
pub struct TransformationWarning {
    pub message: String,
    pub field_path: Option<String>,
    pub warning_type: TransformationWarningType,
}

#[derive(Debug, Clone, Copy, PartialEq, Eq, Structural)]
pub enum TransformationWarningType {
    PartialTransformation,
    ConditionalSkipped,
    ValueNotTransformed,
    DeprecatedFieldFound,
}

/// Why a transformation stopped.
#[derive(Debug)]
pub enum TransformationError {
    VersionDetectionFailed(String),
    NoMigrationPath(String, String),
    RuleApplicationFailed(String, String),
    ValidationFailed(ValidationReport),
    RegistryError(String),
}

/// What a transformation produced.
#[derive(Debug, Clone)]
pub struct TransformationResult {
    pub transformed_config: ConfigValue,
    pub applied_transformations: Vec<AppliedTransformation>,
    pub validation_report: ValidationReport,
    pub warnings: Vec<TransformationWarning>,
    pub source_version: Option<SchemaVersion>,
    pub target_version: SchemaVersion,
}

impl TransformationWarning {
    pub fn new(message: String, warning_type: TransformationWarningType) -> (r: Self)
        ensures
            r.message == message,
            r.field_path is None,
            r.warning_type == warning_type,
    {
        TransformationWarning { message, field_path: None, warning_type }
    }

    pub fn with_field_path(self, field_path: String) -> (r: Self)
        ensures
            r.message == self.message,
            r.field_path == Some(field_path),
            r.warning_type == self.warning_type,
    {
        TransformationWarning { field_path: Some(field_path), ..self }
    }
}

// ---------------------------------------------------------------------
// Order of application: by descending priority, ties in given order
// ---------------------------------------------------------------------
/// `r` placed after every rule of `s` whose priority is at least its own.
pub open spec fn insert_by_priority(s: Seq<TransformationRule>, r: TransformationRule) -> Seq<
    TransformationRule,
>
    decreases s.len(),
{
    if s.len() == 0 || s.last().priority >= r.priority {
        s.push(r)
    } else {
        insert_by_priority(s.drop_last(), r).push(s.last())
    }
}

/// The rules by descending priority; rules of equal priority keep their order.
pub open spec fn by_priority(rs: Seq<TransformationRule>) -> Seq<TransformationRule>
    decreases rs.len(),
{
    if rs.len() == 0 {
        rs
    } else {
        insert_by_priority(by_priority(rs.drop_last()), rs.last())
    }
}

pub open spec fn picked(rules: Seq<TransformationRule>, order: Seq<usize>) -> Seq<
    TransformationRule,
> {
    Seq::new(order.len(), |k: int| rules[order[k] as int])
}

proof fn lemma_insert_at(s: Seq<TransformationRule>, r: TransformationRule, j: int)
    requires
        0 <= j <= s.len(),
        forall|k: int| j <= k < s.len() ==> (#[trigger] s[k]).priority < r.priority,
        j > 0 ==> s[j - 1].priority >= r.priority,
    ensures
        insert_by_priority(s, r) == s.subrange(0, j).push(r) + s.subrange(j, s.len() as int),
    decreases s.len(),
{
    if s.len() == j {
        assert(s.subrange(0, j) =~= s);
        assert(s.subrange(j, s.len() as int) =~= Seq::<TransformationRule>::empty());
        assert(s.push(r) =~= s.subrange(0, j).push(r) + s.subrange(j, s.len() as int));
    } else {
        let d = s.drop_last();
        assert(s.last() == s[s.len() - 1]);
        lemma_insert_at(d, r, j);
        assert(d.subrange(0, j) =~= s.subrange(0, j));
        assert(insert_by_priority(s, r) =~= s.subrange(0, j).push(r) + s.subrange(
            j,
            s.len() as int,
        ));
    }
}

/// The positions of `rules` in the order of application.
pub fn priority_order(rules: &Vec<TransformationRule>) -> (r: Vec<usize>)
    ensures
        forall|k: int| 0 <= k < r@.len() ==> (#[trigger] r@[k]) < rules@.len(),
        picked(rules@, r@) == by_priority(rules@),
{
    let mut order: Vec<usize> = Vec::new();
    let mut i: usize = 0;
    proof {
        assert(rules@.subrange(0, 0) =~= Seq::<TransformationRule>::empty());
        assert(picked(rules@, order@) =~= by_priority(rules@.subrange(0, 0)));
    }
    while i < rules.len()
        invariant
            0 <= i <= rules@.len(),
            forall|k: int| 0 <= k < order@.len() ==> (#[trigger] order@[k]) < i,
            picked(rules@, order@) == by_priority(rules@.subrange(0, i as int)),
        decreases rules@.len() - i,
    {
        let p = rules[i].priority;
        let ghost s = picked(rules@, order@);
        let mut j = order.len();
        while j > 0 && rules[order[j - 1]].priority < p
            invariant
                j <= order@.len(),
                s == picked(rules@, order@),
                forall|k: int| 0 <= k < order@.len() ==> (#[trigger] order@[k]) < i,
                i < rules@.len(),
                p == rules@[i as int].priority,
                forall|k: int| j <= k < s.len() ==> (#[trigger] s[k]).priority < p,
            decreases j,
        {
            j = j - 1;
        }
        proof {
            lemma_insert_at(s, rules@[i as int], j as int);
            let t = rules@.subrange(0, i + 1);
            assert(t.drop_last() =~= rules@.subrange(0, i as int));
            assert(t.last() == rules@[i as int]);
        }
        order.insert(j, i);
        proof {
            assert(picked(rules@, order@) =~= s.subrange(0, j as int).push(rules@[i as int])
                + s.subrange(j as int, s.len() as int));
        }
        i = i + 1;
    }
    proof {
        assert(rules@.subrange(0, rules@.len() as int) =~= rules@);
    }
    order
}

/// The document after the rules, in the order given, with the number of
/// rules applied and skipped; `None` where a rule fails.
pub open spec fn run_rules(t: Tree, rs: Seq<TransformationRule>) -> Option<(Tree, nat, nat)>
    decreases rs.len(),
{
    if rs.len() == 0 {
        Some((t, 0, 0))
    } else {
        match run_rules(t, rs.drop_last()) {
            None => None,
            Some((t1, applied, skipped)) => {
                let r = rs.last();
                if !condition_holds(r.condition, t1) {
                    Some((t1, applied, skipped + 1))
                } else {
                    match rule_result(t1, r) {
                        None => None,
                        Some(None) => Some((t1, applied, skipped + 1)),
                        Some(Some(t2)) => Some((t2, applied + 1, skipped)),
                    }
                }
            },
        }
    }
}

/// The rules applied and the rules skipped, in order, as the rules run;
/// rules after a failing one are neither.
pub open spec fn rule_log(t: Tree, rs: Seq<TransformationRule>) -> (
    Seq<TransformationRule>,
    Seq<TransformationRule>,
)
    decreases rs.len(),
{
    if rs.len() == 0 {
        (Seq::empty(), Seq::empty())
    } else {
        let prev = rule_log(t, rs.drop_last());
        match run_rules(t, rs.drop_last()) {
            None => prev,
            Some((t1, _, _)) => {
                let r = rs.last();
                if !condition_holds(r.condition, t1) {
                    (prev.0, prev.1.push(r))
                } else {
                    match rule_result(t1, r) {
                        Some(Some(_)) => (prev.0.push(r), prev.1),
                        Some(None) => (prev.0, prev.1.push(r)),
                        None => prev,
                    }
                }
            },
        }
    }
}

/// The first rule that fails, where one does.
pub open spec fn failing_rule(t: Tree, rs: Seq<TransformationRule>) -> Option<TransformationRule>
    decreases rs.len(),
{
    if rs.len() == 0 {
        None
    } else {
        match run_rules(t, rs.drop_last()) {
            None => failing_rule(t, rs.drop_last()),
            Some((t1, _, _)) => {
                let r = rs.last();
                if condition_holds(r.condition, t1) && rule_result(t1, r) is None {
                    Some(r)
                } else {
                    None
                }
            },
        }
    }
}

/// One record per rule, in order, each naming its rule and paths.
pub open spec fn records_of(applied: Seq<AppliedTransformation>, rs: Seq<TransformationRule>) -> bool {
    &&& applied.len() == rs.len()
    &&& forall|i: int|
        0 <= i < rs.len() ==> (#[trigger] applied[i]).rule_id@ == rs[i].rule_id@
            && applied[i].source_path@ == rs[i].source_path@ && applied[i].target_path@
            == rs[i].target_path@
}

/// One `ConditionalSkipped` warning per rule, in order, at its source path.
pub open spec fn skips_of(warnings: Seq<TransformationWarning>, rs: Seq<TransformationRule>) -> bool {
    &&& warnings.len() == rs.len()
    &&& forall|i: int|
        0 <= i < rs.len() ==> (#[trigger] warnings[i]).warning_type
            == TransformationWarningType::ConditionalSkipped && warnings[i].field_path is Some
            && warnings[i].field_path->0@ == rs[i].source_path@
}

fn skipped_warning(rule: &TransformationRule) -> (r: TransformationWarning)
    ensures
        r.warning_type == TransformationWarningType::ConditionalSkipped,
        r.field_path is Some,
        r.field_path->0@ == rule.source_path@,
{
    let mut message = String::from_str("Rule ");
    message.append(rule.rule_id.as_str());
    message.append(" was skipped");
    TransformationWarning {
        message,
        field_path: Some(rule.source_path.clone()),
        warning_type: TransformationWarningType::ConditionalSkipped,
    }
}

/// Applies `rules` by descending priority, each against the document as the
/// rules before it left it. A rule whose condition fails, or whose source is
/// absent, is skipped with a warning; an applied rule leaves a record. The
/// first failing rule stops everything: its id is reported, and the document
/// is left as the rules before it made it.
pub fn apply_transformation_rules(config: &mut ConfigValue, rules: &Vec<TransformationRule>) -> (r:
    Result<(Vec<AppliedTransformation>, Vec<TransformationWarning>), TransformationError>)
    ensures
        r is Ok ==> run_rules(old(config)@, by_priority(rules@)) == Some(
            (final(config)@, r->Ok_0.0@.len(), r->Ok_0.1@.len()),
        ),
        r is Ok ==> records_of(r->Ok_0.0@, rule_log(old(config)@, by_priority(rules@)).0),
        r is Ok ==> skips_of(r->Ok_0.1@, rule_log(old(config)@, by_priority(rules@)).1),
        r is Err <==> run_rules(old(config)@, by_priority(rules@)) is None,
        r is Err ==> failing_rule(old(config)@, by_priority(rules@)) is Some && (r->Err_0 matches TransformationError::RuleApplicationFailed(id, cause) && id@ == failing_rule(old(config)@, by_priority(rules@))->0.rule_id@ && cause@ == failure_cause(failing_rule(old(config)@, by_priority(rules@))->0)),
        r is Err ==> exists|k: int|
            0 <= k < rules@.len() && run_rules(old(config)@, by_priority(rules@).subrange(0, k))
                is Some && (run_rules(old(config)@, by_priority(rules@).subrange(0, k))->0).0
                == final(config)@ && failing_rule(old(config)@, by_priority(rules@)) == Some(
                by_priority(rules@)[k],
            ),
{
    let order = priority_order(rules);
    let ghost rs = by_priority(rules@);
    let ghost t0 = config@;
    let mut applied: Vec<AppliedTransformation> = Vec::new();
    let mut warnings: Vec<TransformationWarning> = Vec::new();
    let mut k: usize = 0;
    proof {
        assert(rs.subrange(0, 0) =~= Seq::<TransformationRule>::empty());
        lemma_by_priority_len(rules@);
    }
    while k < order.len()
        invariant
            0 <= k <= order@.len(),
            rs == by_priority(rules@),
            rs.len() == rules@.len(),
            order@.len() == rs.len(),
            t0 == old(config)@,
            picked(rules@, order@) == rs,
            forall|m: int| 0 <= m < order@.len() ==> (#[trigger] order@[m]) < rules@.len(),
            run_rules(t0, rs.subrange(0, k as int)) == Some(
                (config@, applied@.len(), warnings@.len()),
            ),
            records_of(applied@, rule_log(t0, rs.subrange(0, k as int)).0),
            skips_of(warnings@, rule_log(t0, rs.subrange(0, k as int)).1),
        decreases order@.len() - k,
    {
        let rule = &rules[order[k]];
        let ghost s = rs.subrange(0, k + 1);
        let ghost pre = rule_log(t0, rs.subrange(0, k as int));
        proof {
            assert(s.drop_last() =~= rs.subrange(0, k as int));
            assert(s.last() == rs[k as int]);
            assert(rs[k as int] == *rule);
        }
        if !rule.condition_satisfied(config) {
            let w = skipped_warning(rule);
            warnings.push(w);
            proof {
                assert(rule_log(t0, s).1 == pre.1.push(*rule));
            }
        } else {
            match apply_single_rule(config, rule) {
                Ok(Some(t)) => {
                    applied.push(t);
                    proof {
                        assert(rule_log(t0, s).0 == pre.0.push(*rule));
                    }
                },
                Ok(None) => {
                    let w = skipped_warning(rule);
                    warnings.push(w);
                    proof {
                        assert(rule_log(t0, s).1 == pre.1.push(*rule));
                    }
                },
                Err(e) => {
                    proof {
                        assert(run_rules(t0, s.drop_last()) == run_rules(t0, rs.subrange(0, k as int)));
                        assert(rule_result(config@, s.last()) is None);
                        assert(run_rules(t0, s) is None);
                        assert(failing_rule(t0, s) == Some(*rule));
                        lemma_run_rules_fails(t0, rs, k as int + 1);
                        lemma_failing_rule_stays(t0, rs, k as int + 1);
                    }
                    return Err(TransformationError::RuleApplicationFailed(rule.rule_id.clone(), e));
                },
            }
        }
        k = k + 1;
    }
    proof {
        assert(rs.subrange(0, order@.len() as int) =~= rs);
    }
    Ok((applied, warnings))
}

proof fn lemma_by_priority_len(rs: Seq<TransformationRule>)
    ensures
        by_priority(rs).len() == rs.len(),
    decreases rs.len(),
{
    if rs.len() > 0 {
        lemma_by_priority_len(rs.drop_last());
        lemma_insert_by_priority_len(by_priority(rs.drop_last()), rs.last());
    }
}

proof fn lemma_insert_by_priority_len(s: Seq<TransformationRule>, r: TransformationRule)
    ensures
        insert_by_priority(s, r).len() == s.len() + 1,
    decreases s.len(),
{
    if s.len() > 0 && s.last().priority < r.priority {
        lemma_insert_by_priority_len(s.drop_last(), r);
    }
}

/// Once a prefix of the rules fails, the failing rule is the one of that prefix.
proof fn lemma_failing_rule_stays(t: Tree, rs: Seq<TransformationRule>, k: int)
    requires
        0 <= k <= rs.len(),
        run_rules(t, rs.subrange(0, k)) is None,
    ensures
        failing_rule(t, rs) == failing_rule(t, rs.subrange(0, k)),
    decreases rs.len() - k,
{
    if k < rs.len() {
        let s = rs.subrange(0, k + 1);
        assert(s.drop_last() =~= rs.subrange(0, k));
        assert(run_rules(t, s) is None);
        lemma_failing_rule_stays(t, rs, k + 1);
    } else {
        assert(rs.subrange(0, k) =~= rs);
    }
}

/// Once a prefix of the rules fails, so do all of them.
proof fn lemma_run_rules_fails(t: Tree, rs: Seq<TransformationRule>, k: int)
    requires
        0 <= k <= rs.len(),
        run_rules(t, rs.subrange(0, k)) is None,
    ensures
        run_rules(t, rs) is None,
    decreases rs.len() - k,
{
    if k < rs.len() {
        let s = rs.subrange(0, k + 1);
        assert(s.drop_last() =~= rs.subrange(0, k));
        lemma_run_rules_fails(t, rs, k + 1);
    } else {
        assert(rs.subrange(0, k) =~= rs);
    }
}

/// Condition gating: a rule guarded by `FieldAbsent` on a path is skipped,
/// and the document left as it is, where the path is present; where the
/// path is absent, the rule is applied.
pub proof fn field_absent_gates_rule(t: Tree, r: TransformationRule)
    requires
        r.condition is Some,
        r.condition->0.condition_type == ConditionType::FieldAbsent,
    ensures
        t.get_path(split_path(r.condition->0.field_path@)) is Some ==> run_rules(
            t,
            by_priority(seq![r]),
        ) == Some((t, 0nat, 1nat)),
        t.get_path(split_path(r.condition->0.field_path@)) is None ==> run_rules(
            t,
            by_priority(seq![r]),
        ) == match rule_result(t, r) {
            None => None,
            Some(None) => Some((t, 0nat, 1nat)),
            Some(Some(t2)) => Some((t2, 1nat, 0nat)),
        },
{
    let one = seq![r];
    let none = Seq::<TransformationRule>::empty();
    assert(one.drop_last() =~= none);
    assert(one.last() == r);
    assert(by_priority(none) == none);
    assert(insert_by_priority(none, r) =~= one);
    assert(by_priority(one) =~= one);
    assert(run_rules(t, one.drop_last()) == Some((t, 0nat, 0nat)));
}

/// Priority ordering: of two rules that move the same value, the one of
/// higher priority runs first, in whichever order the two are given; the
/// value ends at its target and the other rule finds nothing to move.
pub proof fn higher_priority_move_wins(t: Tree, a: TransformationRule, b: TransformationRule)
    requires
        a.transformation_type is Move,
        b.transformation_type is Move,
        a.condition is None,
        b.condition is None,
        a.source_path@ == b.source_path@,
        a.priority > b.priority,
        t.get_path(split_path(a.source_path@)) is Some,
        diverge(split_path(a.source_path@), split_path(a.target_path@)),
    ensures
        ({
            let src = split_path(a.source_path@);
            let moved = set_path(
                remove_path(t, src),
                split_path(a.target_path@),
                t.get_path(src)->0,
            );
            &&& run_rules(t, by_priority(seq![a, b])) == Some((moved, 1nat, 1nat))
            &&& run_rules(t, by_priority(seq![b, a])) == Some((moved, 1nat, 1nat))
        }),
{
    let src = split_path(a.source_path@);
    let v = t.get_path(src)->0;
    let moved = set_path(remove_path(t, src), split_path(a.target_path@), v);
    lemma_split_path_len(a.source_path@);
    lemma_remove_path_absent(t, src);
    lemma_set_path_other(remove_path(t, src), split_path(a.target_path@), v, src);
    let ab = seq![a, b];
    let ba = seq![b, a];
    let only_a = seq![a];
    let only_b = seq![b];
    assert(ab.drop_last() =~= only_a);
    assert(ba.drop_last() =~= only_b);
    let none = Seq::<TransformationRule>::empty();
    assert(only_a.drop_last() =~= none);
    assert(only_b.drop_last() =~= none);
    assert(by_priority(none) == none);
    assert(only_a.last() == a && only_b.last() == b && ab.last() == b && ba.last() == a);
    assert(insert_by_priority(none, b) =~= only_b);
    assert(insert_by_priority(only_a, b) =~= ab);
    assert(insert_by_priority(only_b, a) == insert_by_priority(none, a).push(b));
    assert(by_priority(only_a) =~= only_a);
    assert(by_priority(only_b) =~= only_b);
    assert(by_priority(ab) =~= ab);
    assert(insert_by_priority(Seq::<TransformationRule>::empty(), a) =~= only_a);
    assert(by_priority(ba) =~= ab);
    assert(run_rules(t, none) == Some((t, 0nat, 0nat)));
    assert(rule_result(t, a) == Some(Some(moved)));
    assert(run_rules(t, only_a) == Some((moved, 1nat, 0nat)));
    assert(rule_result(moved, b) == Some(None::<Tree>));
    assert(run_rules(t, ab) == Some((moved, 1nat, 1nat)));
}

/// `v` is the greatest registered version whose schema `t` fits.
pub open spec fn is_detected(reg: SchemaRegistry, t: Tree, v: SchemaVersion) -> bool {
    &&& reg.schema_of(v) is Some
    &&& fits(t, reg.schema_of(v)->0)
    &&& forall|w: SchemaVersion|
        #[trigger] reg.schema_of(w) is Some && fits(t, reg.schema_of(w)->0) ==> !v.precedes(w)
}

/// The version that detection finds for `t`: the greatest registered
/// version whose schema `t` fits, if any.
pub open spec fn detected(reg: SchemaRegistry, t: Tree) -> Option<SchemaVersion> {
    if exists|v: SchemaVersion| is_detected(reg, t, v) {
        Some(choose|v: SchemaVersion| is_detected(reg, t, v))
    } else {
        None
    }
}

/// `v` is the greatest registered version.
pub open spec fn is_latest(reg: SchemaRegistry, v: SchemaVersion) -> bool {
    &&& reg.schema_of(v) is Some
    &&& forall|w: SchemaVersion| #[trigger] reg.schema_of(w) is Some ==> !v.precedes(w)
}

/// The greatest registered version, if any.
pub open spec fn latest_version(reg: SchemaRegistry) -> Option<SchemaVersion> {
    if exists|v: SchemaVersion| is_latest(reg, v) {
        Some(choose|v: SchemaVersion| is_latest(reg, v))
    } else {
        None
    }
}

/// The order of versions is total and strict.
proof fn lemma_precedes_total(v: SchemaVersion, w: SchemaVersion)
    ensures
        v != w ==> v.precedes(w) || w.precedes(v),
        !(v.precedes(w) && w.precedes(v)),
        !v.precedes(v),
{
}

proof fn lemma_detected_is(reg: SchemaRegistry, t: Tree, v: SchemaVersion)
    requires
        is_detected(reg, t, v),
    ensures
        detected(reg, t) == Some(v),
{
    let c = choose|x: SchemaVersion| is_detected(reg, t, x);
    assert(is_detected(reg, t, c));
    lemma_precedes_total(v, c);
}

proof fn lemma_latest_is(reg: SchemaRegistry, v: SchemaVersion)
    requires
        is_latest(reg, v),
    ensures
        latest_version(reg) == Some(v),
{
    let c = choose|x: SchemaVersion| is_latest(reg, x);
    assert(is_latest(reg, c));
    lemma_precedes_total(v, c);
}

/// The report of `res` is the validation of its document against `schema`.
pub open spec fn validated_against(res: TransformationResult, schema: SchemaDefinition) -> bool {
    &&& keys_view(res.validation_report.missing_required_fields@) == missing_fields(
        res.transformed_config@,
        keys_view(schema.required_fields@),
    )
    &&& keys_view(res.validation_report.deprecated_fields@) == present_fields(
        res.transformed_config@,
        keys_view(schema.deprecated_fields@),
    )
    &&& res.validation_report.errors@.len() == 0
    &&& res.validation_report.warnings@.len() == 0
    &&& res.validation_report.is_valid == (res.validation_report.missing_required_fields@.len()
        == 0)
}

/// When a transformation to `target` (whose schema is registered) must
/// succeed, and which error it gives otherwise.
pub open spec fn success_owed(
    reg: SchemaRegistry,
    t: Tree,
    target: SchemaVersion,
    r: Result<TransformationResult, TransformationError>,
) -> bool {
    match detected(reg, t) {
        None => r is Ok,
        Some(s) => if s == target {
            r is Ok
        } else {
            match reg.rules_of(s, target) {
                None => r matches Err(TransformationError::RegistryError(_)),
                Some(rs) => match run_rules(t, by_priority(rs)) {
                    None => r matches Err(TransformationError::RuleApplicationFailed(_, _)),
                    Some(_) => r is Ok,
                },
            }
        },
    }
}

/// Runs the rule sets of a registry against configurations.
pub struct SchemaTransformationEngine {
    registry: SchemaRegistry,
    reporter: TransformationReporter,
}

impl SchemaTransformationEngine {
    pub closed spec fn registry(&self) -> SchemaRegistry {
        self.registry
    }

    pub fn new(registry: SchemaRegistry) -> (r: Self)
        ensures
            r.registry() == registry,
    {
        SchemaTransformationEngine { registry, reporter: TransformationReporter::new() }
    }

    /// Transforms `config` to the latest registered version.
    pub fn transform(&mut self, config: ConfigValue) -> (r: Result<
        TransformationResult,
        TransformationError,
    >)
        requires
            old(self).registry().well_formed(),
        ensures
            final(self).registry() == old(self).registry(),
            latest_version(old(self).registry()) is None ==> (r matches Err(
                TransformationError::RegistryError(_),
            )),
            latest_version(old(self).registry()) matches Some(target) ==> success_owed(
                old(self).registry(),
                config@,
                target,
                r,
            ),
            r matches Ok(res) ==> latest_version(old(self).registry()) == Some(res.target_version),
            r matches Ok(res) ==> validated_against(
                res,
                old(self).registry().schema_of(res.target_version)->0,
            ),
    {
        match self.registry.get_latest_version() {
            None => {
                proof {
                    if latest_version(self.registry()) is Some {
                        let v = latest_version(self.registry())->0;
                        let c = choose|x: SchemaVersion| is_latest(self.registry(), x);
                        assert(self.registry().schema_of(c) is Some);
                    }
                }
                Err(
                    TransformationError::RegistryError(
                        String::from_str("No schema versions available"),
                    ),
                )
            },
            Some(v) => {
                proof {
                    lemma_latest_is(self.registry(), v);
                }
                self.transform_with_target_version(config, v)
            },
        }
    }

    /// Transforms `config` to `target_version`. A missing target schema is a
    /// registry error. Where the detected version differs from the target,
    /// its rule set for the step is applied (a missing rule set is a registry
    /// error, a failing rule a rule error); where no version is detected or
    /// the target is detected, nothing is applied. The result is validated
    /// against the target schema, which does not stop the transformation.
    pub fn transform_with_target_version(
        &mut self,
        config: ConfigValue,
        target_version: SchemaVersion,
    ) -> (r: Result<TransformationResult, TransformationError>)
        requires
            old(self).registry().well_formed(),
        ensures
            final(self).registry() == old(self).registry(),
            old(self).registry().schema_of(target_version) is None ==> (r matches Err(
                TransformationError::RegistryError(_),
            )),
            old(self).registry().schema_of(target_version) is Some ==> success_owed(
                old(self).registry(),
                config@,
                target_version,
                r,
            ),
            r matches Ok(res) ==> res.target_version == target_version && res.validation_report.consistent()
                && res.source_version == detected(old(self).registry(), config@),
            r matches Ok(res) ==> validated_against(
                res,
                old(self).registry().schema_of(target_version)->0,
            ),
            r matches Ok(res) ==> match res.source_version {
                None => res.transformed_config@ == config@ && res.applied_transformations@.len() == 0,
                Some(s) => s == target_version ==> res.transformed_config@ == config@,
            },
            r matches Ok(res) ==> (res.source_version is Some && res.source_version->0
                != target_version) ==> (old(self).registry().rules_of(
                res.source_version->0,
                target_version,
            ) is Some && run_rules(
                config@,
                by_priority(old(self).registry().rules_of(res.source_version->0, target_version)->0),
            ) == Some(
                (
                    res.transformed_config@,
                    res.applied_transformations@.len(),
                    res.warnings@.len(),
                ),
            )),
    {
        if !self.registry.has_schema(&target_version) {
            return Err(
                TransformationError::RegistryError(
                    crate::schema_registry::RegistryError::SchemaNotFound(target_version).message(),
                ),
            );
        }
        let source_version = self.detect_version(&config);
        let mut doc = config;
        let ghost c0 = doc@;
        if let Some(source) = source_version {
            if source == target_version {
                return match self.registry.validate_configuration(&doc, &target_version) {
                    Ok(validation_report) => Ok(
                        TransformationResult {
                            transformed_config: doc,
                            applied_transformations: Vec::new(),
                            validation_report,
                            warnings: Vec::new(),
                            source_version,
                            target_version,
                        },
                    ),
                    Err(e) => Err(TransformationError::RegistryError(e.message())),
                };
            }
        }
        let path = match source_version {
            Some(source) => self.resolve_migration_path(source, target_version),
            None => {
                let mut direct = Vec::new();
                direct.push(target_version);
                direct
            },
        };
        let mut applied: Vec<AppliedTransformation> = Vec::new();
        let mut warnings: Vec<TransformationWarning> = Vec::new();
        let mut current = source_version;
        let mut h: usize = 0;
        while h < path.len()
            invariant
                *self == *old(self),
                self.registry().schema_of(target_version) is Some,
                source_version == detected(self.registry(), c0),
                c0 == config@,
                source_version != Some(target_version),
                path@ == seq![target_version],
                h <= 1,
                h == 0 ==> current == source_version && doc@ == c0 && applied@.len() == 0
                    && warnings@.len() == 0,
                h == 1 ==> current == Some(target_version),
                h == 1 && source_version is None ==> doc@ == c0 && applied@.len() == 0,
                h == 1 && source_version is Some ==> self.registry().rules_of(
                    source_version->0,
                    target_version,
                ) is Some && run_rules(
                    c0,
                    by_priority(self.registry().rules_of(source_version->0, target_version)->0),
                ) == Some((doc@, applied@.len(), warnings@.len())),
            decreases path@.len() - h,
        {
            let hop = path[h];
            if let Some(from) = current {
                let rules = match self.registry.get_transformation_rules(&from, &hop) {
                    Ok(rules) => rules,
                    Err(e) => {
                        return Err(TransformationError::RegistryError(e.message()));
                    },
                };
                match apply_transformation_rules(&mut doc, rules) {
                    Ok((a, w)) => {
                        applied = a;
                        warnings = w;
                    },
                    Err(e) => {
                        return Err(e);
                    },
                }
            }
            current = Some(hop);
            h = h + 1;
        }
        let validation_report = match self.registry.validate_configuration(
            &doc,
            &target_version,
        ) {
            Ok(report) => report,
            Err(e) => {
                return Err(TransformationError::RegistryError(e.message()));
            },
        };
        Ok(
            TransformationResult {
                transformed_config: doc,
                applied_transformations: applied,
                validation_report,
                warnings,
                source_version,
                target_version,
            },
        )
    }

    /// The versions to step through from `source` to `target`: one direct
    /// step.
    fn resolve_migration_path(&self, source: SchemaVersion, target: SchemaVersion) -> (r: Vec<
        SchemaVersion,
    >)
        ensures
            r@ == seq![target],
    {
        let mut path = Vec::new();
        path.push(target);
        path
    }

    /// The registered version whose schema `config` fits, the greatest such
    /// one where there are several.
    fn detect_version(&self, config: &ConfigValue) -> (r: Option<SchemaVersion>)
        requires
            self.registry().well_formed(),
        ensures
            r == detected(self.registry(), config@),
    {
        let versions = self.registry.get_available_versions();
        let ghost reg = self.registry();
        let mut i = versions.len();
        while i > 0
            invariant
                i <= versions@.len(),
                reg == self.registry(),
                self.registry().well_formed(),
                forall|v: SchemaVersion| versions@.contains(v) <==> #[trigger] reg.schema_of(v) is Some,
                forall|a: int, b: int| 0 <= a < b < versions@.len() ==> versions@[a].precedes(versions@[b]),
                forall|k: int|
                    i <= k < versions@.len() ==> !fits(
                        config@,
                        reg.schema_of(#[trigger] versions@[k])->0,
                    ),
            decreases i,
        {
            let v = versions[i - 1];
            proof {
                assert(versions@.contains(v));
            }
            match self.registry.validate_configuration(config, &v) {
                Ok(report) => {
                    if report.is_valid && report.deprecated_fields.len() == 0 {
                        proof {
                            assert(fits(config@, reg.schema_of(v)->0));
                            assert forall|w: SchemaVersion|
                                #[trigger] reg.schema_of(w) is Some && fits(config@, reg.schema_of(w)->0)
                                    implies !v.precedes(w) by {
                                assert(versions@.contains(w));
                                let k = choose|k: int| 0 <= k < versions@.len() && versions@[k] == w;
                                lemma_precedes_total(v, w);
                                if k < i - 1 {
                                    assert(versions@[k].precedes(versions@[i - 1]));
                                }
                            }
                            lemma_detected_is(reg, config@, v);
                        }
                        return Some(v);
                    }
                },
                Err(_) => {},
            }
            i = i - 1;
        }
        proof {
            assert forall|v: SchemaVersion| !is_detected(reg, config@, v) by {
                if reg.schema_of(v) is Some {
                    assert(versions@.contains(v));
                    let k = choose|k: int| 0 <= k < versions@.len() && versions@[k] == v;
                }
            }
        }
        None
    }
}

/// `config` has every field that `schema` requires and none it deprecates.
pub open spec fn fits(config: Tree, schema: SchemaDefinition) -> bool {
    missing_fields(config, keys_view(schema.required_fields@)).len() == 0 && present_fields(
        config,
        keys_view(schema.deprecated_fields@),
    ).len() == 0
}

} // verus!
