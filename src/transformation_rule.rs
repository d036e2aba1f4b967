use vstd::prelude::*;

use crate::merge::{merge, merge_tree};
use crate::path::{get_at, remove_at, set_at, set_path, remove_path, split_dotted, split_path};
use crate::tree::{same_value, empty_mapping, keys_view, opt_view, ConfigValue, Tree};

verus! {

/// One declarative edit of a configuration.
#[derive(Debug, Clone)]
pub struct TransformationRule {
    pub rule_id: String,
    pub source_path: String,
    pub target_path: String,
    pub transformation_type: TransformationType,
    pub condition: Option<Condition>,
    pub priority: u32,
}

/// What a rule does with the value at its source path.
#[derive(Debug, Clone)]
pub enum TransformationType {
    /// Moves the value to the target path.
    Move,
    /// Copies the value to the target path.
    Copy,
    /// Passes the value through the named function. This library provides
    /// no transform functions, so such a rule fails wherever its source
    /// value exists, and the failure stops the rules it belongs to.
    Transform(String),
    /// Merges the values of the source path and of these paths into the
    /// target path.
    Merge(Vec<String>),
    /// Copies the value to the target path and to each of these paths.
    Split(Vec<String>),
    /// Removes the value.
    Remove,
}

/// A guard on a rule, read against the document when the rule is reached.
#[derive(Debug, Clone)]
pub struct Condition {
    pub field_path: String,
    pub condition_type: ConditionType,
    pub expected_value: Option<ConfigValue>,
}

#[derive(Debug, Clone, Copy, PartialEq, Eq, Structural)]
pub enum ConditionType {
    FieldExists,
    FieldAbsent,
    ValueEquals,
    ValueNotEquals,
}

/// The record of a rule that was applied.
#[derive(Debug, Clone)]
pub struct AppliedTransformation {
    pub rule_id: String,
    pub source_path: String,
    pub target_path: String,
    pub old_value: Option<ConfigValue>,
    pub new_value: Option<ConfigValue>,
    pub transformation_type: TransformationType,
}

/// A change of one field, as a report lists it.
#[derive(Debug, Clone)]
pub struct FieldChange {
    pub path: String,
    pub change_type: ChangeType,
    pub old_value: Option<ConfigValue>,
    pub new_value: Option<ConfigValue>,
    pub reason: String,
}

#[derive(Debug, Clone, Copy, PartialEq, Eq, Structural)]
pub enum ChangeType {
    Added,
    Removed,
    Modified,
    Moved,
    Merged,
    Split,
}

/// Whether `c` holds of `t`; a rule without a condition always applies.
pub open spec fn condition_holds(c: Option<Condition>, t: Tree) -> bool {
    match c {
        None => true,
        Some(c) => {
            let found = t.get_path(split_path(c.field_path@));
            let expected = opt_view(c.expected_value);
            match c.condition_type {
                ConditionType::FieldExists => found is Some,
                ConditionType::FieldAbsent => found is None,
                ConditionType::ValueEquals => found is Some && expected is Some && same_value(
                    found->0,
                    expected->0,
                ),
                ConditionType::ValueNotEquals => !(found is Some && expected is Some) || !same_value(
                    found->0,
                    expected->0,
                ),
            }
        },
    }
}

/// Sets `v` at each of `paths`, in order.
pub open spec fn set_all(t: Tree, paths: Seq<Seq<char>>, v: Tree) -> Tree
    decreases paths.len(),
{
    if paths.len() == 0 {
        t
    } else {
        set_path(set_all(t, paths.drop_last(), v), split_path(paths.last()), v)
    }
}

/// `acc` merged, keep-first, with the value at each of `paths` that `t` has.
pub open spec fn merge_all(t: Tree, acc: Tree, paths: Seq<Seq<char>>) -> Tree
    decreases paths.len(),
{
    if paths.len() == 0 {
        acc
    } else {
        let a = merge_all(t, acc, paths.drop_last());
        match t.get_path(split_path(paths.last())) {
            Some(x) => merge_tree(a, x),
            None => a,
        }
    }
}

pub open spec fn strings_view(v: Vec<String>) -> Seq<Seq<char>> {
    keys_view(v@)
}

/// The document after `r`, where the value at its source path exists: `None`
/// where the rule fails (a transform function this library does not have).
pub open spec fn rule_effect(t: Tree, r: TransformationRule, v: Tree) -> Option<Tree> {
    let src = split_path(r.source_path@);
    let tgt = split_path(r.target_path@);
    match r.transformation_type {
        TransformationType::Move => Some(set_path(remove_path(t, src), tgt, v)),
        TransformationType::Copy => Some(set_path(t, tgt, v)),
        TransformationType::Transform(_) => None,
        TransformationType::Merge(others) => {
            let start = match t.get_path(tgt) {
                Some(x) => x,
                None => empty_mapping(),
            };
            Some(set_path(t, tgt, merge_all(t, merge_tree(start, v), strings_view(others))))
        },
        TransformationType::Split(others) => Some(
            set_all(set_path(t, tgt, v), strings_view(others), v),
        ),
        TransformationType::Remove => Some(remove_path(t, src)),
    }
}

/// What applying `r` to `t` gives: `Some(None)` where its source is absent
/// and it is skipped, `None` where it fails.
pub open spec fn rule_result(t: Tree, r: TransformationRule) -> Option<Option<Tree>> {
    match t.get_path(split_path(r.source_path@)) {
        None => Some(None),
        Some(v) => match rule_effect(t, r, v) {
            Some(t2) => Some(Some(t2)),
            None => None,
        },
    }
}

/// The old and new values that the record of an applied rule holds: the
/// removed value for `Remove`, else the target's former value and what was
/// written there.
pub open spec fn recorded_values(t: Tree, r: TransformationRule) -> (Option<Tree>, Option<Tree>) {
    let src = split_path(r.source_path@);
    let tgt = split_path(r.target_path@);
    let v = t.get_path(src)->0;
    match r.transformation_type {
        TransformationType::Remove => (Some(v), None),
        TransformationType::Merge(others) => {
            let start = match t.get_path(tgt) {
                Some(x) => x,
                None => empty_mapping(),
            };
            (t.get_path(tgt), Some(merge_all(t, merge_tree(start, v), strings_view(others))))
        },
        _ => (t.get_path(tgt), Some(v)),
    }
}

/// Why applying `r` fails, where it does: it names a transform function
/// that this library does not have.
pub open spec fn failure_cause(r: TransformationRule) -> Seq<char> {
    match r.transformation_type {
        TransformationType::Transform(name) => "no transform function named "@ + name@,
        _ => Seq::empty(),
    }
}

impl TransformationRule {
    pub fn new(
        rule_id: String,
        source_path: String,
        target_path: String,
        transformation_type: TransformationType,
    ) -> (r: Self)
        ensures
            r.rule_id == rule_id,
            r.source_path == source_path,
            r.target_path == target_path,
            r.transformation_type == transformation_type,
            r.condition is None,
            r.priority == 100,
    {
        TransformationRule {
            rule_id,
            source_path,
            target_path,
            transformation_type,
            condition: None,
            priority: 100,
        }
    }

    pub fn with_condition(self, condition: Condition) -> (r: Self)
        ensures
            r.rule_id == self.rule_id,
            r.source_path == self.source_path,
            r.target_path == self.target_path,
            r.transformation_type == self.transformation_type,
            r.condition == Some(condition),
            r.priority == self.priority,
    {
        TransformationRule { condition: Some(condition), ..self }
    }

    pub fn with_priority(self, priority: u32) -> (r: Self)
        ensures
            r.rule_id == self.rule_id,
            r.source_path == self.source_path,
            r.target_path == self.target_path,
            r.transformation_type == self.transformation_type,
            r.condition == self.condition,
            r.priority == priority,
    {
        TransformationRule { priority, ..self }
    }

    /// Whether the rule's condition holds of `config` as it is now.
    pub fn condition_satisfied(&self, config: &ConfigValue) -> (r: bool)
        ensures
            r == condition_holds(self.condition, config@),
    {
        match &self.condition {
            None => true,
            Some(c) => {
                let segs = split_dotted(c.field_path.as_str());
                let found = get_at(config, &segs);
                match c.condition_type {
                    ConditionType::FieldExists => found.is_some(),
                    ConditionType::FieldAbsent => found.is_none(),
                    ConditionType::ValueEquals => match (found, &c.expected_value) {
                        (Some(a), Some(e)) => a.equals(e),
                        _ => false,
                    },
                    ConditionType::ValueNotEquals => match (found, &c.expected_value) {
                        (Some(a), Some(e)) => !a.equals(e),
                        _ => true,
                    },
                }
            },
        }
    }
}

fn copy_strings(v: &Vec<String>) -> (r: Vec<String>)
    ensures
        keys_view(r@) == keys_view(v@),
{
    let mut out: Vec<String> = Vec::new();
    let mut i: usize = 0;
    while i < v.len()
        invariant
            0 <= i <= v@.len(),
            out@.len() == i,
            keys_view(out@) == keys_view(v@.subrange(0, i as int)),
        decreases v@.len() - i,
    {
        let ghost before = out@;
        out.push(v[i].clone());
        proof {
            assert forall|j: int| 0 <= j < i + 1 implies keys_view(out@)[j] == keys_view(
                v@.subrange(0, i + 1),
            )[j] by {
                if j < i {
                    assert(out@[j] == before[j]);
                    assert(keys_view(before)[j] == keys_view(v@.subrange(0, i as int))[j]);
                }
            }
            assert(keys_view(out@) =~= keys_view(v@.subrange(0, i + 1)));
        }
        i = i + 1;
    }
    proof {
        assert(v@.subrange(0, v@.len() as int) =~= v@);
    }
    out
}

/// A copy of a transformation type.
pub fn copy_type(t: &TransformationType) -> (r: TransformationType)
    ensures
        match (t, r) {
            (TransformationType::Move, TransformationType::Move) => true,
            (TransformationType::Copy, TransformationType::Copy) => true,
            (TransformationType::Remove, TransformationType::Remove) => true,
            (TransformationType::Transform(a), TransformationType::Transform(b)) => a@ == b@,
            (TransformationType::Merge(a), TransformationType::Merge(b)) => keys_view(a@)
                == keys_view(b@),
            (TransformationType::Split(a), TransformationType::Split(b)) => keys_view(a@)
                == keys_view(b@),
            _ => false,
        },
{
    match t {
        TransformationType::Move => TransformationType::Move,
        TransformationType::Copy => TransformationType::Copy,
        TransformationType::Transform(n) => TransformationType::Transform(n.clone()),
        TransformationType::Merge(v) => TransformationType::Merge(copy_strings(v)),
        TransformationType::Split(v) => TransformationType::Split(copy_strings(v)),
        TransformationType::Remove => TransformationType::Remove,
    }
}

fn copy_opt(o: Option<&ConfigValue>) -> (r: Option<ConfigValue>)
    ensures
        opt_view(r) == match o {
            Some(c) => Some(c@),
            None => None,
        },
{
    match o {
        Some(c) => Some(c.copy()),
        None => None,
    }
}

fn set_each(config: &mut ConfigValue, paths: &Vec<String>, v: &ConfigValue)
    ensures
        final(config)@ == set_all(old(config)@, keys_view(paths@), v@),
{
    let ghost t0 = config@;
    let ghost ps = keys_view(paths@);
    let mut i: usize = 0;
    proof {
        assert(ps.subrange(0, 0) =~= Seq::<Seq<char>>::empty());
    }
    while i < paths.len()
        invariant
            0 <= i <= paths@.len(),
            ps == keys_view(paths@),
            config@ == set_all(t0, ps.subrange(0, i as int), v@),
        decreases paths@.len() - i,
    {
        let segs = split_dotted(paths[i].as_str());
        set_at(config, &segs, v.copy());
        proof {
            let s = ps.subrange(0, i + 1);
            assert(s.drop_last() =~= ps.subrange(0, i as int));
            assert(s.last() == paths@[i as int]@);
        }
        i = i + 1;
    }
    proof {
        assert(ps.subrange(0, paths@.len() as int) =~= ps);
    }
}

fn merge_each(config: &ConfigValue, acc: &mut ConfigValue, paths: &Vec<String>)
    ensures
        final(acc)@ == merge_all(config@, old(acc)@, keys_view(paths@)),
{
    let ghost a0 = acc@;
    let ghost ps = keys_view(paths@);
    let mut i: usize = 0;
    proof {
        assert(ps.subrange(0, 0) =~= Seq::<Seq<char>>::empty());
    }
    while i < paths.len()
        invariant
            0 <= i <= paths@.len(),
            ps == keys_view(paths@),
            acc@ == merge_all(config@, a0, ps.subrange(0, i as int)),
        decreases paths@.len() - i,
    {
        let segs = split_dotted(paths[i].as_str());
        if let Some(x) = get_at(config, &segs) {
            merge(acc, x);
        }
        proof {
            let s = ps.subrange(0, i + 1);
            assert(s.drop_last() =~= ps.subrange(0, i as int));
            assert(s.last() == paths@[i as int]@);
        }
        i = i + 1;
    }
    proof {
        assert(ps.subrange(0, paths@.len() as int) =~= ps);
    }
}

/// Applies one rule, whatever its condition: `Ok(None)` where its source
/// path is absent, an error where its transform function is unknown.
pub fn apply_single_rule(config: &mut ConfigValue, rule: &TransformationRule) -> (r: Result<
    Option<AppliedTransformation>,
    String,
>)
    ensures
        rule_result(old(config)@, *rule) is None <==> r is Err,
        rule_result(old(config)@, *rule) == Some(None::<Tree>) <==> (r matches Ok(None)),
        r is Err ==> final(config)@ == old(config)@,
        r is Err ==> r->Err_0@ == failure_cause(*rule),
        (r matches Ok(None)) ==> final(config)@ == old(config)@,
        r matches Ok(Some(a)) ==> rule_result(old(config)@, *rule) == Some(Some(final(config)@))
            && a.rule_id@ == rule.rule_id@ && a.source_path@ == rule.source_path@
            && a.target_path@ == rule.target_path@ && (opt_view(a.old_value), opt_view(
            a.new_value,
        )) == recorded_values(old(config)@, *rule),
{
    let src = split_dotted(rule.source_path.as_str());
    let tgt = split_dotted(rule.target_path.as_str());
    let value = match get_at(config, &src) {
        None => {
            return Ok(None);
        },
        Some(v) => v.copy(),
    };
    let old_target = copy_opt(get_at(config, &tgt));
    let ghost t0 = config@;
    let (old_value, new_value) = match &rule.transformation_type {
        TransformationType::Move => {
            remove_at(config, &src);
            set_at(config, &tgt, value.copy());
            (old_target, Some(value))
        },
        TransformationType::Copy => {
            set_at(config, &tgt, value.copy());
            (old_target, Some(value))
        },
        TransformationType::Transform(name) => {
            let mut msg = String::from_str("no transform function named ");
            msg.append(name.as_str());
            return Err(msg);
        },
        TransformationType::Merge(others) => {
            let mut acc = match get_at(config, &tgt) {
                Some(x) => x.copy(),
                None => ConfigValue::new_mapping(),
            };
            merge(&mut acc, &value);
            merge_each(config, &mut acc, others);
            let kept = acc.copy();
            set_at(config, &tgt, acc);
            (old_target, Some(kept))
        },
        TransformationType::Split(others) => {
            set_at(config, &tgt, value.copy());
            set_each(config, others, &value);
            (old_target, Some(value))
        },
        TransformationType::Remove => {
            remove_at(config, &src);
            (Some(value), None)
        },
    };
    Ok(
        Some(
            AppliedTransformation {
                rule_id: rule.rule_id.clone(),
                source_path: rule.source_path.clone(),
                target_path: rule.target_path.clone(),
                old_value,
                new_value,
                transformation_type: copy_type(&rule.transformation_type),
            },
        ),
    )
}

} // verus!
