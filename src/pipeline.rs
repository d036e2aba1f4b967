use vstd::prelude::*;

use crate::merge::{merge, merge_keeps_primary_leaves, merge_tree};
use crate::migrate::{
    map_statefulset_spec, map_statefulset_to_podtemplate, rename_nested_keys, rename_tree,
    resources_converted, set_opt,
};
use crate::passes::{
    clean_deprecated_fields, clean_deprecated_fields_spec, clean_empty_cloud_storage,
    clean_empty_cloud_storage_spec, clean_old_resource_format, clean_old_resource_format_spec,
    deprecated_root_keys, edit_child, enterprise_cleaned, listeners_cleaned, resources_cleaned,
    statefulset_cleaned,
};
use crate::path::{get_at, set_at, set_path};
use crate::schema_version::{parse_pinned_spec, PinnedVersion, PinnedVersionError};
use crate::tree::{
    empty_mapping, key, keys_view, lemma_insert_facts, lemma_remove_all_facts, lemma_remove_facts,
    remove_all, well_formed, ConfigValue, Tree,
};
use crate::text::{decimal, decimal_text};
use crate::validation::{check_tiered_storage, TieredStorageStatus};

verus! {

/// One step of the migration of a values document.
#[derive(Debug, Clone, Copy, PartialEq, Eq, Structural)]
pub enum Stage {
    /// Renamed and relocated keys, at every level.
    RenameKeys,
    /// Scheduling settings copied into `podTemplate.spec`.
    MigratePodSettings,
    /// Deprecated fields removed, once their values are migrated.
    RemoveDeprecated,
    /// The reference document's defaults filled in.
    MergeDefaults,
    /// Cloud storage settings that the merge brought back, removed again.
    CleanCloudStorage,
    /// Old resource keys that the merge brought back, removed again.
    CleanResourceFormat,
    /// The pinned image version written to `image.tag`.
    PinImageVersion,
}

/// The stages, in the order they run: values are migrated before the
/// deprecated fields go, and those go before the defaults are merged in;
/// the cleanup after the merge removes what the merge reintroduced.
pub open spec fn stage_order() -> Seq<Stage> {
    seq![
        Stage::RenameKeys,
        Stage::MigratePodSettings,
        Stage::RemoveDeprecated,
        Stage::MergeDefaults,
        Stage::CleanCloudStorage,
        Stage::CleanResourceFormat,
        Stage::PinImageVersion,
    ]
}

/// The stages of the migration, in order.
pub fn stages() -> (r: Vec<Stage>)
    ensures
        r@ == stage_order(),
{
    let mut r: Vec<Stage> = Vec::new();
    r.push(Stage::RenameKeys);
    r.push(Stage::MigratePodSettings);
    r.push(Stage::RemoveDeprecated);
    r.push(Stage::MergeDefaults);
    r.push(Stage::CleanCloudStorage);
    r.push(Stage::CleanResourceFormat);
    r.push(Stage::PinImageVersion);
    proof {
        assert(r@ =~= stage_order());
    }
    r
}

pub open spec fn string_view(o: Option<String>) -> Option<Seq<char>> {
    match o {
        Some(p) => Some(p@),
        None => None,
    }
}

pub open spec fn str_view(o: Option<&str>) -> Option<Seq<char>> {
    match o {
        Some(p) => Some(p@),
        None => None,
    }
}

pub open spec fn image_tag_path() -> Seq<Seq<char>> {
    seq!["image"@, "tag"@]
}

/// `image.tag` set to `p`; an `image` that is not a mapping is replaced by
/// one that holds only the tag.
pub open spec fn pin_image(t: Tree, p: Seq<char>) -> Tree {
    let tag = Tree::Str(p);
    match t.get("image"@) {
        Some(i) => if i is Mapping {
            t.insert("image"@, i.insert("tag"@, tag))
        } else {
            t.insert("image"@, empty_mapping().insert("tag"@, tag))
        },
        None => t.insert("image"@, empty_mapping().insert("tag"@, tag)),
    }
}

/// What one stage makes of `t`.
pub open spec fn run_stage(t: Tree, s: Stage, defaults: Tree, pin: Option<Seq<char>>) -> Tree {
    match s {
        Stage::RenameKeys => rename_tree(t),
        Stage::MigratePodSettings => map_statefulset_spec(t),
        Stage::RemoveDeprecated => clean_deprecated_fields_spec(t),
        Stage::MergeDefaults => merge_tree(t, defaults),
        Stage::CleanCloudStorage => clean_empty_cloud_storage_spec(t),
        Stage::CleanResourceFormat => clean_old_resource_format_spec(t),
        Stage::PinImageVersion => match pin {
            Some(p) => pin_image(t, p),
            None => t,
        },
    }
}

/// What the stages, in order, make of `t`.
pub open spec fn run_stages(t: Tree, ss: Seq<Stage>, defaults: Tree, pin: Option<Seq<char>>) -> Tree
    decreases ss.len(),
{
    if ss.len() == 0 {
        t
    } else {
        run_stage(run_stages(t, ss.drop_last(), defaults, pin), ss.last(), defaults, pin)
    }
}

#[derive(Debug, Clone)]
pub enum MigrationError {
    /// No image version is pinned and the document has no `image.tag`.
    VersionRequired,
    /// The pinned version is malformed.
    InvalidVersion(String),
    /// The document is not a mapping.
    NotAMapping,
}

fn image_tag_segments() -> (r: Vec<String>)
    ensures
        keys_view(r@) == image_tag_path(),
{
    let mut r: Vec<String> = Vec::new();
    r.push(key("image"));
    r.push(key("tag"));
    proof {
        assert(keys_view(r@) =~= image_tag_path());
    }
    r
}

fn run_one(
    config: &mut ConfigValue,
    s: Stage,
    defaults: &ConfigValue,
    pin: &Option<String>,
)
    ensures
        final(config)@ == run_stage(old(config)@, s, defaults@, string_view(*pin)),
{
    match s {
        Stage::RenameKeys => rename_nested_keys(config),
        Stage::MigratePodSettings => map_statefulset_to_podtemplate(config),
        Stage::RemoveDeprecated => clean_deprecated_fields(config),
        Stage::MergeDefaults => merge(config, defaults),
        Stage::CleanCloudStorage => clean_empty_cloud_storage(config),
        Stage::CleanResourceFormat => clean_old_resource_format(config),
        Stage::PinImageVersion => {
            if let Some(p) = pin {
                let ki = key("image");
                let ghost before = config@;
                if let Some(mut image) = config.take_mapping_child(&ki) {
                    image.insert(key("tag"), ConfigValue::Str(p.clone()));
                    config.put_child(ki, image, Ghost(before));
                } else {
                    let mut image = ConfigValue::new_mapping();
                    image.insert(key("tag"), ConfigValue::Str(p.clone()));
                    config.insert(ki, image);
                }
            }
        },
    }
}

/// Migrates a values document to the new schema: checks the pinned image
/// version, runs the stages in order with `defaults` as the reference
/// document, and reports on the tiered storage settings of the result. A
/// malformed pinned version, or a document with no `image.tag` and no pinned
/// version, is refused before anything changes.
pub fn migrate_values(
    config: &mut ConfigValue,
    defaults: &ConfigValue,
    pinned_version: Option<&str>,
) -> (r: Result<TieredStorageStatus, MigrationError>)
    ensures
        r is Err <==> !(old(config)@ is Mapping) || (pinned_version is Some && parse_pinned_spec(
            pinned_version->0@,
        ) is None) || (pinned_version is None && old(config)@.get_path(image_tag_path()) is None),
        r matches Err(e) ==> (e is NotAMapping <==> !(old(config)@ is Mapping)),
        r matches Err(e) ==> (e is InvalidVersion <==> old(config)@ is Mapping
            && pinned_version is Some && parse_pinned_spec(pinned_version->0@) is None),
        r is Err ==> final(config)@ == old(config)@,
        r matches Ok(status) ==> final(config)@ == run_stages(
            old(config)@,
            stage_order(),
            defaults@,
            str_view(pinned_version),
        ) && status.describes(final(config)@),
        r is Ok && pinned_version is Some ==> final(config)@.get_path(image_tag_path()) == Some(
            Tree::Str(pinned_version->0@),
        ),
{
    if !config.is_mapping() {
        return Err(MigrationError::NotAMapping);
    }
    let tag = image_tag_segments();
    let pin: Option<String> = match pinned_version {
        Some(p) => match PinnedVersion::parse(p) {
            Ok(_) => Some(String::from_str(p)),
            Err(PinnedVersionError::InvalidFormat(s)) => {
                return Err(MigrationError::InvalidVersion(s));
            },
        },
        None => {
            if get_at(config, &tag).is_none() {
                return Err(MigrationError::VersionRequired);
            }
            None
        },
    };
    let ghost t0 = config@;
    let ghost pv = string_view(pin);
    let order = stages();
    let mut i: usize = 0;
    proof {
        assert(order@.subrange(0, 0) =~= Seq::<Stage>::empty());
    }
    while i < order.len()
        invariant
            0 <= i <= order@.len(),
            order@ == stage_order(),
            pv == string_view(pin),
            pv == str_view(pinned_version),
            config@ == run_stages(t0, order@.subrange(0, i as int), defaults@, pv),
        decreases order@.len() - i,
    {
        run_one(config, order[i], defaults, &pin);
        proof {
            let s = order@.subrange(0, i + 1);
            assert(s.drop_last() =~= order@.subrange(0, i as int));
            assert(s.last() == order@[i as int]);
        }
        i = i + 1;
    }
    proof {
        assert(order@.subrange(0, order@.len() as int) =~= order@);
        if let Some(p) = pv {
            lemma_pinned_tag(t0, defaults@, p);
        }
    }
    Ok(check_tiered_storage(config))
}


/// Each stage keeps the document a mapping.
proof fn lemma_stage_keeps_mapping(t: Tree, s: Stage, defaults: Tree, pin: Option<Seq<char>>)
    requires
        t is Mapping,
    ensures
        run_stage(t, s, defaults, pin) is Mapping,
{
    match s {
        Stage::RenameKeys => {
            lemma_rename_here_keeps_mapping(t);
        },
        Stage::RemoveDeprecated => {
            lemma_remove_all_facts(t, deprecated_root_keys());
        },
        _ => {},
    }
}

proof fn lemma_rename_here_keeps_mapping(t: Tree)
    requires
        t is Mapping,
    ensures
        rename_tree(t) is Mapping,
{
    let m = Tree::Mapping(crate::migrate::rename_entries(t->Mapping_0));
    assert(crate::migrate::rename_here(m) is Mapping);
}

proof fn lemma_stages_keep_mapping(t: Tree, ss: Seq<Stage>, defaults: Tree, pin: Option<Seq<char>>)
    requires
        t is Mapping,
    ensures
        run_stages(t, ss, defaults, pin) is Mapping,
    decreases ss.len(),
{
    if ss.len() > 0 {
        lemma_stages_keep_mapping(t, ss.drop_last(), defaults, pin);
        lemma_stage_keeps_mapping(run_stages(t, ss.drop_last(), defaults, pin), ss.last(), defaults, pin);
    }
}

/// After the stages, `image.tag` holds the pinned version.
proof fn lemma_pinned_tag(t: Tree, defaults: Tree, p: Seq<char>)
    requires
        t is Mapping,
    ensures
        run_stages(t, stage_order(), defaults, Some(p)).get_path(image_tag_path()) == Some(
            Tree::Str(p),
        ),
{
    let ss = stage_order();
    let before = run_stages(t, ss.drop_last(), defaults, Some(p));
    lemma_stages_keep_mapping(t, ss.drop_last(), defaults, Some(p));
    assert(ss.last() == Stage::PinImageVersion);
    let ki = "image"@;
    let kt = "tag"@;
    let tag = Tree::Str(p);
    let img = match before.get(ki) {
        Some(i) => if i is Mapping {
            i.insert(kt, tag)
        } else {
            empty_mapping().insert(kt, tag)
        },
        None => empty_mapping().insert(kt, tag),
    };
    if before.get(ki) is Some && before.get(ki)->0 is Mapping {
        lemma_insert_facts(before.get(ki)->0, kt, tag);
    } else {
        lemma_insert_facts(empty_mapping(), kt, tag);
    }
    lemma_insert_facts(before, ki, img);
    assert(pin_image(before, p) == before.insert(ki, img));
    reveal_with_fuel(Tree::get_path, 3);
    let q = image_tag_path();
    assert(q[0] == ki && q[1] == kt);
    assert(q.drop_first() =~= seq![kt]);
    assert(q.drop_first().drop_first() =~= Seq::<Seq<char>>::empty());
}

/// The name of the output file at the given attempt: `base` first, then
/// `updated-values-<attempt>.yaml`.
pub open spec fn output_name(base: Seq<char>, attempt: nat) -> Seq<char> {
    if attempt == 0 {
        base
    } else {
        "updated-values-"@ + decimal(attempt) + ".yaml"@
    }
}

/// The output file name to try at `attempt`, where the earlier ones were
/// taken.
pub fn output_file_name(base: &str, attempt: u64) -> (r: String)
    ensures
        r@ == output_name(base@, attempt as nat),
{
    if attempt == 0 {
        return String::from_str(base);
    }
    let mut name = String::from_str("updated-values-");
    name.append(decimal_text(attempt).as_str());
    name.append(".yaml");
    name
}


proof fn lemma_literals_differ()
    ensures
        "resources"@ != "image"@,
        "resources"@ != "statefulset"@,
        "resources"@ != "listeners"@,
        "resources"@ != "enterprise"@,
        "cpu"@ != "memory"@,
        "cpu"@ != "requests"@,
        "cpu"@ != "limits"@,
        "memory"@ != "requests"@,
        "memory"@ != "limits"@,
        "requests"@ != "limits"@,
        !deprecated_root_keys().contains("resources"@),
{
    reveal_strlit("resources");
    reveal_strlit("image");
    reveal_strlit("statefulset");
    reveal_strlit("listeners");
    reveal_strlit("enterprise");
    reveal_strlit("cpu");
    reveal_strlit("memory");
    reveal_strlit("requests");
    reveal_strlit("limits");
    reveal_strlit("COMPUTED VALUES");
    reveal_strlit("tolerations");
    reveal_strlit("nodeSelector");
    reveal_strlit("affinity");
    reveal_strlit("post_upgrade_job");
    reveal_strlit("imagePullSecrets");
    reveal_strlit("post_install_job");
    reveal_strlit("connectors");
    reveal_strlit("podManagementPolicy");
    assert("cpu"@.len() == 3 && "memory"@.len() == 6 && "requests"@.len() == 8);
    assert("limits"@.len() == 6 && "memory"@[0] != "limits"@[0]);
    assert("resources"@[0] != "listeners"@[0]);
    assert("requests"@[0] != "limits"@[0]);
    let k = deprecated_root_keys();
    assert forall|i: int| 0 <= i < k.len() implies k[i].len() != "resources"@.len() by {
        assert(k[0].len() == 15 && k[1].len() == 11 && k[2].len() == 12 && k[3].len() == 8);
        assert(k[4].len() == 16 && k[5].len() == 16 && k[6].len() == 16 && k[7].len() == 10);
        assert(k[8].len() == 19);
    }
}

proof fn lemma_edit_other(t: Tree, k: Seq<char>, f: spec_fn(Tree) -> Tree, other: Seq<char>)
    requires
        k != other,
    ensures
        edit_child(t, k, f).get(other) == t.get(other),
{
    if t.get(k) is Some && t.get(k)->0 is Mapping {
        lemma_insert_facts(t, k, f(t.get(k)->0));
    }
}

/// Two-phase deprecation: where `resources` holds the old `cpu.cores`
/// form, converting it, removing the deprecated fields, merging in
/// reference defaults (which may declare the old keys again) and cleaning
/// up after the merge leaves no old `cpu` or `memory` key under
/// `resources`, and the migrated value under `requests.cpu` and
/// `limits.cpu`.
pub proof fn deprecated_resources_stay_removed(t: Tree, defaults: Tree, cores: Tree)
    requires
        t is Mapping,
        t.get("resources"@) is Some,
        t.get("resources"@)->0 is Mapping,
        t.get("resources"@)->0.get_path(seq!["cpu"@, "cores"@]) == Some(cores),
        !(cores is Mapping),
    ensures
        ({
            let migrated = edit_child(t, "resources"@, |r: Tree| resources_converted(r));
            let merged = merge_tree(clean_deprecated_fields_spec(migrated), defaults);
            let result = clean_old_resource_format_spec(merged);
            &&& result.get_path(seq!["resources"@, "cpu"@]) is None
            &&& result.get_path(seq!["resources"@, "memory"@]) is None
            &&& result.get_path(seq!["resources"@, "requests"@, "cpu"@]) == Some(cores)
            &&& result.get_path(seq!["resources"@, "limits"@, "cpu"@]) == Some(cores)
        }),
{
    lemma_literals_differ();
    reveal_with_fuel(Tree::get_path, 4);
    let kr = "resources"@;
    let r = t.get(kr)->0;
    let memory = r.get_path(seq!["memory"@, "container"@, "max"@]);
    let am0 = empty_mapping().insert("cpu"@, cores);
    let amounts = set_opt(am0, "memory"@, memory);
    lemma_insert_facts(empty_mapping(), "cpu"@, cores);
    if memory is Some {
        lemma_insert_facts(am0, "memory"@, memory->0);
    }
    assert(amounts.get("cpu"@) == Some(cores));
    let r0 = r.remove("cpu"@).remove("memory"@);
    lemma_remove_facts(r, "cpu"@);
    lemma_remove_facts(r.remove("cpu"@), "memory"@);
    let r1 = r0.insert("requests"@, amounts).insert("limits"@, amounts);
    lemma_insert_facts(r0, "requests"@, amounts);
    lemma_insert_facts(r0.insert("requests"@, amounts), "limits"@, amounts);
    assert(resources_converted(r) == r1);
    assert(r1.get("requests"@) == Some(amounts));
    assert(r1.get("limits"@) == Some(amounts));
    let migrated = edit_child(t, kr, |r: Tree| resources_converted(r));
    lemma_insert_facts(t, kr, r1);
    assert(migrated.get(kr) == Some(r1));
    // the cleanup of deprecated fields does not touch `resources`
    let a = remove_all(migrated, deprecated_root_keys());
    lemma_remove_all_facts(migrated, deprecated_root_keys());
    assert(a.get(kr) == Some(r1));
    assert(a is Mapping);
    let b = edit_child(a, "image"@, |i: Tree| i.remove("pullPolicy"@));
    lemma_edit_other(a, "image"@, |i: Tree| i.remove("pullPolicy"@), kr);
    let c = edit_child(b, "statefulset"@, |st: Tree| statefulset_cleaned(st));
    lemma_edit_other(b, "statefulset"@, |st: Tree| statefulset_cleaned(st), kr);
    let d = edit_child(c, "listeners"@, |l: Tree| listeners_cleaned(l));
    lemma_edit_other(c, "listeners"@, |l: Tree| listeners_cleaned(l), kr);
    let cleaned = clean_deprecated_fields_spec(migrated);
    lemma_edit_other(d, "enterprise"@, |e: Tree| enterprise_cleaned(e), kr);
    assert(cleaned.get(kr) == Some(r1));
    // the merge keeps the migrated leaves
    let req = seq![kr, "requests"@, "cpu"@];
    let lim = seq![kr, "limits"@, "cpu"@];
    assert(cleaned.get_path(req) == Some(cores));
    assert(cleaned.get_path(lim) == Some(cores));
    let merged = merge_tree(cleaned, defaults);
    merge_keeps_primary_leaves(cleaned, defaults, req);
    merge_keeps_primary_leaves(cleaned, defaults, lim);
    assert(merged.get_path(req) == Some(cores));
    assert(merged.get_path(lim) == Some(cores));
    let rm = merged.get(kr)->0;
    assert(rm.get("requests"@) is Some);
    assert(rm.get("limits"@) is Some);
    assert(rm is Mapping);
    // the cleanup after the merge removes the old keys again
    let rm2 = resources_cleaned(rm);
    let rm_a = rm.remove("cpu"@);
    lemma_remove_facts(rm, "cpu"@);
    lemma_remove_facts(rm_a, "memory"@);
    assert(rm2.get("cpu"@) is None);
    assert(rm2.get("memory"@) is None);
    assert(rm2.get("requests"@) == rm.get("requests"@));
    assert(rm2.get("limits"@) == rm.get("limits"@));
    let result = clean_old_resource_format_spec(merged);
    lemma_insert_facts(merged, kr, rm2);
    assert(result.get(kr) == Some(rm2));
}

} // verus!
