use vstd::prelude::*;

use crate::tree::{
    lemma_child_well_formed, lemma_insert_well_formed, lemma_remove_well_formed, well_formed,
    key, keys_view, lemma_insert_facts, lemma_insert_insert, lemma_insert_same,
    lemma_remove_all_facts, lemma_remove_all_twice, lemma_remove_facts, remove_all, remove_keys,
    ConfigValue, Tree,
};

verus! {

/// Applies `f` to the mapping under key `k`; where `k` holds no mapping,
/// the tree is unchanged.
pub open spec fn edit_child(t: Tree, k: Seq<char>, f: spec_fn(Tree) -> Tree) -> Tree {
    match t.get(k) {
        Some(c) => if c is Mapping {
            t.insert(k, f(c))
        } else {
            t
        },
        None => t,
    }
}

/// Where `f` is idempotent on mappings and yields mappings, so is editing
/// the child under `k` with it.
pub proof fn lemma_edit_child_twice(t: Tree, k: Seq<char>, f: spec_fn(Tree) -> Tree)
    requires
        forall|c: Tree| c is Mapping ==> (#[trigger] f(c)) is Mapping && f(f(c)) == f(c),
    ensures
        edit_child(edit_child(t, k, f), k, f) == edit_child(t, k, f),
        t is Mapping ==> edit_child(t, k, f) is Mapping,
{
    if t.get(k) is Some && t.get(k)->0 is Mapping {
        let c = t.get(k)->0;
        lemma_insert_facts(t, k, f(c));
        lemma_insert_insert(t, k, f(c), f(f(c)));
    }
}

// ---------------------------------------------------------------------
// Old resource format left behind by the merge
// ---------------------------------------------------------------------
/// `resources` without its old `cpu` and `memory` keys, where it has both
/// `requests` and `limits` and one of the old keys.
pub open spec fn resources_cleaned(r: Tree) -> Tree {
    let has_new = r.contains("requests"@) && r.contains("limits"@);
    let has_old = r.contains("cpu"@) || r.contains("memory"@);
    if has_new && has_old {
        r.remove("cpu"@).remove("memory"@)
    } else {
        r
    }
}

pub open spec fn clean_old_resource_format_spec(t: Tree) -> Tree {
    edit_child(t, "resources"@, |r: Tree| resources_cleaned(r))
}

/// Removes the old `resources.cpu` / `resources.memory` keys where the new
/// `requests` / `limits` form is present.
pub fn clean_old_resource_format(val: &mut ConfigValue)
    ensures
        final(val)@ == clean_old_resource_format_spec(old(val)@),
{
    let k = key("resources");
    let ghost before = val@;
    if let Some(mut r) = val.take_mapping_child(&k) {
        let has_new = r.contains_key(&key("requests")) && r.contains_key(&key("limits"));
        let has_old = r.contains_key(&key("cpu")) || r.contains_key(&key("memory"));
        if has_new && has_old {
            r.remove(&key("cpu"));
            r.remove(&key("memory"));
        }
        val.put_child(k, r, Ghost(before));
    }
}

proof fn lemma_resources_cleaned(r: Tree)
    requires
        r is Mapping,
    ensures
        resources_cleaned(r) is Mapping,
        resources_cleaned(resources_cleaned(r)) == resources_cleaned(r),
{
    let r1 = r.remove("cpu"@);
    let r2 = r1.remove("memory"@);
    lemma_remove_facts(r, "cpu"@);
    lemma_remove_facts(r1, "memory"@);
    if resources_cleaned(r) != r {
        assert(!r2.contains("memory"@));
        assert(!r2.contains("cpu"@)) by {
            if "cpu"@ != "memory"@ {
                assert(r2.get("cpu"@) == r1.get("cpu"@));
            }
        }
    }
}

/// Running the old-resource cleanup twice is the same as running it once.
pub proof fn clean_old_resource_format_idempotent(t: Tree)
    ensures
        clean_old_resource_format_spec(clean_old_resource_format_spec(t))
            == clean_old_resource_format_spec(t),
{
    let f = |r: Tree| resources_cleaned(r);
    assert forall|c: Tree| c is Mapping implies (#[trigger] f(c)) is Mapping && f(f(c)) == f(c) by {
        lemma_resources_cleaned(c);
    }
    lemma_edit_child_twice(t, "resources"@, f);
}

// ---------------------------------------------------------------------
// Empty cloud storage settings of a disabled tiered storage
// ---------------------------------------------------------------------
/// The cloud storage settings that a disabled tiered storage drops.
pub open spec fn cloud_storage_keys() -> Seq<Seq<char>> {
    seq![
        "cloud_storage_access_key"@,
        "cloud_storage_api_endpoint"@,
        "cloud_storage_azure_container"@,
        "cloud_storage_azure_shared_key"@,
        "cloud_storage_azure_storage_account"@,
        "cloud_storage_bucket"@,
        "cloud_storage_cache_size"@,
        "cloud_storage_credentials_source"@,
        "cloud_storage_enable_remote_read"@,
        "cloud_storage_enable_remote_write"@,
        "cloud_storage_region"@,
        "cloud_storage_secret_key"@,
    ]
}

fn cloud_storage_key_list() -> (r: Vec<String>)
    ensures
        keys_view(r@) == cloud_storage_keys(),
{
    let mut r: Vec<String> = Vec::new();
    r.push(key("cloud_storage_access_key"));
    r.push(key("cloud_storage_api_endpoint"));
    r.push(key("cloud_storage_azure_container"));
    r.push(key("cloud_storage_azure_shared_key"));
    r.push(key("cloud_storage_azure_storage_account"));
    r.push(key("cloud_storage_bucket"));
    r.push(key("cloud_storage_cache_size"));
    r.push(key("cloud_storage_credentials_source"));
    r.push(key("cloud_storage_enable_remote_read"));
    r.push(key("cloud_storage_enable_remote_write"));
    r.push(key("cloud_storage_region"));
    r.push(key("cloud_storage_secret_key"));
    proof {
        assert(keys_view(r@) =~= cloud_storage_keys());
    }
    r
}

/// Tiered storage is on only where `cloud_storage_enabled` is `true`.
pub open spec fn storage_enabled(config: Tree) -> bool {
    config.get("cloud_storage_enabled"@) == Some(Tree::Bool(true))
}

fn is_storage_enabled(config: &ConfigValue) -> (r: bool)
    ensures
        r == storage_enabled(config@),
{
    match config.get(&key("cloud_storage_enabled")) {
        Some(ConfigValue::Bool(b)) => *b,
        _ => false,
    }
}

pub open spec fn config_cleaned(c: Tree) -> Tree {
    if storage_enabled(c) {
        c
    } else {
        remove_all(c, cloud_storage_keys())
    }
}

/// `storage.tiered` after the cleanup: the cloud settings and the
/// `credentialsSecretRef` go where the storage is disabled.
pub open spec fn tiered_cleaned(td: Tree) -> Tree {
    let td1 = edit_child(td, "config"@, |c: Tree| config_cleaned(c));
    match td1.get("config"@) {
        Some(c) => if c is Mapping && !storage_enabled(c) {
            td1.remove("credentialsSecretRef"@)
        } else {
            td1
        },
        None => td1,
    }
}

pub open spec fn clean_empty_cloud_storage_spec(t: Tree) -> Tree {
    edit_child(
        t,
        "storage"@,
        |st: Tree| edit_child(st, "tiered"@, |td: Tree| tiered_cleaned(td)),
    )
}

proof fn lemma_config_cleaned(c: Tree)
    requires
        c is Mapping,
    ensures
        config_cleaned(c) is Mapping,
        config_cleaned(config_cleaned(c)) == config_cleaned(c),
        storage_enabled(config_cleaned(c)) == storage_enabled(c),
{
    let ks = cloud_storage_keys();
    let e = "cloud_storage_enabled"@;
    lemma_remove_all_facts(c, ks);
    lemma_remove_all_twice(c, ks);
    let c1 = remove_all(c, ks);
    if ks.contains(e) {
        assert(!c1.contains(e));
    } else {
        assert(c1.get(e) == c.get(e));
    }
}

proof fn lemma_tiered_cleaned(td: Tree)
    requires
        td is Mapping,
    ensures
        tiered_cleaned(td) is Mapping,
        tiered_cleaned(tiered_cleaned(td)) == tiered_cleaned(td),
{
    let kc = "config"@;
    let kr = "credentialsSecretRef"@;
    assert(kc != kr) by {
        reveal_strlit("config");
        reveal_strlit("credentialsSecretRef");
        assert(kc.len() != kr.len());
    }
    let f = |c: Tree| config_cleaned(c);
    let td1 = edit_child(td, kc, f);
    let r = tiered_cleaned(td);
    if td.get(kc) is Some && td.get(kc)->0 is Mapping {
        let c = td.get(kc)->0;
        let c1 = config_cleaned(c);
        lemma_config_cleaned(c);
        lemma_insert_facts(td, kc, c1);
        assert(td1.get(kc) == Some(c1));
        lemma_remove_facts(td1, kr);
        assert(r.get(kc) == Some(c1));
        lemma_insert_same(r, kc);
        assert(edit_child(r, kc, f) == r);
        lemma_remove_facts(r, kr);
    } else {
        assert(td1 == td);
    }
}

/// Running the cloud storage cleanup twice is the same as running it once.
pub proof fn clean_empty_cloud_storage_idempotent(t: Tree)
    ensures
        clean_empty_cloud_storage_spec(clean_empty_cloud_storage_spec(t))
            == clean_empty_cloud_storage_spec(t),
{
    let g = |td: Tree| tiered_cleaned(td);
    assert forall|c: Tree| c is Mapping implies (#[trigger] g(c)) is Mapping && g(g(c)) == g(c) by {
        lemma_tiered_cleaned(c);
    }
    let f = |st: Tree| edit_child(st, "tiered"@, g);
    assert forall|c: Tree| c is Mapping implies (#[trigger] f(c)) is Mapping && f(f(c)) == f(c) by {
        lemma_edit_child_twice(c, "tiered"@, g);
    }
    lemma_edit_child_twice(t, "storage"@, f);
    assert(clean_empty_cloud_storage_spec(t) == edit_child(t, "storage"@, f));
}

fn clean_tiered(td: &mut ConfigValue)
    ensures
        final(td)@ == tiered_cleaned(old(td)@),
{
    let kc = key("config");
    let ghost before = td@;
    if let Some(mut c) = td.take_mapping_child(&kc) {
        if !is_storage_enabled(&c) {
            let ks = cloud_storage_key_list();
            remove_keys(&mut c, &ks);
        }
        td.put_child(kc, c, Ghost(before));
    }
    let kc = key("config");
    let disabled = match td.get(&kc) {
        Some(c) => c.is_mapping() && !is_storage_enabled(c),
        None => false,
    };
    if disabled {
        td.remove(&key("credentialsSecretRef"));
    }
}

/// Removes the cloud storage settings, and the credentials reference, of a
/// tiered storage whose `cloud_storage_enabled` is not `true`.
pub fn clean_empty_cloud_storage(val: &mut ConfigValue)
    ensures
        final(val)@ == clean_empty_cloud_storage_spec(old(val)@),
{
    let ks = key("storage");
    let ghost b0 = val@;
    if let Some(mut st) = val.take_mapping_child(&ks) {
        let kt = key("tiered");
        let ghost b1 = st@;
        if let Some(mut td) = st.take_mapping_child(&kt) {
            clean_tiered(&mut td);
            st.put_child(kt, td, Ghost(b1));
        }
        val.put_child(ks, st, Ghost(b0));
    }
}

// ---------------------------------------------------------------------
// Deprecated fields, removed once their values have been migrated
// ---------------------------------------------------------------------
pub open spec fn deprecated_root_keys() -> Seq<Seq<char>> {
    seq![
        "COMPUTED VALUES"@,
        "tolerations"@,
        "nodeSelector"@,
        "affinity"@,
        "post_upgrade_job"@,
        "imagePullSecrets"@,
        "post_install_job"@,
        "connectors"@,
        "podManagementPolicy"@,
    ]
}

pub open spec fn deprecated_statefulset_keys() -> Seq<Seq<char>> {
    seq![
        "securityContext"@,
        "tolerations"@,
        "nodeSelector"@,
        "priorityClassName"@,
        "startupProbe"@,
        "livenessProbe"@,
        "readinessProbe"@,
        "annotations"@,
        "topologySpreadConstraints"@,
        "extraVolumes"@,
        "extraVolumeMounts"@,
        "podAffinity"@,
        "terminationGracePeriodSeconds"@,
        "podManagementPolicy"@,
    ]
}

pub open spec fn deprecated_init_container_keys() -> Seq<Seq<char>> {
    seq!["tuning"@, "extraInitContainers"@, "setTieredStorageCacheDirOwnership"@]
}

/// The keys an init container or a sidecar no longer takes.
pub open spec fn container_extra_keys() -> Seq<Seq<char>> {
    seq!["extraVolumeMounts"@, "resources"@]
}

pub open spec fn config_watcher_keys() -> Seq<Seq<char>> {
    seq!["extraVolumeMounts"@, "resources"@, "securityContext"@]
}

fn deprecated_root_key_list() -> (r: Vec<String>)
    ensures
        keys_view(r@) == deprecated_root_keys(),
{
    let mut r: Vec<String> = Vec::new();
    r.push(key("COMPUTED VALUES"));
    r.push(key("tolerations"));
    r.push(key("nodeSelector"));
    r.push(key("affinity"));
    r.push(key("post_upgrade_job"));
    r.push(key("imagePullSecrets"));
    r.push(key("post_install_job"));
    r.push(key("connectors"));
    r.push(key("podManagementPolicy"));
    proof {
        assert(keys_view(r@) =~= deprecated_root_keys());
    }
    r
}

fn deprecated_statefulset_key_list() -> (r: Vec<String>)
    ensures
        keys_view(r@) == deprecated_statefulset_keys(),
{
    let mut r: Vec<String> = Vec::new();
    r.push(key("securityContext"));
    r.push(key("tolerations"));
    r.push(key("nodeSelector"));
    r.push(key("priorityClassName"));
    r.push(key("startupProbe"));
    r.push(key("livenessProbe"));
    r.push(key("readinessProbe"));
    r.push(key("annotations"));
    r.push(key("topologySpreadConstraints"));
    r.push(key("extraVolumes"));
    r.push(key("extraVolumeMounts"));
    r.push(key("podAffinity"));
    r.push(key("terminationGracePeriodSeconds"));
    r.push(key("podManagementPolicy"));
    proof {
        assert(keys_view(r@) =~= deprecated_statefulset_keys());
    }
    r
}

fn deprecated_init_container_key_list() -> (r: Vec<String>)
    ensures
        keys_view(r@) == deprecated_init_container_keys(),
{
    let mut r: Vec<String> = Vec::new();
    r.push(key("tuning"));
    r.push(key("extraInitContainers"));
    r.push(key("setTieredStorageCacheDirOwnership"));
    proof {
        assert(keys_view(r@) =~= deprecated_init_container_keys());
    }
    r
}

fn container_extra_key_list() -> (r: Vec<String>)
    ensures
        keys_view(r@) == container_extra_keys(),
{
    let mut r: Vec<String> = Vec::new();
    r.push(key("extraVolumeMounts"));
    r.push(key("resources"));
    proof {
        assert(keys_view(r@) =~= container_extra_keys());
    }
    r
}

fn config_watcher_key_list() -> (r: Vec<String>)
    ensures
        keys_view(r@) == config_watcher_keys(),
{
    let mut r: Vec<String> = Vec::new();
    r.push(key("extraVolumeMounts"));
    r.push(key("resources"));
    r.push(key("securityContext"));
    proof {
        assert(keys_view(r@) =~= config_watcher_keys());
    }
    r
}

pub open spec fn init_containers_cleaned(ic: Tree) -> Tree {
    let a = remove_all(ic, deprecated_init_container_keys());
    let b = edit_child(a, "configurator"@, |c: Tree| remove_all(c, container_extra_keys()));
    edit_child(b, "setDataDirOwnership"@, |c: Tree| remove_all(c, container_extra_keys()))
}

pub open spec fn statefulset_cleaned(st: Tree) -> Tree {
    let a = remove_all(st, deprecated_statefulset_keys());
    let b = edit_child(a, "initContainers"@, |ic: Tree| init_containers_cleaned(ic));
    edit_child(
        b,
        "sideCars"@,
        |sc: Tree| edit_child(sc, "configWatcher"@, |cw: Tree| remove_all(cw, config_watcher_keys())),
    )
}

pub open spec fn listeners_cleaned(l: Tree) -> Tree {
    let a = edit_child(l, "http"@, |h: Tree| h.remove("kafkaEndpoint"@));
    edit_child(a, "schemaRegistry"@, |h: Tree| h.remove("kafkaEndpoint"@))
}

/// `enterprise` without a `licenseSecretRef` that is an empty mapping.
pub open spec fn enterprise_cleaned(e: Tree) -> Tree {
    if e.get("licenseSecretRef"@) == Some(Tree::Mapping(Seq::empty())) {
        e.remove("licenseSecretRef"@)
    } else {
        e
    }
}

pub open spec fn clean_deprecated_fields_spec(t: Tree) -> Tree {
    if t is Mapping {
        let a = remove_all(t, deprecated_root_keys());
        let b = edit_child(a, "image"@, |i: Tree| i.remove("pullPolicy"@));
        let c = edit_child(b, "statefulset"@, |st: Tree| statefulset_cleaned(st));
        let d = edit_child(c, "listeners"@, |l: Tree| listeners_cleaned(l));
        edit_child(d, "enterprise"@, |e: Tree| enterprise_cleaned(e))
    } else {
        t
    }
}

fn strip_child(parent: &mut ConfigValue, name: &str, keys: &Vec<String>)
    ensures
        final(parent)@ == edit_child(
            old(parent)@,
            name@,
            |c: Tree| remove_all(c, keys_view(keys@)),
        ),
{
    let k = key(name);
    let ghost before = parent@;
    if let Some(mut c) = parent.take_mapping_child(&k) {
        remove_keys(&mut c, keys);
        parent.put_child(k, c, Ghost(before));
    }
}

fn clean_init_containers(ic: &mut ConfigValue)
    ensures
        final(ic)@ == init_containers_cleaned(old(ic)@),
{
    remove_keys(ic, &deprecated_init_container_key_list());
    let extra = container_extra_key_list();
    strip_child(ic, "configurator", &extra);
    strip_child(ic, "setDataDirOwnership", &extra);
}

fn clean_statefulset(st: &mut ConfigValue)
    ensures
        final(st)@ == statefulset_cleaned(old(st)@),
{
    remove_keys(st, &deprecated_statefulset_key_list());
    let ki = key("initContainers");
    let ghost b1 = st@;
    if let Some(mut ic) = st.take_mapping_child(&ki) {
        clean_init_containers(&mut ic);
        st.put_child(ki, ic, Ghost(b1));
    }
    let ks = key("sideCars");
    let ghost b2 = st@;
    if let Some(mut sc) = st.take_mapping_child(&ks) {
        strip_child(&mut sc, "configWatcher", &config_watcher_key_list());
        st.put_child(ks, sc, Ghost(b2));
    }
}

fn remove_in_child(parent: &mut ConfigValue, name: &str, field: &str)
    ensures
        final(parent)@ == edit_child(old(parent)@, name@, |c: Tree| c.remove(field@)),
{
    let k = key(name);
    let ghost before = parent@;
    if let Some(mut c) = parent.take_mapping_child(&k) {
        c.remove(&key(field));
        parent.put_child(k, c, Ghost(before));
    }
}

fn clean_enterprise(e: &mut ConfigValue)
    ensures
        final(e)@ == enterprise_cleaned(old(e)@),
{
    let k = key("licenseSecretRef");
    let empty = match e.get(&k) {
        Some(c) => c.is_empty_mapping(),
        None => false,
    };
    if empty {
        e.remove(&k);
    }
}

/// Removes the fields that the new schema no longer has, once their values
/// have been migrated.
pub fn clean_deprecated_fields(val: &mut ConfigValue)
    ensures
        final(val)@ == clean_deprecated_fields_spec(old(val)@),
{
    if !val.is_mapping() {
        return ;
    }
    remove_keys(val, &deprecated_root_key_list());
    remove_in_child(val, "image", "pullPolicy");
    let ks = key("statefulset");
    let ghost b1 = val@;
    if let Some(mut st) = val.take_mapping_child(&ks) {
        clean_statefulset(&mut st);
        val.put_child(ks, st, Ghost(b1));
    }
    let kl = key("listeners");
    let ghost b2 = val@;
    if let Some(mut l) = val.take_mapping_child(&kl) {
        remove_in_child(&mut l, "http", "kafkaEndpoint");
        remove_in_child(&mut l, "schemaRegistry", "kafkaEndpoint");
        val.put_child(kl, l, Ghost(b2));
    }
    let ke = key("enterprise");
    let ghost b3 = val@;
    if let Some(mut e) = val.take_mapping_child(&ke) {
        clean_enterprise(&mut e);
        val.put_child(ke, e, Ghost(b3));
    }
}


// ---------------------------------------------------------------------
// Idempotence of key removal followed by edits of distinct children
// ---------------------------------------------------------------------
/// The edits, in order.
pub open spec fn apply_edits(t: Tree, edits: Seq<(Seq<char>, spec_fn(Tree) -> Tree)>) -> Tree
    decreases edits.len(),
{
    if edits.len() == 0 {
        t
    } else {
        edit_child(apply_edits(t, edits.drop_last()), edits.last().0, edits.last().1)
    }
}

/// Each edit is idempotent on mappings and yields mappings.
pub open spec fn edits_idempotent(edits: Seq<(Seq<char>, spec_fn(Tree) -> Tree)>) -> bool {
    forall|i: int, c: Tree|
        0 <= i < edits.len() && c is Mapping ==> (#[trigger] (edits[i].1)(c)) is Mapping && (
        edits[i].1)((edits[i].1)(c)) == (edits[i].1)(c)
}

/// The edited keys are distinct and none of them is removed.
pub open spec fn edit_keys_apart(ks: Seq<Seq<char>>, edits: Seq<(Seq<char>, spec_fn(Tree) -> Tree)>) -> bool {
    &&& forall|i: int, j: int| 0 <= i < j < edits.len() ==> edits[i].0 != edits[j].0
    &&& forall|i: int| 0 <= i < edits.len() ==> !ks.contains(#[trigger] edits[i].0)
}

/// Nothing is left for the removal and the edits to do.
pub open spec fn settled(t: Tree, ks: Seq<Seq<char>>, edits: Seq<(Seq<char>, spec_fn(Tree) -> Tree)>) -> bool {
    &&& forall|k: Seq<char>| ks.contains(k) ==> !(#[trigger] t.contains(k))
    &&& forall|i: int|
        0 <= i < edits.len() && t.get(edits[i].0) is Some && t.get(edits[i].0)->0 is Mapping ==> (
        edits[i].1)(t.get(#[trigger] edits[i].0)->0) == t.get(edits[i].0)->0
}

proof fn lemma_apply_edits_settled_identity(t: Tree, ks: Seq<Seq<char>>, edits: Seq<(Seq<char>, spec_fn(Tree) -> Tree)>)
    requires
        settled(t, ks, edits),
    ensures
        apply_edits(t, edits) == t,
    decreases edits.len(),
{
    if edits.len() > 0 {
        let d = edits.drop_last();
        assert(settled(t, ks, d)) by {
            assert forall|i: int|
                0 <= i < d.len() && t.get(d[i].0) is Some && t.get(d[i].0)->0 is Mapping implies (
                d[i].1)(t.get(#[trigger] d[i].0)->0) == t.get(d[i].0)->0 by {
                assert(d[i] == edits[i]);
            }
        }
        lemma_apply_edits_settled_identity(t, ks, d);
        let k = edits.last().0;
        assert(edits.last() == edits[edits.len() - 1]);
        if t.get(k) is Some && t.get(k)->0 is Mapping {
            lemma_insert_same(t, k);
        }
    }
}

proof fn lemma_apply_edits_settles(t: Tree, ks: Seq<Seq<char>>, edits: Seq<(Seq<char>, spec_fn(Tree) -> Tree)>)
    requires
        edits_idempotent(edits),
        edit_keys_apart(ks, edits),
        forall|k: Seq<char>| ks.contains(k) ==> !(#[trigger] t.contains(k)),
    ensures
        settled(apply_edits(t, edits), ks, edits),
        t is Mapping ==> apply_edits(t, edits) is Mapping,
    decreases edits.len(),
{
    if edits.len() > 0 {
        let d = edits.drop_last();
        assert(edits_idempotent(d)) by {
            assert forall|i: int, c: Tree| 0 <= i < d.len() && c is Mapping implies (#[trigger] (
            d[i].1)(c)) is Mapping && (d[i].1)((d[i].1)(c)) == (d[i].1)(c) by {
                assert(d[i] == edits[i]);
            }
        }
        assert(edit_keys_apart(ks, d)) by {
            assert forall|i: int| 0 <= i < d.len() implies !ks.contains(#[trigger] d[i].0) by {
                assert(d[i] == edits[i]);
            }
        }
        lemma_apply_edits_settles(t, ks, d);
        let u = apply_edits(t, d);
        let n = edits.len() - 1;
        let k = edits[n].0;
        let f = edits[n].1;
        assert(edits.last() == edits[n]);
        assert(!ks.contains(k));
        if u.get(k) is Some && u.get(k)->0 is Mapping {
            let c = u.get(k)->0;
            lemma_insert_facts(u, k, f(c));
            let w = u.insert(k, f(c));
            assert(f(c) is Mapping && f(f(c)) == f(c));
            assert forall|i: int|
                0 <= i < edits.len() && w.get(edits[i].0) is Some && w.get(edits[i].0)->0 is Mapping implies (
                edits[i].1)(w.get(#[trigger] edits[i].0)->0) == w.get(edits[i].0)->0 by {
                if i < n {
                    assert(d[i] == edits[i]);
                    assert(edits[i].0 != k);
                }
            }
            assert forall|kk: Seq<char>| ks.contains(kk) implies !(#[trigger] w.contains(kk)) by {
                assert(kk != k);
                assert(w.get(kk) == u.get(kk));
                assert(!u.contains(kk));
            }
        } else {
            assert forall|i: int|
                0 <= i < edits.len() && u.get(edits[i].0) is Some && u.get(edits[i].0)->0 is Mapping implies (
                edits[i].1)(u.get(#[trigger] edits[i].0)->0) == u.get(edits[i].0)->0 by {
                if i < n {
                    assert(d[i] == edits[i]);
                }
            }
        }
    }
}

/// Removing keys and then editing distinct other children, each edit
/// idempotent, is idempotent.
pub proof fn lemma_strip_then_edit_twice(t: Tree, ks: Seq<Seq<char>>, edits: Seq<(Seq<char>, spec_fn(Tree) -> Tree)>)
    requires
        edits_idempotent(edits),
        edit_keys_apart(ks, edits),
    ensures
        apply_edits(remove_all(apply_edits(remove_all(t, ks), edits), ks), edits) == apply_edits(
            remove_all(t, ks),
            edits,
        ),
        t is Mapping ==> apply_edits(remove_all(t, ks), edits) is Mapping,
{
    let a = remove_all(t, ks);
    lemma_remove_all_facts(t, ks);
    lemma_apply_edits_settles(a, ks, edits);
    let b = apply_edits(a, edits);
    lemma_remove_all_facts(b, ks);
    assert(remove_all(b, ks) == b);
    lemma_apply_edits_settled_identity(b, ks, edits);
}


/// A key that differs from each of `ks` in length or in its first character
/// is none of them.
proof fn lemma_not_among(ks: Seq<Seq<char>>, k: Seq<char>)
    requires
        k.len() > 0,
        forall|i: int|
            0 <= i < ks.len() ==> (#[trigger] ks[i]).len() != k.len() || (ks[i].len() > 0
                && ks[i][0] != k[0]),
    ensures
        !ks.contains(k),
{
}

proof fn lemma_remove_all_idempotent(ks: Seq<Seq<char>>)
    ensures
        forall|c: Tree|
            c is Mapping ==> (#[trigger] remove_all(c, ks)) is Mapping && remove_all(
                remove_all(c, ks),
                ks,
            ) == remove_all(c, ks),
{
    assert forall|c: Tree| c is Mapping implies (#[trigger] remove_all(c, ks)) is Mapping
        && remove_all(remove_all(c, ks), ks) == remove_all(c, ks) by {
        lemma_remove_all_facts(c, ks);
        lemma_remove_all_twice(c, ks);
    }
}

proof fn lemma_remove_nothing(t: Tree)
    ensures
        remove_all(t, Seq::<Seq<char>>::empty()) == t,
{
}

proof fn lemma_two_edits(
    t: Tree,
    k1: Seq<char>,
    f1: spec_fn(Tree) -> Tree,
    k2: Seq<char>,
    f2: spec_fn(Tree) -> Tree,
)
    ensures
        apply_edits(t, seq![(k1, f1), (k2, f2)]) == edit_child(edit_child(t, k1, f1), k2, f2),
{
    let e = seq![(k1, f1), (k2, f2)];
    let e1 = e.drop_last();
    assert(e1 =~= seq![(k1, f1)]);
    assert(e1.drop_last() =~= Seq::<(Seq<char>, spec_fn(Tree) -> Tree)>::empty());
    assert(e.last() == (k2, f2) && e1.last() == (k1, f1));
    assert(apply_edits(t, e1.drop_last()) == t);
    assert(apply_edits(t, e1) == edit_child(t, k1, f1));
}

proof fn lemma_init_containers_cleaned(c: Tree)
    requires
        c is Mapping,
    ensures
        init_containers_cleaned(c) is Mapping,
        init_containers_cleaned(init_containers_cleaned(c)) == init_containers_cleaned(c),
{
    reveal_strlit("tuning");
    reveal_strlit("extraInitContainers");
    reveal_strlit("setTieredStorageCacheDirOwnership");
    reveal_strlit("configurator");
    reveal_strlit("setDataDirOwnership");
    let g = |x: Tree| remove_all(x, container_extra_keys());
    let e = seq![("configurator"@, g), ("setDataDirOwnership"@, g)];
    let ks = deprecated_init_container_keys();
    lemma_remove_all_idempotent(container_extra_keys());
    assert(edits_idempotent(e));
    assert("configurator"@.len() == 12 && "setDataDirOwnership"@.len() == 19);
    assert(ks[0].len() == 6 && ks[1][0] == 'e' && ks[2].len() == 33);
    lemma_not_among(ks, "configurator"@);
    lemma_not_among(ks, "setDataDirOwnership"@);
    assert(edit_keys_apart(ks, e));
    lemma_strip_then_edit_twice(c, ks, e);
    lemma_two_edits(remove_all(c, ks), "configurator"@, g, "setDataDirOwnership"@, g);
    let once = init_containers_cleaned(c);
    lemma_two_edits(remove_all(once, ks), "configurator"@, g, "setDataDirOwnership"@, g);
}

proof fn lemma_side_cars_cleaned(c: Tree)
    requires
        c is Mapping,
    ensures
        ({
            let f = |sc: Tree| edit_child(sc, "configWatcher"@, |cw: Tree| remove_all(cw, config_watcher_keys()));
            f(c) is Mapping && f(f(c)) == f(c)
        }),
{
    let g = |cw: Tree| remove_all(cw, config_watcher_keys());
    lemma_remove_all_idempotent(config_watcher_keys());
    lemma_edit_child_twice(c, "configWatcher"@, g);
}

proof fn lemma_statefulset_cleaned(c: Tree)
    requires
        c is Mapping,
    ensures
        statefulset_cleaned(c) is Mapping,
        statefulset_cleaned(statefulset_cleaned(c)) == statefulset_cleaned(c),
{
    reveal_strlit("initContainers");
    reveal_strlit("sideCars");
    reveal_strlit("securityContext");
    reveal_strlit("tolerations");
    reveal_strlit("nodeSelector");
    reveal_strlit("priorityClassName");
    reveal_strlit("startupProbe");
    reveal_strlit("livenessProbe");
    reveal_strlit("readinessProbe");
    reveal_strlit("annotations");
    reveal_strlit("topologySpreadConstraints");
    reveal_strlit("extraVolumes");
    reveal_strlit("extraVolumeMounts");
    reveal_strlit("podAffinity");
    reveal_strlit("terminationGracePeriodSeconds");
    reveal_strlit("podManagementPolicy");
    let f1 = |ic: Tree| init_containers_cleaned(ic);
    let f2 = |sc: Tree| edit_child(sc, "configWatcher"@, |cw: Tree| remove_all(cw, config_watcher_keys()));
    let e = seq![("initContainers"@, f1), ("sideCars"@, f2)];
    let ks = deprecated_statefulset_keys();
    assert forall|i: int, x: Tree| 0 <= i < e.len() && x is Mapping implies (#[trigger] (e[i].1)(x)) is Mapping && (
    e[i].1)((e[i].1)(x)) == (e[i].1)(x) by {
        if i == 0 {
            lemma_init_containers_cleaned(x);
        } else {
            lemma_side_cars_cleaned(x);
        }
    }
    assert("initContainers"@.len() == 14 && "sideCars"@.len() == 8 && "initContainers"@[0] == 'i');
    assert(ks[0].len() == 15 && ks[1].len() == 11 && ks[2].len() == 12 && ks[3].len() == 17);
    assert(ks[4].len() == 12 && ks[5].len() == 13 && ks[6][0] == 'r' && ks[6].len() == 14);
    assert(ks[7].len() == 11 && ks[8].len() == 25 && ks[9].len() == 12 && ks[10].len() == 17);
    assert(ks[11].len() == 11 && ks[12].len() == 29 && ks[13].len() == 19);
    lemma_not_among(ks, "initContainers"@);
    lemma_not_among(ks, "sideCars"@);
    assert(edit_keys_apart(ks, e));
    lemma_strip_then_edit_twice(c, ks, e);
    lemma_two_edits(remove_all(c, ks), "initContainers"@, f1, "sideCars"@, f2);
    let once = statefulset_cleaned(c);
    lemma_two_edits(remove_all(once, ks), "initContainers"@, f1, "sideCars"@, f2);
}

proof fn lemma_listeners_cleaned(c: Tree)
    requires
        c is Mapping,
    ensures
        listeners_cleaned(c) is Mapping,
        listeners_cleaned(listeners_cleaned(c)) == listeners_cleaned(c),
{
    reveal_strlit("http");
    reveal_strlit("schemaRegistry");
    let g = |h: Tree| h.remove("kafkaEndpoint"@);
    let e = seq![("http"@, g), ("schemaRegistry"@, g)];
    let none = Seq::<Seq<char>>::empty();
    assert forall|i: int, x: Tree| 0 <= i < e.len() && x is Mapping implies (#[trigger] (e[i].1)(x)) is Mapping && (
    e[i].1)((e[i].1)(x)) == (e[i].1)(x) by {
        lemma_remove_facts(x, "kafkaEndpoint"@);
    }
    assert("http"@.len() == 4 && "schemaRegistry"@.len() == 14);
    assert(edit_keys_apart(none, e));
    lemma_strip_then_edit_twice(c, none, e);
    lemma_remove_nothing(c);
    lemma_two_edits(c, "http"@, g, "schemaRegistry"@, g);
    let once = listeners_cleaned(c);
    lemma_remove_nothing(once);
    lemma_two_edits(once, "http"@, g, "schemaRegistry"@, g);
}

proof fn lemma_enterprise_cleaned(c: Tree)
    requires
        c is Mapping,
    ensures
        enterprise_cleaned(c) is Mapping,
        enterprise_cleaned(enterprise_cleaned(c)) == enterprise_cleaned(c),
{
    lemma_remove_facts(c, "licenseSecretRef"@);
}

/// Running the deprecated-field cleanup twice is the same as running it once.
pub proof fn clean_deprecated_fields_idempotent(t: Tree)
    ensures
        clean_deprecated_fields_spec(clean_deprecated_fields_spec(t))
            == clean_deprecated_fields_spec(t),
{
    if t is Mapping {
        reveal_strlit("image");
        reveal_strlit("statefulset");
        reveal_strlit("listeners");
        reveal_strlit("enterprise");
        reveal_strlit("COMPUTED VALUES");
        reveal_strlit("tolerations");
        reveal_strlit("nodeSelector");
        reveal_strlit("affinity");
        reveal_strlit("post_upgrade_job");
        reveal_strlit("imagePullSecrets");
        reveal_strlit("post_install_job");
        reveal_strlit("connectors");
        reveal_strlit("podManagementPolicy");
        let f1 = |i: Tree| i.remove("pullPolicy"@);
        let f2 = |st: Tree| statefulset_cleaned(st);
        let f3 = |l: Tree| listeners_cleaned(l);
        let f4 = |e: Tree| enterprise_cleaned(e);
        let e = seq![("image"@, f1), ("statefulset"@, f2), ("listeners"@, f3), ("enterprise"@, f4)];
        let ks = deprecated_root_keys();
        assert forall|i: int, x: Tree| 0 <= i < e.len() && x is Mapping implies (#[trigger] (e[i].1)(x)) is Mapping && (
        e[i].1)((e[i].1)(x)) == (e[i].1)(x) by {
            if i == 0 {
                lemma_remove_facts(x, "pullPolicy"@);
            } else if i == 1 {
                lemma_statefulset_cleaned(x);
            } else if i == 2 {
                lemma_listeners_cleaned(x);
            } else {
                lemma_enterprise_cleaned(x);
            }
        }
        assert("image"@.len() == 5 && "statefulset"@.len() == 11 && "listeners"@.len() == 9);
        assert("enterprise"@.len() == 10 && "statefulset"@[0] == 's' && "enterprise"@[0] == 'e');
        assert(ks[0].len() == 15 && ks[1][0] == 't' && ks[1].len() == 11 && ks[2].len() == 12);
        assert(ks[3].len() == 8 && ks[4].len() == 16 && ks[5].len() == 16 && ks[6].len() == 16);
        assert(ks[7][0] == 'c' && ks[7].len() == 10 && ks[8].len() == 19);
        lemma_not_among(ks, "image"@);
        lemma_not_among(ks, "statefulset"@);
        lemma_not_among(ks, "listeners"@);
        lemma_not_among(ks, "enterprise"@);
        assert(edit_keys_apart(ks, e));
        lemma_strip_then_edit_twice(t, ks, e);
        lemma_four_edits(remove_all(t, ks), e);
        let once = clean_deprecated_fields_spec(t);
        lemma_four_edits(remove_all(once, ks), e);
    }
}

proof fn lemma_four_edits(t: Tree, e: Seq<(Seq<char>, spec_fn(Tree) -> Tree)>)
    requires
        e.len() == 4,
    ensures
        apply_edits(t, e) == edit_child(
            edit_child(edit_child(edit_child(t, e[0].0, e[0].1), e[1].0, e[1].1), e[2].0, e[2].1),
            e[3].0,
            e[3].1,
        ),
{
    let e3 = e.drop_last();
    let e2 = e3.drop_last();
    let e1 = e2.drop_last();
    assert(e1.drop_last() =~= Seq::<(Seq<char>, spec_fn(Tree) -> Tree)>::empty());
    assert(e1.last() == e[0] && e2.last() == e[1] && e3.last() == e[2] && e.last() == e[3]);
    assert(apply_edits(t, e1.drop_last()) == t);
    assert(apply_edits(t, e1) == edit_child(t, e[0].0, e[0].1));
    assert(apply_edits(t, e2) == edit_child(apply_edits(t, e1), e[1].0, e[1].1));
    assert(apply_edits(t, e3) == edit_child(apply_edits(t, e2), e[2].0, e[2].1));
}


// ---------------------------------------------------------------------
// The cleanups keep documents well formed
// ---------------------------------------------------------------------
/// Editing a child with a function that keeps mappings well formed keeps
/// the tree well formed.
pub proof fn lemma_edit_child_well_formed(t: Tree, k: Seq<char>, f: spec_fn(Tree) -> Tree)
    requires
        well_formed(t),
        forall|c: Tree| c is Mapping && well_formed(c) ==> well_formed(#[trigger] f(c)),
    ensures
        well_formed(edit_child(t, k, f)),
{
    if t.get(k) is Some && t.get(k)->0 is Mapping {
        let c = t.get(k)->0;
        lemma_child_well_formed(t, k);
        lemma_insert_well_formed(t, k, f(c));
    }
}

pub proof fn lemma_remove_all_well_formed(t: Tree, ks: Seq<Seq<char>>)
    requires
        well_formed(t),
    ensures
        well_formed(remove_all(t, ks)),
    decreases ks.len(),
{
    if ks.len() > 0 {
        lemma_remove_all_well_formed(t, ks.drop_last());
        lemma_remove_well_formed(remove_all(t, ks.drop_last()), ks.last());
    }
}

proof fn lemma_strip_well_formed(ks: Seq<Seq<char>>)
    ensures
        forall|c: Tree| c is Mapping && well_formed(c) ==> well_formed(#[trigger] remove_all(c, ks)),
{
    assert forall|c: Tree| c is Mapping && well_formed(c) implies well_formed(
        #[trigger] remove_all(c, ks),
    ) by {
        lemma_remove_all_well_formed(c, ks);
    }
}

/// The cleanups keep a document whose mappings have unique keys so.
pub proof fn cleanups_keep_well_formed(t: Tree)
    requires
        well_formed(t),
    ensures
        well_formed(clean_old_resource_format_spec(t)),
        well_formed(clean_empty_cloud_storage_spec(t)),
        well_formed(clean_deprecated_fields_spec(t)),
{
    // old resource format
    let fr = |r: Tree| resources_cleaned(r);
    assert forall|c: Tree| c is Mapping && well_formed(c) implies well_formed(#[trigger] fr(c)) by {
        lemma_remove_well_formed(c, "cpu"@);
        lemma_remove_well_formed(c.remove("cpu"@), "memory"@);
    }
    lemma_edit_child_well_formed(t, "resources"@, fr);
    // cloud storage
    let fc = |c: Tree| config_cleaned(c);
    lemma_strip_well_formed(cloud_storage_keys());
    assert forall|c: Tree| c is Mapping && well_formed(c) implies well_formed(#[trigger] fc(c)) by {
    }
    let ft = |td: Tree| tiered_cleaned(td);
    assert forall|c: Tree| c is Mapping && well_formed(c) implies well_formed(#[trigger] ft(c)) by {
        lemma_edit_child_well_formed(c, "config"@, fc);
        lemma_remove_well_formed(edit_child(c, "config"@, fc), "credentialsSecretRef"@);
    }
    let fs = |st: Tree| edit_child(st, "tiered"@, ft);
    assert forall|c: Tree| c is Mapping && well_formed(c) implies well_formed(#[trigger] fs(c)) by {
        lemma_edit_child_well_formed(c, "tiered"@, ft);
    }
    lemma_edit_child_well_formed(t, "storage"@, fs);
    // deprecated fields
    if t is Mapping {
        let a = remove_all(t, deprecated_root_keys());
        lemma_remove_all_well_formed(t, deprecated_root_keys());
        let f1 = |i: Tree| i.remove("pullPolicy"@);
        assert forall|c: Tree| c is Mapping && well_formed(c) implies well_formed(#[trigger] f1(c)) by {
            lemma_remove_well_formed(c, "pullPolicy"@);
        }
        lemma_strip_well_formed(container_extra_keys());
        lemma_strip_well_formed(config_watcher_keys());
        let g = |x: Tree| remove_all(x, container_extra_keys());
        let f_ic = |ic: Tree| init_containers_cleaned(ic);
        assert forall|c: Tree| c is Mapping && well_formed(c) implies well_formed(#[trigger] f_ic(c)) by {
            let a1 = remove_all(c, deprecated_init_container_keys());
            lemma_remove_all_well_formed(c, deprecated_init_container_keys());
            lemma_edit_child_well_formed(a1, "configurator"@, g);
            lemma_edit_child_well_formed(edit_child(a1, "configurator"@, g), "setDataDirOwnership"@, g);
        }
        let g2 = |cw: Tree| remove_all(cw, config_watcher_keys());
        let f_sc = |sc: Tree| edit_child(sc, "configWatcher"@, g2);
        assert forall|c: Tree| c is Mapping && well_formed(c) implies well_formed(#[trigger] f_sc(c)) by {
            lemma_edit_child_well_formed(c, "configWatcher"@, g2);
        }
        let f2 = |st: Tree| statefulset_cleaned(st);
        assert forall|c: Tree| c is Mapping && well_formed(c) implies well_formed(#[trigger] f2(c)) by {
            let a1 = remove_all(c, deprecated_statefulset_keys());
            lemma_remove_all_well_formed(c, deprecated_statefulset_keys());
            lemma_edit_child_well_formed(a1, "initContainers"@, f_ic);
            lemma_edit_child_well_formed(edit_child(a1, "initContainers"@, f_ic), "sideCars"@, f_sc);
        }
        let gk = |h: Tree| h.remove("kafkaEndpoint"@);
        assert forall|c: Tree| c is Mapping && well_formed(c) implies well_formed(#[trigger] gk(c)) by {
            lemma_remove_well_formed(c, "kafkaEndpoint"@);
        }
        let f3 = |l: Tree| listeners_cleaned(l);
        assert forall|c: Tree| c is Mapping && well_formed(c) implies well_formed(#[trigger] f3(c)) by {
            lemma_edit_child_well_formed(c, "http"@, gk);
            lemma_edit_child_well_formed(edit_child(c, "http"@, gk), "schemaRegistry"@, gk);
        }
        let f4 = |e: Tree| enterprise_cleaned(e);
        assert forall|c: Tree| c is Mapping && well_formed(c) implies well_formed(#[trigger] f4(c)) by {
            lemma_remove_well_formed(c, "licenseSecretRef"@);
        }
        let b = edit_child(a, "image"@, f1);
        lemma_edit_child_well_formed(a, "image"@, f1);
        let c = edit_child(b, "statefulset"@, f2);
        lemma_edit_child_well_formed(b, "statefulset"@, f2);
        let d = edit_child(c, "listeners"@, f3);
        lemma_edit_child_well_formed(c, "listeners"@, f3);
        lemma_edit_child_well_formed(d, "enterprise"@, f4);
    }
}

} // verus!
