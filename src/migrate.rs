use vstd::prelude::*;

use crate::passes::edit_child;
use crate::tree::{
    lemma_remove_facts, has_key, lookup, unique_keys, well_formed,
    empty_mapping, entries_view, fill_missing, key, lemma_insert_facts, lemma_insert_insert,
    lemma_insert_same, lemma_mapping_view, opt_view, ConfigValue,
    Entries, Tree,
};

verus! {

// ---------------------------------------------------------------------
// Pod scheduling settings: root level and `statefulset` to `podTemplate.spec`
// ---------------------------------------------------------------------
/// The scheduling values that move to `podTemplate.spec`.
pub struct PodFields {
    pub root_node_selector: Option<Tree>,
    pub root_tolerations: Option<Tree>,
    pub root_affinity: Option<Tree>,
    pub node_selector: Option<Tree>,
    pub tolerations: Option<Tree>,
    pub pod_affinity: Option<Tree>,
    pub security_context: Option<Tree>,
    pub priority_class_name: Option<Tree>,
    pub topology_spread_constraints: Option<Tree>,
    pub termination_grace_period: Option<Tree>,
}

/// The value under `k`, unless it is an empty mapping.
pub open spec fn unless_empty_mapping(t: Tree, k: Seq<char>) -> Option<Tree> {
    match t.get(k) {
        Some(v) => if v == Tree::Mapping(Seq::empty()) {
            None
        } else {
            Some(v)
        },
        None => None,
    }
}

/// The value under `k`, unless it is an empty sequence.
pub open spec fn unless_empty_sequence(t: Tree, k: Seq<char>) -> Option<Tree> {
    match t.get(k) {
        Some(v) => if v == Tree::Sequence(Seq::empty()) {
            None
        } else {
            Some(v)
        },
        None => None,
    }
}

/// What the migration reads from the root and from a `statefulset` mapping.
pub open spec fn pod_fields(t: Tree) -> PodFields {
    let st = match t.get("statefulset"@) {
        Some(s) => if s is Mapping {
            s
        } else {
            empty_mapping()
        },
        None => empty_mapping(),
    };
    PodFields {
        root_node_selector: unless_empty_mapping(t, "nodeSelector"@),
        root_tolerations: unless_empty_sequence(t, "tolerations"@),
        root_affinity: unless_empty_mapping(t, "affinity"@),
        node_selector: unless_empty_mapping(st, "nodeSelector"@),
        tolerations: unless_empty_sequence(st, "tolerations"@),
        pod_affinity: unless_empty_mapping(st, "podAffinity"@),
        security_context: st.get("securityContext"@),
        priority_class_name: st.get("priorityClassName"@),
        topology_spread_constraints: st.get("topologySpreadConstraints"@),
        termination_grace_period: st.get("terminationGracePeriodSeconds"@),
    }
}

pub open spec fn any_pod_field(f: PodFields) -> bool {
    f.root_node_selector is Some || f.root_tolerations is Some || f.root_affinity is Some
        || f.node_selector is Some || f.tolerations is Some || f.pod_affinity is Some
        || f.security_context is Some || f.priority_class_name is Some
        || f.topology_spread_constraints is Some || f.termination_grace_period is Some
}

pub open spec fn set_opt(t: Tree, k: Seq<char>, o: Option<Tree>) -> Tree {
    match o {
        Some(v) => t.insert(k, v),
        None => t,
    }
}

pub open spec fn default_opt(t: Tree, k: Seq<char>, o: Option<Tree>) -> Tree {
    match o {
        Some(v) => t.insert_if_absent(k, v),
        None => t,
    }
}

/// `podTemplate.spec` with the migrated values: root-level ones only where
/// the spec lacks them, `statefulset` ones in any case.
pub open spec fn spec_with_fields(sp: Tree, f: PodFields) -> Tree {
    let a = default_opt(sp, "nodeSelector"@, f.root_node_selector);
    let b = default_opt(a, "tolerations"@, f.root_tolerations);
    let c = default_opt(b, "affinity"@, f.root_affinity);
    let d = set_opt(set_opt(c, "nodeSelector"@, f.node_selector), "tolerations"@, f.tolerations);
    let e = match f.pod_affinity {
        Some(pa) => edit_child(
            d.insert_if_absent("affinity"@, empty_mapping()),
            "affinity"@,
            |af: Tree| af.insert("podAffinity"@, pa),
        ),
        None => d,
    };
    let g = set_opt(e, "securityContext"@, f.security_context);
    let h = set_opt(g, "priorityClassName"@, f.priority_class_name);
    let i = set_opt(h, "topologySpreadConstraints"@, f.topology_spread_constraints);
    set_opt(i, "terminationGracePeriodSeconds"@, f.termination_grace_period)
}

pub open spec fn map_statefulset_spec(t: Tree) -> Tree {
    let f = pod_fields(t);
    if t is Mapping && any_pod_field(f) {
        edit_child(
            t.insert_if_absent("podTemplate"@, empty_mapping()),
            "podTemplate"@,
            |pt: Tree|
                edit_child(
                    pt.insert_if_absent("spec"@, empty_mapping()),
                    "spec"@,
                    |sp: Tree| spec_with_fields(sp, f),
                ),
        )
    } else {
        t
    }
}

/// The migrated values, as read from the document.
pub struct PodValues {
    pub root_node_selector: Option<ConfigValue>,
    pub root_tolerations: Option<ConfigValue>,
    pub root_affinity: Option<ConfigValue>,
    pub node_selector: Option<ConfigValue>,
    pub tolerations: Option<ConfigValue>,
    pub pod_affinity: Option<ConfigValue>,
    pub security_context: Option<ConfigValue>,
    pub priority_class_name: Option<ConfigValue>,
    pub topology_spread_constraints: Option<ConfigValue>,
    pub termination_grace_period: Option<ConfigValue>,
}

impl View for PodValues {
    type V = PodFields;

    open spec fn view(&self) -> PodFields {
        PodFields {
            root_node_selector: opt_view(self.root_node_selector),
            root_tolerations: opt_view(self.root_tolerations),
            root_affinity: opt_view(self.root_affinity),
            node_selector: opt_view(self.node_selector),
            tolerations: opt_view(self.tolerations),
            pod_affinity: opt_view(self.pod_affinity),
            security_context: opt_view(self.security_context),
            priority_class_name: opt_view(self.priority_class_name),
            topology_spread_constraints: opt_view(self.topology_spread_constraints),
            termination_grace_period: opt_view(self.termination_grace_period),
        }
    }
}

fn copy_of(t: &ConfigValue, name: &str) -> (r: Option<ConfigValue>)
    ensures
        opt_view(r) == t@.get(name@),
{
    match t.get(&key(name)) {
        Some(v) => Some(v.copy()),
        None => None,
    }
}

fn copy_unless_empty_mapping(t: &ConfigValue, name: &str) -> (r: Option<ConfigValue>)
    ensures
        opt_view(r) == unless_empty_mapping(t@, name@),
{
    match t.get(&key(name)) {
        Some(v) => if v.is_empty_mapping() {
            None
        } else {
            Some(v.copy())
        },
        None => None,
    }
}

fn copy_unless_empty_sequence(t: &ConfigValue, name: &str) -> (r: Option<ConfigValue>)
    ensures
        opt_view(r) == unless_empty_sequence(t@, name@),
{
    match t.get(&key(name)) {
        Some(v) => if v.is_empty_sequence() {
            None
        } else {
            Some(v.copy())
        },
        None => None,
    }
}

fn read_pod_values(t: &ConfigValue) -> (r: PodValues)
    ensures
        r@ == pod_fields(t@),
{
    let empty = ConfigValue::new_mapping();
    let st = match t.get(&key("statefulset")) {
        Some(s) => if s.is_mapping() {
            s
        } else {
            &empty
        },
        None => &empty,
    };
    PodValues {
        root_node_selector: copy_unless_empty_mapping(t, "nodeSelector"),
        root_tolerations: copy_unless_empty_sequence(t, "tolerations"),
        root_affinity: copy_unless_empty_mapping(t, "affinity"),
        node_selector: copy_unless_empty_mapping(st, "nodeSelector"),
        tolerations: copy_unless_empty_sequence(st, "tolerations"),
        pod_affinity: copy_unless_empty_mapping(st, "podAffinity"),
        security_context: copy_of(st, "securityContext"),
        priority_class_name: copy_of(st, "priorityClassName"),
        topology_spread_constraints: copy_of(st, "topologySpreadConstraints"),
        termination_grace_period: copy_of(st, "terminationGracePeriodSeconds"),
    }
}

fn set_if_some(t: &mut ConfigValue, name: &str, o: Option<ConfigValue>)
    ensures
        final(t)@ == set_opt(old(t)@, name@, opt_view(o)),
{
    if let Some(v) = o {
        t.insert(key(name), v);
    }
}

fn default_if_some(t: &mut ConfigValue, name: &str, o: Option<ConfigValue>)
    ensures
        final(t)@ == default_opt(old(t)@, name@, opt_view(o)),
{
    if let Some(v) = o {
        t.insert_if_absent(key(name), v);
    }
}

fn fill_pod_spec(sp: &mut ConfigValue, f: PodValues)
    ensures
        final(sp)@ == spec_with_fields(old(sp)@, f@),
{
    let ghost fv = f@;
    default_if_some(sp, "nodeSelector", f.root_node_selector);
    default_if_some(sp, "tolerations", f.root_tolerations);
    default_if_some(sp, "affinity", f.root_affinity);
    set_if_some(sp, "nodeSelector", f.node_selector);
    set_if_some(sp, "tolerations", f.tolerations);
    if let Some(pa) = f.pod_affinity {
        let ka = key("affinity");
        sp.insert_if_absent(ka.clone(), ConfigValue::new_mapping());
        let ghost before = sp@;
        if let Some(mut af) = sp.take_mapping_child(&ka) {
            af.insert(key("podAffinity"), pa);
            sp.put_child(ka, af, Ghost(before));
        }
    }
    set_if_some(sp, "securityContext", f.security_context);
    set_if_some(sp, "priorityClassName", f.priority_class_name);
    set_if_some(sp, "topologySpreadConstraints", f.topology_spread_constraints);
    set_if_some(sp, "terminationGracePeriodSeconds", f.termination_grace_period);
}

fn any_value(f: &PodValues) -> (r: bool)
    ensures
        r == any_pod_field(f@),
{
    f.root_node_selector.is_some() || f.root_tolerations.is_some() || f.root_affinity.is_some()
        || f.node_selector.is_some() || f.tolerations.is_some() || f.pod_affinity.is_some()
        || f.security_context.is_some() || f.priority_class_name.is_some()
        || f.topology_spread_constraints.is_some() || f.termination_grace_period.is_some()
}

/// Moves the scheduling settings of the root level and of `statefulset`
/// into `podTemplate.spec`, where the `statefulset` ones take precedence.
/// The old fields stay; a later cleanup removes them.
pub fn map_statefulset_to_podtemplate(val: &mut ConfigValue)
    ensures
        final(val)@ == map_statefulset_spec(old(val)@),
{
    if !val.is_mapping() {
        return ;
    }
    let f = read_pod_values(val);
    if !any_value(&f) {
        return ;
    }
    let ghost fv = f@;
    let kpt = key("podTemplate");
    val.insert_if_absent(kpt.clone(), ConfigValue::new_mapping());
    let ghost b1 = val@;
    if let Some(mut pt) = val.take_mapping_child(&kpt) {
        let ks = key("spec");
        pt.insert_if_absent(ks.clone(), ConfigValue::new_mapping());
        let ghost b2 = pt@;
        if let Some(mut sp) = pt.take_mapping_child(&ks) {
            fill_pod_spec(&mut sp, f);
            pt.put_child(ks, sp, Ghost(b2));
        }
        val.put_child(kpt, pt, Ghost(b1));
    }
}


// ---------------------------------------------------------------------
// Renamed and relocated keys, at every level of the document
// ---------------------------------------------------------------------
/// Every mapping renamed, children first.
pub open spec fn rename_tree(t: Tree) -> Tree
    decreases t,
{
    match t {
        Tree::Mapping(es) => rename_here(Tree::Mapping(rename_entries(es))),
        _ => t,
    }
}

/// The entries with each value renamed.
pub open spec fn rename_entries(es: Entries) -> Entries
    decreases es,
{
    if es.len() == 0 {
        es
    } else {
        rename_entries(es.drop_last()).push((es.last().0, rename_tree(es.last().1)))
    }
}

pub proof fn lemma_rename_entries(es: Entries)
    ensures
        rename_entries(es).len() == es.len(),
        forall|i: int|
            0 <= i < es.len() ==> #[trigger] rename_entries(es)[i] == (
                es[i].0,
                rename_tree(es[i].1),
            ),
    decreases es.len(),
{
    if es.len() > 0 {
        let d = es.drop_last();
        lemma_rename_entries(d);
        assert forall|i: int| 0 <= i < es.len() implies #[trigger] rename_entries(es)[i] == (
            es[i].0,
            rename_tree(es[i].1),
        ) by {
            if i < d.len() {
                assert(d[i] == es[i]);
            }
        }
    }
}

/// The old `resources.cpu.cores` / `resources.memory.container.max` form
/// converted to matching `requests` and `limits`.
pub open spec fn resources_converted(r: Tree) -> Tree {
    let cpu = r.get_path(seq!["cpu"@, "cores"@]);
    let memory = r.get_path(seq!["memory"@, "container"@, "max"@]);
    if cpu is Some || memory is Some {
        let amounts = set_opt(set_opt(empty_mapping(), "cpu"@, cpu), "memory"@, memory);
        r.remove("cpu"@).remove("memory"@).insert("requests"@, amounts).insert("limits"@, amounts)
    } else {
        r
    }
}

/// `tieredConfig` moved into `tiered.config`, key by key; a key that
/// `tiered.config` already has keeps its value.
pub open spec fn tiered_config_moved(m: Tree) -> Tree {
    match m.get("tieredConfig"@) {
        Some(tc) => {
            let m1 = m.remove("tieredConfig"@);
            match tc {
                Tree::Mapping(tes) => match m1.get("tiered"@) {
                    Some(td) => if td is Mapping {
                        edit_child(
                            m1.insert("tiered"@, td.insert_if_absent("config"@, empty_mapping())),
                            "tiered"@,
                            |t: Tree| edit_child(t, "config"@, |c: Tree| fill_missing(c, tes)),
                        )
                    } else {
                        m1.insert("tiered"@, tiered_from(tes))
                    },
                    None => m1.insert("tiered"@, tiered_from(tes)),
                },
                _ => m1,
            }
        },
        None => m,
    }
}

/// A new `tiered` mapping whose `config` holds the given entries.
pub open spec fn tiered_from(tes: Entries) -> Tree {
    empty_mapping().insert("config"@, fill_missing(empty_mapping(), tes))
}

/// Key `from` moved to `tiered.<to>`, creating `tiered` where it is absent.
pub open spec fn moved_into_tiered(m: Tree, from: Seq<char>, to: Seq<char>) -> Tree {
    match m.get(from) {
        Some(v) => edit_child(
            m.remove(from).insert_if_absent("tiered"@, empty_mapping()),
            "tiered"@,
            |t: Tree| t.insert(to, v),
        ),
        None => m,
    }
}

/// Key `from` of a mapping renamed to `to`.
pub open spec fn renamed_key(l: Tree, from: Seq<char>, to: Seq<char>) -> Tree {
    match l.get(from) {
        Some(v) => l.remove(from).insert(to, v),
        None => l,
    }
}

/// Sets `enterprise.<k>` to `v`, creating `enterprise` where it is absent.
pub open spec fn set_in_enterprise(m: Tree, k: Seq<char>, v: Tree) -> Tree {
    edit_child(
        m.insert_if_absent("enterprise"@, empty_mapping()),
        "enterprise"@,
        |e: Tree| e.insert(k, v),
    )
}

/// `license_secret_ref` moved to `enterprise.licenseSecretRef`, with its
/// `secret_name` / `secret_key` renamed to `name` / `key`.
pub open spec fn license_ref_moved(m: Tree) -> Tree {
    match m.get("license_secret_ref"@) {
        Some(l) => {
            let m1 = m.remove("license_secret_ref"@);
            if l is Mapping {
                let l1 = renamed_key(renamed_key(l, "secret_name"@, "name"@), "secret_key"@, "key"@);
                set_in_enterprise(m1, "licenseSecretRef"@, l1)
            } else {
                m1
            }
        },
        None => m,
    }
}

/// `license_key` moved to `enterprise.license`.
pub open spec fn license_key_moved(m: Tree) -> Tree {
    match m.get("license_key"@) {
        Some(v) => set_in_enterprise(m.remove("license_key"@), "license"@, v),
        None => m,
    }
}

/// The renames of one mapping level, after its children.
pub open spec fn rename_here(m: Tree) -> Tree {
    let a = edit_child(m, "resources"@, |r: Tree| resources_converted(r));
    let b = tiered_config_moved(a);
    let c = moved_into_tiered(b, "tieredStorageHostPath"@, "hostPath"@);
    let d = moved_into_tiered(c, "tieredStoragePersistentVolume"@, "persistentVolume"@);
    license_key_moved(license_ref_moved(d))
}

fn path_value(t: &ConfigValue, first: &str, second: &str) -> (r: Option<ConfigValue>)
    ensures
        opt_view(r) == t@.get_path(seq![first@, second@]),
{
    proof {
        let p = seq![first@, second@];
        reveal_with_fuel(Tree::get_path, 3);
        assert(p.drop_first() =~= seq![second@]);
        assert(p.drop_first().drop_first() =~= Seq::<Seq<char>>::empty());
    }
    match t.get(&key(first)) {
        Some(a) => match a.get(&key(second)) {
            Some(b) => Some(b.copy()),
            None => None,
        },
        None => None,
    }
}

fn path_value3(t: &ConfigValue, first: &str, second: &str, third: &str) -> (r: Option<
    ConfigValue,
>)
    ensures
        opt_view(r) == t@.get_path(seq![first@, second@, third@]),
{
    proof {
        let p = seq![first@, second@, third@];
        reveal_with_fuel(Tree::get_path, 4);
        assert(p.drop_first() =~= seq![second@, third@]);
        assert(p.drop_first().drop_first() =~= seq![third@]);
        assert(p.drop_first().drop_first().drop_first() =~= Seq::<Seq<char>>::empty());
    }
    match t.get(&key(first)) {
        Some(a) => match a.get(&key(second)) {
            Some(b) => match b.get(&key(third)) {
                Some(c) => Some(c.copy()),
                None => None,
            },
            None => None,
        },
        None => None,
    }
}

fn convert_resources(r: &mut ConfigValue)
    ensures
        final(r)@ == resources_converted(old(r)@),
{
    let cpu = path_value(r, "cpu", "cores");
    let memory = path_value3(r, "memory", "container", "max");
    if cpu.is_some() || memory.is_some() {
        r.remove(&key("cpu"));
        r.remove(&key("memory"));
        let mut requests = ConfigValue::new_mapping();
        let mut limits = ConfigValue::new_mapping();
        if let Some(c) = cpu {
            requests.insert(key("cpu"), c.copy());
            limits.insert(key("cpu"), c);
        }
        if let Some(m) = memory {
            requests.insert(key("memory"), m.copy());
            limits.insert(key("memory"), m);
        }
        r.insert(key("requests"), requests);
        r.insert(key("limits"), limits);
    }
}

fn move_tiered_config(m: &mut ConfigValue)
    ensures
        final(m)@ == tiered_config_moved(old(m)@),
{
    let removed = m.remove(&key("tieredConfig"));
    if let Some(tc) = removed {
        if let Some(tes) = tc.take_entries() {
            let kt = key("tiered");
            let ghost b1 = m@;
            if let Some(mut td) = m.take_mapping_child(&kt) {
                let kc = key("config");
                td.insert_if_absent(kc.clone(), ConfigValue::new_mapping());
                let ghost b2 = td@;
                if let Some(mut c) = td.take_mapping_child(&kc) {
                    c.fill_entries(tes);
                    td.put_child(kc, c, Ghost(b2));
                }
                m.put_child(kt, td, Ghost(b1));
                proof {
                    lemma_insert_facts(b1, kt@, b2);
                    lemma_insert_insert(b1, kt@, b2, td@);
                }
            } else {
                let mut config = ConfigValue::new_mapping();
                config.fill_entries(tes);
                let mut tiered = ConfigValue::new_mapping();
                tiered.insert(key("config"), config);
                m.insert(kt, tiered);
            }
        }
    }
}

fn move_into_tiered(m: &mut ConfigValue, from: &str, to: &str)
    ensures
        final(m)@ == moved_into_tiered(old(m)@, from@, to@),
{
    if let Some(v) = m.remove(&key(from)) {
        let kt = key("tiered");
        m.insert_if_absent(kt.clone(), ConfigValue::new_mapping());
        let ghost b = m@;
        if let Some(mut td) = m.take_mapping_child(&kt) {
            td.insert(key(to), v);
            m.put_child(kt, td, Ghost(b));
        }
    }
}

fn rename_in(l: &mut ConfigValue, from: &str, to: &str)
    ensures
        final(l)@ == renamed_key(old(l)@, from@, to@),
{
    if let Some(v) = l.remove(&key(from)) {
        l.insert(key(to), v);
    }
}

fn put_in_enterprise(m: &mut ConfigValue, name: &str, v: ConfigValue)
    ensures
        final(m)@ == set_in_enterprise(old(m)@, name@, v@),
{
    let ke = key("enterprise");
    m.insert_if_absent(ke.clone(), ConfigValue::new_mapping());
    let ghost b = m@;
    if let Some(mut e) = m.take_mapping_child(&ke) {
        e.insert(key(name), v);
        m.put_child(ke, e, Ghost(b));
    }
}

fn move_license_ref(m: &mut ConfigValue)
    ensures
        final(m)@ == license_ref_moved(old(m)@),
{
    if let Some(mut l) = m.remove(&key("license_secret_ref")) {
        if l.is_mapping() {
            rename_in(&mut l, "secret_name", "name");
            rename_in(&mut l, "secret_key", "key");
            put_in_enterprise(m, "licenseSecretRef", l);
        }
    }
}

fn move_license_key(m: &mut ConfigValue)
    ensures
        final(m)@ == license_key_moved(old(m)@),
{
    if let Some(v) = m.remove(&key("license_key")) {
        put_in_enterprise(m, "license", v);
    }
}

fn rename_level(m: &mut ConfigValue)
    ensures
        final(m)@ == rename_here(old(m)@),
{
    let kr = key("resources");
    let ghost b = m@;
    if let Some(mut r) = m.take_mapping_child(&kr) {
        convert_resources(&mut r);
        m.put_child(kr, r, Ghost(b));
    }
    move_tiered_config(m);
    move_into_tiered(m, "tieredStorageHostPath", "hostPath");
    move_into_tiered(m, "tieredStoragePersistentVolume", "persistentVolume");
    move_license_ref(m);
    move_license_key(m);
}

fn rename_owned(v: ConfigValue) -> (r: ConfigValue)
    ensures
        r@ == rename_tree(v@),
    decreases v,
{
    match v {
        ConfigValue::Mapping(es0) => {
            let ghost g0 = es0;
            let ghost m0 = entries_view(es0@);
            let ghost n = es0@.len() as int;
            proof {
                lemma_mapping_view(es0);
                lemma_rename_entries(m0);
            }
            let mut es = es0;
            let mut i: usize = 0;
            while i < es.len()
                invariant
                    v == ConfigValue::Mapping(g0),
                    m0 == entries_view(g0@),
                    n == g0@.len(),
                    es@.len() == n,
                    0 <= i <= n,
                    forall|j: int| i <= j < n ==> #[trigger] es@[j] == g0@[j],
                    forall|j: int|
                        0 <= j < i ==> #[trigger] entries_view(es@)[j] == rename_entries(m0)[j],
                    rename_entries(m0).len() == n,
                    forall|j: int|
                        0 <= j < n ==> #[trigger] rename_entries(m0)[j] == (
                            m0[j].0,
                            rename_tree(m0[j].1),
                        ),
                decreases n - i,
            {
                let ghost before = es@;
                let (k, c) = es.remove(i);
                proof {
                    assert(c == g0@[i as int].1);
                    assert(decreases_to!(v => v->Mapping_0));
                    assert(decreases_to!(g0 => g0@));
                    assert(decreases_to!(g0@ => g0@[i as int]));
                    assert(decreases_to!(g0@[i as int] => g0@[i as int].1));
                }
                let c2 = rename_owned(c);
                es.insert(i, (k, c2));
                proof {
                    assert(es@ =~= before.update(i as int, (k, c2)));
                    assert forall|j: int| 0 <= j < i + 1 implies #[trigger] entries_view(es@)[j]
                        == rename_entries(m0)[j] by {
                        if j < i {
                            assert(es@[j] == before[j]);
                            assert(entries_view(before)[j] == rename_entries(m0)[j]);
                        }
                    }
                    assert(entries_view(es@)[i as int] == rename_entries(m0)[i as int]);
                }
                i = i + 1;
            }
            proof {
                assert(entries_view(es@) =~= rename_entries(m0));
                lemma_mapping_view(es);
            }
            let mut m = ConfigValue::Mapping(es);
            rename_level(&mut m);
            m
        },
        other => other,
    }
}

/// Renames and relocates the keys that the new schema names otherwise, in
/// every mapping of the document, children before their parent.
pub fn rename_nested_keys(val: &mut ConfigValue)
    ensures
        final(val)@ == rename_tree(old(val)@),
{
    let v = crate::tree::take(val);
    *val = rename_owned(v);
}


/// Where `f` is idempotent on mappings and yields mappings, so is creating
/// the child `k` where it is absent and then editing it with `f`.
proof fn lemma_ensure_then_edit_twice(t: Tree, k: Seq<char>, f: spec_fn(Tree) -> Tree)
    requires
        t is Mapping,
        forall|c: Tree| c is Mapping ==> (#[trigger] f(c)) is Mapping && f(f(c)) == f(c),
    ensures
        ({
            let h = edit_child(t.insert_if_absent(k, empty_mapping()), k, f);
            &&& h is Mapping
            &&& h.contains(k)
            &&& edit_child(h.insert_if_absent(k, empty_mapping()), k, f) == h
        }),
{
    let t1 = t.insert_if_absent(k, empty_mapping());
    if !t.contains(k) {
        lemma_insert_facts(t, k, empty_mapping());
    }
    assert(t1.contains(k) && t1 is Mapping);
    let c = t1.get(k)->0;
    if c is Mapping {
        lemma_insert_facts(t1, k, f(c));
        let h = t1.insert(k, f(c));
        lemma_insert_same(h, k);
    } else {
    }
}

proof fn lemma_set_opt_facts(t: Tree, k: Seq<char>, o: Option<Tree>)
    requires
        t is Mapping,
    ensures
        set_opt(t, k, o) is Mapping,
        o is Some ==> set_opt(t, k, o).get(k) == o,
        o is None ==> set_opt(t, k, o) == t,
        forall|x: Seq<char>| x != k ==> #[trigger] set_opt(t, k, o).get(x) == t.get(x),
{
    if let Some(v) = o {
        lemma_insert_facts(t, k, v);
    }
}

proof fn lemma_default_opt_facts(t: Tree, k: Seq<char>, o: Option<Tree>)
    requires
        t is Mapping,
    ensures
        default_opt(t, k, o) is Mapping,
        o is Some ==> default_opt(t, k, o).contains(k),
        t.contains(k) ==> default_opt(t, k, o) == t,
        forall|x: Seq<char>| x != k ==> #[trigger] default_opt(t, k, o).get(x) == t.get(x),
{
    if let Some(v) = o {
        if !t.contains(k) {
            lemma_insert_facts(t, k, v);
        }
    }
}

proof fn lemma_pod_keys_differ()
    ensures
        "nodeSelector"@ != "tolerations"@,
        "nodeSelector"@ != "affinity"@,
        "nodeSelector"@ != "securityContext"@,
        "nodeSelector"@ != "priorityClassName"@,
        "nodeSelector"@ != "topologySpreadConstraints"@,
        "nodeSelector"@ != "terminationGracePeriodSeconds"@,
        "tolerations"@ != "affinity"@,
        "tolerations"@ != "securityContext"@,
        "tolerations"@ != "priorityClassName"@,
        "tolerations"@ != "topologySpreadConstraints"@,
        "tolerations"@ != "terminationGracePeriodSeconds"@,
        "affinity"@ != "securityContext"@,
        "affinity"@ != "priorityClassName"@,
        "affinity"@ != "topologySpreadConstraints"@,
        "affinity"@ != "terminationGracePeriodSeconds"@,
        "securityContext"@ != "priorityClassName"@,
        "securityContext"@ != "topologySpreadConstraints"@,
        "securityContext"@ != "terminationGracePeriodSeconds"@,
        "priorityClassName"@ != "topologySpreadConstraints"@,
        "priorityClassName"@ != "terminationGracePeriodSeconds"@,
        "topologySpreadConstraints"@ != "terminationGracePeriodSeconds"@,
        "podTemplate"@ != "nodeSelector"@,
        "podTemplate"@ != "tolerations"@,
        "podTemplate"@ != "affinity"@,
        "podTemplate"@ != "statefulset"@,
{
    reveal_strlit("nodeSelector");
    reveal_strlit("tolerations");
    reveal_strlit("affinity");
    reveal_strlit("securityContext");
    reveal_strlit("priorityClassName");
    reveal_strlit("topologySpreadConstraints");
    reveal_strlit("terminationGracePeriodSeconds");
    reveal_strlit("podTemplate");
    reveal_strlit("statefulset");
    assert("nodeSelector"@.len() == 12 && "tolerations"@.len() == 11 && "affinity"@.len() == 8);
    assert("securityContext"@.len() == 15 && "priorityClassName"@.len() == 17);
    assert("topologySpreadConstraints"@.len() == 25 && "terminationGracePeriodSeconds"@.len() == 29);
    assert("podTemplate"@.len() == 11 && "statefulset"@.len() == 11);
    assert("podTemplate"@[0] != "tolerations"@[0] && "podTemplate"@[0] != "statefulset"@[0]);
}

/// Filling `podTemplate.spec` a second time with the same values changes
/// nothing.
proof fn lemma_spec_with_fields(sp: Tree, f: PodFields)
    requires
        sp is Mapping,
    ensures
        spec_with_fields(sp, f) is Mapping,
        spec_with_fields(spec_with_fields(sp, f), f) == spec_with_fields(sp, f),
{
    lemma_pod_keys_differ();
    let ns = "nodeSelector"@;
    let tol = "tolerations"@;
    let aff = "affinity"@;
    let sc = "securityContext"@;
    let pc = "priorityClassName"@;
    let tsc = "topologySpreadConstraints"@;
    let tgp = "terminationGracePeriodSeconds"@;
    let pa_key = "podAffinity"@;
    // first run
    let a = default_opt(sp, ns, f.root_node_selector);
    lemma_default_opt_facts(sp, ns, f.root_node_selector);
    let b = default_opt(a, tol, f.root_tolerations);
    lemma_default_opt_facts(a, tol, f.root_tolerations);
    let c = default_opt(b, aff, f.root_affinity);
    lemma_default_opt_facts(b, aff, f.root_affinity);
    let d1 = set_opt(c, ns, f.node_selector);
    lemma_set_opt_facts(c, ns, f.node_selector);
    let d = set_opt(d1, tol, f.tolerations);
    lemma_set_opt_facts(d1, tol, f.tolerations);
    let ins_pa = |af: Tree| af.insert(pa_key, f.pod_affinity->0);
    let e = match f.pod_affinity {
        Some(pa) => edit_child(d.insert_if_absent(aff, empty_mapping()), aff, |af: Tree| af.insert(pa_key, pa)),
        None => d,
    };
    if let Some(pa) = f.pod_affinity {
        let d2 = d.insert_if_absent(aff, empty_mapping());
        if !d.contains(aff) {
            lemma_insert_facts(d, aff, empty_mapping());
        }
        let af = d2.get(aff)->0;
        if af is Mapping {
            lemma_insert_facts(d2, aff, af.insert(pa_key, pa));
            lemma_insert_facts(af, pa_key, pa);
        }
    }
    let g = set_opt(e, sc, f.security_context);
    lemma_set_opt_facts(e, sc, f.security_context);
    let h = set_opt(g, pc, f.priority_class_name);
    lemma_set_opt_facts(g, pc, f.priority_class_name);
    let i = set_opt(h, tsc, f.topology_spread_constraints);
    lemma_set_opt_facts(h, tsc, f.topology_spread_constraints);
    let r = set_opt(i, tgp, f.termination_grace_period);
    lemma_set_opt_facts(i, tgp, f.termination_grace_period);
    assert(r == spec_with_fields(sp, f));
    // the second run leaves each step as it is
    assert(r.get(ns) == d.get(ns));
    assert(r.get(tol) == d.get(tol));
    assert(r.get(aff) == e.get(aff));
    lemma_default_opt_facts(r, ns, f.root_node_selector);
    assert(default_opt(r, ns, f.root_node_selector) == r);
    lemma_default_opt_facts(r, tol, f.root_tolerations);
    assert(default_opt(r, tol, f.root_tolerations) == r);
    lemma_default_opt_facts(r, aff, f.root_affinity);
    assert(default_opt(r, aff, f.root_affinity) == r);
    if f.node_selector is Some {
        lemma_insert_same(r, ns);
    }
    assert(set_opt(r, ns, f.node_selector) == r);
    if f.tolerations is Some {
        lemma_insert_same(r, tol);
    }
    assert(set_opt(r, tol, f.tolerations) == r);
    if let Some(pa) = f.pod_affinity {
        assert(r.contains(aff));
        let af = r.get(aff)->0;
        if af is Mapping {
            lemma_insert_same(af, pa_key);
            lemma_insert_same(r, aff);
        }
        assert(edit_child(r.insert_if_absent(aff, empty_mapping()), aff, |af: Tree| af.insert(pa_key, pa)) == r);
    }
    if f.security_context is Some {
        lemma_insert_same(r, sc);
    }
    if f.priority_class_name is Some {
        lemma_insert_same(r, pc);
    }
    if f.topology_spread_constraints is Some {
        lemma_insert_same(r, tsc);
    }
    if f.termination_grace_period is Some {
        lemma_insert_same(r, tgp);
    }
}

/// Running the pod-settings migration twice is the same as running it once.
pub proof fn map_statefulset_idempotent(t: Tree)
    ensures
        map_statefulset_spec(map_statefulset_spec(t)) == map_statefulset_spec(t),
{
    let f = pod_fields(t);
    if t is Mapping && any_pod_field(f) {
        lemma_pod_keys_differ();
        let pt_key = "podTemplate"@;
        let spec_fill = |sp: Tree| spec_with_fields(sp, f);
        assert forall|c: Tree| c is Mapping implies (#[trigger] spec_fill(c)) is Mapping && spec_fill(
            spec_fill(c),
        ) == spec_fill(c) by {
            lemma_spec_with_fields(c, f);
        }
        let g = |pt: Tree| edit_child(pt.insert_if_absent("spec"@, empty_mapping()), "spec"@, spec_fill);
        assert forall|c: Tree| c is Mapping implies (#[trigger] g(c)) is Mapping && g(g(c)) == g(c) by {
            lemma_ensure_then_edit_twice(c, "spec"@, spec_fill);
        }
        lemma_ensure_then_edit_twice(t, pt_key, g);
        let u = map_statefulset_spec(t);
        assert(u == edit_child(t.insert_if_absent(pt_key, empty_mapping()), pt_key, g));
        // the migration reads only keys it does not write
        let t1 = t.insert_if_absent(pt_key, empty_mapping());
        if !t.contains(pt_key) {
            lemma_insert_facts(t, pt_key, empty_mapping());
        }
        if t1.get(pt_key)->0 is Mapping {
            lemma_insert_facts(t1, pt_key, g(t1.get(pt_key)->0));
        }
        assert(u.get("nodeSelector"@) == t.get("nodeSelector"@));
        assert(u.get("tolerations"@) == t.get("tolerations"@));
        assert(u.get("affinity"@) == t.get("affinity"@));
        assert(u.get("statefulset"@) == t.get("statefulset"@));
        assert(pod_fields(u) == f);
    }
}


// ---------------------------------------------------------------------
// Idempotence of the renames
// ---------------------------------------------------------------------
/// The keys that the renames move away from a level.
pub open spec fn moving_keys() -> Seq<Seq<char>> {
    seq![
        "tieredConfig"@,
        "tieredStorageHostPath"@,
        "tieredStoragePersistentVolume"@,
        "license_secret_ref"@,
        "license_key"@,
    ]
}

/// `resources` holds nothing of the old `cpu.cores` / `memory.container.max` form.
pub open spec fn no_old_resources(r: Tree) -> bool {
    r.get_path(seq!["cpu"@, "cores"@]) is None && r.get_path(seq!["memory"@, "container"@, "max"@])
        is None
}

/// Nothing is left for the renames to do at this level.
pub open spec fn level_settled(m: Tree) -> bool {
    &&& forall|k: Seq<char>| moving_keys().contains(k) ==> !(#[trigger] m.contains(k))
    &&& (m.get("resources"@) is Some && m.get("resources"@)->0 is Mapping) ==> no_old_resources(
        m.get("resources"@)->0,
    )
}

/// Every mapping of the tree has been renamed.
pub open spec fn renamed(t: Tree) -> bool
    decreases t,
{
    match t {
        Tree::Mapping(es) => level_settled(t) && forall|i: int|
            0 <= i < es.len() ==> renamed(#[trigger] es[i].1),
        _ => true,
    }
}

/// The children of a mapping have been renamed.
pub open spec fn children_renamed(t: Tree) -> bool {
    match t {
        Tree::Mapping(es) => forall|i: int| 0 <= i < es.len() ==> renamed(#[trigger] es[i].1),
        _ => true,
    }
}

proof fn lemma_rename_literals()
    ensures
        "resources"@.len() == 9 && "resources"@[0] == 'r',
        "container"@.len() == 9 && "container"@[0] == 'c',
        "cpu"@.len() == 3 && "cpu"@[0] == 'c',
        "max"@.len() == 3 && "max"@[0] == 'm',
        "key"@.len() == 3 && "key"@[0] == 'k',
        "memory"@.len() == 6 && "memory"@[0] == 'm',
        "limits"@.len() == 6 && "limits"@[0] == 'l',
        "tiered"@.len() == 6 && "tiered"@[0] == 't',
        "config"@.len() == 6 && "config"@[0] == 'c',
        "requests"@.len() == 8 && "requests"@[0] == 'r',
        "hostPath"@.len() == 8 && "hostPath"@[0] == 'h',
        "cores"@.len() == 5,
        "tieredConfig"@.len() == 12,
        "tieredStorageHostPath"@.len() == 21,
        "tieredStoragePersistentVolume"@.len() == 29,
        "persistentVolume"@.len() == 16 && "persistentVolume"@[0] == 'p',
        "license_secret_ref"@.len() == 18,
        "secret_name"@.len() == 11 && "secret_name"@[0] == 's',
        "name"@.len() == 4,
        "secret_key"@.len() == 10 && "secret_key"@[0] == 's',
        "enterprise"@.len() == 10 && "enterprise"@[0] == 'e',
        "licenseSecretRef"@.len() == 16 && "licenseSecretRef"@[0] == 'l',
        "license_key"@.len() == 11 && "license_key"@[0] == 'l',
        "license"@.len() == 7,
{
    reveal_strlit("resources");
    reveal_strlit("container");
    reveal_strlit("cpu");
    reveal_strlit("max");
    reveal_strlit("key");
    reveal_strlit("memory");
    reveal_strlit("limits");
    reveal_strlit("tiered");
    reveal_strlit("config");
    reveal_strlit("requests");
    reveal_strlit("hostPath");
    reveal_strlit("cores");
    reveal_strlit("tieredConfig");
    reveal_strlit("tieredStorageHostPath");
    reveal_strlit("tieredStoragePersistentVolume");
    reveal_strlit("persistentVolume");
    reveal_strlit("license_secret_ref");
    reveal_strlit("secret_name");
    reveal_strlit("name");
    reveal_strlit("secret_key");
    reveal_strlit("enterprise");
    reveal_strlit("licenseSecretRef");
    reveal_strlit("license_key");
    reveal_strlit("license");
}

/// None of the keys the renames write is one they move away.
proof fn lemma_written_keys_stay()
    ensures
        forall|k: Seq<char>|
            moving_keys().contains(k) ==> k != "resources"@ && k != "tiered"@ && k != "config"@
                && k != "hostPath"@ && k != "persistentVolume"@ && k != "enterprise"@ && k
                != "licenseSecretRef"@ && k != "license"@ && k != "cpu"@ && k != "memory"@ && k
                != "requests"@ && k != "limits"@ && k != "name"@ && k != "key"@ && k
                != "secret_name"@ && k != "secret_key"@,
        moving_keys().contains("tieredConfig"@),
        moving_keys().contains("tieredStorageHostPath"@),
        moving_keys().contains("tieredStoragePersistentVolume"@),
        moving_keys().contains("license_secret_ref"@),
        moving_keys().contains("license_key"@),
{
    lemma_rename_literals();
    let mk = moving_keys();
    assert(mk[0] == "tieredConfig"@ && mk[1] == "tieredStorageHostPath"@);
    assert(mk[2] == "tieredStoragePersistentVolume"@ && mk[3] == "license_secret_ref"@);
    assert(mk[4] == "license_key"@);
    assert("license_key"@[1] != "secret_name"@[1]) by {
        reveal_strlit("license_key");
        reveal_strlit("secret_name");
    }
}

proof fn lemma_renamed_child(t: Tree, k: Seq<char>)
    requires
        children_renamed(t),
        t.get(k) is Some,
    ensures
        renamed(t.get(k)->0),
{
    let es = t->Mapping_0;
    crate::tree::lemma_index_of_bounds(es, k);
    assert(renamed(es[crate::tree::index_of(es, k)].1));
}

proof fn lemma_renamed_path(t: Tree, p: Seq<Seq<char>>)
    requires
        renamed(t),
        t.get_path(p) is Some,
    ensures
        renamed(t.get_path(p)->0),
    decreases p.len(),
{
    if p.len() > 0 {
        let c = t.get(p[0])->0;
        lemma_renamed_child(t, p[0]);
        lemma_renamed_path(c, p.drop_first());
    }
}

proof fn lemma_children_insert(t: Tree, k: Seq<char>, v: Tree)
    requires
        children_renamed(t),
        renamed(v),
    ensures
        children_renamed(t.insert(k, v)),
{
    if let Tree::Mapping(es) = t {
        let s = crate::tree::with_entry(es, k, v);
        assert forall|i: int| 0 <= i < s.len() implies renamed(#[trigger] s[i].1) by {
            if i < es.len() && s[i] == es[i] {
            }
        }
    }
}

proof fn lemma_children_remove(t: Tree, k: Seq<char>)
    requires
        children_renamed(t),
    ensures
        children_renamed(t.remove(k)),
{
    if let Tree::Mapping(es) = t {
        let s = crate::tree::without(es, k);
        crate::tree::lemma_without_from(es, k);
        assert forall|i: int| 0 <= i < s.len() implies renamed(#[trigger] s[i].1) by {
            assert(es.contains(s[i]));
            let j = choose|j: int| 0 <= j < es.len() && es[j] == s[i];
            assert(renamed(es[j].1));
        }
    }
}

/// Adding the entries of a mapping with unique keys where they are missing.
proof fn lemma_fill_missing(c: Tree, tes: Entries)
    requires
        c is Mapping,
        unique_keys(tes),
    ensures
        fill_missing(c, tes) is Mapping,
        forall|k: Seq<char>| c.contains(k) ==> #[trigger] fill_missing(c, tes).get(k) == c.get(k),
        forall|k: Seq<char>|
            !c.contains(k) && has_key(tes, k) ==> #[trigger] fill_missing(c, tes).get(k) == lookup(
                tes,
                k,
            ),
        forall|k: Seq<char>|
            !c.contains(k) && !has_key(tes, k) ==> #[trigger] fill_missing(c, tes).get(k) is None,
        children_renamed(c) && (forall|j: int| 0 <= j < tes.len() ==> renamed(#[trigger] tes[j].1))
            ==> children_renamed(fill_missing(c, tes)),
        well_formed(c) && (forall|j: int| 0 <= j < tes.len() ==> well_formed(#[trigger] tes[j].1))
            ==> well_formed(fill_missing(c, tes)),
    decreases tes.len(),
{
    if tes.len() > 0 {
        let d = tes.drop_last();
        let last = tes.last();
        assert(last == tes[tes.len() - 1]);
        assert(unique_keys(d)) by {
            assert forall|i: int, j: int| 0 <= i < j < d.len() implies d[i].0 != d[j].0 by {
                assert(d[i] == tes[i] && d[j] == tes[j]);
            }
        }
        lemma_fill_missing(c, d);
        let u = fill_missing(c, d);
        let w = fill_missing(c, tes);
        assert(w == u.insert_if_absent(last.0, last.1));
        if !u.contains(last.0) {
            lemma_insert_facts(u, last.0, last.1);
        }
        assert(tes =~= d.push(last));
        assert(!has_key(d, last.0)) by {
            if has_key(d, last.0) {
                let j = choose|j: int| 0 <= j < d.len() && d[j].0 == last.0;
                assert(tes[j].0 == tes[tes.len() - 1].0);
            }
        }
        assert forall|k: Seq<char>| c.contains(k) implies #[trigger] w.get(k) == c.get(k) by {
            assert(u.get(k) == c.get(k));
        }
        assert forall|k: Seq<char>| !c.contains(k) && has_key(tes, k) implies #[trigger] w.get(k)
            == lookup(tes, k) by {
            crate::tree::lemma_lookup_push(d, last, k);
            crate::tree::lemma_index_of_bounds(d, k);
            if k == last.0 {
                assert(u.get(k) is None);
            } else {
                let j = choose|j: int| 0 <= j < tes.len() && tes[j].0 == k;
                assert(j < d.len());
                assert(d[j].0 == k);
            }
        }
        assert forall|k: Seq<char>| !c.contains(k) && !has_key(tes, k) implies #[trigger] w.get(k)
            is None by {
            assert(k != last.0) by {
                assert(tes[tes.len() - 1].0 == last.0);
            }
            assert(!has_key(d, k)) by {
                if has_key(d, k) {
                    let j = choose|j: int| 0 <= j < d.len() && d[j].0 == k;
                    assert(tes[j].0 == k);
                }
            }
        }
        if children_renamed(c) && (forall|j: int| 0 <= j < tes.len() ==> renamed(#[trigger] tes[j].1)) {
            assert forall|j: int| 0 <= j < d.len() implies renamed(#[trigger] d[j].1) by {
                assert(d[j] == tes[j]);
            }
            lemma_children_insert(u, last.0, last.1);
        }
        if well_formed(c) && (forall|j: int| 0 <= j < tes.len() ==> well_formed(#[trigger] tes[j].1)) {
            assert forall|j: int| 0 <= j < d.len() implies well_formed(#[trigger] d[j].1) by {
                assert(d[j] == tes[j]);
            }
            crate::tree::lemma_insert_well_formed(u, last.0, last.1);
        }
    }
}


/// A level with nothing left to rename stays as it is.
proof fn lemma_rename_here_settled(m: Tree)
    requires
        m is Mapping,
        level_settled(m),
    ensures
        rename_here(m) == m,
{
    lemma_written_keys_stay();
    let kr = "resources"@;
    if m.get(kr) is Some && m.get(kr)->0 is Mapping {
        let r = m.get(kr)->0;
        assert(no_old_resources(r));
        assert(resources_converted(r) == r);
        lemma_insert_same(m, kr);
    }
    let a = edit_child(m, kr, |r: Tree| resources_converted(r));
    assert(a == m);
    assert(!m.contains("tieredConfig"@));
    assert(!m.contains("tieredStorageHostPath"@));
    assert(!m.contains("tieredStoragePersistentVolume"@));
    assert(!m.contains("license_secret_ref"@));
    assert(!m.contains("license_key"@));
}

/// A renamed tree is left as it is by the renames.
proof fn lemma_rename_settled(t: Tree)
    requires
        renamed(t),
    ensures
        rename_tree(t) == t,
    decreases t,
{
    if let Tree::Mapping(es) = t {
        lemma_rename_entries(es);
        assert forall|i: int| 0 <= i < es.len() implies #[trigger] rename_entries(es)[i] == es[i] by {
            assert(renamed(es[i].1));
            lemma_rename_settled(es[i].1);
        }
        assert(rename_entries(es) =~= es);
        lemma_rename_here_settled(t);
    }
}


proof fn lemma_well_formed_path(t: Tree, p: Seq<Seq<char>>)
    requires
        well_formed(t),
        t.get_path(p) is Some,
    ensures
        well_formed(t.get_path(p)->0),
    decreases p.len(),
{
    if p.len() > 0 {
        let c = t.get(p[0])->0;
        crate::tree::lemma_child_well_formed(t, p[0]);
        lemma_well_formed_path(c, p.drop_first());
    }
}

proof fn lemma_renamed_unfold(t: Tree)
    ensures
        t is Mapping ==> (renamed(t) == (level_settled(t) && children_renamed(t))),
{
}

/// A mapping that the renames leave at a level without moving keys and
/// with settled resources, whose children are renamed, is renamed.
proof fn lemma_settled_level(t: Tree)
    requires
        t is Mapping,
        children_renamed(t),
        forall|k: Seq<char>| moving_keys().contains(k) ==> t.get(k) is None,
        t.get("resources"@) is Some && t.get("resources"@)->0 is Mapping ==> no_old_resources(
            t.get("resources"@)->0,
        ),
    ensures
        renamed(t),
{
    lemma_renamed_unfold(t);
}

/// The amounts of a converted `resources` block are renamed and well formed.
proof fn lemma_amounts(cpu: Option<Tree>, memory: Option<Tree>)
    requires
        cpu matches Some(c) ==> renamed(c) && well_formed(c),
        memory matches Some(m) ==> renamed(m) && well_formed(m),
    ensures
        ({
            let am = set_opt(set_opt(empty_mapping(), "cpu"@, cpu), "memory"@, memory);
            &&& am is Mapping
            &&& renamed(am)
            &&& well_formed(am)
        }),
{
    lemma_rename_literals();
    lemma_written_keys_stay();
    let e = empty_mapping();
    let a1 = set_opt(e, "cpu"@, cpu);
    let am = set_opt(a1, "memory"@, memory);
    assert(well_formed(e));
    assert(children_renamed(e));
    lemma_set_opt_facts(e, "cpu"@, cpu);
    lemma_set_opt_facts(a1, "memory"@, memory);
    if let Some(c) = cpu {
        lemma_children_insert(e, "cpu"@, c);
        crate::tree::lemma_insert_well_formed(e, "cpu"@, c);
    }
    if let Some(m) = memory {
        lemma_children_insert(a1, "memory"@, m);
        crate::tree::lemma_insert_well_formed(a1, "memory"@, m);
    }
    assert forall|k: Seq<char>| moving_keys().contains(k) implies am.get(k) is None by {
        assert(am.get(k) == a1.get(k));
        assert(a1.get(k) == e.get(k));
    }
    assert(am.get("resources"@) == e.get("resources"@));
    lemma_settled_level(am);
}

/// Converting a renamed `resources` block leaves it renamed, well formed and
/// without the old form.
proof fn lemma_converted(r: Tree)
    requires
        r is Mapping,
        renamed(r),
        well_formed(r),
    ensures
        resources_converted(r) is Mapping,
        renamed(resources_converted(r)),
        well_formed(resources_converted(r)),
        no_old_resources(resources_converted(r)),
{
    lemma_rename_literals();
    lemma_written_keys_stay();
    reveal_with_fuel(Tree::get_path, 4);
    let cpu = r.get_path(seq!["cpu"@, "cores"@]);
    let memory = r.get_path(seq!["memory"@, "container"@, "max"@]);
    if cpu is Some || memory is Some {
        if cpu is Some {
            lemma_renamed_path(r, seq!["cpu"@, "cores"@]);
            lemma_well_formed_path(r, seq!["cpu"@, "cores"@]);
        }
        if memory is Some {
            lemma_renamed_path(r, seq!["memory"@, "container"@, "max"@]);
            lemma_well_formed_path(r, seq!["memory"@, "container"@, "max"@]);
        }
        lemma_amounts(cpu, memory);
        let am = set_opt(set_opt(empty_mapping(), "cpu"@, cpu), "memory"@, memory);
        let r1 = r.remove("cpu"@);
        let r2 = r1.remove("memory"@);
        let r3 = r2.insert("requests"@, am);
        let r4 = r3.insert("limits"@, am);
        lemma_renamed_unfold(r);
        lemma_children_remove(r, "cpu"@);
        lemma_children_remove(r1, "memory"@);
        lemma_children_insert(r2, "requests"@, am);
        lemma_children_insert(r3, "limits"@, am);
        crate::tree::lemma_remove_well_formed(r, "cpu"@);
        crate::tree::lemma_remove_well_formed(r1, "memory"@);
        crate::tree::lemma_insert_well_formed(r2, "requests"@, am);
        crate::tree::lemma_insert_well_formed(r3, "limits"@, am);
        lemma_remove_facts(r, "cpu"@);
        lemma_remove_facts(r1, "memory"@);
        lemma_insert_facts(r2, "requests"@, am);
        lemma_insert_facts(r3, "limits"@, am);
        assert forall|k: Seq<char>| moving_keys().contains(k) implies r4.get(k) is None by {
            assert(r4.get(k) == r.get(k));
            assert(!r.contains(k));
        }
        assert(r4.get("resources"@) == r.get("resources"@));
        lemma_settled_level(r4);
        assert(r4.get("cpu"@) is None);
        assert(r4.get("memory"@) is None);
        assert(resources_converted(r) == r4);
    }
}


/// A mapping, well formed, with renamed children.
pub open spec fn sound_level(t: Tree) -> bool {
    t is Mapping && children_renamed(t) && well_formed(t)
}

/// A renamed value put under a key that the renames neither move nor read
/// keeps a renamed mapping renamed.
proof fn lemma_insert_settled(t: Tree, k: Seq<char>, v: Tree)
    requires
        t is Mapping,
        renamed(t),
        well_formed(t),
        renamed(v),
        well_formed(v),
        !moving_keys().contains(k),
        k != "resources"@,
    ensures
        renamed(t.insert(k, v)),
        well_formed(t.insert(k, v)),
        t.insert(k, v) is Mapping,
{
    lemma_renamed_unfold(t);
    lemma_children_insert(t, k, v);
    crate::tree::lemma_insert_well_formed(t, k, v);
    lemma_insert_facts(t, k, v);
    let u = t.insert(k, v);
    assert forall|x: Seq<char>| moving_keys().contains(x) implies u.get(x) is None by {
        assert(x != k);
        assert(!t.contains(x));
    }
    lemma_settled_level(u);
}

proof fn lemma_sound_insert(t: Tree, k: Seq<char>, v: Tree)
    requires
        sound_level(t),
        renamed(v),
        well_formed(v),
    ensures
        sound_level(t.insert(k, v)),
        t.insert(k, v).get(k) == Some(v),
        forall|o: Seq<char>| o != k ==> #[trigger] t.insert(k, v).get(o) == t.get(o),
{
    lemma_children_insert(t, k, v);
    crate::tree::lemma_insert_well_formed(t, k, v);
    lemma_insert_facts(t, k, v);
}

proof fn lemma_sound_remove(t: Tree, k: Seq<char>)
    requires
        sound_level(t),
    ensures
        sound_level(t.remove(k)),
        t.remove(k).get(k) is None,
        forall|o: Seq<char>| o != k ==> #[trigger] t.remove(k).get(o) == t.get(o),
{
    lemma_children_remove(t, k);
    crate::tree::lemma_remove_well_formed(t, k);
    lemma_remove_facts(t, k);
}

/// The child under `k` of a sound level is renamed and well formed.
proof fn lemma_sound_child(t: Tree, k: Seq<char>)
    requires
        sound_level(t),
        t.get(k) is Some,
    ensures
        renamed(t.get(k)->0),
        well_formed(t.get(k)->0),
{
    lemma_renamed_child(t, k);
    crate::tree::lemma_child_well_formed(t, k);
}

/// Moving a value into `tiered.<to>` keeps the level sound.
proof fn lemma_moved_into_tiered(m: Tree, from: Seq<char>, to: Seq<char>)
    requires
        sound_level(m),
        to == "hostPath"@ || to == "persistentVolume"@,
        from != "tiered"@,
    ensures
        sound_level(moved_into_tiered(m, from, to)),
        moved_into_tiered(m, from, to).get(from) is None,
        forall|o: Seq<char>|
            o != from && o != "tiered"@ ==> #[trigger] moved_into_tiered(m, from, to).get(o)
                == m.get(o),
{
    lemma_rename_literals();
    lemma_written_keys_stay();
    if m.get(from) is Some {
        let v = m.get(from)->0;
        lemma_sound_child(m, from);
        let m0 = m.remove(from);
        lemma_sound_remove(m, from);
        let kt = "tiered"@;
        let m1 = m0.insert_if_absent(kt, empty_mapping());
        if !m0.contains(kt) {
            assert(renamed(empty_mapping())) by {
                lemma_settled_level(empty_mapping());
            }
            lemma_sound_insert(m0, kt, empty_mapping());
        }
        if m1.get(kt) is Some && m1.get(kt)->0 is Mapping {
            let td = m1.get(kt)->0;
            lemma_sound_child(m1, kt);
            lemma_insert_settled(td, to, v);
            lemma_sound_insert(m1, kt, td.insert(to, v));
        }
    }
}

/// Setting `enterprise.<k>` keeps the level sound.
proof fn lemma_set_in_enterprise(m: Tree, k: Seq<char>, v: Tree)
    requires
        sound_level(m),
        renamed(v),
        well_formed(v),
        k == "licenseSecretRef"@ || k == "license"@,
    ensures
        sound_level(set_in_enterprise(m, k, v)),
        forall|o: Seq<char>| o != "enterprise"@ ==> #[trigger] set_in_enterprise(m, k, v).get(o) == m.get(o),
{
    lemma_rename_literals();
    lemma_written_keys_stay();
    let ke = "enterprise"@;
    let m1 = m.insert_if_absent(ke, empty_mapping());
    if !m.contains(ke) {
        assert(renamed(empty_mapping())) by {
            lemma_settled_level(empty_mapping());
        }
        lemma_sound_insert(m, ke, empty_mapping());
    }
    if m1.get(ke)->0 is Mapping {
        let e = m1.get(ke)->0;
        lemma_sound_child(m1, ke);
        lemma_insert_settled(e, k, v);
        lemma_sound_insert(m1, ke, e.insert(k, v));
    }
}

/// Renaming a key keeps a renamed mapping renamed.
proof fn lemma_renamed_key(l: Tree, from: Seq<char>, to: Seq<char>)
    requires
        l is Mapping,
        renamed(l),
        well_formed(l),
        !moving_keys().contains(to),
        to != "resources"@,
        from != "resources"@,
    ensures
        renamed(renamed_key(l, from, to)),
        well_formed(renamed_key(l, from, to)),
        renamed_key(l, from, to) is Mapping,
{
    lemma_renamed_unfold(l);
    if l.get(from) is Some {
        let v = l.get(from)->0;
        lemma_sound_child(l, from);
        let l1 = l.remove(from);
        lemma_sound_remove(l, from);
        assert forall|x: Seq<char>| moving_keys().contains(x) implies l1.get(x) is None by {
            if x != from {
                assert(!l.contains(x));
            }
        }
        assert(l1.get("resources"@) == l.get("resources"@));
        lemma_settled_level(l1);
        lemma_insert_settled(l1, to, v);
    }
}

/// Moving `license_secret_ref` keeps the level sound.
proof fn lemma_license_ref_moved(m: Tree)
    requires
        sound_level(m),
    ensures
        sound_level(license_ref_moved(m)),
        license_ref_moved(m).get("license_secret_ref"@) is None,
        forall|o: Seq<char>|
            o != "license_secret_ref"@ && o != "enterprise"@ ==> #[trigger] license_ref_moved(m).get(o)
                == m.get(o),
{
    lemma_rename_literals();
    lemma_written_keys_stay();
    let kl = "license_secret_ref"@;
    if m.get(kl) is Some {
        let l = m.get(kl)->0;
        lemma_sound_child(m, kl);
        let m1 = m.remove(kl);
        lemma_sound_remove(m, kl);
        if l is Mapping {
            lemma_renamed_key(l, "secret_name"@, "name"@);
            let la = renamed_key(l, "secret_name"@, "name"@);
            lemma_renamed_key(la, "secret_key"@, "key"@);
            let l1 = renamed_key(la, "secret_key"@, "key"@);
            lemma_set_in_enterprise(m1, "licenseSecretRef"@, l1);
        }
    }
}

/// Moving `license_key` keeps the level sound.
proof fn lemma_license_key_moved(m: Tree)
    requires
        sound_level(m),
    ensures
        sound_level(license_key_moved(m)),
        license_key_moved(m).get("license_key"@) is None,
        forall|o: Seq<char>|
            o != "license_key"@ && o != "enterprise"@ ==> #[trigger] license_key_moved(m).get(o)
                == m.get(o),
{
    lemma_rename_literals();
    lemma_written_keys_stay();
    let kk = "license_key"@;
    if m.get(kk) is Some {
        let v = m.get(kk)->0;
        lemma_sound_child(m, kk);
        let m1 = m.remove(kk);
        lemma_sound_remove(m, kk);
        lemma_set_in_enterprise(m1, "license"@, v);
    }
}


/// The entries of a renamed, well-formed `tieredConfig`, put into a renamed
/// config mapping, leave it renamed.
proof fn lemma_config_filled(cfg: Tree, tc: Tree)
    requires
        cfg is Mapping,
        renamed(cfg),
        well_formed(cfg),
        tc is Mapping,
        renamed(tc),
        well_formed(tc),
    ensures
        renamed(fill_missing(cfg, tc->Mapping_0)),
        well_formed(fill_missing(cfg, tc->Mapping_0)),
        fill_missing(cfg, tc->Mapping_0) is Mapping,
{
    let tes = tc->Mapping_0;
    lemma_renamed_unfold(cfg);
    lemma_renamed_unfold(tc);
    assert(forall|j: int| 0 <= j < tes.len() ==> renamed(#[trigger] tes[j].1));
    assert(forall|j: int| 0 <= j < tes.len() ==> well_formed(#[trigger] tes[j].1));
    lemma_fill_missing(cfg, tes);
    let c1 = fill_missing(cfg, tes);
    assert forall|x: Seq<char>| moving_keys().contains(x) implies c1.get(x) is None by {
        crate::tree::lemma_index_of_bounds(tes, x);
        assert(!tc.contains(x));
        assert(!has_key(tes, x));
        assert(!cfg.contains(x));
    }
    let kr = "resources"@;
    crate::tree::lemma_index_of_bounds(tes, kr);
    if cfg.contains(kr) {
        assert(c1.get(kr) == cfg.get(kr));
    } else if has_key(tes, kr) {
        assert(c1.get(kr) == tc.get(kr));
    } else {
        assert(c1.get(kr) is None);
    }
    lemma_settled_level(c1);
}

/// Moving `tieredConfig` into `tiered.config` keeps the level sound.
proof fn lemma_tiered_config_moved(m: Tree)
    requires
        sound_level(m),
    ensures
        sound_level(tiered_config_moved(m)),
        tiered_config_moved(m).get("tieredConfig"@) is None,
        forall|o: Seq<char>|
            o != "tieredConfig"@ && o != "tiered"@ ==> #[trigger] tiered_config_moved(m).get(o)
                == m.get(o),
{
    lemma_rename_literals();
    lemma_written_keys_stay();
    let kc = "tieredConfig"@;
    let kt = "tiered"@;
    let kg = "config"@;
    if m.get(kc) is Some {
        let tc = m.get(kc)->0;
        lemma_sound_child(m, kc);
        let m1 = m.remove(kc);
        lemma_sound_remove(m, kc);
        if let Tree::Mapping(tes) = tc {
            let empty = empty_mapping();
            assert(renamed(empty)) by {
                lemma_settled_level(empty);
            }
            if m1.get(kt) is Some && m1.get(kt)->0 is Mapping {
                let td = m1.get(kt)->0;
                lemma_sound_child(m1, kt);
                let td1 = td.insert_if_absent(kg, empty);
                if !td.contains(kg) {
                    lemma_insert_settled(td, kg, empty);
                }
                lemma_renamed_unfold(td1);
                let m2 = m1.insert(kt, td1);
                lemma_sound_insert(m1, kt, td1);
                let cfg = td1.get(kg)->0;
                if !td.contains(kg) {
                    lemma_insert_facts(td, kg, empty);
                }
                assert(td1.get(kg) is Some);
                if cfg is Mapping {
                    lemma_sound_child(td1, kg);
                    lemma_config_filled(cfg, tc);
                    let cfg1 = fill_missing(cfg, tes);
                    lemma_insert_settled(td1, kg, cfg1);
                    let td2 = td1.insert(kg, cfg1);
                    lemma_insert_insert(m1, kt, td1, td2);
                    lemma_sound_insert(m1, kt, td2);
                } else {
                    lemma_insert_same(m2, kt);
                }
            } else {
                lemma_fill_missing(empty, tes);
                lemma_config_filled(empty, tc);
                let ia = fill_missing(empty, tes);
                lemma_insert_settled(empty, kg, ia);
                lemma_sound_insert(m1, kt, tiered_from(tes));
            }
        }
    }
}


/// The renames of one level, over renamed children, leave the level renamed.
proof fn lemma_rename_here_renamed(m: Tree)
    requires
        sound_level(m),
    ensures
        renamed(rename_here(m)),
        well_formed(rename_here(m)),
{
    lemma_rename_literals();
    lemma_written_keys_stay();
    let kr = "resources"@;
    let a = edit_child(m, kr, |r: Tree| resources_converted(r));
    if m.get(kr) is Some && m.get(kr)->0 is Mapping {
        let r = m.get(kr)->0;
        lemma_sound_child(m, kr);
        lemma_converted(r);
        lemma_sound_insert(m, kr, resources_converted(r));
    }
    assert(sound_level(a));
    assert(a.get(kr) is Some && a.get(kr)->0 is Mapping ==> no_old_resources(a.get(kr)->0));
    let b = tiered_config_moved(a);
    lemma_tiered_config_moved(a);
    let c = moved_into_tiered(b, "tieredStorageHostPath"@, "hostPath"@);
    lemma_moved_into_tiered(b, "tieredStorageHostPath"@, "hostPath"@);
    let d = moved_into_tiered(c, "tieredStoragePersistentVolume"@, "persistentVolume"@);
    lemma_moved_into_tiered(c, "tieredStoragePersistentVolume"@, "persistentVolume"@);
    let e = license_ref_moved(d);
    lemma_license_ref_moved(d);
    let f = license_key_moved(e);
    lemma_license_key_moved(e);
    assert(f == rename_here(m));
    assert(f.get(kr) == a.get(kr));
    assert forall|k: Seq<char>| moving_keys().contains(k) implies f.get(k) is None by {
        let mk = moving_keys();
        let i = choose|i: int| 0 <= i < mk.len() && mk[i] == k;
        assert(mk[0] == "tieredConfig"@ && mk[1] == "tieredStorageHostPath"@);
        assert(mk[2] == "tieredStoragePersistentVolume"@ && mk[3] == "license_secret_ref"@);
        assert(mk[4] == "license_key"@);
        if i == 0 {
            assert(f.get(k) == b.get(k));
        } else if i == 1 {
            assert(f.get(k) == c.get(k));
        } else if i == 2 {
            assert(f.get(k) == d.get(k));
        } else if i == 3 {
            assert(f.get(k) == e.get(k));
        }
    }
    lemma_settled_level(f);
}

/// The renames leave a well-formed document renamed and well formed.
proof fn lemma_rename_result(t: Tree)
    requires
        well_formed(t),
    ensures
        renamed(rename_tree(t)),
        well_formed(rename_tree(t)),
    decreases t,
{
    if let Tree::Mapping(es) = t {
        lemma_rename_entries(es);
        let res = rename_entries(es);
        assert forall|i: int| 0 <= i < res.len() implies renamed(#[trigger] res[i].1) && well_formed(
            res[i].1,
        ) by {
            assert(well_formed(es[i].1));
            lemma_rename_result(es[i].1);
        }
        let m = Tree::Mapping(res);
        assert(unique_keys(res)) by {
            assert forall|i: int, j: int| 0 <= i < j < res.len() implies res[i].0 != res[j].0 by {
                assert(res[i].0 == es[i].0 && res[j].0 == es[j].0);
            }
        }
        assert(sound_level(m));
        lemma_rename_here_renamed(m);
    }
}

/// Running the renames twice is the same as running them once, for a
/// document whose mappings have unique keys.
pub proof fn rename_nested_keys_idempotent(t: Tree)
    requires
        well_formed(t),
    ensures
        rename_tree(rename_tree(t)) == rename_tree(t),
{
    lemma_rename_result(t);
    lemma_rename_settled(rename_tree(t));
}


/// The renames keep a document whose mappings have unique keys so.
pub proof fn rename_keeps_well_formed(t: Tree)
    requires
        well_formed(t),
    ensures
        well_formed(rename_tree(t)),
{
    lemma_rename_result(t);
}

proof fn lemma_opt_well_formed(t: Tree, k: Seq<char>, o: Option<Tree>)
    requires
        well_formed(t),
        o matches Some(v) ==> well_formed(v),
    ensures
        well_formed(set_opt(t, k, o)),
        well_formed(default_opt(t, k, o)),
{
    if let Some(v) = o {
        crate::tree::lemma_insert_well_formed(t, k, v);
    }
}

proof fn lemma_child_opt_well_formed(t: Tree, k: Seq<char>)
    requires
        well_formed(t),
    ensures
        t.get(k) matches Some(v) ==> well_formed(v),
        unless_empty_mapping(t, k) matches Some(v) ==> well_formed(v),
        unless_empty_sequence(t, k) matches Some(v) ==> well_formed(v),
{
    if t.get(k) is Some {
        crate::tree::lemma_child_well_formed(t, k);
    }
}

/// The pod-settings migration keeps a document whose mappings have unique
/// keys so.
pub proof fn map_statefulset_keeps_well_formed(t: Tree)
    requires
        well_formed(t),
    ensures
        well_formed(map_statefulset_spec(t)),
{
    let f = pod_fields(t);
    if t is Mapping && any_pod_field(f) {
        let empty = empty_mapping();
        let st = match t.get("statefulset"@) {
            Some(x) => if x is Mapping {
                x
            } else {
                empty
            },
            None => empty,
        };
        lemma_child_opt_well_formed(t, "statefulset"@);
        lemma_child_opt_well_formed(t, "nodeSelector"@);
        lemma_child_opt_well_formed(t, "tolerations"@);
        lemma_child_opt_well_formed(t, "affinity"@);
        lemma_child_opt_well_formed(st, "nodeSelector"@);
        lemma_child_opt_well_formed(st, "tolerations"@);
        lemma_child_opt_well_formed(st, "podAffinity"@);
        lemma_child_opt_well_formed(st, "securityContext"@);
        lemma_child_opt_well_formed(st, "priorityClassName"@);
        lemma_child_opt_well_formed(st, "topologySpreadConstraints"@);
        lemma_child_opt_well_formed(st, "terminationGracePeriodSeconds"@);
        let fill = |sp: Tree| spec_with_fields(sp, f);
        assert forall|sp: Tree| sp is Mapping && well_formed(sp) implies well_formed(#[trigger] fill(sp)) by {
            let a = default_opt(sp, "nodeSelector"@, f.root_node_selector);
            lemma_opt_well_formed(sp, "nodeSelector"@, f.root_node_selector);
            let b = default_opt(a, "tolerations"@, f.root_tolerations);
            lemma_opt_well_formed(a, "tolerations"@, f.root_tolerations);
            let c = default_opt(b, "affinity"@, f.root_affinity);
            lemma_opt_well_formed(b, "affinity"@, f.root_affinity);
            let d1 = set_opt(c, "nodeSelector"@, f.node_selector);
            lemma_opt_well_formed(c, "nodeSelector"@, f.node_selector);
            let d = set_opt(d1, "tolerations"@, f.tolerations);
            lemma_opt_well_formed(d1, "tolerations"@, f.tolerations);
            let e = match f.pod_affinity {
                Some(pa) => edit_child(
                    d.insert_if_absent("affinity"@, empty_mapping()),
                    "affinity"@,
                    |af: Tree| af.insert("podAffinity"@, pa),
                ),
                None => d,
            };
            if let Some(pa) = f.pod_affinity {
                let d2 = d.insert_if_absent("affinity"@, empty_mapping());
                if !d.contains("affinity"@) {
                    crate::tree::lemma_insert_well_formed(d, "affinity"@, empty_mapping());
                }
                let ins = |af: Tree| af.insert("podAffinity"@, pa);
                assert forall|x: Tree| x is Mapping && well_formed(x) implies well_formed(#[trigger] ins(x)) by {
                    crate::tree::lemma_insert_well_formed(x, "podAffinity"@, pa);
                }
                crate::passes::lemma_edit_child_well_formed(d2, "affinity"@, ins);
            }
            let g = set_opt(e, "securityContext"@, f.security_context);
            lemma_opt_well_formed(e, "securityContext"@, f.security_context);
            let h = set_opt(g, "priorityClassName"@, f.priority_class_name);
            lemma_opt_well_formed(g, "priorityClassName"@, f.priority_class_name);
            let i = set_opt(h, "topologySpreadConstraints"@, f.topology_spread_constraints);
            lemma_opt_well_formed(h, "topologySpreadConstraints"@, f.topology_spread_constraints);
            lemma_opt_well_formed(i, "terminationGracePeriodSeconds"@, f.termination_grace_period);
        }
        let gpt = |pt: Tree| edit_child(pt.insert_if_absent("spec"@, empty_mapping()), "spec"@, fill);
        assert forall|pt: Tree| pt is Mapping && well_formed(pt) implies well_formed(#[trigger] gpt(pt)) by {
            if !pt.contains("spec"@) {
                crate::tree::lemma_insert_well_formed(pt, "spec"@, empty_mapping());
            }
            crate::passes::lemma_edit_child_well_formed(
                pt.insert_if_absent("spec"@, empty_mapping()),
                "spec"@,
                fill,
            );
        }
        if !t.contains("podTemplate"@) {
            crate::tree::lemma_insert_well_formed(t, "podTemplate"@, empty_mapping());
        }
        crate::passes::lemma_edit_child_well_formed(
            t.insert_if_absent("podTemplate"@, empty_mapping()),
            "podTemplate"@,
            gpt,
        );
    }
}

} // verus!
