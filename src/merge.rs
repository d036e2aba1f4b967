use vstd::prelude::*;

use crate::path::lemma_get_path_push;
use crate::tree::{
    entries_view, find_key, has_key, index_of, is_first_key, lemma_index_of,
    lemma_index_of_bounds, lemma_insert_facts, lemma_mapping_view, lookup, unique_keys,
    well_formed, with_entry, ConfigValue, Entries, Tree,
};

verus! {

/// Merge-keep-first: where both documents are mappings, each entry of the
/// secondary one is added where the primary lacks its key, and merged in
/// where both values are mappings; in every other case the primary wins.
pub open spec fn merge_tree(p: Tree, s: Tree) -> Tree
    decreases s,
{
    match s {
        Tree::Mapping(se) => match p {
            Tree::Mapping(pe) => Tree::Mapping(merge_entries(pe, se)),
            _ => p,
        },
        _ => p,
    }
}

/// The entries of the secondary mapping merged, in order, into `pe`.
pub open spec fn merge_entries(pe: Entries, se: Entries) -> Entries
    decreases se,
{
    if se.len() == 0 {
        pe
    } else {
        let k = se[0].0;
        let v = se[0].1;
        let next = match lookup(pe, k) {
            None => with_entry(pe, k, v),
            Some(c) => if c is Mapping && v is Mapping {
                with_entry(pe, k, merge_tree(c, v))
            } else {
                pe
            },
        };
        merge_entries(next, se.drop_first())
    }
}

/// Merges `secondary` into `primary`, keeping every value `primary` has.
pub fn merge(primary: &mut ConfigValue, secondary: &ConfigValue)
    ensures
        final(primary)@ == merge_tree(old(primary)@, secondary@),
    decreases secondary,
{
    match secondary {
        ConfigValue::Mapping(se) => {
            match primary {
                ConfigValue::Mapping(pe) => {
                    let ghost pe0 = *pe;
                    let ghost sm = entries_view(se@);
                    let ghost n = se@.len() as int;
                    proof {
                        lemma_mapping_view(pe0);
                        lemma_mapping_view(*se);
                        assert(sm.subrange(0, n) =~= sm);
                    }
                    let mut i: usize = 0;
                    while i < se.len()
                        invariant
                            *secondary == ConfigValue::Mapping(*se),
                            sm == entries_view(se@),
                            n == se@.len(),
                            0 <= i <= n,
                            merge_entries(entries_view(pe@), sm.subrange(i as int, n))
                                == merge_entries(entries_view(pe0@), sm),
                        decreases n - i,
                    {
                        let ghost cur = entries_view(pe@);
                        let ghost rest = sm.subrange(i as int, n);
                        proof {
                            assert(rest[0] == sm[i as int]);
                            assert(rest.drop_first() =~= sm.subrange(i + 1, n));
                        }
                        let key = &se[i].0;
                        let v2 = &se[i].1;
                        match find_key(pe, key) {
                            None => {
                                let c = v2.copy();
                                pe.push((key.clone(), c));
                                proof {
                                    assert(entries_view(pe@) =~= cur.push((key@, v2@)));
                                }
                            },
                            Some(j) => {
                                if pe[j].1.is_mapping() && v2.is_mapping() {
                                    let (k, mut c) = pe.remove(j);
                                    proof {
                                        assert(decreases_to!(secondary => secondary->Mapping_0));
                                        assert(decreases_to!(*se => se@));
                                        assert(decreases_to!(se@ => se@[i as int]));
                                        assert(decreases_to!(se@[i as int] => se@[i as int].1));
                                    }
                                    merge(&mut c, v2);
                                    pe.insert(j, (k, c));
                                    proof {
                                        assert(entries_view(pe@) =~= cur.update(
                                            j as int,
                                            (key@, merge_tree(cur[j as int].1, v2@)),
                                        ));
                                    }
                                }
                            },
                        }
                        i = i + 1;
                    }
                    proof {
                        assert(sm.subrange(n, n) =~= Seq::<(Seq<char>, Tree)>::empty());
                        lemma_mapping_view(*pe);
                    }
                },
                _ => {},
            }
        },
        _ => {},
    }
}

/// Every non-mapping value that `a` holds at some path, `b` holds there too.
pub open spec fn keeps_leaves(a: Tree, b: Tree) -> bool {
    forall|path: Seq<Seq<char>>|
        #![trigger a.get_path(path)]
        a.get_path(path) is Some && !(a.get_path(path)->0 is Mapping) ==> b.get_path(path)
            == a.get_path(path)
}

proof fn lemma_keeps_trans(a: Tree, b: Tree, c: Tree)
    requires
        keeps_leaves(a, b),
        keeps_leaves(b, c),
    ensures
        keeps_leaves(a, c),
{
    assert forall|path: Seq<Seq<char>>|
        a.get_path(path) is Some && !(a.get_path(path)->0 is Mapping) implies #[trigger] c.get_path(
            path,
        ) == a.get_path(path) by {
        assert(b.get_path(path) == a.get_path(path));
    }
}

/// Setting key `k` of a mapping keeps its leaves where the key was absent,
/// or where the new value keeps the leaves of the old one.
proof fn lemma_keeps_insert(a: Tree, k: Seq<char>, x: Tree)
    requires
        a.is_mapping(),
        a.get(k) matches Some(old) ==> keeps_leaves(old, x),
    ensures
        keeps_leaves(a, a.insert(k, x)),
{
    let b = a.insert(k, x);
    lemma_insert_facts(a, k, x);
    assert forall|path: Seq<Seq<char>>|
        a.get_path(path) is Some && !(a.get_path(path)->0 is Mapping) implies #[trigger] b.get_path(
            path,
        ) == a.get_path(path) by {
        if path.len() > 0 {
            let rest = path.drop_first();
            if path[0] == k {
                let old = a.get(k)->0;
                assert(old.get_path(rest) == a.get_path(path));
            } else {
                assert(b.get(path[0]) == a.get(path[0]));
            }
        }
    }
}

/// The merge keeps every leaf of the primary document.
proof fn lemma_merge_keeps(p: Tree, s: Tree)
    ensures
        keeps_leaves(p, merge_tree(p, s)),
    decreases s,
{
    match s {
        Tree::Mapping(se) => match p {
            Tree::Mapping(pe) => {
                lemma_merge_entries_keeps(pe, se);
            },
            _ => {},
        },
        _ => {},
    }
}

proof fn lemma_merge_entries_keeps(pe: Entries, se: Entries)
    ensures
        keeps_leaves(Tree::Mapping(pe), Tree::Mapping(merge_entries(pe, se))),
    decreases se,
{
    if se.len() > 0 {
        let k = se[0].0;
        let v = se[0].1;
        let a = Tree::Mapping(pe);
        let next = match lookup(pe, k) {
            None => with_entry(pe, k, v),
            Some(c) => if c is Mapping && v is Mapping {
                with_entry(pe, k, merge_tree(c, v))
            } else {
                pe
            },
        };
        match lookup(pe, k) {
            None => {
                lemma_keeps_insert(a, k, v);
            },
            Some(c) => {
                if c is Mapping && v is Mapping {
                    assert(decreases_to!(se => se[0]));
                    lemma_merge_keeps(c, v);
                    lemma_keeps_insert(a, k, merge_tree(c, v));
                }
            },
        }
        lemma_merge_entries_keeps(next, se.drop_first());
        lemma_keeps_trans(a, Tree::Mapping(next), Tree::Mapping(merge_entries(pe, se)));
    }
}

proof fn lemma_with_entry_lookup(es: Entries, k0: Seq<char>, v: Tree, k: Seq<char>)
    ensures
        lookup(with_entry(es, k0, v), k) == if k == k0 {
            Some(v)
        } else {
            lookup(es, k)
        },
{
    lemma_insert_facts(Tree::Mapping(es), k0, v);
    assert(Tree::Mapping(es).insert(k0, v).get(k) == lookup(with_entry(es, k0, v), k));
    if k != k0 {
        assert(Tree::Mapping(es).insert(k0, v).get(k) == Tree::Mapping(es).get(k));
    }
}

/// A key that the secondary entries lack keeps its value through the merge.
proof fn lemma_merge_entries_other(pe: Entries, se: Entries, k: Seq<char>)
    requires
        !has_key(se, k),
    ensures
        lookup(merge_entries(pe, se), k) == lookup(pe, k),
    decreases se.len(),
{
    if se.len() > 0 {
        let k0 = se[0].0;
        let v = se[0].1;
        assert(k0 != k) by {
            assert(se[0].0 == k0);
        }
        let next = match lookup(pe, k0) {
            None => with_entry(pe, k0, v),
            Some(c) => if c is Mapping && v is Mapping {
                with_entry(pe, k0, merge_tree(c, v))
            } else {
                pe
            },
        };
        match lookup(pe, k0) {
            None => {
                lemma_with_entry_lookup(pe, k0, v, k);
            },
            Some(c) => {
                if c is Mapping && v is Mapping {
                    lemma_with_entry_lookup(pe, k0, merge_tree(c, v), k);
                }
            },
        }
        assert(lookup(next, k) == lookup(pe, k));
        let rest = se.drop_first();
        assert(!has_key(rest, k)) by {
            if has_key(rest, k) {
                let j = choose|j: int| 0 <= j < rest.len() && rest[j].0 == k;
                assert(se[j + 1].0 == k);
            }
        }
        lemma_merge_entries_other(next, rest, k);
    }
}

proof fn lemma_unique_rest(se: Entries)
    requires
        unique_keys(se),
        se.len() > 0,
    ensures
        unique_keys(se.drop_first()),
        !has_key(se.drop_first(), se[0].0),
{
    let rest = se.drop_first();
    assert forall|i: int, j: int| 0 <= i < j < rest.len() implies rest[i].0 != rest[j].0 by {
        assert(rest[i] == se[i + 1] && rest[j] == se[j + 1]);
    }
    if has_key(rest, se[0].0) {
        let j = choose|j: int| 0 <= j < rest.len() && rest[j].0 == se[0].0;
        assert(se[j + 1].0 == se[0].0);
    }
}

proof fn lemma_lookup_rest(se: Entries, k: Seq<char>)
    requires
        se.len() > 0,
        se[0].0 != k,
    ensures
        lookup(se.drop_first(), k) == lookup(se, k),
{
    let rest = se.drop_first();
    lemma_index_of_bounds(rest, k);
    lemma_index_of_bounds(se, k);
    if index_of(rest, k) >= 0 {
        let i = index_of(rest, k);
        assert forall|j: int| 0 <= j < i + 1 implies se[j].0 != k by {
            if j > 0 {
                assert(se[j] == rest[j - 1]);
            }
        }
        assert(is_first_key(se, k, i + 1));
        lemma_index_of(se, k, i + 1);
    } else {
        assert forall|j: int| 0 <= j < se.len() implies se[j].0 != k by {
            if j > 0 {
                assert(se[j] == rest[j - 1]);
                assert(!has_key(rest, k));
            }
        }
    }
}

/// A key that only the secondary entries have arrives with its value.
proof fn lemma_merge_entries_new_key(pe: Entries, se: Entries, k: Seq<char>)
    requires
        lookup(pe, k) is None,
        unique_keys(se),
        lookup(se, k) is Some,
    ensures
        lookup(merge_entries(pe, se), k) == lookup(se, k),
    decreases se.len(),
{
    lemma_index_of_bounds(se, k);
    let k0 = se[0].0;
    let v = se[0].1;
    let next = match lookup(pe, k0) {
        None => with_entry(pe, k0, v),
        Some(c) => if c is Mapping && v is Mapping {
            with_entry(pe, k0, merge_tree(c, v))
        } else {
            pe
        },
    };
    lemma_unique_rest(se);
    if k0 == k {
        assert(is_first_key(se, k, 0));
        lemma_index_of(se, k, 0);
        lemma_with_entry_lookup(pe, k0, v, k);
        lemma_merge_entries_other(next, se.drop_first(), k);
    } else {
        match lookup(pe, k0) {
            None => {
                lemma_with_entry_lookup(pe, k0, v, k);
            },
            Some(c) => {
                if c is Mapping && v is Mapping {
                    lemma_with_entry_lookup(pe, k0, merge_tree(c, v), k);
                }
            },
        }
        lemma_lookup_rest(se, k);
        lemma_merge_entries_new_key(next, se.drop_first(), k);
    }
}

/// A key that both sides hold with a mapping ends up with the two merged.
proof fn lemma_merge_entries_both(pe: Entries, se: Entries, k: Seq<char>)
    requires
        lookup(pe, k) matches Some(pc) && pc is Mapping,
        unique_keys(se),
        lookup(se, k) matches Some(sc) && sc is Mapping,
    ensures
        lookup(merge_entries(pe, se), k) == Some(merge_tree(lookup(pe, k)->0, lookup(se, k)->0)),
    decreases se.len(),
{
    lemma_index_of_bounds(se, k);
    let k0 = se[0].0;
    let v = se[0].1;
    let next = match lookup(pe, k0) {
        None => with_entry(pe, k0, v),
        Some(c) => if c is Mapping && v is Mapping {
            with_entry(pe, k0, merge_tree(c, v))
        } else {
            pe
        },
    };
    lemma_unique_rest(se);
    if k0 == k {
        assert(is_first_key(se, k, 0));
        lemma_index_of(se, k, 0);
        lemma_with_entry_lookup(pe, k0, merge_tree(lookup(pe, k)->0, v), k);
        lemma_merge_entries_other(next, se.drop_first(), k);
    } else {
        match lookup(pe, k0) {
            None => {
                lemma_with_entry_lookup(pe, k0, v, k);
            },
            Some(c) => {
                if c is Mapping && v is Mapping {
                    lemma_with_entry_lookup(pe, k0, merge_tree(c, v), k);
                }
            },
        }
        lemma_lookup_rest(se, k);
        lemma_merge_entries_both(next, se.drop_first(), k);
    }
}

proof fn lemma_well_formed_child(t: Tree, k: Seq<char>)
    requires
        well_formed(t),
        t.get(k) is Some,
    ensures
        well_formed(t.get(k)->0),
{
    let es = t->Mapping_0;
    lemma_index_of_bounds(es, k);
    assert(well_formed(es[index_of(es, k)].1));
}

/// Where both documents hold a mapping at `path`, a key that only the
/// secondary one has there arrives with its value.
proof fn lemma_merge_path_new_key(p: Tree, s: Tree, path: Seq<Seq<char>>, k: Seq<char>)
    requires
        well_formed(s),
        p.get_path(path) matches Some(pm) && pm is Mapping && !pm.contains(k),
        s.get_path(path) matches Some(sm) && sm is Mapping && sm.contains(k),
    ensures
        merge_tree(p, s).get_path(path.push(k)) == s.get_path(path)->0.get(k),
    decreases path.len(),
{
    lemma_get_path_push(merge_tree(p, s), path, k);
    if path.len() == 0 {
        lemma_merge_entries_new_key(p->Mapping_0, s->Mapping_0, k);
    } else {
        let k0 = path[0];
        let rest = path.drop_first();
        let pc = p.get(k0)->0;
        let sc = s.get(k0)->0;
        assert(p.get_path(path) == pc.get_path(rest));
        assert(s.get_path(path) == sc.get_path(rest));
        assert(pc is Mapping) by {
            if rest.len() > 0 {
                assert(pc.get(rest[0]) is Some);
            }
        }
        assert(sc is Mapping) by {
            if rest.len() > 0 {
                assert(sc.get(rest[0]) is Some);
            }
        }
        lemma_merge_entries_both(p->Mapping_0, s->Mapping_0, k0);
        lemma_well_formed_child(s, k0);
        lemma_merge_path_new_key(pc, sc, rest, k);
        lemma_get_path_push(merge_tree(pc, sc), rest, k);
    }
}

/// Merge precedence, leaves: every non-mapping value that the primary
/// document holds at a path is unchanged in the merge, whatever the
/// secondary document holds.
pub proof fn merge_keeps_primary_leaves(p: Tree, s: Tree, path: Seq<Seq<char>>)
    ensures
        p.get_path(path) is Some && !(p.get_path(path)->0 is Mapping) ==> merge_tree(
            p,
            s,
        ).get_path(path) == p.get_path(path),
{
    lemma_merge_keeps(p, s);
}

/// Merge precedence, gaps: where both documents hold a mapping at a path, a
/// key that only the secondary one has there appears in the merge with its
/// value unchanged. The secondary document's mappings must have unique keys:
/// where one key occurs twice, both entries are merged into the result.
pub proof fn merge_precedence(p: Tree, s: Tree, path: Seq<Seq<char>>, k: Seq<char>)
    requires
        well_formed(s),
    ensures
        ({
            &&& p.get_path(path) is Some
            &&& p.get_path(path)->0 is Mapping
            &&& !p.get_path(path)->0.contains(k)
            &&& s.get_path(path) is Some
            &&& s.get_path(path)->0 is Mapping
            &&& s.get_path(path)->0.contains(k)
        }) ==> merge_tree(p, s).get_path(path.push(k)) == s.get_path(path)->0.get(k),
{
    if p.get_path(path) matches Some(pm) && pm is Mapping && !pm.contains(k) {
        if s.get_path(path) matches Some(sm) && sm is Mapping && sm.contains(k) {
            lemma_merge_path_new_key(p, s, path, k);
        }
    }
}

/// Merging two documents whose mappings have unique keys gives one whose
/// mappings have unique keys.
pub proof fn merge_keeps_well_formed(p: Tree, s: Tree)
    requires
        well_formed(p),
        well_formed(s),
    ensures
        well_formed(merge_tree(p, s)),
    decreases s,
{
    match s {
        Tree::Mapping(se) => match p {
            Tree::Mapping(pe) => {
                lemma_merge_entries_well_formed(pe, se);
            },
            _ => {},
        },
        _ => {},
    }
}

proof fn lemma_merge_entries_well_formed(pe: Entries, se: Entries)
    requires
        well_formed(Tree::Mapping(pe)),
        forall|i: int| 0 <= i < se.len() ==> well_formed(#[trigger] se[i].1),
    ensures
        well_formed(Tree::Mapping(merge_entries(pe, se))),
    decreases se,
{
    if se.len() > 0 {
        let k = se[0].0;
        let v = se[0].1;
        let a = Tree::Mapping(pe);
        let next = match lookup(pe, k) {
            None => with_entry(pe, k, v),
            Some(c) => if c is Mapping && v is Mapping {
                with_entry(pe, k, merge_tree(c, v))
            } else {
                pe
            },
        };
        assert(well_formed(v));
        match lookup(pe, k) {
            None => {
                crate::tree::lemma_insert_well_formed(a, k, v);
            },
            Some(c) => {
                if c is Mapping && v is Mapping {
                    crate::tree::lemma_child_well_formed(a, k);
                    assert(decreases_to!(se => se[0]));
                    merge_keeps_well_formed(c, v);
                    crate::tree::lemma_insert_well_formed(a, k, merge_tree(c, v));
                }
            },
        }
        let rest = se.drop_first();
        assert forall|i: int| 0 <= i < rest.len() implies well_formed(#[trigger] rest[i].1) by {
            assert(rest[i] == se[i + 1]);
        }
        lemma_merge_entries_well_formed(next, rest);
    }
}

/// The merge is not commutative: with `x: 1` and `x: 2`, the primary
/// document's value wins either way round.
pub proof fn merge_not_commutative()
    ensures
        exists|a: Tree, b: Tree| merge_tree(a, b) != merge_tree(b, a),
{
    let x = seq!['x'];
    let a = Tree::Mapping(seq![(x, Tree::Number(seq!['1']))]);
    let b = Tree::Mapping(seq![(x, Tree::Number(seq!['2']))]);
    let sa = a->Mapping_0;
    let sb = b->Mapping_0;
    assert(is_first_key(sa, x, 0));
    lemma_index_of(sa, x, 0);
    assert(is_first_key(sb, x, 0));
    lemma_index_of(sb, x, 0);
    assert(sa.drop_first() =~= Seq::<(Seq<char>, Tree)>::empty());
    assert(sb.drop_first() =~= Seq::<(Seq<char>, Tree)>::empty());
    assert(merge_entries(sa, sb) == merge_entries(sa, sb.drop_first()));
    assert(merge_entries(sb, sa) == merge_entries(sb, sa.drop_first()));
    assert(merge_tree(a, b) == a);
    assert(merge_tree(b, a) == b);
    assert(seq!['1'] != seq!['2']) by {
        assert(seq!['1'][0] != seq!['2'][0]);
    }
    assert(a != b) by {
        assert(sa[0].1 != sb[0].1);
    }
}

} // verus!
