use vstd::prelude::*;
use vstd::string::StrSliceExecFns;

use crate::text::{find_char, first_index_of, lemma_first_index_of, lemma_first_index_of_props};
use crate::tree::{
    empty_mapping, keys_view, lemma_insert_facts, lemma_insert_insert, ConfigValue, Tree,
};

verus! {

/// The segments of a dot-separated path.
pub open spec fn split_path(s: Seq<char>) -> Seq<Seq<char>>
    decreases s.len(),
{
    let i = first_index_of(s, '.');
    if 0 <= i < s.len() {
        seq![s.subrange(0, i)] + split_path(s.subrange(i + 1, s.len() as int))
    } else {
        seq![s]
    }
}

pub proof fn lemma_split_path_len(s: Seq<char>)
    ensures
        split_path(s).len() >= 1,
    decreases s.len(),
{
    let i = first_index_of(s, '.');
    if 0 <= i < s.len() {
        lemma_split_path_len(s.subrange(i + 1, s.len() as int));
    }
}

/// The segments of the dot-separated path `path`.
pub fn split_dotted(path: &str) -> (r: Vec<String>)
    ensures
        keys_view(r@) == split_path(path@),
{
    let n = path.unicode_len();
    let mut out: Vec<String> = Vec::new();
    let mut pos: usize = 0;
    proof {
        assert(path@.subrange(0, n as int) =~= path@);
        assert(keys_view(out@) =~= Seq::<Seq<char>>::empty());
    }
    loop
        invariant
            n == path@.len(),
            pos <= n,
            keys_view(out@) + split_path(path@.subrange(pos as int, n as int)) == split_path(
                path@,
            ),
        decreases n - pos,
    {
        let ghost t = path@.subrange(pos as int, n as int);
        proof {
            lemma_first_index_of_props(t, '.');
        }
        match find_char(path, '.', pos) {
            Some(i) => {
                proof {
                    assert forall|k: int| 0 <= k < i - pos implies t[k] != '.' by {
                        assert(t[k] == path@[pos + k]);
                    }
                    lemma_first_index_of(t, '.', i - pos);
                    assert(t.subrange(0, i - pos) =~= path@.subrange(pos as int, i as int));
                    assert(t.subrange(i - pos + 1, t.len() as int) =~= path@.subrange(
                        i + 1,
                        n as int,
                    ));
                }
                let seg = String::from_str(path.substring_char(pos, i));
                let ghost before = out@;
                out.push(seg);
                proof {
                    assert(keys_view(out@) =~= keys_view(before).push(seg@));
                    assert(keys_view(out@) + split_path(path@.subrange(i + 1, n as int))
                        =~= keys_view(before) + split_path(t));
                }
                pos = i + 1;
            },
            None => {
                proof {
                    assert(!t.contains('.')) by {
                        if t.contains('.') {
                            let k = choose|k: int| 0 <= k < t.len() && t[k] == '.';
                            assert(path@[pos + k] == '.');
                        }
                    }
                }
                let seg = String::from_str(path.substring_char(pos, n));
                let ghost before = out@;
                out.push(seg);
                proof {
                    assert(keys_view(out@) =~= keys_view(before) + split_path(t));
                }
                return out;
            },
        }
    }
}

/// The node at `path`: absent at the first missing key or non-mapping node.
pub fn get_at<'a>(value: &'a ConfigValue, segs: &Vec<String>) -> (r: Option<&'a ConfigValue>)
    ensures
        match r {
            Some(c) => value@.get_path(keys_view(segs@)) == Some(c@),
            None => value@.get_path(keys_view(segs@)) is None,
        },
{
    let ghost ks = keys_view(segs@);
    let mut cur = value;
    let mut i: usize = 0;
    proof {
        assert(ks.subrange(0, 0) =~= Seq::<Seq<char>>::empty());
    }
    while i < segs.len()
        invariant
            0 <= i <= segs@.len(),
            ks == keys_view(segs@),
            value@.get_path(ks.subrange(0, i as int)) == Some(cur@),
        decreases segs@.len() - i,
    {
        proof {
            lemma_get_path_push(value@, ks.subrange(0, i as int), ks[i as int]);
            assert(ks.subrange(0, i + 1) =~= ks.subrange(0, i as int).push(ks[i as int]));
        }
        match cur.get(&segs[i]) {
            Some(c) => {
                cur = c;
            },
            None => {
                proof {
                    lemma_get_path_none_extends(value@, ks, i + 1);
                }
                return None;
            },
        }
        i = i + 1;
    }
    proof {
        assert(ks.subrange(0, segs@.len() as int) =~= ks);
    }
    Some(cur)
}

pub proof fn lemma_get_path_push(t: Tree, path: Seq<Seq<char>>, k: Seq<char>)
    ensures
        t.get_path(path.push(k)) == match t.get_path(path) {
            Some(n) => n.get(k),
            None => None,
        },
    decreases path.len(),
{
    let q = path.push(k);
    if path.len() == 0 {
        assert(q.drop_first() =~= Seq::<Seq<char>>::empty());
        assert(q[0] == k);
        if t.get(k) is Some {
            let c = t.get(k)->0;
            assert(c.get_path(q.drop_first()) == Some(c));
        }
    } else {
        assert(q.drop_first() =~= path.drop_first().push(k));
        assert(q[0] == path[0]);
        match t.get(path[0]) {
            Some(c) => {
                lemma_get_path_push(c, path.drop_first(), k);
            },
            None => {},
        }
    }
}

/// A path whose prefix leads nowhere leads nowhere.
pub proof fn lemma_get_path_none_extends(t: Tree, ks: Seq<Seq<char>>, i: int)
    requires
        0 <= i <= ks.len(),
        t.get_path(ks.subrange(0, i)) is None,
    ensures
        t.get_path(ks) is None,
    decreases ks.len() - i,
{
    if i < ks.len() {
        lemma_get_path_push(t, ks.subrange(0, i), ks[i]);
        assert(ks.subrange(0, i + 1) =~= ks.subrange(0, i).push(ks[i]));
        lemma_get_path_none_extends(t, ks, i + 1);
    } else {
        assert(ks.subrange(0, i) =~= ks);
    }
}

/// Sets the value at `path`, creating the mappings on the way where they are
/// absent; where a node on the way is not a mapping, nothing changes.
pub open spec fn set_path(t: Tree, path: Seq<Seq<char>>, v: Tree) -> Tree
    decreases path.len(),
{
    if path.len() == 0 {
        v
    } else if !(t is Mapping) {
        t
    } else if path.len() == 1 {
        t.insert(path[0], v)
    } else {
        let c = match t.get(path[0]) {
            Some(c) => c,
            None => empty_mapping(),
        };
        if c is Mapping {
            t.insert(path[0], set_path(c, path.drop_first(), v))
        } else {
            t
        }
    }
}

/// Removes the value at `path`; where it is absent, nothing changes.
pub open spec fn remove_path(t: Tree, path: Seq<Seq<char>>) -> Tree
    decreases path.len(),
{
    if path.len() == 0 {
        t
    } else if path.len() == 1 {
        t.remove(path[0])
    } else {
        match t.get(path[0]) {
            Some(c) => if c is Mapping {
                t.insert(path[0], remove_path(c, path.drop_first()))
            } else {
                t
            },
            None => t,
        }
    }
}

fn set_from(t: &mut ConfigValue, segs: &Vec<String>, i: usize, v: ConfigValue)
    requires
        i <= segs@.len(),
    ensures
        final(t)@ == set_path(old(t)@, keys_view(segs@).subrange(i as int, segs@.len() as int), v@),
    decreases segs@.len() - i,
{
    let ghost ks = keys_view(segs@);
    let ghost p = ks.subrange(i as int, segs@.len() as int);
    if i == segs.len() {
        *t = v;
        return ;
    }
    if !t.is_mapping() {
        return ;
    }
    proof {
        assert(p[0] == segs@[i as int]@);
        assert(p.drop_first() =~= ks.subrange(i + 1, segs@.len() as int));
    }
    if i + 1 == segs.len() {
        t.insert(segs[i].clone(), v);
        return ;
    }
    let k = segs[i].clone();
    let ghost t0 = t@;
    t.insert_if_absent(k.clone(), ConfigValue::new_mapping());
    let ghost t1 = t@;
    proof {
        if !t0.contains(k@) {
            lemma_insert_facts(t0, k@, empty_mapping());
        }
    }
    if let Some(mut c) = t.take_mapping_child(&k) {
        set_from(&mut c, segs, i + 1, v);
        let ghost cv = c@;
        t.put_child(k, c, Ghost(t1));
        proof {
            if !t0.contains(k@) {
                lemma_insert_insert(t0, k@, empty_mapping(), cv);
            }
        }
    }
}

/// Sets the value at the path `segs`, as `set_path` says.
pub fn set_at(t: &mut ConfigValue, segs: &Vec<String>, v: ConfigValue)
    ensures
        final(t)@ == set_path(old(t)@, keys_view(segs@), v@),
{
    proof {
        assert(keys_view(segs@).subrange(0, segs@.len() as int) =~= keys_view(segs@));
    }
    set_from(t, segs, 0, v);
}

fn remove_from(t: &mut ConfigValue, segs: &Vec<String>, i: usize) -> (r: Option<ConfigValue>)
    requires
        i <= segs@.len(),
    ensures
        final(t)@ == remove_path(old(t)@, keys_view(segs@).subrange(i as int, segs@.len() as int)),
    decreases segs@.len() - i,
{
    let ghost ks = keys_view(segs@);
    let ghost p = ks.subrange(i as int, segs@.len() as int);
    if i == segs.len() {
        return None;
    }
    proof {
        assert(p[0] == segs@[i as int]@);
        assert(p.drop_first() =~= ks.subrange(i + 1, segs@.len() as int));
    }
    if i + 1 == segs.len() {
        return t.remove(&segs[i]);
    }
    let k = segs[i].clone();
    let ghost t0 = t@;
    if let Some(mut c) = t.take_mapping_child(&k) {
        let r = remove_from(&mut c, segs, i + 1);
        t.put_child(k, c, Ghost(t0));
        r
    } else {
        None
    }
}

/// Removes the value at the path `segs`, as `remove_path` says.
pub fn remove_at(t: &mut ConfigValue, segs: &Vec<String>)
    ensures
        final(t)@ == remove_path(old(t)@, keys_view(segs@)),
{
    proof {
        assert(keys_view(segs@).subrange(0, segs@.len() as int) =~= keys_view(segs@));
    }
    remove_from(t, segs, 0);
}

/// The node at a dot-separated path of `value`.
pub fn get_nested_value<'a>(value: &'a ConfigValue, path: &str) -> (r: Option<&'a ConfigValue>)
    ensures
        match r {
            Some(c) => value@.get_path(split_path(path@)) == Some(c@),
            None => value@.get_path(split_path(path@)) is None,
        },
{
    let segs = split_dotted(path);
    get_at(value, &segs)
}

/// Whether a dot-separated path leads to a node of `value`.
pub fn field_exists(value: &ConfigValue, path: &str) -> (r: bool)
    ensures
        r == value@.get_path(split_path(path@)) is Some,
{
    get_nested_value(value, path).is_some()
}


/// Neither path is a prefix of the other: they part at some segment.
pub open spec fn diverge(p: Seq<Seq<char>>, q: Seq<Seq<char>>) -> bool {
    exists|i: int| 0 <= i < p.len() && i < q.len() && p[i] != q[i]
}

/// After removing the value at a path, the path leads nowhere.
pub proof fn lemma_remove_path_absent(t: Tree, p: Seq<Seq<char>>)
    requires
        p.len() >= 1,
    ensures
        remove_path(t, p).get_path(p) is None,
    decreases p.len(),
{
    let rest = p.drop_first();
    if p.len() == 1 {
        crate::tree::lemma_remove_facts(t, p[0]);
        assert(remove_path(t, p) == t.remove(p[0]));
        assert(t.remove(p[0]).get(p[0]) is None);
        assert(t.remove(p[0]).get_path(p) is None);
    } else {
        match t.get(p[0]) {
            Some(c) => {
                if c is Mapping {
                    lemma_remove_path_absent(c, rest);
                    lemma_insert_facts(t, p[0], remove_path(c, rest));
                    assert(remove_path(t, p) == t.insert(p[0], remove_path(c, rest)));
                    assert(t.insert(p[0], remove_path(c, rest)).get(p[0]) == Some(remove_path(c, rest)));
                    assert(t.insert(p[0], remove_path(c, rest)).get_path(p) == remove_path(c, rest).get_path(rest));
                } else {
                    assert(c.get(rest[0]) is None);
                    assert(c.get_path(rest) is None);
                    assert(remove_path(t, p) == t);
                }
            },
            None => {
                assert(remove_path(t, p) == t);
            },
        }
    }
}

/// Setting the value at one path leaves what a diverging path leads to.
pub proof fn lemma_set_path_other(u: Tree, q: Seq<Seq<char>>, v: Tree, p: Seq<Seq<char>>)
    requires
        diverge(p, q),
    ensures
        set_path(u, q, v).get_path(p) == u.get_path(p),
    decreases q.len(),
{
    let i = choose|i: int| 0 <= i < p.len() && i < q.len() && p[i] != q[i];
    if !(u is Mapping) {
    } else if q.len() == 1 {
        assert(i == 0);
        lemma_insert_facts(u, q[0], v);
    } else if p[0] != q[0] {
        let c = match u.get(q[0]) {
            Some(c) => c,
            None => empty_mapping(),
        };
        if c is Mapping {
            lemma_insert_facts(u, q[0], set_path(c, q.drop_first(), v));
        }
    } else {
        let c = match u.get(q[0]) {
            Some(c) => c,
            None => empty_mapping(),
        };
        assert(i >= 1);
        let pr = p.drop_first();
        let qr = q.drop_first();
        assert(pr[i - 1] == p[i] && qr[i - 1] == q[i]);
        if c is Mapping {
            lemma_set_path_other(c, qr, v, pr);
            lemma_insert_facts(u, q[0], set_path(c, qr, v));
            if u.get(q[0]) is None {
                assert(empty_mapping().get(pr[0]) is None);
            }
        }
    }
}

} // verus!
