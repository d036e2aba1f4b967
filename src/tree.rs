use vstd::prelude::*;

verus! {

/// The mathematical model of a configuration document: a tree of mappings,
/// sequences and scalars. A mapping is a sequence of key/value entries in
/// document order.
pub enum Tree {
    Null,
    Bool(bool),
    Number(Seq<char>),
    Str(Seq<char>),
    Sequence(Seq<Tree>),
    Mapping(Seq<(Seq<char>, Tree)>),
}

/// The entries of a mapping node.
pub type Entries = Seq<(Seq<char>, Tree)>;

/// A configuration document. Numbers are held as their decimal text.
#[derive(Debug)]
pub enum ConfigValue {
    Null,
    Bool(bool),
    Number(String),
    Str(String),
    Sequence(Vec<ConfigValue>),
    Mapping(Vec<(String, ConfigValue)>),
}

impl View for ConfigValue {
    type V = Tree;

    open spec fn view(&self) -> Tree
        decreases self, 0nat,
    {
        match self {
            ConfigValue::Null => Tree::Null,
            ConfigValue::Bool(b) => Tree::Bool(*b),
            ConfigValue::Number(n) => Tree::Number(n@),
            ConfigValue::Str(s) => Tree::Str(s@),
            ConfigValue::Sequence(items) => Tree::Sequence(items_model(items@)),
            ConfigValue::Mapping(es) => Tree::Mapping(entries_model(es@)),
        }
    }
}

/// The model of the items of a sequence node.
pub open spec fn items_model(items: Seq<ConfigValue>) -> Seq<Tree>
    decreases items, items.len(),
{
    if items.len() == 0 {
        Seq::empty()
    } else {
        items_model(items.drop_last()).push(items.last().view())
    }
}

/// The model of the entries of a mapping node.
pub open spec fn entries_model(es: Seq<(String, ConfigValue)>) -> Entries
    decreases es, es.len(),
{
    if es.len() == 0 {
        Seq::empty()
    } else {
        entries_model(es.drop_last()).push((es.last().0@, es.last().1.view()))
    }
}

/// The model of a vector of mapping entries, entry by entry.
pub open spec fn entries_view(es: Seq<(String, ConfigValue)>) -> Entries {
    Seq::new(es.len(), |i: int| (es[i].0@, es[i].1@))
}

pub proof fn lemma_entries_model(es: Seq<(String, ConfigValue)>)
    ensures
        entries_model(es) == entries_view(es),
    decreases es.len(),
{
    if es.len() > 0 {
        let d = es.drop_last();
        lemma_entries_model(d);
        assert(entries_model(es) == entries_model(d).push((es.last().0@, es.last().1.view())));
        assert forall|i: int| 0 <= i < es.len() implies #[trigger] entries_model(es)[i]
            == entries_view(es)[i] by {
            if i < d.len() {
                assert(d[i] == es[i]);
                assert(entries_view(d)[i] == (d[i].0@, d[i].1@));
            }
        }
        assert(entries_model(es) =~= entries_view(es));
    } else {
        assert(entries_model(es) =~= entries_view(es));
    }
}

pub proof fn lemma_items_model(items: Seq<ConfigValue>)
    ensures
        items_model(items).len() == items.len(),
        forall|i: int| 0 <= i < items.len() ==> #[trigger] items_model(items)[i] == items[i]@,
    decreases items.len(),
{
    if items.len() > 0 {
        let d = items.drop_last();
        lemma_items_model(d);
        assert(items_model(items) == items_model(d).push(items.last().view()));
        assert forall|i: int| 0 <= i < items.len() implies #[trigger] items_model(items)[i]
            == items[i]@ by {
            if i < d.len() {
                assert(d[i] == items[i]);
            }
        }
    } else {
        assert(items_model(items) == Seq::<Tree>::empty());
    }
}

/// The model of a vector of items, item by item.
pub open spec fn items_view(items: Seq<ConfigValue>) -> Seq<Tree> {
    Seq::new(items.len(), |i: int| items[i]@)
}

pub proof fn lemma_sequence_view(items: Vec<ConfigValue>)
    ensures
        ConfigValue::Sequence(items)@ == Tree::Sequence(items_view(items@)),
{
    lemma_items_model(items@);
    assert(items_model(items@) =~= items_view(items@));
}

pub proof fn lemma_mapping_view(es: Vec<(String, ConfigValue)>)
    ensures
        ConfigValue::Mapping(es)@ == Tree::Mapping(entries_view(es@)),
{
    lemma_entries_model(es@);
}

/// `i` is the position of the first entry whose key is `k`.
pub open spec fn is_first_key(es: Entries, k: Seq<char>, i: int) -> bool {
    &&& 0 <= i < es.len()
    &&& es[i].0 == k
    &&& forall|j: int| 0 <= j < i ==> es[j].0 != k
}

/// Position of the first entry with key `k`, or -1.
pub open spec fn index_of(es: Entries, k: Seq<char>) -> int {
    if exists|i: int| is_first_key(es, k, i) {
        choose|i: int| is_first_key(es, k, i)
    } else {
        -1
    }
}

pub open spec fn has_key(es: Entries, k: Seq<char>) -> bool {
    exists|i: int| 0 <= i < es.len() && es[i].0 == k
}

/// Value of the first entry with key `k`.
pub open spec fn lookup(es: Entries, k: Seq<char>) -> Option<Tree> {
    if index_of(es, k) >= 0 {
        Some(es[index_of(es, k)].1)
    } else {
        None
    }
}

/// The entries without any entry of key `k`.
pub open spec fn without(es: Entries, k: Seq<char>) -> Entries {
    es.filter(|e: (Seq<char>, Tree)| e.0 != k)
}

/// Sets key `k` to `v`: in place of the first entry of that key, or appended.
pub open spec fn with_entry(es: Entries, k: Seq<char>, v: Tree) -> Entries {
    if index_of(es, k) >= 0 {
        es.update(index_of(es, k), (k, v))
    } else {
        es.push((k, v))
    }
}

pub proof fn lemma_index_of(es: Entries, k: Seq<char>, i: int)
    requires
        is_first_key(es, k, i),
    ensures
        index_of(es, k) == i,
{
    let c = choose|i: int| is_first_key(es, k, i);
    assert(is_first_key(es, k, c));
    if c < i {
        assert(es[c].0 != k);
    } else if i < c {
        assert(es[i].0 != k);
    }
}

pub proof fn lemma_index_of_absent(es: Entries, k: Seq<char>)
    requires
        forall|j: int| 0 <= j < es.len() ==> es[j].0 != k,
    ensures
        index_of(es, k) == -1,
{
}

pub proof fn lemma_index_of_bounds(es: Entries, k: Seq<char>)
    ensures
        index_of(es, k) >= 0 ==> is_first_key(es, k, index_of(es, k)),
        index_of(es, k) < 0 ==> index_of(es, k) == -1 && !has_key(es, k),
        has_key(es, k) <==> index_of(es, k) >= 0,
{
    if has_key(es, k) {
        let w = choose|i: int| 0 <= i < es.len() && es[i].0 == k;
        lemma_first_exists(es, k, w);
    }
}

proof fn lemma_first_exists(es: Entries, k: Seq<char>, w: int)
    requires
        0 <= w < es.len(),
        es[w].0 == k,
    ensures
        exists|i: int| is_first_key(es, k, i),
    decreases w,
{
    if forall|j: int| 0 <= j < w ==> es[j].0 != k {
        assert(is_first_key(es, k, w));
    } else {
        let j = choose|j: int| 0 <= j < w && es[j].0 == k;
        lemma_first_exists(es, k, j);
    }
}

impl Tree {
    pub open spec fn is_mapping(self) -> bool {
        self is Mapping
    }

    /// Value under key `k` of a mapping; absent for any other node.
    pub open spec fn get(self, k: Seq<char>) -> Option<Tree> {
        match self {
            Tree::Mapping(es) => lookup(es, k),
            _ => None,
        }
    }

    pub open spec fn contains(self, k: Seq<char>) -> bool {
        self.get(k) is Some
    }

    /// Removes key `k` from a mapping; any other node is unchanged.
    pub open spec fn remove(self, k: Seq<char>) -> Tree {
        match self {
            Tree::Mapping(es) => Tree::Mapping(without(es, k)),
            _ => self,
        }
    }

    /// Sets key `k` of a mapping to `v`; any other node is unchanged.
    pub open spec fn insert(self, k: Seq<char>, v: Tree) -> Tree {
        match self {
            Tree::Mapping(es) => Tree::Mapping(with_entry(es, k, v)),
            _ => self,
        }
    }

    /// Sets key `k` to `v` only where a mapping lacks it.
    pub open spec fn insert_if_absent(self, k: Seq<char>, v: Tree) -> Tree {
        if self.contains(k) {
            self
        } else {
            self.insert(k, v)
        }
    }

    /// The node that a path of keys leads to; absent at the first missing
    /// key or non-mapping node on the way.
    pub open spec fn get_path(self, path: Seq<Seq<char>>) -> Option<Tree>
        decreases path.len(),
    {
        if path.len() == 0 {
            Some(self)
        } else {
            match self.get(path[0]) {
                Some(c) => c.get_path(path.drop_first()),
                None => None,
            }
        }
    }
}

/// No two entries share a key.
pub open spec fn unique_keys(es: Entries) -> bool {
    forall|i: int, j: int| 0 <= i < j < es.len() ==> es[i].0 != es[j].0
}

/// Every mapping of the tree has unique keys.
pub open spec fn well_formed(t: Tree) -> bool
    decreases t,
{
    match t {
        Tree::Mapping(es) => unique_keys(es) && forall|i: int|
            0 <= i < es.len() ==> well_formed(#[trigger] es[i].1),
        Tree::Sequence(items) => forall|i: int| 0 <= i < items.len() ==> well_formed(#[trigger] items[i]),
        _ => true,
    }
}

pub open spec fn empty_mapping() -> Tree {
    Tree::Mapping(Seq::empty())
}

/// Takes the document out of `v`, leaving `Null` in its place.
pub fn take(v: &mut ConfigValue) -> (r: ConfigValue)
    ensures
        r == *old(v),
        *final(v) == ConfigValue::Null,
{
    let mut t = ConfigValue::Null;
    std::mem::swap(v, &mut t);
    t
}

/// Position of the first entry of key `key`.
pub fn find_key(es: &Vec<(String, ConfigValue)>, key: &String) -> (r: Option<usize>)
    ensures
        match r {
            Some(i) => is_first_key(entries_view(es@), key@, i as int) && index_of(
                entries_view(es@),
                key@,
            ) == i as int,
            None => index_of(entries_view(es@), key@) == -1 && !has_key(
                entries_view(es@),
                key@,
            ),
        },
{
    let ghost m = entries_view(es@);
    let mut i: usize = 0;
    while i < es.len()
        invariant
            0 <= i <= es@.len(),
            m == entries_view(es@),
            forall|j: int| 0 <= j < i ==> m[j].0 != key@,
        decreases es@.len() - i,
    {
        if es[i].0 == *key {
            proof {
                assert(is_first_key(m, key@, i as int));
                lemma_index_of(m, key@, i as int);
            }
            return Some(i);
        }
        i = i + 1;
    }
    proof {
        lemma_index_of_absent(m, key@);
    }
    None
}

impl ConfigValue {
    pub fn new_mapping() -> (r: ConfigValue)
        ensures
            r@ == empty_mapping(),
    {
        let es: Vec<(String, ConfigValue)> = Vec::new();
        let r = ConfigValue::Mapping(es);
        proof {
            assert(r@->Mapping_0 =~= Seq::<(Seq<char>, Tree)>::empty());
        }
        r
    }

    pub fn is_mapping(&self) -> (r: bool)
        ensures
            r == self@.is_mapping(),
    {
        match self {
            ConfigValue::Mapping(_) => true,
            _ => false,
        }
    }

    /// Value under `key` where `self` is a mapping that holds it.
    pub fn get(&self, key: &String) -> (r: Option<&ConfigValue>)
        ensures
            match r {
                Some(c) => self@.get(key@) == Some(c@),
                None => self@.get(key@) is None,
            },
    {
        match self {
            ConfigValue::Mapping(es) => {
                proof {
                    lemma_mapping_view(*es);
                }
                match find_key(es, key) {
                    Some(i) => Some(&es[i].1),
                    None => None,
                }
            },
            _ => None,
        }
    }

    pub fn contains_key(&self, key: &String) -> (r: bool)
        ensures
            r == self@.contains(key@),
    {
        self.get(key).is_some()
    }

    /// Sets `key` to `value` where `self` is a mapping.
    pub fn insert(&mut self, key: String, value: ConfigValue)
        ensures
            final(self)@ == old(self)@.insert(key@, value@),
    {
        match self {
            ConfigValue::Mapping(es) => {
                let ghost m = entries_view(es@);
                let ghost es0 = *es;
                proof {
                    lemma_mapping_view(es0);
                }
                match find_key(es, &key) {
                    Some(i) => {
                        es.set(i, (key, value));
                        proof {
                            assert(entries_view(es@) =~= m.update(i as int, (key@, value@)));
                        }
                    },
                    None => {
                        es.push((key, value));
                        proof {
                            assert(entries_view(es@) =~= m.push((key@, value@)));
                        }
                    },
                }
                proof {
                    lemma_mapping_view(*es);
                }
            },
            _ => {},
        }
    }
}


/// Filtering a prefix one element longer.
pub proof fn lemma_without_step(es: Entries, k: Seq<char>, i: int)
    requires
        0 <= i < es.len(),
    ensures
        without(es.subrange(0, i + 1), k) == if es[i].0 != k {
            without(es.subrange(0, i), k).push(es[i])
        } else {
            without(es.subrange(0, i), k)
        },
{
    let s = es.subrange(0, i + 1);
    assert(s.drop_last() =~= es.subrange(0, i));
    reveal(Seq::filter);
}

/// Removing a key that no entry has leaves the entries as they are.
pub proof fn lemma_without_absent(es: Entries, k: Seq<char>)
    requires
        !has_key(es, k),
    ensures
        without(es, k) == es,
    decreases es.len(),
{
    reveal(Seq::filter);
    if es.len() > 0 {
        let d = es.drop_last();
        assert(!has_key(d, k)) by {
            if has_key(d, k) {
                let j = choose|j: int| 0 <= j < d.len() && d[j].0 == k;
                assert(es[j].0 == k);
            }
        }
        lemma_without_absent(d, k);
        assert(es.last().0 != k) by {
            assert(es[es.len() - 1].0 != k);
        }
        assert(es =~= d.push(es.last()));
    }
}

/// No entry of key `k` is left after removing `k`.
pub proof fn lemma_without_removes(es: Entries, k: Seq<char>)
    ensures
        !has_key(without(es, k), k),
        forall|j: int| 0 <= j < without(es, k).len() ==> without(es, k)[j].0 != k,
{
    let p = |e: (Seq<char>, Tree)| e.0 != k;
    es.filter_lemma(p);
}

/// Removing one key does not change what another key holds.
pub proof fn lemma_without_lookup(es: Entries, k: Seq<char>, other: Seq<char>)
    requires
        k != other,
    ensures
        lookup(without(es, k), other) == lookup(es, other),
    decreases es.len(),
{
    reveal(Seq::filter);
    if es.len() > 0 {
        let d = es.drop_last();
        lemma_without_lookup(d, k, other);
        lemma_lookup_push(d, es.last(), other);
        assert(es =~= d.push(es.last()));
        lemma_index_of_bounds(d, other);
        lemma_index_of_bounds(without(d, k), other);
        if es.last().0 != k {
            lemma_lookup_push(without(d, k), es.last(), other);
        }
    } else {
        assert(without(es, k) =~= es);
    }
}

/// Looking up in entries with one more entry at the end.
pub proof fn lemma_lookup_push(es: Entries, e: (Seq<char>, Tree), k: Seq<char>)
    ensures
        lookup(es.push(e), k) == if has_key(es, k) {
            lookup(es, k)
        } else if e.0 == k {
            Some(e.1)
        } else {
            None
        },
{
    let s = es.push(e);
    lemma_index_of_bounds(es, k);
    if has_key(es, k) {
        let i = index_of(es, k);
        assert(is_first_key(s, k, i));
        lemma_index_of(s, k, i);
    } else if e.0 == k {
        assert(is_first_key(s, k, es.len() as int));
        lemma_index_of(s, k, es.len() as int);
    } else {
        assert forall|j: int| 0 <= j < s.len() implies s[j].0 != k by {
            if j < es.len() {
                assert(s[j] == es[j]);
            }
        }
        lemma_index_of_absent(s, k);
    }
}

/// Facts on a mapping after `insert`.
pub proof fn lemma_insert_facts(t: Tree, k: Seq<char>, v: Tree)
    requires
        t.is_mapping(),
    ensures
        t.insert(k, v).get(k) == Some(v),
        forall|o: Seq<char>| o != k ==> #[trigger] t.insert(k, v).get(o) == t.get(o),
        t.insert(k, v).is_mapping(),
{
    let es = t->Mapping_0;
    lemma_index_of_bounds(es, k);
    let s = with_entry(es, k, v);
    if index_of(es, k) >= 0 {
        let i = index_of(es, k);
        assert(is_first_key(s, k, i));
        lemma_index_of(s, k, i);
        assert forall|o: Seq<char>| o != k implies #[trigger] lookup(s, o) == lookup(es, o) by {
            lemma_index_of_bounds(es, o);
            if index_of(es, o) >= 0 {
                let j = index_of(es, o);
                assert(is_first_key(s, o, j));
                lemma_index_of(s, o, j);
            } else {
                assert forall|j: int| 0 <= j < s.len() implies s[j].0 != o by {
                    if j != i {
                        assert(s[j] == es[j]);
                    }
                }
                lemma_index_of_absent(s, o);
            }
        }
    } else {
        lemma_lookup_push(es, (k, v), k);
        assert forall|o: Seq<char>| o != k implies #[trigger] lookup(s, o) == lookup(es, o) by {
            lemma_lookup_push(es, (k, v), o);
            lemma_index_of_bounds(es, o);
        }
    }
}

/// Facts on a mapping after `remove`.
pub proof fn lemma_remove_facts(t: Tree, k: Seq<char>)
    ensures
        t.remove(k).get(k) is None,
        forall|o: Seq<char>| o != k ==> #[trigger] t.remove(k).get(o) == t.get(o),
        t.remove(k).is_mapping() == t.is_mapping(),
        !t.contains(k) ==> t.remove(k) == t,
        t.remove(k).remove(k) == t.remove(k),
{
    if let Tree::Mapping(es) = t {
        lemma_without_removes(es, k);
        lemma_index_of_bounds(without(es, k), k);
        assert forall|o: Seq<char>| o != k implies #[trigger] t.remove(k).get(o) == t.get(o) by {
            lemma_without_lookup(es, k, o);
        }
        lemma_index_of_bounds(es, k);
        if !t.contains(k) {
            lemma_without_absent(es, k);
        }
        lemma_without_absent(without(es, k), k);
    }
}

/// Setting a key to the value it already holds changes nothing.
pub proof fn lemma_insert_same(t: Tree, k: Seq<char>)
    requires
        t.contains(k),
    ensures
        t.insert(k, t.get(k)->0) == t,
{
    let es = t->Mapping_0;
    lemma_index_of_bounds(es, k);
    let i = index_of(es, k);
    assert(es.update(i, (k, es[i].1)) =~= es);
}

/// A second `insert` of the same key overrides the first.
pub proof fn lemma_insert_insert(t: Tree, k: Seq<char>, v1: Tree, v2: Tree)
    ensures
        t.insert(k, v1).insert(k, v2) == t.insert(k, v2),
{
    if let Tree::Mapping(es) = t {
        lemma_index_of_bounds(es, k);
        let s = with_entry(es, k, v1);
        if index_of(es, k) >= 0 {
            let i = index_of(es, k);
            assert(is_first_key(s, k, i));
            lemma_index_of(s, k, i);
            assert(s.update(i, (k, v2)) =~= es.update(i, (k, v2)));
        } else {
            assert(is_first_key(s, k, es.len() as int));
            lemma_index_of(s, k, es.len() as int);
            assert(s.update(es.len() as int, (k, v2)) =~= es.push((k, v2)));
        }
    }
}

impl ConfigValue {
    /// Removes every entry of `key` where `self` is a mapping, and returns
    /// the value that a lookup of `key` gave before.
    pub fn remove(&mut self, key: &String) -> (r: Option<ConfigValue>)
        ensures
            opt_view(r) == old(self)@.get(key@),
            final(self)@ == old(self)@.remove(key@),
            r is None ==> final(self)@ == old(self)@,
    {
        proof {
            lemma_remove_facts(self@, key@);
        }
        match self {
            ConfigValue::Mapping(es) => {
                let ghost es0 = *es;
                let ghost m = entries_view(es0@);
                proof {
                    lemma_mapping_view(es0);
                    lemma_index_of_bounds(m, key@);
                }
                let mut src: Vec<(String, ConfigValue)> = Vec::new();
                std::mem::swap(es, &mut src);
                let mut out: Vec<(String, ConfigValue)> = Vec::new();
                let mut removed: Option<ConfigValue> = None;
                let ghost mut i: int = 0;
                proof {
                    assert(m.subrange(0, 0) =~= Seq::<(Seq<char>, Tree)>::empty());
                    reveal(Seq::filter);
                    assert(entries_view(out@) =~= without(m.subrange(0, 0), key@));
                    assert(src@ =~= es0@.subrange(0, es0@.len() as int));
                }
                while src.len() > 0
                    invariant
                        0 <= i <= es0@.len(),
                        m == entries_view(es0@),
                        src@ == es0@.subrange(i, es0@.len() as int),
                        entries_view(out@) == without(m.subrange(0, i), key@),
                        removed matches Some(c) ==> index_of(m, key@) >= 0 && index_of(m, key@)
                            < i && c@ == m[index_of(m, key@)].1,
                        removed is None ==> (index_of(m, key@) < 0 || index_of(m, key@) >= i),
                        index_of(m, key@) >= 0 ==> is_first_key(m, key@, index_of(m, key@)),
                        index_of(m, key@) < 0 ==> !has_key(m, key@),
                    decreases src@.len(),
                {
                    let e = src.remove(0);
                    proof {
                        assert(e == es0@[i]);
                        lemma_without_step(m, key@, i);
                    }
                    if e.0 == *key {
                        if removed.is_none() {
                            proof {
                                assert(m[i].0 == key@);
                                assert(is_first_key(m, key@, i));
                                lemma_index_of(m, key@, i);
                            }
                            removed = Some(e.1);
                        }
                    } else {
                        let ghost before = out@;
                        out.push(e);
                        proof {
                            assert(entries_view(out@) =~= entries_view(before).push(m[i]));
                        }
                    }
                    proof {
                        i = i + 1;
                        assert(src@ =~= es0@.subrange(i, es0@.len() as int));
                    }
                }
                proof {
                    assert(m.subrange(0, i) =~= m);
                }
                *es = out;
                proof {
                    lemma_mapping_view(*es);
                }
                removed
            },
            _ => None,
        }
    }

    /// Replaces the value under `key` by `Null`, in place, and returns it.
    pub fn take_child(&mut self, key: &String) -> (r: Option<ConfigValue>)
        ensures
            opt_view(r) == old(self)@.get(key@),
            r is Some ==> final(self)@ == old(self)@.insert(key@, Tree::Null),
            r is None ==> final(self)@ == old(self)@,
    {
        match self {
            ConfigValue::Mapping(es) => {
                let ghost es0 = *es;
                let ghost m = entries_view(es0@);
                proof {
                    lemma_mapping_view(es0);
                }
                match find_key(es, key) {
                    Some(i) => {
                        let (k, c) = es.remove(i);
                        es.insert(i, (k, ConfigValue::Null));
                        proof {
                            assert(entries_view(es@) =~= m.update(i as int, (key@, Tree::Null)));
                            lemma_mapping_view(*es);
                        }
                        Some(c)
                    },
                    None => None,
                }
            },
            _ => None,
        }
    }

    /// A copy of the whole document.
    pub fn copy(&self) -> (r: ConfigValue)
        ensures
            r@ == self@,
        decreases self,
    {
        match self {
            ConfigValue::Null => ConfigValue::Null,
            ConfigValue::Bool(b) => ConfigValue::Bool(*b),
            ConfigValue::Number(n) => ConfigValue::Number(n.clone()),
            ConfigValue::Str(s) => ConfigValue::Str(s.clone()),
            ConfigValue::Sequence(items) => {
                let mut out: Vec<ConfigValue> = Vec::new();
                let mut i: usize = 0;
                while i < items.len()
                    invariant
                        *self == ConfigValue::Sequence(*items),
                        0 <= i <= items@.len(),
                        out@.len() == i,
                        forall|j: int| 0 <= j < i ==> #[trigger] out@[j]@ == items@[j]@,
                    decreases items@.len() - i,
                {
                    proof {
                        assert(decreases_to!(self => self->Sequence_0));
                        assert(decreases_to!(*items => items@));
                        assert(decreases_to!(items@ => items@[i as int]));
                        assert(decreases_to!(self => items@[i as int]));
                    }
                    let c = items[i].copy();
                    out.push(c);
                    i = i + 1;
                }
                proof {
                    lemma_sequence_view(*items);
                    lemma_sequence_view(out);
                    assert(items_view(out@) =~= items_view(items@));
                }
                ConfigValue::Sequence(out)
            },
            ConfigValue::Mapping(es) => {
                let mut out: Vec<(String, ConfigValue)> = Vec::new();
                let mut i: usize = 0;
                while i < es.len()
                    invariant
                        *self == ConfigValue::Mapping(*es),
                        0 <= i <= es@.len(),
                        out@.len() == i,
                        forall|j: int|
                            0 <= j < i ==> #[trigger] out@[j].0@ == es@[j].0@ && out@[j].1@
                                == es@[j].1@,
                    decreases es@.len() - i,
                {
                    proof {
                        assert(decreases_to!(self => self->Mapping_0));
                        assert(decreases_to!(*es => es@));
                        assert(decreases_to!(es@ => es@[i as int]));
                        assert(decreases_to!(es@[i as int] => es@[i as int].1));
                        assert(decreases_to!(self => es@[i as int].1));
                    }
                    let c = es[i].1.copy();
                    out.push((es[i].0.clone(), c));
                    i = i + 1;
                }
                proof {
                    lemma_mapping_view(*es);
                    lemma_mapping_view(out);
                    assert(entries_view(out@) =~= entries_view(es@));
                }
                ConfigValue::Mapping(out)
            },
        }
    }

    /// Whether two documents are the same: see `same_value`.
    pub fn equals(&self, other: &ConfigValue) -> (r: bool)
        ensures
            r == same_value(self@, other@),
        decreases self,
    {
        match (self, other) {
            (ConfigValue::Null, ConfigValue::Null) => true,
            (ConfigValue::Bool(a), ConfigValue::Bool(b)) => *a == *b,
            (ConfigValue::Number(a), ConfigValue::Number(b)) => *a == *b,
            (ConfigValue::Str(a), ConfigValue::Str(b)) => *a == *b,
            (ConfigValue::Sequence(a), ConfigValue::Sequence(b)) => {
                proof {
                    lemma_sequence_view(*a);
                    lemma_sequence_view(*b);
                }
                if a.len() != b.len() {
                    return false;
                }
                let mut i: usize = 0;
                while i < a.len()
                    invariant
                        *self == ConfigValue::Sequence(*a),
                        *other == ConfigValue::Sequence(*b),
                        self@ == Tree::Sequence(items_view(a@)),
                        other@ == Tree::Sequence(items_view(b@)),
                        0 <= i <= a@.len(),
                        a@.len() == b@.len(),
                        forall|j: int| 0 <= j < i ==> same_value(#[trigger] items_view(a@)[j], items_view(b@)[j]),
                    decreases a@.len() - i,
                {
                    proof {
                        assert(decreases_to!(self => self->Sequence_0));
                        assert(decreases_to!(*a => a@));
                        assert(decreases_to!(a@ => a@[i as int]));
                        assert(decreases_to!(self => a@[i as int]));
                    }
                    if !a[i].equals(&b[i]) {
                        proof {
                            assert(!same_value(items_view(a@)[i as int], items_view(b@)[i as int]));
                        }
                        return false;
                    }
                    i = i + 1;
                }
                true
            },
            (ConfigValue::Mapping(a), ConfigValue::Mapping(b)) => {
                let ghost ea = entries_view(a@);
                let ghost eb = entries_view(b@);
                proof {
                    lemma_mapping_view(*a);
                    lemma_mapping_view(*b);
                }
                let mut i: usize = 0;
                while i < a.len()
                    invariant
                        *self == ConfigValue::Mapping(*a),
                        *other == ConfigValue::Mapping(*b),
                        ea == entries_view(a@),
                        eb == entries_view(b@),
                        self@ == Tree::Mapping(ea),
                        other@ == Tree::Mapping(eb),
                        0 <= i <= a@.len(),
                        forall|j: int|
                            0 <= j < i ==> lookup(eb, ea[j].0) is Some && same_value(
                                (#[trigger] ea[j]).1,
                                lookup(eb, ea[j].0)->0,
                            ),
                    decreases a@.len() - i,
                {
                    proof {
                        assert(decreases_to!(self => self->Mapping_0));
                        assert(decreases_to!(*a => a@));
                        assert(decreases_to!(a@ => a@[i as int]));
                        assert(decreases_to!(a@[i as int] => a@[i as int].1));
                        assert(decreases_to!(self => a@[i as int].1));
                    }
                    match find_key(b, &a[i].0) {
                        None => {
                            proof {
                                assert(lookup(eb, ea[i as int].0) is None);
                            }
                            return false;
                        },
                        Some(j) => {
                            proof {
                                assert(lookup(eb, ea[i as int].0) == Some(b@[j as int].1@));
                            }
                            if !a[i].1.equals(&b[j].1) {
                                return false;
                            }
                        },
                    }
                    i = i + 1;
                }
                let mut j: usize = 0;
                while j < b.len()
                    invariant
                        *self == ConfigValue::Mapping(*a),
                        *other == ConfigValue::Mapping(*b),
                        ea == entries_view(a@),
                        eb == entries_view(b@),
                        self@ == Tree::Mapping(ea),
                        other@ == Tree::Mapping(eb),
                        0 <= j <= b@.len(),
                        forall|m: int|
                            0 <= m < a@.len() ==> lookup(eb, ea[m].0) is Some && same_value(
                                (#[trigger] ea[m]).1,
                                lookup(eb, ea[m].0)->0,
                            ),
                        forall|m: int| 0 <= m < j ==> has_key(ea, (#[trigger] eb[m]).0),
                    decreases b@.len() - j,
                {
                    match find_key(a, &b[j].0) {
                        None => {
                            proof {
                                assert(eb[j as int].0 == b@[j as int].0@);
                                assert(!has_key(ea, eb[j as int].0));
                            }
                            return false;
                        },
                        Some(m) => {
                            proof {
                                assert(ea[m as int].0 == eb[j as int].0);
                            }
                        },
                    }
                    j = j + 1;
                }
                true
            },
            _ => false,
        }
    }
}

/// Two values are the same document: scalars equal, sequences item by item,
/// and mappings with the same keys and the same value under each, whatever
/// the order of their entries.
pub open spec fn same_value(a: Tree, b: Tree) -> bool
    decreases a,
{
    match a {
        Tree::Sequence(xa) => match b {
            Tree::Sequence(xb) => xa.len() == xb.len() && forall|i: int|
                0 <= i < xa.len() ==> same_value(#[trigger] xa[i], xb[i]),
            _ => false,
        },
        Tree::Mapping(ea) => match b {
            Tree::Mapping(eb) => (forall|i: int|
                0 <= i < ea.len() ==> lookup(eb, ea[i].0) is Some && same_value(
                    (#[trigger] ea[i]).1,
                    lookup(eb, ea[i].0)->0,
                )) && forall|j: int| 0 <= j < eb.len() ==> has_key(ea, (#[trigger] eb[j]).0),
            _ => false,
        },
        _ => a == b,
    }
}

/// The views of a vector of keys.
pub open spec fn keys_view(ks: Seq<String>) -> Seq<Seq<char>> {
    Seq::new(ks.len(), |i: int| ks[i]@)
}

/// Removes each of `ks`, in order, from a mapping.
pub open spec fn remove_all(t: Tree, ks: Seq<Seq<char>>) -> Tree
    decreases ks.len(),
{
    if ks.len() == 0 {
        t
    } else {
        remove_all(t, ks.drop_last()).remove(ks.last())
    }
}

pub proof fn lemma_remove_all_facts(t: Tree, ks: Seq<Seq<char>>)
    ensures
        forall|k: Seq<char>| ks.contains(k) ==> !(#[trigger] remove_all(t, ks).contains(k)),
        forall|k: Seq<char>| !ks.contains(k) ==> #[trigger] remove_all(t, ks).get(k) == t.get(k),
        remove_all(t, ks).is_mapping() == t.is_mapping(),
        (forall|k: Seq<char>| ks.contains(k) ==> !(#[trigger] t.contains(k))) ==> remove_all(t, ks)
            == t,
    decreases ks.len(),
{
    if ks.len() > 0 {
        let d = ks.drop_last();
        let r = remove_all(t, d);
        lemma_remove_all_facts(t, d);
        lemma_remove_facts(r, ks.last());
        assert(remove_all(t, ks) == r.remove(ks.last()));
        assert forall|k: Seq<char>| ks.contains(k) implies !(#[trigger] remove_all(t, ks).contains(
            k,
        )) by {
            if k != ks.last() {
                let i = choose|i: int| 0 <= i < ks.len() && ks[i] == k;
                assert(d[i] == k);
                assert(d.contains(k));
                assert(!r.contains(k));
                assert(r.remove(ks.last()).get(k) == r.get(k));
            }
        }
        assert forall|k: Seq<char>| !ks.contains(k) implies #[trigger] remove_all(t, ks).get(k)
            == t.get(k) by {
            assert(k != ks[ks.len() - 1]);
            if d.contains(k) {
                let i = choose|i: int| 0 <= i < d.len() && d[i] == k;
                assert(ks[i] == k);
            }
        }
        if forall|k: Seq<char>| ks.contains(k) ==> !(#[trigger] t.contains(k)) {
            assert forall|k: Seq<char>| d.contains(k) implies !(#[trigger] t.contains(k)) by {
                let i = choose|i: int| 0 <= i < d.len() && d[i] == k;
                assert(ks[i] == k);
                assert(ks.contains(k));
            }
            assert(ks.contains(ks.last())) by {
                assert(ks[ks.len() - 1] == ks.last());
            }
        }
    }
}

/// Removing the same keys a second time changes nothing.
pub proof fn lemma_remove_all_twice(t: Tree, ks: Seq<Seq<char>>)
    ensures
        remove_all(remove_all(t, ks), ks) == remove_all(t, ks),
{
    lemma_remove_all_facts(t, ks);
    lemma_remove_all_facts(remove_all(t, ks), ks);
}

/// Removes each key of `keys` from `v`, where `v` is a mapping.
pub fn remove_keys(v: &mut ConfigValue, keys: &Vec<String>)
    ensures
        final(v)@ == remove_all(old(v)@, keys_view(keys@)),
{
    let ghost t0 = v@;
    let ghost ks = keys_view(keys@);
    let mut i: usize = 0;
    proof {
        assert(ks.subrange(0, 0) =~= Seq::<Seq<char>>::empty());
    }
    while i < keys.len()
        invariant
            0 <= i <= keys@.len(),
            ks == keys_view(keys@),
            v@ == remove_all(t0, ks.subrange(0, i as int)),
        decreases keys@.len() - i,
    {
        v.remove(&keys[i]);
        proof {
            let s = ks.subrange(0, i + 1);
            assert(s.drop_last() =~= ks.subrange(0, i as int));
            assert(s.last() == keys@[i as int]@);
        }
        i = i + 1;
    }
    proof {
        assert(ks.subrange(0, keys@.len() as int) =~= ks);
    }
}

/// A key as an owned string.
pub fn key(name: &str) -> (r: String)
    ensures
        r@ == name@,
{
    String::from_str(name)
}

impl ConfigValue {
    /// Takes out the mapping under `key`, leaving `Null` in its place; where
    /// `key` holds no mapping, nothing changes.
    pub fn take_mapping_child(&mut self, key: &String) -> (r: Option<ConfigValue>)
        ensures
            r is Some ==> opt_view(r) == old(self)@.get(key@) && old(self)@.get(key@)->0 is Mapping
                && final(self)@ == old(self)@.insert(key@, Tree::Null),
            r is None ==> !(old(self)@.get(key@) is Some && old(self)@.get(key@)->0 is Mapping)
                && final(self)@ == old(self)@,
    {
        match self.take_child(key) {
            Some(c) => {
                if c.is_mapping() {
                    Some(c)
                } else {
                    let ghost mid = self@;
                    self.insert(key.clone(), c);
                    proof {
                        lemma_insert_insert(old(self)@, key@, Tree::Null, c@);
                        lemma_insert_same(old(self)@, key@);
                    }
                    None
                }
            },
            None => None,
        }
    }

    pub fn is_empty_mapping(&self) -> (r: bool)
        ensures
            r == (self@ == Tree::Mapping(Seq::empty())),
    {
        match self {
            ConfigValue::Mapping(es) => {
                proof {
                    lemma_mapping_view(*es);
                    if es@.len() == 0 {
                        assert(entries_view(es@) =~= Seq::<(Seq<char>, Tree)>::empty());
                    } else {
                        assert(entries_view(es@).len() != 0);
                    }
                }
                es.len() == 0
            },
            _ => false,
        }
    }

    pub fn is_empty_sequence(&self) -> (r: bool)
        ensures
            r == (self@ == Tree::Sequence(Seq::empty())),
    {
        match self {
            ConfigValue::Sequence(items) => {
                proof {
                    lemma_sequence_view(*items);
                    if items@.len() == 0 {
                        assert(items_view(items@) =~= Seq::<Tree>::empty());
                    } else {
                        assert(items_view(items@).len() != 0);
                    }
                }
                items.len() == 0
            },
            _ => false,
        }
    }

    /// Puts `c` back under `key` after `take_mapping_child`.
    pub fn put_child(&mut self, key: String, c: ConfigValue, Ghost(before): Ghost<Tree>)
        requires
            old(self)@ == before.insert(key@, Tree::Null),
        ensures
            final(self)@ == before.insert(key@, c@),
    {
        self.insert(key, c);
        proof {
            lemma_insert_insert(before, key@, Tree::Null, c@);
        }
    }
}


pub open spec fn opt_view(o: Option<ConfigValue>) -> Option<Tree> {
    match o {
        Some(c) => Some(c@),
        None => None,
    }
}

/// Adds each entry of `es`, in order, to a mapping, where the key is not
/// there yet: keys the mapping already has keep their values.
pub open spec fn fill_missing(t: Tree, es: Entries) -> Tree
    decreases es.len(),
{
    if es.len() == 0 {
        t
    } else {
        fill_missing(t, es.drop_last()).insert_if_absent(es.last().0, es.last().1)
    }
}

impl ConfigValue {
    /// Sets `key` to `value` where a mapping lacks `key`.
    pub fn insert_if_absent(&mut self, key: String, value: ConfigValue)
        ensures
            final(self)@ == old(self)@.insert_if_absent(key@, value@),
    {
        if !self.contains_key(&key) {
            self.insert(key, value);
        }
    }

    /// Adds every entry of `entries` whose key `self` lacks, in order, where
    /// `self` is a mapping.
    pub fn fill_entries(&mut self, entries: Vec<(String, ConfigValue)>)
        ensures
            final(self)@ == fill_missing(old(self)@, entries_view(entries@)),
    {
        let ghost t0 = self@;
        let ghost src = entries_view(entries@);
        let ghost n = entries@.len() as int;
        let mut rest = entries;
        let ghost mut i: int = 0;
        proof {
            assert(src.subrange(0, 0) =~= Seq::<(Seq<char>, Tree)>::empty());
            assert(entries_view(rest@) =~= src.subrange(0, n));
        }
        while rest.len() > 0
            invariant
                0 <= i <= n,
                n == src.len(),
                entries_view(rest@) == src.subrange(i, n),
                self@ == fill_missing(t0, src.subrange(0, i)),
            decreases rest@.len(),
        {
            let ghost before = rest@;
            let (k, v) = rest.remove(0);
            proof {
                assert(entries_view(before).len() == n - i);
                assert(i < n);
                assert(entries_view(before)[0] == (k@, v@));
                assert(src.subrange(i, n)[0] == src[i]);
                assert(src[i] == (k@, v@));
                let s = src.subrange(0, i + 1);
                assert(s.drop_last() =~= src.subrange(0, i));
                assert(s.last() == src[i]);
                assert forall|j: int| 0 <= j < rest@.len() implies entries_view(rest@)[j]
                    == src.subrange(i + 1, n)[j] by {
                    assert(rest@[j] == before[j + 1]);
                    assert(entries_view(before)[j + 1] == src.subrange(i, n)[j + 1]);
                }
                assert(entries_view(rest@) =~= src.subrange(i + 1, n));
            }
            self.insert_if_absent(k, v);
            proof {
                i = i + 1;
            }
        }
        proof {
            assert(src.subrange(0, n) =~= src);
        }
    }

    /// Takes the entries out of a mapping, leaving it empty.
    pub fn take_entries(self) -> (r: Option<Vec<(String, ConfigValue)>>)
        ensures
            self@ is Mapping <==> r is Some,
            r matches Some(es) ==> self@ == Tree::Mapping(entries_view(es@)),
    {
        match self {
            ConfigValue::Mapping(es) => {
                proof {
                    lemma_mapping_view(es);
                }
                Some(es)
            },
            _ => None,
        }
    }
}


impl ConfigValue {
    /// The text of a string scalar.
    pub fn as_str(&self) -> (r: Option<&str>)
        ensures
            match r {
                Some(t) => self@ == Tree::Str(t@),
                None => !(self@ is Str),
            },
    {
        match self {
            ConfigValue::Str(s) => Some(s.as_str()),
            _ => None,
        }
    }

    /// The value of a boolean scalar.
    pub fn as_bool(&self) -> (r: Option<bool>)
        ensures
            match r {
                Some(b) => self@ == Tree::Bool(b),
                None => !(self@ is Bool),
            },
    {
        match self {
            ConfigValue::Bool(b) => Some(*b),
            _ => None,
        }
    }
}


impl Clone for ConfigValue {
    fn clone(&self) -> (r: Self)
        ensures
            r@ == self@,
    {
        self.copy()
    }
}


/// Every entry left after removing `k` was there before.
pub proof fn lemma_without_from(es: Entries, k: Seq<char>)
    ensures
        forall|i: int| 0 <= i < without(es, k).len() ==> es.contains(#[trigger] without(es, k)[i]),
    decreases es.len(),
{
    reveal(Seq::filter);
    if es.len() > 0 {
        let d = es.drop_last();
        lemma_without_from(d, k);
        let w = without(es, k);
        let wd = without(d, k);
        assert forall|i: int| 0 <= i < w.len() implies es.contains(#[trigger] w[i]) by {
            if i < wd.len() {
                assert(w[i] == wd[i]);
                assert(d.contains(wd[i]));
                let j = choose|j: int| 0 <= j < d.len() && d[j] == wd[i];
                assert(es[j] == d[j]);
            } else {
                assert(w[i] == es.last());
                assert(es[es.len() - 1] == es.last());
            }
        }
    }
}

/// Removing a key keeps the keys unique.
pub proof fn lemma_without_unique(es: Entries, k: Seq<char>)
    requires
        unique_keys(es),
    ensures
        unique_keys(without(es, k)),
    decreases es.len(),
{
    reveal(Seq::filter);
    if es.len() > 0 {
        let d = es.drop_last();
        assert(unique_keys(d)) by {
            assert forall|i: int, j: int| 0 <= i < j < d.len() implies d[i].0 != d[j].0 by {
                assert(d[i] == es[i] && d[j] == es[j]);
            }
        }
        lemma_without_unique(d, k);
        lemma_without_from(d, k);
        let wd = without(d, k);
        let last = es.last();
        if last.0 != k {
            let w = wd.push(last);
            assert forall|i: int, j: int| 0 <= i < j < w.len() implies w[i].0 != w[j].0 by {
                if j == wd.len() {
                    assert(d.contains(wd[i]));
                    let m = choose|m: int| 0 <= m < d.len() && d[m] == wd[i];
                    assert(es[m] == d[m]);
                    assert(es[es.len() - 1] == last);
                } else {
                    assert(w[i] == wd[i] && w[j] == wd[j]);
                }
            }
        }
    }
}

/// Setting a key keeps the tree well formed.
pub proof fn lemma_insert_well_formed(t: Tree, k: Seq<char>, v: Tree)
    requires
        well_formed(t),
        well_formed(v),
    ensures
        well_formed(t.insert(k, v)),
{
    if let Tree::Mapping(es) = t {
        lemma_index_of_bounds(es, k);
        let s = with_entry(es, k, v);
        if index_of(es, k) >= 0 {
            let p = index_of(es, k);
            assert forall|i: int, j: int| 0 <= i < j < s.len() implies s[i].0 != s[j].0 by {
                assert(s[i].0 == es[i].0 && s[j].0 == es[j].0);
            }
            assert forall|i: int| 0 <= i < s.len() implies well_formed(#[trigger] s[i].1) by {
                if i != p {
                    assert(s[i] == es[i]);
                }
            }
        } else {
            assert forall|i: int, j: int| 0 <= i < j < s.len() implies s[i].0 != s[j].0 by {
                if j == es.len() {
                    assert(es[i].0 != k);
                } else {
                    assert(s[i] == es[i] && s[j] == es[j]);
                }
            }
            assert forall|i: int| 0 <= i < s.len() implies well_formed(#[trigger] s[i].1) by {
                if i < es.len() {
                    assert(s[i] == es[i]);
                }
            }
        }
    }
}

/// Removing a key keeps the tree well formed.
pub proof fn lemma_remove_well_formed(t: Tree, k: Seq<char>)
    requires
        well_formed(t),
    ensures
        well_formed(t.remove(k)),
{
    if let Tree::Mapping(es) = t {
        lemma_without_unique(es, k);
        lemma_without_from(es, k);
        let s = without(es, k);
        assert forall|i: int| 0 <= i < s.len() implies well_formed(#[trigger] s[i].1) by {
            assert(es.contains(s[i]));
            let j = choose|j: int| 0 <= j < es.len() && es[j] == s[i];
            assert(well_formed(es[j].1));
        }
    }
}

/// A child of a well-formed tree is well formed.
pub proof fn lemma_child_well_formed(t: Tree, k: Seq<char>)
    requires
        well_formed(t),
        t.get(k) is Some,
    ensures
        well_formed(t.get(k)->0),
{
    let es = t->Mapping_0;
    lemma_index_of_bounds(es, k);
    assert(well_formed(es[index_of(es, k)].1));
}

} // verus!
