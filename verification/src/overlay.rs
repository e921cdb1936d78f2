use vstd::prelude::*;

use crate::text::str_eq;

verus! {

// App-owned key/value storage that overlays a Live project (track category
// overrides first) without touching the `.als` file: namespaces of keyed
// values. Reading and writing the backing file happens outside.

/// One namespace: normally keyed values; anything else that the backing
/// file holds under a namespace's name is kept as it is.
pub enum Namespace<V> {
    Entries(Vec<(String, V)>),
    Other(V),
}

/// The view of a namespace: keys (as text) to values, or the other value.
pub enum NamespaceV<V> {
    Entries(Map<Seq<char>, V>),
    Other(V),
}

/// The map that a list of (key, value) pairs with distinct keys stands for.
pub open spec fn pairs_map<V>(s: Seq<(String, V)>) -> Map<Seq<char>, V>
    decreases s.len(),
{
    if s.len() == 0 {
        Map::empty()
    } else {
        pairs_map(s.drop_last()).insert(s.last().0@, s.last().1)
    }
}

/// No key occurs twice.
pub open spec fn distinct_keys<V>(s: Seq<(String, V)>) -> bool {
    forall|i: int, j: int| 0 <= i < j < s.len() ==> (#[trigger] s[i]).0@ != (#[trigger] s[j]).0@
}

pub open spec fn namespace_view<V>(n: Namespace<V>) -> NamespaceV<V> {
    match n {
        Namespace::Entries(e) => NamespaceV::Entries(pairs_map(e@)),
        Namespace::Other(v) => NamespaceV::Other(v),
    }
}

pub open spec fn namespace_wf<V>(n: Namespace<V>) -> bool {
    match n {
        Namespace::Entries(e) => distinct_keys(e@),
        Namespace::Other(_) => true,
    }
}

/// The overlay: namespaces by name.
pub struct Overlay<V> {
    namespaces: Vec<(String, Namespace<V>)>,
}

impl<V> View for Overlay<V> {
    type V = Map<Seq<char>, NamespaceV<V>>;

    closed spec fn view(&self) -> Map<Seq<char>, NamespaceV<V>> {
        pairs_map(self.namespaces@).map_values(|n: Namespace<V>| namespace_view(n))
    }
}

/// What `get` gives: the value under `key` in namespace `ns`, if the
/// namespace holds keyed values and one is under `key`.
pub open spec fn overlay_lookup<V>(o: Map<Seq<char>, NamespaceV<V>>, ns: Seq<char>, key: Seq<char>) -> Option<V> {
    if o.contains_key(ns) {
        match o[ns] {
            NamespaceV::Entries(m) => if m.contains_key(key) {
                Some(m[key])
            } else {
                None
            },
            NamespaceV::Other(_) => None,
        }
    } else {
        None
    }
}

/// `ns` is absent or holds keyed values (so a value can be set in it).
pub open spec fn settable<V>(o: Map<Seq<char>, NamespaceV<V>>, ns: Seq<char>) -> bool {
    o.contains_key(ns) ==> o[ns] is Entries
}

/// What `set` leaves: `key` maps to `value` in namespace `ns`, created
/// empty when absent.
pub open spec fn overlay_set<V>(o: Map<Seq<char>, NamespaceV<V>>, ns: Seq<char>, key: Seq<char>, value: V) -> Map<Seq<char>, NamespaceV<V>> {
    let entries = if o.contains_key(ns) {
        match o[ns] {
            NamespaceV::Entries(m) => m,
            NamespaceV::Other(_) => Map::empty(),
        }
    } else {
        Map::empty()
    };
    o.insert(ns, NamespaceV::Entries(entries.insert(key, value)))
}

/// What `remove` leaves: `key` gone from namespace `ns` when that holds
/// keyed values, and the namespace gone when that emptied it.
pub open spec fn overlay_remove<V>(o: Map<Seq<char>, NamespaceV<V>>, ns: Seq<char>, key: Seq<char>) -> Map<Seq<char>, NamespaceV<V>> {
    if o.contains_key(ns) {
        match o[ns] {
            NamespaceV::Entries(m) => if m.remove(key).dom().len() == 0 {
                o.remove(ns)
            } else {
                o.insert(ns, NamespaceV::Entries(m.remove(key)))
            },
            NamespaceV::Other(_) => o,
        }
    } else {
        o
    }
}

proof fn lemma_pairs_map<V>(s: Seq<(String, V)>)
    requires
        distinct_keys(s),
    ensures
        pairs_map(s).dom().finite(),
        pairs_map(s).dom().len() == s.len(),
        forall|k: Seq<char>| #[trigger] pairs_map(s).contains_key(k) <==> exists|i: int| 0 <= i < s.len() && (#[trigger] s[i]).0@ == k,
        forall|i: int| 0 <= i < s.len() ==> #[trigger] pairs_map(s)[s[i].0@] == s[i].1,
    decreases s.len(),
{
    if s.len() > 0 {
        let d = s.drop_last();
        assert(distinct_keys(d)) by {
            assert forall|i: int, j: int| 0 <= i < j < d.len() implies (#[trigger] d[i]).0@ != (#[trigger] d[j]).0@ by {
                assert(d[i] == s[i] && d[j] == s[j]);
            }
        }
        lemma_pairs_map(d);
        let last = s.last();
        assert(!pairs_map(d).contains_key(last.0@)) by {
            if pairs_map(d).contains_key(last.0@) {
                let i = choose|i: int| 0 <= i < d.len() && (#[trigger] d[i]).0@ == last.0@;
                assert(s[i].0@ != s[s.len() - 1].0@);
            }
        }
        assert forall|k: Seq<char>| #[trigger] pairs_map(s).contains_key(k) <==> exists|i: int| 0 <= i < s.len() && (#[trigger] s[i]).0@ == k by {
            if pairs_map(d).contains_key(k) {
                let i = choose|i: int| 0 <= i < d.len() && (#[trigger] d[i]).0@ == k;
                assert(s[i] == d[i]);
            }
            if exists|i: int| 0 <= i < s.len() && (#[trigger] s[i]).0@ == k {
                let i = choose|i: int| 0 <= i < s.len() && (#[trigger] s[i]).0@ == k;
                if i < s.len() - 1 {
                    assert(d[i] == s[i]);
                }
            }
        }
        assert forall|i: int| 0 <= i < s.len() implies #[trigger] pairs_map(s)[s[i].0@] == s[i].1 by {
            if i < s.len() - 1 {
                assert(d[i] == s[i]);
                assert(s[i].0@ != last.0@);
            }
        }
    }
}

proof fn lemma_pairs_map_push<V>(s: Seq<(String, V)>, key: String, value: V)
    requires
        distinct_keys(s),
        !pairs_map(s).contains_key(key@),
    ensures
        distinct_keys(s.push((key, value))),
        pairs_map(s.push((key, value))) == pairs_map(s).insert(key@, value),
{
    let t = s.push((key, value));
    lemma_pairs_map(s);
    assert forall|a: int, b: int| 0 <= a < b < t.len() implies (#[trigger] t[a]).0@ != (#[trigger] t[b]).0@ by {
        if b == s.len() {
            assert(t[a] == s[a]);
            if s[a].0@ == key@ {
                assert(pairs_map(s).contains_key(key@));
            }
        } else {
            assert(t[a] == s[a] && t[b] == s[b]);
        }
    }
    assert(t.drop_last() =~= s);
}

proof fn lemma_pairs_map_remove<V>(s: Seq<(String, V)>, i: int)
    requires
        distinct_keys(s),
        0 <= i < s.len(),
    ensures
        distinct_keys(s.remove(i)),
        pairs_map(s.remove(i)) == pairs_map(s).remove(s[i].0@),
{
    let t = s.remove(i);
    assert forall|a: int, b: int| 0 <= a < b < t.len() implies (#[trigger] t[a]).0@ != (#[trigger] t[b]).0@ by {
        let a2 = if a < i { a } else { a + 1 };
        let b2 = if b < i { b } else { b + 1 };
        assert(t[a] == s[a2] && t[b] == s[b2]);
        assert(s[a2].0@ != s[b2].0@);
    }
    lemma_pairs_map(s);
    lemma_pairs_map(t);
    assert forall|k: Seq<char>| #[trigger] pairs_map(t).contains_key(k) <==> pairs_map(s).remove(s[i].0@).contains_key(k) by {
        if exists|j: int| 0 <= j < t.len() && (#[trigger] t[j]).0@ == k {
            let j = choose|j: int| 0 <= j < t.len() && (#[trigger] t[j]).0@ == k;
            let j2 = if j < i { j } else { j + 1 };
            assert(t[j] == s[j2]);
            assert(s[j2].0@ != s[i].0@);
        }
        if exists|j: int| 0 <= j < s.len() && (#[trigger] s[j]).0@ == k && k != s[i].0@ {
            let j = choose|j: int| 0 <= j < s.len() && (#[trigger] s[j]).0@ == k && k != s[i].0@;
            if j < i {
                assert(t[j] == s[j]);
            } else {
                assert(j != i);
                assert(t[j - 1] == s[j]);
            }
        }
    }
    assert forall|k: Seq<char>| #[trigger] pairs_map(t).contains_key(k) implies pairs_map(t)[k] == pairs_map(s).remove(s[i].0@)[k] by {
        let j = choose|j: int| 0 <= j < t.len() && (#[trigger] t[j]).0@ == k;
        let j2 = if j < i { j } else { j + 1 };
        assert(t[j] == s[j2]);
        assert(pairs_map(t)[t[j].0@] == t[j].1);
        assert(pairs_map(s)[s[j2].0@] == s[j2].1);
    }
    assert(pairs_map(t) =~= pairs_map(s).remove(s[i].0@));
}

fn find_key<V>(s: &Vec<(String, V)>, key: &str) -> (r: Option<usize>)
    requires
        distinct_keys(s@),
    ensures
        match r {
            Some(i) => i < s@.len() && s@[i as int].0@ == key@,
            None => !pairs_map(s@).contains_key(key@),
        },
{
    proof {
        lemma_pairs_map(s@);
    }
    let mut i: usize = 0;
    while i < s.len()
        invariant
            0 <= i <= s@.len(),
            forall|j: int| 0 <= j < i ==> (#[trigger] s@[j]).0@ != key@,
        decreases s@.len() - i,
    {
        if str_eq(s[i].0.as_str(), key) {
            return Some(i);
        }
        i = i + 1;
    }
    None
}

impl<V> Overlay<V> {
    #[verifier::type_invariant]
    closed spec fn wf(self) -> bool {
        &&& distinct_keys(self.namespaces@)
        &&& forall|i: int| 0 <= i < self.namespaces@.len() ==> namespace_wf(#[trigger] self.namespaces@[i].1)
    }

    /// An empty overlay.
    pub fn new() -> (r: Self)
        ensures
            r@ == Map::<Seq<char>, NamespaceV<V>>::empty(),
    {
        let r = Overlay { namespaces: Vec::new() };
        assert(r@ =~= Map::<Seq<char>, NamespaceV<V>>::empty());
        r
    }

    /// The value under `key` in namespace `namespace`, if that namespace
    /// holds keyed values and one is under `key`.
    pub fn get(&self, namespace: &str, key: &str) -> (r: Option<&V>)
        ensures
            match r {
                Some(v) => overlay_lookup(self@, namespace@, key@) == Some(*v),
                None => overlay_lookup(self@, namespace@, key@) is None,
            },
    {
        proof {
            use_type_invariant(self);
            lemma_pairs_map(self.namespaces@);
        }
        match find_key(&self.namespaces, namespace) {
            Some(i) => {
                assert(self@[namespace@] == namespace_view(self.namespaces@[i as int].1));
                match &self.namespaces[i].1 {
                    Namespace::Entries(e) => {
                        assert(namespace_wf(self.namespaces@[i as int].1));
                        proof {
                            lemma_pairs_map(e@);
                        }
                        match find_key(e, key) {
                            Some(j) => Some(&e[j].1),
                            None => None,
                        }
                    },
                    Namespace::Other(_) => None,
                }
            },
            None => None,
        }
    }

    /// Whether a value can be set in namespace `namespace`: it is absent or
    /// holds keyed values.
    pub fn is_settable(&self, namespace: &str) -> (r: bool)
        ensures
            r == settable(self@, namespace@),
    {
        proof {
            use_type_invariant(self);
            lemma_pairs_map(self.namespaces@);
        }
        match find_key(&self.namespaces, namespace) {
            Some(i) => {
                assert(self@[namespace@] == namespace_view(self.namespaces@[i as int].1));
                match &self.namespaces[i].1 {
                    Namespace::Entries(_) => true,
                    Namespace::Other(_) => false,
                }
            },
            None => true,
        }
    }

    /// Sets `key` to `value` in namespace `namespace`, creating the
    /// namespace when absent. The namespace must hold keyed values.
    pub fn set(&mut self, namespace: String, key: String, value: V)
        requires
            settable(old(self)@, namespace@),
        ensures
            final(self)@ == overlay_set(old(self)@, namespace@, key@, value),
    {
        proof {
            use_type_invariant(&*self);
        }
        let ghost o = self@;
        let mut all: Vec<(String, Namespace<V>)> = Vec::new();
        std::mem::swap(&mut all, &mut self.namespaces);
        let ghost s = all@;
        proof {
            lemma_pairs_map(s);
        }
        let mut entries: Vec<(String, V)> = Vec::new();
        let mut rest = all;
        let found = find_key(&rest, namespace.as_str());
        match found {
            Some(i) => {
                let (_, ns) = rest.remove(i);
                proof {
                    lemma_pairs_map_remove(s, i as int);
                    assert(o[namespace@] == namespace_view(s[i as int].1));
                }
                match ns {
                    Namespace::Entries(e) => {
                        entries = e;
                    },
                    Namespace::Other(_) => {
                        assert(false);
                    },
                }
            },
            None => {},
        }
        let ghost e0 = entries@;
        assert(distinct_keys(e0));
        let ghost base = if o.contains_key(namespace@) {
            match o[namespace@] {
                NamespaceV::Entries(m) => m,
                NamespaceV::Other(_) => Map::empty(),
            }
        } else {
            Map::empty()
        };
        assert(pairs_map(e0) == base);
        match find_key(&entries, key.as_str()) {
            Some(j) => {
                proof {
                    lemma_pairs_map_remove(e0, j as int);
                }
                let _ = entries.remove(j);
            },
            None => {},
        }
        let ghost e1 = entries@;
        proof {
            lemma_pairs_map(e1);
            lemma_pairs_map_push(e1, key, value);
        }
        entries.push((key, value));
        assert(pairs_map(entries@) =~= base.insert(key@, value));
        let ghost r = rest@;
        assert(!pairs_map(r).contains_key(namespace@));
        proof {
            lemma_pairs_map_push(r, namespace, Namespace::Entries(entries));
        }
        rest.push((namespace, Namespace::Entries(entries)));
        assert forall|i: int| 0 <= i < rest@.len() implies namespace_wf(#[trigger] rest@[i].1) by {
            if i < r.len() {
                assert(rest@[i] == r[i]);
            }
        }
        self.namespaces = rest;
        assert(self@ =~= overlay_set(o, namespace@, key@, value));
    }

    /// Removes `key` from namespace `namespace` when that holds keyed
    /// values, and drops the namespace when that leaves it empty.
    pub fn remove(&mut self, namespace: &str, key: &str)
        ensures
            final(self)@ == overlay_remove(old(self)@, namespace@, key@),
    {
        proof {
            use_type_invariant(&*self);
        }
        let ghost o = self@;
        let i = match find_key(&self.namespaces, namespace) {
            Some(i) => i,
            None => {
                return;
            },
        };
        proof {
            lemma_pairs_map(self.namespaces@);
            assert(o[namespace@] == namespace_view(self.namespaces@[i as int].1));
        }
        let is_entries = match &self.namespaces[i].1 {
            Namespace::Entries(_) => true,
            Namespace::Other(_) => false,
        };
        if !is_entries {
            return;
        }
        let mut all: Vec<(String, Namespace<V>)> = Vec::new();
        std::mem::swap(&mut all, &mut self.namespaces);
        let ghost s = all@;
        proof {
            lemma_pairs_map_remove(s, i as int);
        }
        let (name, ns) = all.remove(i);
        let ghost r = all@;
        let mut entries = match ns {
            Namespace::Entries(e) => e,
            Namespace::Other(_) => Vec::new(),
        };
        let ghost e0 = entries@;
        assert(distinct_keys(e0));
        match find_key(&entries, key) {
            Some(j) => {
                proof {
                    lemma_pairs_map_remove(e0, j as int);
                }
                let _ = entries.remove(j);
            },
            None => {
                assert(pairs_map(e0).remove(key@) =~= pairs_map(e0));
            },
        }
        proof {
            lemma_pairs_map(entries@);
        }
        assert(pairs_map(entries@) == pairs_map(e0).remove(key@));
        if entries.len() == 0 {
            assert forall|k: int| 0 <= k < all@.len() implies namespace_wf(#[trigger] all@[k].1) by {
                let k2 = if k < i { k } else { k + 1 };
                assert(all@[k] == s[k2]);
            }
            self.namespaces = all;
            assert(self@ =~= overlay_remove(o, namespace@, key@));
        } else {
            assert(!pairs_map(r).contains_key(name@));
            proof {
                lemma_pairs_map_push(r, name, Namespace::Entries(entries));
            }
            all.push((name, Namespace::Entries(entries)));
            assert forall|k: int| 0 <= k < all@.len() implies namespace_wf(#[trigger] all@[k].1) by {
                if k < r.len() {
                    let k2 = if k < i { k } else { k + 1 };
                    assert(all@[k] == s[k2]);
                }
            }
            self.namespaces = all;
            assert(self@ =~= overlay_remove(o, namespace@, key@));
        }
    }

    /// Sets namespace `namespace` to a value that does not hold keyed
    /// values, replacing whatever it held.
    pub fn put_other(&mut self, namespace: String, value: V)
        ensures
            final(self)@ == old(self)@.insert(namespace@, NamespaceV::Other(value)),
    {
        self.put_namespace(namespace, Namespace::Other(value));
    }

    /// Sets namespace `namespace` to hold no keyed values yet, replacing
    /// whatever it held.
    pub fn put_empty(&mut self, namespace: String)
        ensures
            final(self)@ == old(self)@.insert(namespace@, NamespaceV::Entries(Map::empty())),
    {
        let e: Vec<(String, V)> = Vec::new();
        assert(pairs_map(e@) =~= Map::<Seq<char>, V>::empty());
        self.put_namespace(namespace, Namespace::Entries(e));
    }

    fn put_namespace(&mut self, namespace: String, ns: Namespace<V>)
        requires
            namespace_wf(ns),
        ensures
            final(self)@ == old(self)@.insert(namespace@, namespace_view(ns)),
    {
        proof {
            use_type_invariant(&*self);
        }
        let ghost o = self@;
        let mut all: Vec<(String, Namespace<V>)> = Vec::new();
        std::mem::swap(&mut all, &mut self.namespaces);
        let ghost s = all@;
        proof {
            lemma_pairs_map(s);
        }
        match find_key(&all, namespace.as_str()) {
            Some(i) => {
                proof {
                    lemma_pairs_map_remove(s, i as int);
                }
                let _ = all.remove(i);
                assert forall|k: int| 0 <= k < all@.len() implies namespace_wf(#[trigger] all@[k].1) by {
                    let k2 = if k < i { k } else { k + 1 };
                    assert(all@[k] == s[k2]);
                }
            },
            None => {},
        }
        let ghost r = all@;
        proof {
            lemma_pairs_map(r);
            lemma_pairs_map_push(r, namespace, ns);
        }
        all.push((namespace, ns));
        assert forall|k: int| 0 <= k < all@.len() implies namespace_wf(#[trigger] all@[k].1) by {
            if k < r.len() {
                assert(all@[k] == r[k]);
            }
        }
        self.namespaces = all;
        assert(self@ =~= o.insert(namespace@, namespace_view(ns)));
    }

    /// The namespaces, each once, in storage order.
    pub fn namespaces(&self) -> (r: &Vec<(String, Namespace<V>)>)
        ensures
            distinct_keys(r@),
            forall|i: int| 0 <= i < r@.len() ==> namespace_wf(#[trigger] r@[i].1),
            self@ == pairs_map(r@).map_values(|n: Namespace<V>| namespace_view(n)),
    {
        proof {
            use_type_invariant(self);
        }
        &self.namespaces
    }
}

// ---------------------------------------------------------------------------
// Laws
// ---------------------------------------------------------------------------

/// A value that was set is what `get` gives back.
pub proof fn lemma_get_after_set<V>(o: Map<Seq<char>, NamespaceV<V>>, ns: Seq<char>, key: Seq<char>, value: V)
    requires
        settable(o, ns),
    ensures
        overlay_lookup(overlay_set(o, ns, key, value), ns, key) == Some(value),
{
}

/// Setting one key leaves every other (namespace, key) as it was.
pub proof fn lemma_set_keeps_others<V>(
    o: Map<Seq<char>, NamespaceV<V>>,
    ns: Seq<char>,
    key: Seq<char>,
    value: V,
    ns2: Seq<char>,
    key2: Seq<char>,
)
    requires
        settable(o, ns),
        ns2 != ns || key2 != key,
    ensures
        overlay_lookup(overlay_set(o, ns, key, value), ns2, key2) == overlay_lookup(o, ns2, key2),
{
}

/// After `remove`, `get` finds nothing under that key.
pub proof fn lemma_get_after_remove<V>(o: Map<Seq<char>, NamespaceV<V>>, ns: Seq<char>, key: Seq<char>)
    ensures
        overlay_lookup(overlay_remove(o, ns, key), ns, key) is None,
{
}

/// `remove` never leaves an emptied namespace behind: if the namespace
/// still holds keyed values afterwards, it holds at least one.
pub proof fn lemma_remove_prunes<V>(o: Map<Seq<char>, NamespaceV<V>>, ns: Seq<char>, key: Seq<char>)
    ensures
        overlay_remove(o, ns, key).contains_key(ns) && overlay_remove(o, ns, key)[ns] is Entries
            ==> overlay_remove(o, ns, key)[ns]->Entries_0.dom().len() > 0,
{
}

/// Setting a key in a namespace that did not exist and removing it again
/// gives back the overlay as it was.
pub proof fn lemma_set_then_remove<V>(o: Map<Seq<char>, NamespaceV<V>>, ns: Seq<char>, key: Seq<char>, value: V)
    requires
        !o.contains_key(ns),
    ensures
        overlay_remove(overlay_set(o, ns, key, value), ns, key) == o,
{
    let m = Map::<Seq<char>, V>::empty().insert(key, value);
    assert(m.remove(key) =~= Map::<Seq<char>, V>::empty());
    assert(overlay_set(o, ns, key, value).remove(ns) =~= o);
}

} // verus!
