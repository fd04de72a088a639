//! Attribute names and the map from attribute name to value that an element holds.
use vstd::prelude::*;

verus! {

/// The name of an attribute: its local name, and the namespace and prefix it was written with.
#[derive(Debug, PartialEq, Eq, Hash)]
pub struct AttributeName {
    pub local_name: String,
    pub namespace: Option<String>,
    pub prefix: Option<String>,
}

/// An attribute name as mathematical values.
pub struct NameModel {
    pub local_name: Seq<char>,
    pub namespace: Option<Seq<char>>,
    pub prefix: Option<Seq<char>>,
}

impl View for AttributeName {
    type V = NameModel;

    open spec fn view(&self) -> NameModel {
        NameModel {
            local_name: self.local_name@,
            namespace: self.namespace.deep_view(),
            prefix: self.prefix.deep_view(),
        }
    }
}

/// A copy of an optional string.
pub fn opt_str_clone(a: &Option<String>) -> (r: Option<String>)
    ensures
        r.deep_view() == a.deep_view(),
{
    match a {
        Some(x) => Some(x.clone()),
        None => None,
    }
}

impl Clone for AttributeName {
    /// A copy with the same name.
    fn clone(&self) -> (r: AttributeName)
        ensures
            r@ == self@,
    {
        AttributeName {
            local_name: self.local_name.clone(),
            namespace: opt_str_clone(&self.namespace),
            prefix: opt_str_clone(&self.prefix),
        }
    }
}

/// Whether two optional strings are equal.
pub fn opt_str_eq(a: &Option<String>, b: &Option<String>) -> (r: bool)
    ensures
        r == (a.deep_view() == b.deep_view()),
{
    match (a, b) {
        (Some(x), Some(y)) => *x == *y,
        (None, None) => true,
        _ => false,
    }
}

/// Whether an optional string equals an optional `&str`.
pub fn opt_str_eq_ref(a: &Option<String>, b: Option<&str>) -> (r: bool)
    ensures
        r == (a.deep_view() == match b {
            Some(s) => Some(s@),
            None => None::<Seq<char>>,
        }),
{
    match (a, b) {
        (Some(x), Some(y)) => str_eq(x.as_str(), y),
        (None, None) => true,
        _ => false,
    }
}

/// Whether two strings hold the same characters.
pub fn str_eq(a: &str, b: &str) -> (r: bool)
    ensures
        r == (a@ == b@),
{
    let la = a.unicode_len();
    let lb = b.unicode_len();
    if la != lb {
        return false;
    }
    let mut i: usize = 0;
    while i < la
        invariant
            la == a@.len(),
            lb == b@.len(),
            la == lb,
            i <= la,
            a@.subrange(0, i as int) == b@.subrange(0, i as int),
        decreases la - i,
    {
        if a.get_char(i) != b.get_char(i) {
            assert(a@[i as int] != b@[i as int]);
            return false;
        }
        assert(a@.subrange(0, i + 1) == a@.subrange(0, i as int).push(a@[i as int]));
        assert(b@.subrange(0, i + 1) == b@.subrange(0, i as int).push(b@[i as int]));
        i = i + 1;
    }
    assert(a@ == a@.subrange(0, la as int));
    assert(b@ == b@.subrange(0, lb as int));
    true
}

impl AttributeName {
    /// The name with local name `name`, no namespace and no prefix.
    pub fn local(name: &str) -> (r: AttributeName)
        ensures
            r@ == (NameModel { local_name: name@, namespace: None, prefix: None }),
    {
        AttributeName { local_name: name.to_string(), namespace: None, prefix: None }
    }

    /// Whether `self` and `other` are the same name.
    pub fn same_as(&self, other: &AttributeName) -> (r: bool)
        ensures
            r == (self@ == other@),
    {
        self.local_name == other.local_name && opt_str_eq(&self.namespace, &other.namespace)
            && opt_str_eq(&self.prefix, &other.prefix)
    }
}

/// Whether no two entries have the same name.
pub open spec fn keys_unique(s: Seq<(NameModel, Seq<char>)>) -> bool {
    forall|i: int, j: int| 0 <= i < j < s.len() ==> #[trigger] s[i].0 != #[trigger] s[j].0
}

/// The index of the first entry named `k`, or -1 where there is none.
pub open spec fn index_of(s: Seq<(NameModel, Seq<char>)>, k: NameModel) -> int
    decreases s.len(),
{
    if s.len() == 0 {
        -1
    } else if index_of(s.drop_last(), k) >= 0 {
        index_of(s.drop_last(), k)
    } else if s.last().0 == k {
        s.len() - 1
    } else {
        -1
    }
}

/// What `index_of` finds: the first entry named `k`.
pub proof fn lemma_index_of(s: Seq<(NameModel, Seq<char>)>, k: NameModel)
    ensures
        -1 <= index_of(s, k) < s.len(),
        index_of(s, k) >= 0 ==> s[index_of(s, k)].0 == k,
        forall|j: int| 0 <= j < index_of(s, k) ==> s[j].0 != k,
        index_of(s, k) == -1 <==> forall|i: int| 0 <= i < s.len() ==> s[i].0 != k,
    decreases s.len(),
{
    if s.len() > 0 {
        lemma_index_of(s.drop_last(), k);
        assert forall|i: int| 0 <= i < s.len() - 1 implies s.drop_last()[i] == s[i] by {}
    }
}

/// The attributes of an element: a map from name to value, each name at most once, that keeps
/// the order in which names were first inserted.
#[derive(Debug, PartialEq, Eq)]
pub struct AttributeMap {
    entries: Vec<(AttributeName, String)>,
}

impl View for AttributeMap {
    type V = Seq<(NameModel, Seq<char>)>;

    closed spec fn view(&self) -> Seq<(NameModel, Seq<char>)> {
        entries_model(self.entries@)
    }
}

/// Attribute entries as mathematical values.
pub open spec fn entries_model(v: Seq<(AttributeName, String)>) -> Seq<(NameModel, Seq<char>)> {
    v.map_values(|e: (AttributeName, String)| (e.0@, e.1@))
}

impl AttributeMap {
    /// The value of the attribute named `k`, as a mathematical value.
    pub open spec fn lookup(&self, k: NameModel) -> Option<Seq<char>> {
        if index_of(self@, k) >= 0 {
            Some(self@[index_of(self@, k)].1)
        } else {
            None
        }
    }

    /// A map with no attribute.
    pub fn new() -> (r: AttributeMap)
        ensures
            r@ == Seq::<(NameModel, Seq<char>)>::empty(),
    {
        let entries: Vec<(AttributeName, String)> = Vec::new();
        assert(entries_model(entries@) =~= Seq::<(NameModel, Seq<char>)>::empty());
        AttributeMap { entries }
    }

    /// The number of attributes.
    pub fn len(&self) -> (r: usize)
        ensures
            r == self@.len(),
    {
        self.entries.len()
    }

    /// Whether there is no attribute.
    pub fn is_empty(&self) -> (r: bool)
        ensures
            r == (self@.len() == 0),
    {
        self.entries.len() == 0
    }

    /// The attributes in order, as (name, value).
    pub fn entries(&self) -> (r: &Vec<(AttributeName, String)>)
        ensures
            r@.len() == self@.len(),
            forall|i: int| 0 <= i < r@.len() ==> (#[trigger] r@[i]).0@ == self@[i].0 && r@[i].1@ == self@[i].1,
    {
        &self.entries
    }

    /// The position of the attribute named `k`, if any.
    fn position(&self, k: &AttributeName) -> (r: Option<usize>)
        ensures
            r is None ==> index_of(self@, k@) == -1,
            r is Some ==> r->0 == index_of(self@, k@),
            r is Some ==> r->0 < self@.len(),
    {
        proof {
            lemma_index_of(self@, k@);
        }
        let mut i: usize = 0;
        while i < self.entries.len()
            invariant
                i <= self.entries@.len(),
                self@ == entries_model(self.entries@),
                -1 <= index_of(self@, k@) < self@.len(),
                index_of(self@, k@) >= 0 ==> self@[index_of(self@, k@)].0 == k@,
                forall|j: int| 0 <= j < index_of(self@, k@) ==> self@[j].0 != k@,
                index_of(self@, k@) == -1 <==> forall|j: int| 0 <= j < self@.len() ==> self@[j].0 != k@,
                forall|j: int| 0 <= j < i ==> self@[j].0 != k@,
            decreases self.entries@.len() - i,
        {
            if self.entries[i].0.same_as(k) {
                assert(self@[i as int].0 == k@);
                return Some(i);
            }
            i = i + 1;
        }
        None
    }

    /// The value of the attribute named `k`, if any.
    pub fn get(&self, k: &AttributeName) -> (r: Option<&String>)
        ensures
            r is None <==> self.lookup(k@) is None,
            r is Some ==> self.lookup(k@) == Some(r->0@),
    {
        match self.position(k) {
            Some(i) => {
                assert(self@[i as int].1 == self.entries@[i as int].1@);
                Some(&self.entries[i].1)
            },
            None => None,
        }
    }

    /// The value of the attribute named `k`, to change in place, if there is one.
    pub fn get_mut(&mut self, k: &AttributeName) -> (r: Option<&mut String>)
        ensures
            r is None <==> old(self).lookup(k@) is None,
            r is None ==> final(self)@ == old(self)@,
            r is Some ==> old(self).lookup(k@) == Some(r->0@),
            r is Some ==> final(self)@ == old(self)@.update(index_of(old(self)@, k@), (k@, final(r->0)@)),
    {
        proof {
            lemma_index_of(self@, k@);
        }
        match self.position(k) {
            Some(i) => Some(self.value_mut_at(i)),
            None => None,
        }
    }

    /// The value of the attribute at `i`, to change in place.
    pub fn value_mut_at(&mut self, i: usize) -> (r: &mut String)
        requires
            i < old(self)@.len(),
        ensures
            r@ == old(self)@[i as int].1,
            final(self)@ == old(self)@.update(i as int, (old(self)@[i as int].0, final(r)@)),
    {
        let ghost before = self.entries@;
        let entry = &mut self.entries[i];
        let r = &mut entry.1;
        proof {
            lemma_entries_model_update(before, i as int, (before[i as int].0, *final(r)));
        }
        r
    }

    /// Sets the attribute named `k` to `v`; returns the value it had before, if any. A new name goes
    /// after all the others.
    pub fn insert(&mut self, k: AttributeName, v: String) -> (r: Option<String>)
        ensures
            final(self).lookup(k@) == Some(v@),
            r is None <==> old(self).lookup(k@) is None,
            r is Some ==> old(self).lookup(k@) == Some(r->0@),
            r is Some ==> final(self)@ == old(self)@.update(index_of(old(self)@, k@), (k@, v@)),
            r is None ==> final(self)@ == old(self)@.push((k@, v@)),
            keys_unique(old(self)@) ==> keys_unique(final(self)@),
    {
        proof {
            lemma_index_of(self@, k@);
        }
        let ghost old_view = self@;
        let ghost kv = k@;
        let ghost vv = v@;
        match self.position(&k) {
            Some(i) => {
                let old_e = self.entries.remove(i);
                assert(old_e.0@ == kv);
                self.entries.insert(i, (k, v));
                proof {
                    assert(self@ =~= old_view.update(i as int, (kv, vv)));
                    lemma_index_of(self@, kv);
                    assert forall|j: int| 0 <= j < i implies self@[j].0 != kv by {
                        assert(self@[j] == old_view[j]);
                    }
                    assert(index_of(self@, kv) == i) by {
                        if index_of(self@, kv) == -1 {
                            assert(self@[i as int].0 == kv);
                        }
                    }
                    if keys_unique(old_view) {
                        assert forall|a: int, b: int| 0 <= a < b < self@.len() implies #[trigger] self@[a].0 != #[trigger] self@[b].0 by {
                            assert(old_view[a].0 == self@[a].0);
                            assert(old_view[b].0 == self@[b].0);
                        }
                    }
                }
                Some(old_e.1)
            },
            None => {
                self.entries.push((k, v));
                proof {
                    assert(self@ =~= old_view.push((kv, vv)));
                    lemma_index_of(self@, kv);
                    assert forall|j: int| 0 <= j < old_view.len() implies self@[j].0 != kv by {
                        assert(self@[j] == old_view[j]);
                    }
                    assert(index_of(self@, kv) == old_view.len());
                }
                None
            },
        }
    }

    /// Removes the attribute named `k`; returns its value, if there was one. The other attributes
    /// keep their order.
    pub fn remove(&mut self, k: &AttributeName) -> (r: Option<String>)
        ensures
            r is None <==> old(self).lookup(k@) is None,
            r is Some ==> old(self).lookup(k@) == Some(r->0@),
            r is Some ==> final(self)@ == old(self)@.remove(index_of(old(self)@, k@)),
            r is None ==> final(self)@ == old(self)@,
            keys_unique(old(self)@) ==> final(self).lookup(k@) is None,
            keys_unique(old(self)@) ==> keys_unique(final(self)@),
    {
        proof {
            lemma_index_of(self@, k@);
        }
        match self.position(k) {
            Some(i) => {
                let e = self.remove_at(i);
                proof {
                    lemma_index_of(self@, k@);
                    if keys_unique(old(self)@) {
                        assert forall|j: int| 0 <= j < self@.len() implies self@[j].0 != k@ by {
                            if j < i {
                                assert(self@[j] == old(self)@[j]);
                            } else {
                                assert(self@[j] == old(self)@[j + 1]);
                            }
                        }
                    }
                }
                Some(e.1)
            },
            None => None,
        }
    }

    /// Removes the entry at `i` and returns it; the others keep their order.
    pub fn remove_at(&mut self, i: usize) -> (r: (AttributeName, String))
        requires
            i < old(self)@.len(),
        ensures
            final(self)@ == old(self)@.remove(i as int),
            r.0@ == old(self)@[i as int].0,
            r.1@ == old(self)@[i as int].1,
            keys_unique(old(self)@) ==> keys_unique(final(self)@),
    {
        let ghost old_view = self@;
        let e = self.entries.remove(i);
        proof {
            assert(self@ =~= old_view.remove(i as int));
            if keys_unique(old_view) {
                let s = self@;
                assert forall|a: int, b: int| 0 <= a < b < s.len() implies #[trigger] s[a].0 != #[trigger] s[b].0 by {
                    if a < i { assert(s[a] == old_view[a]); } else { assert(s[a] == old_view[a + 1]); }
                    if b < i { assert(s[b] == old_view[b]); } else { assert(s[b] == old_view[b + 1]); }
                }
            }
        }
        e
    }
}

/// Replacing one entry replaces its model.
proof fn lemma_entries_model_update(s: Seq<(AttributeName, String)>, i: int, x: (AttributeName, String))
    requires
        0 <= i < s.len(),
    ensures
        entries_model(s.update(i, x)) == entries_model(s).update(i, (x.0@, x.1@)),
{
    assert(entries_model(s.update(i, x)) =~= entries_model(s).update(i, (x.0@, x.1@)));
}

impl Clone for AttributeMap {
    /// A copy with the same attributes in the same order.
    fn clone(&self) -> (r: AttributeMap)
        ensures
            r@ == self@,
    {
        let mut entries: Vec<(AttributeName, String)> = Vec::new();
        let mut i: usize = 0;
        while i < self.entries.len()
            invariant
                i <= self.entries@.len(),
                self@ == entries_model(self.entries@),
                entries_model(entries@) == self@.subrange(0, i as int),
            decreases self.entries@.len() - i,
        {
            let e = &self.entries[i];
            let c0 = e.0.clone();
            let c1 = e.1.clone();
            assert((c0@, c1@) == self@[i as int]);
            let ghost prev = entries@;
            entries.push((c0, c1));
            assert(entries_model(entries@) =~= entries_model(prev).push(self@[i as int]));
            assert(entries_model(entries@) =~= self@.subrange(0, i + 1));
            i = i + 1;
        }
        assert(entries_model(entries@) =~= self@);
        AttributeMap { entries }
    }
}

} // verus!
