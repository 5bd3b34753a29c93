use vstd::prelude::*;
use crate::chars::str_to_chars;
use crate::parse::chars_eq;

verus! {

/// The mathematical value of a tree node.
pub enum TreeModel {
    Object(Seq<(Seq<char>, TreeModel)>),
    Array(Seq<TreeModel>),
    String(Seq<char>),
    Integer(int),
    Boolean(bool),
    Null,
}

/// A node of the path tree model.
#[derive(Debug, PartialEq, Eq)]
pub enum PmlTreeValue {
    Object(PmlObject),
    Array(Vec<PmlTreeValue>),
    String(String),
    Integer(i64),
    Boolean(bool),
    Null,
}

/// The entries of an object node, in strictly increasing key order (so no key
/// occurs twice); every operation of this type keeps that order.
#[derive(Debug, PartialEq, Eq)]
pub struct PmlObject {
    entries: Vec<(String, PmlTreeValue)>,
}

impl PmlTreeValue {
    pub open spec fn model(&self) -> TreeModel
        decreases self,
    {
        match self {
            PmlTreeValue::Object(o) => TreeModel::Object(o.model()),
            PmlTreeValue::Array(items) => TreeModel::Array(
                Seq::new(
                    items@.len(),
                    |i: int|
                        if 0 <= i < items@.len() {
                            items@[i].model()
                        } else {
                            TreeModel::Null
                        },
                ),
            ),
            PmlTreeValue::String(s) => TreeModel::String(s@),
            PmlTreeValue::Integer(n) => TreeModel::Integer(*n as int),
            PmlTreeValue::Boolean(b) => TreeModel::Boolean(*b),
            PmlTreeValue::Null => TreeModel::Null,
        }
    }
}

impl PmlObject {
    /// The entries as (key, value) pairs of mathematical values.
    pub closed spec fn model(&self) -> Seq<(Seq<char>, TreeModel)>
        decreases self,
    {
        Seq::new(
            self.entries@.len(),
            |i: int|
                if 0 <= i < self.entries@.len() {
                    (self.entries@[i].0@, self.entries@[i].1.model())
                } else {
                    (Seq::empty(), TreeModel::Null)
                },
        )
    }

    /// The keys strictly increase along the entries.
    #[verifier::type_invariant]
    closed spec fn keys_increase(self) -> bool {
        sorted_keys(self.model())
    }
}

pub proof fn lemma_object_model(o: PmlObject)
    ensures
        PmlTreeValue::Object(o).model() == TreeModel::Object(o.model()),
{
    assert(PmlTreeValue::Object(o).model()->Object_0 =~= o.model());
}

pub proof fn lemma_array_model(items: Vec<PmlTreeValue>)
    ensures
        PmlTreeValue::Array(items).model() == TreeModel::Array(items@.map_values(|v: PmlTreeValue| v.model())),
{
    assert(PmlTreeValue::Array(items).model()->Array_0 =~= items@.map_values(|v: PmlTreeValue| v.model()));
}

/// Code-point order on keys (the order of `String`'s `Ord`).
pub open spec fn key_lt(a: Seq<char>, b: Seq<char>) -> bool
    decreases a.len(),
{
    if b.len() == 0 {
        false
    } else if a.len() == 0 {
        true
    } else if a[0] != b[0] {
        a[0] < b[0]
    } else {
        key_lt(a.drop_first(), b.drop_first())
    }
}

/// Keys strictly increase along the entries.
pub open spec fn sorted_keys(o: Seq<(Seq<char>, TreeModel)>) -> bool {
    forall|i: int, j: int| 0 <= i < j < o.len() ==> key_lt(#[trigger] o[i].0, #[trigger] o[j].0)
}

/// The value under `k`.
pub open spec fn obj_get(o: Seq<(Seq<char>, TreeModel)>, k: Seq<char>) -> Option<TreeModel>
    decreases o.len(),
{
    if o.len() == 0 {
        None
    } else if o[0].0 == k {
        Some(o[0].1)
    } else {
        obj_get(o.drop_first(), k)
    }
}

/// `k` mapped to `v`: the entry under `k` replaced, or a new entry before the
/// first greater key.
pub open spec fn obj_insert(o: Seq<(Seq<char>, TreeModel)>, k: Seq<char>, v: TreeModel) -> Seq<(Seq<char>, TreeModel)>
    decreases o.len(),
{
    if o.len() == 0 {
        seq![(k, v)]
    } else if o[0].0 == k {
        seq![(k, v)] + o.drop_first()
    } else if key_lt(k, o[0].0) {
        seq![(k, v)] + o
    } else {
        seq![o[0]] + obj_insert(o.drop_first(), k, v)
    }
}

/// The entry under `k` taken out.
pub open spec fn obj_remove(o: Seq<(Seq<char>, TreeModel)>, k: Seq<char>) -> Seq<(Seq<char>, TreeModel)>
    decreases o.len(),
{
    if o.len() == 0 {
        o
    } else if o[0].0 == k {
        o.drop_first()
    } else {
        seq![o[0]] + obj_remove(o.drop_first(), k)
    }
}

/// The entry under `k` given the value `v` in place.
pub open spec fn obj_set(o: Seq<(Seq<char>, TreeModel)>, k: Seq<char>, v: TreeModel) -> Seq<(Seq<char>, TreeModel)>
    decreases o.len(),
{
    if o.len() == 0 {
        o
    } else if o[0].0 == k {
        seq![(k, v)] + o.drop_first()
    } else {
        seq![o[0]] + obj_set(o.drop_first(), k, v)
    }
}

/// Setting the first entry under `k`, found at `i`.
pub proof fn lemma_obj_set_at(m: Seq<(Seq<char>, TreeModel)>, k: Seq<char>, v: TreeModel, i: int)
    requires
        0 <= i < m.len(),
        m[i].0 == k,
        forall|j: int| 0 <= j < i ==> m[j].0 != k,
    ensures
        obj_set(m, k, v) == m.update(i, (k, v)),
    decreases i,
{
    if i > 0 {
        lemma_obj_set_at(m.drop_first(), k, v, i - 1);
        assert(obj_set(m, k, v) =~= m.update(i, (k, v)));
    } else {
        assert(obj_set(m, k, v) =~= m.update(i, (k, v)));
    }
}

/// Whether `a` comes before `b` in code-point order.
pub fn key_lt_exec(a: &Vec<char>, b: &Vec<char>) -> (r: bool)
    ensures
        r == key_lt(a@, b@),
{
    let mut i: usize = 0;
    assert(a@.skip(0) =~= a@);
    assert(b@.skip(0) =~= b@);
    while i < a.len() && i < b.len() && a[i] == b[i]
        invariant
            i <= a.len(),
            i <= b.len(),
            key_lt(a@, b@) == key_lt(a@.skip(i as int), b@.skip(i as int)),
        decreases a.len() - i,
    {
        let ghost sa = a@.skip(i as int);
        let ghost sb = b@.skip(i as int);
        assert(sa.drop_first() =~= a@.skip(i + 1));
        assert(sb.drop_first() =~= b@.skip(i + 1));
        i = i + 1;
    }
    if i == b.len() {
        false
    } else if i == a.len() {
        true
    } else {
        a[i] < b[i]
    }
}

pub proof fn lemma_key_lt_irreflexive(a: Seq<char>)
    ensures
        !key_lt(a, a),
    decreases a.len(),
{
    if a.len() > 0 {
        lemma_key_lt_irreflexive(a.drop_first());
    }
}

pub proof fn lemma_key_lt_transitive(a: Seq<char>, b: Seq<char>, c: Seq<char>)
    requires
        key_lt(a, b),
        key_lt(b, c),
    ensures
        key_lt(a, c),
    decreases a.len(),
{
    if a.len() > 0 && b.len() > 0 && c.len() > 0 {
        if a[0] == b[0] && b[0] == c[0] {
            lemma_key_lt_transitive(a.drop_first(), b.drop_first(), c.drop_first());
        }
    }
}

pub proof fn lemma_key_lt_total(a: Seq<char>, b: Seq<char>)
    requires
        a != b,
    ensures
        key_lt(a, b) || key_lt(b, a),
    decreases a.len(),
{
    if a.len() > 0 && b.len() > 0 && a[0] == b[0] {
        if a.drop_first() == b.drop_first() {
            assert(a =~= seq![a[0]] + a.drop_first());
            assert(b =~= seq![b[0]] + b.drop_first());
        }
        lemma_key_lt_total(a.drop_first(), b.drop_first());
    } else if a.len() > 0 && b.len() > 0 {
    } else if a.len() == 0 && b.len() == 0 {
        assert(a =~= b);
    }
}

/// In sorted entries, a key below entry `i` is under no entry from `i` on.
pub proof fn lemma_sorted_absent_after(m: Seq<(Seq<char>, TreeModel)>, i: int, k: Seq<char>)
    requires
        sorted_keys(m),
        0 <= i < m.len(),
        key_lt(k, m[i].0),
        obj_get(m, k) == obj_get(m.skip(i), k),
    ensures
        obj_get(m, k) is None,
{
    assert forall|j: int| i <= j < m.len() implies #[trigger] m[j].0 != k by {
        if j > i {
            assert(key_lt(m[i].0, m[j].0));
            lemma_key_lt_transitive(k, m[i].0, m[j].0);
        }
        lemma_key_lt_irreflexive(k);
    }
    lemma_obj_get_none(m.skip(i), k);
}

proof fn lemma_obj_get_none(m: Seq<(Seq<char>, TreeModel)>, k: Seq<char>)
    requires
        forall|j: int| 0 <= j < m.len() ==> #[trigger] m[j].0 != k,
    ensures
        obj_get(m, k) is None,
    decreases m.len(),
{
    if m.len() > 0 {
        assert(m[0].0 != k);
        lemma_obj_get_none(m.drop_first(), k);
    }
}

/// The mathematical value of one entry.
pub open spec fn entry_model(e: (String, PmlTreeValue)) -> (Seq<char>, TreeModel) {
    (e.0@, e.1.model())
}

proof fn lemma_entries_model(o: PmlObject)
    ensures
        o.model() == o.entries@.map_values(|e: (String, PmlTreeValue)| entry_model(e)),
{
    assert(o.model() =~= o.entries@.map_values(|e: (String, PmlTreeValue)| entry_model(e)));
}

proof fn lemma_obj_get_skip(m: Seq<(Seq<char>, TreeModel)>, i: int, k: Seq<char>)
    requires
        0 <= i < m.len(),
        m[i].0 != k,
    ensures
        obj_get(m.skip(i), k) == obj_get(m.skip(i + 1), k),
{
    assert(m.skip(i).drop_first() =~= m.skip(i + 1));
}

proof fn lemma_obj_insert_skip(m: Seq<(Seq<char>, TreeModel)>, i: int, k: Seq<char>, v: TreeModel)
    requires
        0 <= i < m.len(),
        m[i].0 != k,
        !key_lt(k, m[i].0),
    ensures
        m.take(i) + obj_insert(m.skip(i), k, v) == m.take(i + 1) + obj_insert(m.skip(i + 1), k, v),
{
    assert(m.skip(i).drop_first() =~= m.skip(i + 1));
    assert(m.take(i) + obj_insert(m.skip(i), k, v) =~= m.take(i + 1) + obj_insert(m.skip(i + 1), k, v));
}

impl PmlObject {
    /// An object with no entries.
    pub fn new() -> (o: PmlObject)
        ensures
            o.model() == Seq::<(Seq<char>, TreeModel)>::empty(),
    {
        let o = PmlObject { entries: Vec::new() };
        assert(o.model() =~= Seq::<(Seq<char>, TreeModel)>::empty());
        o
    }

    /// The number of entries.
    pub fn len(&self) -> (n: usize)
        ensures
            n == self.model().len(),
            sorted_keys(self.model()),
    {
        proof {
            use_type_invariant(self);
        }
        self.entries.len()
    }

    /// The position of the entry under `key`.
    pub fn find(&self, key: &Vec<char>) -> (r: Option<usize>)
        ensures
            match r {
                Some(i) => i < self.model().len() && self.model()[i as int].0 == key@
                    && obj_get(self.model(), key@) == Some(self.model()[i as int].1)
                    && forall|j: int| 0 <= j < i ==> self.model()[j].0 != key@,
                None => obj_get(self.model(), key@) is None,
            },
    {
        let ghost m = self.model();
        let mut i: usize = 0;
        assert(m.skip(0) =~= m);
        while i < self.entries.len()
            invariant
                i <= self.entries.len(),
                m == self.model(),
                obj_get(m, key@) == obj_get(m.skip(i as int), key@),
                forall|j: int| 0 <= j < i ==> m[j].0 != key@,
            decreases self.entries.len() - i,
        {
            let k = str_to_chars(self.entries[i].0.as_str());
            assert(m[i as int].0 == k@);
            if chars_eq(&k, key) {
                assert(m.skip(i as int)[0] == m[i as int]);
                return Some(i);
            }
            proof {
                lemma_obj_get_skip(m, i as int, key@);
            }
            i = i + 1;
        }
        None
    }

    /// The value under `key`.
    pub fn get(&self, key: &str) -> (r: Option<&PmlTreeValue>)
        ensures
            match r {
                Some(v) => obj_get(self.model(), key@) == Some(v.model()),
                None => obj_get(self.model(), key@) is None,
            },
    {
        let k = str_to_chars(key);
        match self.find(&k) {
            Some(i) => Some(&self.entries[i].1),
            None => None,
        }
    }

    /// An object with the entries `entries`, whose keys must increase.
    fn from_entries(entries: Vec<(String, PmlTreeValue)>) -> (o: PmlObject)
        requires
            sorted_keys(entries@.map_values(|e: (String, PmlTreeValue)| entry_model(e))),
        ensures
            o.model() == entries@.map_values(|e: (String, PmlTreeValue)| entry_model(e)),
    {
        let ghost g = PmlObject { entries: entries };
        proof {
            lemma_entries_model(g);
        }
        PmlObject { entries }
    }

    /// Takes the entries out, leaving no entries behind.
    fn take_entries(&mut self) -> (es: Vec<(String, PmlTreeValue)>)
        ensures
            es@.map_values(|e: (String, PmlTreeValue)| entry_model(e)) == old(self).model(),
            sorted_keys(old(self).model()),
    {
        proof {
            use_type_invariant(&*self);
            lemma_entries_model(*self);
        }
        let mut es: Vec<(String, PmlTreeValue)> = Vec::new();
        std::mem::swap(&mut es, &mut self.entries);
        es
    }

    /// Maps `key` to `value`; gives back the value it replaces.
    pub fn insert(&mut self, key: String, value: PmlTreeValue) -> (r: Option<PmlTreeValue>)
        ensures
            final(self).model() == obj_insert(old(self).model(), key@, value.model()),
            match r {
                Some(v) => obj_get(old(self).model(), key@) == Some(v.model()),
                None => obj_get(old(self).model(), key@) is None,
            },
    {
        let mut entries = self.take_entries();
        let ghost m = old(self).model();
        let ghost v = value.model();
        let k = str_to_chars(key.as_str());
        let mut i: usize = 0;
        assert(m.skip(0) =~= m);
        assert(m.take(0) + obj_insert(m.skip(0), key@, v) =~= obj_insert(m, key@, v));
        proof {
            lemma_obj_insert_sorted_keys(m, key@, v);
        }
        while i < entries.len()
            invariant
                i <= entries.len(),
                m == entries@.map_values(|e: (String, PmlTreeValue)| entry_model(e)),
                m == old(self).model(),
                sorted_keys(m),
                sorted_keys(obj_insert(m, key@, v)),
                k@ == key@,
                v == value.model(),
                obj_get(m, key@) == obj_get(m.skip(i as int), key@),
                obj_insert(m, key@, v) == m.take(i as int) + obj_insert(m.skip(i as int), key@, v),
            decreases entries.len() - i,
        {
            let ek = str_to_chars(entries[i].0.as_str());
            assert(m[i as int].0 == ek@);
            assert(m.skip(i as int)[0] == m[i as int]);
            let ghost old_entries = entries@;
            if chars_eq(&ek, &k) {
                let old = entries.remove(i);
                entries.insert(i, (key, value));
                let ghost mm = entries@.map_values(|e: (String, PmlTreeValue)| entry_model(e));
                assert(mm =~= m.take(i as int) + obj_insert(m.skip(i as int), k@, v)) by {
                    assert(m.skip(i as int).drop_first() =~= m.skip(i + 1));
                    assert forall|j: int| 0 <= j < mm.len() implies mm[j] == (m.take(i as int) + obj_insert(m.skip(i as int), k@, v))[j] by {
                        if j < i {
                            assert(entries@[j] == old_entries[j]);
                        } else if j > i {
                            assert(entries@[j] == old_entries[j]);
                        }
                    }
                }
                *self = Self::from_entries(entries);
                return Some(old.1);
            } else if key_lt_exec(&k, &ek) {
                assert(key_lt(k@, m[i as int].0));
                entries.insert(i, (key, value));
                proof {
                    lemma_sorted_absent_after(m, i as int, k@);
                }
                let ghost mm = entries@.map_values(|e: (String, PmlTreeValue)| entry_model(e));
                assert(mm =~= m.take(i as int) + obj_insert(m.skip(i as int), k@, v)) by {
                    assert forall|j: int| 0 <= j < mm.len() implies mm[j] == (m.take(i as int) + obj_insert(m.skip(i as int), k@, v))[j] by {
                        if j < i {
                            assert(entries@[j] == old_entries[j]);
                        } else if j > i {
                            assert(entries@[j] == old_entries[j - 1]);
                            assert(m.skip(i as int)[j - i - 1] == m[j - 1]);
                        }
                    }
                }
                *self = Self::from_entries(entries);
                return None;
            }
            proof {
                lemma_obj_get_skip(m, i as int, key@);
                lemma_obj_insert_skip(m, i as int, key@, v);
            }
            i = i + 1;
        }
        let ghost old_entries = entries@;
        entries.push((key, value));
        proof {
            assert(m.skip(i as int) =~= Seq::<(Seq<char>, TreeModel)>::empty());
            assert(m.take(i as int) =~= m);
            assert(obj_insert(m.skip(i as int), key@, v) =~= seq![(key@, v)]);
            assert(obj_insert(m, key@, v) =~= m.push((key@, v)));
            assert(entries@.map_values(|e: (String, PmlTreeValue)| entry_model(e)) =~= m.push((key@, v)));
        }
        *self = Self::from_entries(entries);
        None
    }

    /// Takes out the entry under `key`; gives back its value.
    pub fn remove(&mut self, key: &str) -> (r: Option<PmlTreeValue>)
        ensures
            final(self).model() == obj_remove(old(self).model(), key@),
            match r {
                Some(v) => obj_get(old(self).model(), key@) == Some(v.model()),
                None => obj_get(old(self).model(), key@) is None,
            },
    {
        let ghost m = self.model();
        let k = str_to_chars(key);
        match self.find(&k) {
            None => {
                proof {
                    lemma_obj_remove_absent(m, key@);
                }
                None
            },
            Some(i) => {
                proof {
                    lemma_obj_remove_at(m, key@, i as int);
                }
                let e = self.take_at(i);
                Some(e.1)
            },
        }
    }

    /// Takes entry `i` out.
    pub fn take_at(&mut self, i: usize) -> (e: (String, PmlTreeValue))
        requires
            i < old(self).model().len(),
        ensures
            final(self).model() == old(self).model().remove(i as int),
            entry_model(e) == old(self).model()[i as int],
            sorted_keys(old(self).model()),
    {
        let mut entries = self.take_entries();
        let ghost m = old(self).model();
        let e = entries.remove(i);
        proof {
            let mm = entries@.map_values(|x: (String, PmlTreeValue)| entry_model(x));
            assert(mm =~= m.remove(i as int));
            assert forall|a: int, c: int| 0 <= a < c < mm.len() implies key_lt(#[trigger] mm[a].0, #[trigger] mm[c].0) by {
                if a >= i {
                    assert(mm[a] == m[a + 1] && mm[c] == m[c + 1]);
                } else if c >= i {
                    assert(mm[a] == m[a] && mm[c] == m[c + 1]);
                } else {
                    assert(mm[a] == m[a] && mm[c] == m[c]);
                }
            }
        }
        *self = Self::from_entries(entries);
        e
    }

    /// Puts the entry `e` back at position `i`, where its key keeps the keys increasing.
    pub fn put_at(&mut self, i: usize, e: (String, PmlTreeValue))
        requires
            i <= old(self).model().len(),
            sorted_keys(old(self).model().insert(i as int, entry_model(e))),
        ensures
            final(self).model() == old(self).model().insert(i as int, entry_model(e)),
    {
        let mut entries = self.take_entries();
        let ghost m = old(self).model();
        entries.insert(i, e);
        proof {
            assert(entries@.map_values(|x: (String, PmlTreeValue)| entry_model(x)) =~= m.insert(i as int, entry_model(e)));
        }
        *self = Self::from_entries(entries);
    }

    /// The key of entry `i`.
    pub fn key_at(&self, i: usize) -> (k: &String)
        requires
            i < self.model().len(),
        ensures
            k@ == self.model()[i as int].0,
    {
        &self.entries[i].0
    }

    /// The value of entry `i`.
    pub fn value_at(&self, i: usize) -> (v: &PmlTreeValue)
        requires
            i < self.model().len(),
        ensures
            v.model() == self.model()[i as int].1,
            decreases_to!(*self => *v),
    {
        proof {
            assert(decreases_to!(*self => self.entries));
            assert(decreases_to!(self.entries => self.entries@));
            assert(decreases_to!(self.entries@ => self.entries@[i as int]));
            assert(decreases_to!(self.entries@[i as int] => self.entries@[i as int].1));
        }
        &self.entries[i].1
    }
}

proof fn lemma_obj_remove_absent(m: Seq<(Seq<char>, TreeModel)>, k: Seq<char>)
    requires
        obj_get(m, k) is None,
    ensures
        obj_remove(m, k) == m,
    decreases m.len(),
{
    if m.len() > 0 {
        lemma_obj_remove_absent(m.drop_first(), k);
        assert(obj_remove(m, k) =~= m);
    }
}

/// Removing the first entry under `k`, found at `i`.
pub proof fn lemma_obj_remove_at(m: Seq<(Seq<char>, TreeModel)>, k: Seq<char>, i: int)
    requires
        0 <= i < m.len(),
        m[i].0 == k,
        forall|j: int| 0 <= j < i ==> m[j].0 != k,
    ensures
        obj_remove(m, k) == m.remove(i),
    decreases i,
{
    if i > 0 {
        lemma_obj_remove_at(m.drop_first(), k, i - 1);
        assert(obj_remove(m, k) =~= m.remove(i));
    } else {
        assert(obj_remove(m, k) =~= m.remove(i));
    }
}

/// Inserting into an object with increasing keys keeps the keys increasing.
pub proof fn lemma_obj_insert_sorted_keys(m: Seq<(Seq<char>, TreeModel)>, k: Seq<char>, v: TreeModel)
    requires
        sorted_keys(m),
    ensures
        sorted_keys(obj_insert(m, k, v)),
        forall|j: int| 0 <= j < obj_insert(m, k, v).len() ==> (#[trigger] obj_insert(m, k, v)[j]).0 == k || exists|a: int| 0 <= a < m.len() && m[a].0 == obj_insert(m, k, v)[j].0,
    decreases m.len(),
{
    let r = obj_insert(m, k, v);
    if m.len() == 0 {
    } else {
        let rest = m.drop_first();
        assert forall|a: int, c: int| 0 <= a < c < rest.len() implies key_lt(#[trigger] rest[a].0, #[trigger] rest[c].0) by {
            assert(rest[a] == m[a + 1] && rest[c] == m[c + 1]);
        }
        if m[0].0 == k {
            assert forall|a: int, c: int| 0 <= a < c < r.len() implies key_lt(#[trigger] r[a].0, #[trigger] r[c].0) by {
                assert(r[a].0 == m[a].0 && r[c].0 == m[c].0);
            }
            assert forall|j: int| 0 <= j < r.len() implies (#[trigger] r[j]).0 == k || exists|a: int| 0 <= a < m.len() && m[a].0 == r[j].0 by {
                assert(r[j].0 == m[j].0);
            }
        } else if key_lt(k, m[0].0) {
            assert forall|a: int, c: int| 0 <= a < c < r.len() implies key_lt(#[trigger] r[a].0, #[trigger] r[c].0) by {
                if a == 0 {
                    assert(r[c] == m[c - 1]);
                    if c > 1 {
                        lemma_key_lt_transitive(k, m[0].0, m[c - 1].0);
                    }
                } else {
                    assert(r[a] == m[a - 1] && r[c] == m[c - 1]);
                }
            }
            assert forall|j: int| 0 <= j < r.len() implies (#[trigger] r[j]).0 == k || exists|a: int| 0 <= a < m.len() && m[a].0 == r[j].0 by {
                if j > 0 {
                    assert(r[j] == m[j - 1]);
                }
            }
        } else {
            lemma_key_lt_total(m[0].0, k);
            lemma_obj_insert_sorted_keys(rest, k, v);
            let ir = obj_insert(rest, k, v);
            assert(r == seq![m[0]] + ir);
            assert forall|j: int| 0 <= j < ir.len() implies key_lt(m[0].0, #[trigger] ir[j].0) by {
                if ir[j].0 != k {
                    let a = choose|a: int| 0 <= a < rest.len() && rest[a].0 == ir[j].0;
                    assert(rest[a] == m[a + 1]);
                }
            }
            assert forall|a: int, c: int| 0 <= a < c < r.len() implies key_lt(#[trigger] r[a].0, #[trigger] r[c].0) by {
                assert(r[c] == ir[c - 1]);
                if a > 0 {
                    assert(r[a] == ir[a - 1]);
                }
            }
            assert forall|j: int| 0 <= j < r.len() implies (#[trigger] r[j]).0 == k || exists|a: int| 0 <= a < m.len() && m[a].0 == r[j].0 by {
                if j > 0 {
                    assert(r[j] == ir[j - 1]);
                    if ir[j - 1].0 != k {
                        let a = choose|a: int| 0 <= a < rest.len() && rest[a].0 == ir[j - 1].0;
                        assert(rest[a] == m[a + 1]);
                    }
                } else {
                    assert(m[0].0 == r[0].0);
                }
            }
        }
    }
}

impl PmlTreeValue {
    /// A copy of the value, all the way down.
    pub fn duplicate(&self) -> (r: PmlTreeValue)
        ensures
            r.model() == self.model(),
        decreases self,
    {
        match self {
            PmlTreeValue::Object(o) => PmlTreeValue::Object(o.duplicate()),
            PmlTreeValue::Array(items) => {
                let mut out: Vec<PmlTreeValue> = Vec::new();
                let mut j: usize = 0;
                while j < items.len()
                    invariant
                        *self == PmlTreeValue::Array(*items),
                        j <= items.len(),
                        out@.len() == j,
                        forall|q: int| 0 <= q < j ==> (#[trigger] out@[q]).model() == items@[q].model(),
                    decreases items.len() - j,
                {
                    proof {
                        assert(decreases_to!(*self => self->Array_0));
                        assert(decreases_to!(self->Array_0 => self->Array_0@));
                        assert(decreases_to!(self->Array_0@ => self->Array_0@[j as int]));
                    }
                    let x = items[j].duplicate();
                    out.push(x);
                    j = j + 1;
                }
                proof {
                    lemma_array_model(*items);
                    lemma_array_model(out);
                    assert(out@.map_values(|v: PmlTreeValue| v.model()) =~= items@.map_values(|v: PmlTreeValue| v.model()));
                }
                PmlTreeValue::Array(out)
            },
            PmlTreeValue::String(s) => PmlTreeValue::String(s.clone()),
            PmlTreeValue::Integer(n) => PmlTreeValue::Integer(*n),
            PmlTreeValue::Boolean(b) => PmlTreeValue::Boolean(*b),
            PmlTreeValue::Null => PmlTreeValue::Null,
        }
    }
}

impl PmlObject {
    /// A copy of the object, all the way down.
    pub fn duplicate(&self) -> (r: PmlObject)
        ensures
            r.model() == self.model(),
        decreases self,
    {
        proof {
            use_type_invariant(self);
            lemma_entries_model(*self);
        }
        let ghost m = self.model();
        let mut out: Vec<(String, PmlTreeValue)> = Vec::new();
        let mut i: usize = 0;
        while i < self.entries.len()
            invariant
                i <= self.entries.len(),
                m == self.model(),
                m == self.entries@.map_values(|e: (String, PmlTreeValue)| entry_model(e)),
                sorted_keys(m),
                out@.len() == i,
                forall|q: int| 0 <= q < i ==> entry_model(#[trigger] out@[q]) == m[q],
            decreases self.entries.len() - i,
        {
            proof {
                assert(decreases_to!(*self => self.entries));
                assert(decreases_to!(self.entries => self.entries@));
                assert(decreases_to!(self.entries@ => self.entries@[i as int]));
                assert(decreases_to!(self.entries@[i as int] => self.entries@[i as int].1));
            }
            let k = self.entries[i].0.clone();
            let v = self.entries[i].1.duplicate();
            assert(m[i as int] == entry_model(self.entries@[i as int]));
            out.push((k, v));
            i = i + 1;
        }
        assert(out@.map_values(|e: (String, PmlTreeValue)| entry_model(e)) =~= m);
        Self::from_entries(out)
    }
}

impl Clone for PmlTreeValue {
    fn clone(&self) -> Self {
        self.duplicate()
    }
}

impl Clone for PmlObject {
    fn clone(&self) -> Self {
        self.duplicate()
    }
}

} // verus!
