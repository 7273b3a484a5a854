//! The JSON value tree that the flattener works on, and its mathematical model.

use vstd::prelude::*;

verus! {

/// Declares `serde_json::Number`, which the tree carries through unchanged.
#[verifier::external_type_specification]
#[verifier::external_body]
pub struct ExNumber(serde_json::Number);

/// Model of a JSON value: strings become character sequences and an object
/// becomes the sequence of its entries, in order.
pub enum JVal {
    Null,
    Bool(bool),
    Num(serde_json::Number),
    Str(Seq<char>),
    Arr(Seq<JVal>),
    Obj(Seq<(Seq<char>, JVal)>),
}

/// A JSON value.
#[derive(Debug, PartialEq)]
pub enum Json {
    Null,
    Bool(bool),
    Number(serde_json::Number),
    String(String),
    Array(Vec<Json>),
    Object(Object),
}

/// A JSON object: entries in insertion order, each key at most once.
#[derive(Debug, PartialEq)]
pub struct Object {
    pub entries: Vec<(String, Json)>,
}

impl Json {
    pub open spec fn view(&self) -> JVal
        decreases self,
    {
        match self {
            Json::Null => JVal::Null,
            Json::Bool(b) => JVal::Bool(*b),
            Json::Number(n) => JVal::Num(*n),
            Json::String(s) => JVal::Str(s@),
            Json::Array(a) => JVal::Arr(
                Seq::new(
                    a.len() as nat,
                    |i: int|
                        if 0 <= i < a.len() {
                            a[i].view()
                        } else {
                            JVal::Null
                        },
                ),
            ),
            Json::Object(o) => JVal::Obj(o.view()),
        }
    }
}

impl Object {
    pub open spec fn view(&self) -> Seq<(Seq<char>, JVal)>
        decreases self,
    {
        Seq::new(
            self.entries.len() as nat,
            |i: int|
                if 0 <= i < self.entries.len() {
                    (self.entries[i].0@, self.entries[i].1.view())
                } else {
                    (Seq::empty(), JVal::Null)
                },
        )
    }
}

/// No key occurs twice among the entries.
pub open spec fn unique_keys(m: Seq<(Seq<char>, JVal)>) -> bool {
    forall|i: int, j: int| 0 <= i < j < m.len() ==> m[i].0 != m[j].0
}

/// The value at key `k` among the entries, if any.
pub open spec fn lookup(m: Seq<(Seq<char>, JVal)>, k: Seq<char>) -> Option<JVal> {
    if exists|i: int| 0 <= i < m.len() && m[i].0 == k {
        Some(m[choose|i: int| 0 <= i < m.len() && m[i].0 == k].1)
    } else {
        None
    }
}

/// With keys unique, the value at a key is the one of the entry holding it.
pub proof fn lemma_lookup_at(m: Seq<(Seq<char>, JVal)>, idx: int)
    requires
        unique_keys(m),
        0 <= idx < m.len(),
    ensures
        lookup(m, m[idx].0) == Some(m[idx].1),
{
    let k = m[idx].0;
    assert(0 <= idx < m.len() && m[idx].0 == k);
    let c = choose|i: int| 0 <= i < m.len() && m[i].0 == k;
    assert(c == idx);
}

/// Two entry lists that hold the same entries for key `key`, in the same
/// places, give the same value for it.
proof fn lemma_lookup_frame(m: Seq<(Seq<char>, JVal)>, n: Seq<(Seq<char>, JVal)>, key: Seq<char>)
    requires
        unique_keys(m),
        unique_keys(n),
        forall|i: int| 0 <= i < m.len() && m[i].0 == key ==> i < n.len() && n[i] == m[i],
        forall|i: int| 0 <= i < n.len() && n[i].0 == key ==> i < m.len() && n[i] == m[i],
    ensures
        lookup(n, key) == lookup(m, key),
{
    if exists|i: int| 0 <= i < m.len() && m[i].0 == key {
        let i = choose|i: int| 0 <= i < m.len() && m[i].0 == key;
        lemma_lookup_at(m, i);
        lemma_lookup_at(n, i);
    } else if exists|i: int| 0 <= i < n.len() && n[i].0 == key {
        let i = choose|i: int| 0 <= i < n.len() && n[i].0 == key;
        assert(m[i].0 == key);
    }
}

impl Object {
    /// An object without entries.
    pub fn new() -> (r: Object)
        ensures
            r@ == Seq::<(Seq<char>, JVal)>::empty(),
    {
        let r = Object { entries: Vec::new() };
        proof {
            assert(r@ =~= Seq::<(Seq<char>, JVal)>::empty());
        }
        r
    }

    /// The number of entries.
    pub fn len(&self) -> (r: usize)
        ensures
            r == self@.len(),
    {
        self.entries.len()
    }

    /// Sets key `k` to `v`: an entry with that key is replaced where it
    /// stands, otherwise the entry is added at the end.
    pub fn insert(&mut self, k: String, v: Json)
        requires
            unique_keys(old(self)@),
        ensures
            unique_keys(final(self)@),
            lookup(final(self)@, k@) == Some(v@),
            forall|key: Seq<char>| key != k@ ==> lookup(final(self)@, key) == lookup(old(self)@, key),
            lookup(old(self)@, k@) is None ==> final(self)@ == old(self)@.push((k@, v@)),
            lookup(old(self)@, k@) is Some ==> final(self)@.len() == old(self)@.len(),
    {
        let ghost m = self@;
        proof {
            lemma_object_view(*self);
        }
        let n = self.entries.len();
        let mut i: usize = 0;
        let mut found = false;
        while i < n && !found
            invariant
                n == self.entries.len(),
                0 <= i <= n,
                m == entries_view(self.entries@),
                found ==> i < n && self.entries@[i as int].0@ == k@,
                forall|j: int| 0 <= j < i ==> self.entries@[j].0@ != k@,
            decreases n - i + (if found { 0int } else { 1int }),
        {
            if self.entries[i].0 == k {
                found = true;
            } else {
                i = i + 1;
            }
        }
        let ghost kv = (k@, v@);
        if found {
            self.entries.remove(i);
            self.entries.insert(i, (k, v));
            proof {
                lemma_object_view(*self);
                assert(self@ =~= m.update(i as int, kv));
                assert(m[i as int].0 == kv.0);
                assert(self@[i as int] == kv);
                lemma_lookup_at(self@, i as int);
                assert forall|key: Seq<char>| key != k@ implies lookup(self@, key) == lookup(m, key) by {
                    lemma_lookup_frame(m, self@, key);
                }
            }
        } else {
            self.entries.push((k, v));
            proof {
                lemma_object_view(*self);
                assert(self@ =~= m.push(kv));
                assert(forall|j: int| 0 <= j < m.len() ==> m[j].0 != kv.0);
                assert(self@[m.len() as int] == kv);
                lemma_lookup_at(self@, m.len() as int);
                assert forall|key: Seq<char>| key != k@ implies lookup(self@, key) == lookup(m, key) by {
                    lemma_lookup_frame(m, self@, key);
                }
                assert(!exists|j: int| 0 <= j < m.len() && m[j].0 == k@);
            }
        }
    }

    /// The value at key `k`, if any.
    pub fn get(&self, k: &str) -> (r: Option<&Json>)
        requires
            unique_keys(self@),
        ensures
            r is None <==> lookup(self@, k@) is None,
            r matches Some(v) ==> lookup(self@, k@) == Some(v@),
    {
        proof {
            lemma_object_view(*self);
        }
        let key = k.to_owned();
        let n = self.entries.len();
        let mut i: usize = 0;
        while i < n
            invariant
                n == self.entries.len(),
                0 <= i <= n,
                key@ == k@,
                unique_keys(self@),
                self@ == entries_view(self.entries@),
                forall|j: int| 0 <= j < i ==> self.entries@[j].0@ != k@,
            decreases n - i,
        {
            if self.entries[i].0 == key {
                proof {
                    assert(self@[i as int].0 == k@);
                    lemma_lookup_at(self@, i as int);
                }
                return Some(&self.entries[i].1);
            }
            i = i + 1;
        }
        proof {
            assert(!exists|j: int| 0 <= j < self@.len() && self@[j].0 == k@);
        }
        None
    }
}

/// The models of a sequence of values.
pub open spec fn views(s: Seq<Json>) -> Seq<JVal> {
    s.map_values(|x: Json| x@)
}

/// The models of a sequence of entries.
pub open spec fn entries_view(s: Seq<(String, Json)>) -> Seq<(Seq<char>, JVal)> {
    s.map_values(|e: (String, Json)| (e.0@, e.1@))
}

/// The models of a sequence of objects.
pub open spec fn objects_view(s: Seq<Object>) -> Seq<Seq<(Seq<char>, JVal)>> {
    s.map_values(|o: Object| o@)
}

/// The model of an array value is the models of its elements.
pub proof fn lemma_array_view(a: Vec<Json>)
    ensures
        Json::Array(a)@ == JVal::Arr(views(a@)),
{
    let j = Json::Array(a);
    assert(j@->Arr_0 =~= views(a@));
}

/// The model of an object is the models of its entries.
pub proof fn lemma_object_view(o: Object)
    ensures
        o@ == entries_view(o.entries@),
{
    assert(o@ =~= entries_view(o.entries@));
}

} // verus!
