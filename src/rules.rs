//! The flattening rules, stated over the model of JSON values.
//!
//! Flattening an object happens in two steps. First every key establishes
//! its own value: a scalar is kept as it is, an array keeps its surviving
//! scalars (its own scalars, then those of its nested arrays), and an object
//! keeps nothing. Then every nested object is flattened and each of its
//! entries is merged, under the dotted key `base.key`, into that result, in
//! the order in which the objects occur.

use vstd::prelude::*;
use crate::value::JVal;

verus! {

/// The entries of an object model, in order.
pub type Entries = Seq<(Seq<char>, JVal)>;

/// A value that is neither an array nor an object.
pub open spec fn is_scalar(v: JVal) -> bool {
    !(v is Arr) && !(v is Obj)
}

/// The elements that a value contributes to an array it is merged into.
pub open spec fn as_list(v: JVal) -> Seq<JVal> {
    match v {
        JVal::Arr(a) => a,
        _ => seq![v],
    }
}

/// The key `base.key`.
pub open spec fn dotted(base: Seq<char>, key: Seq<char>) -> Seq<char> {
    base + seq!['.'] + key
}

/// `i` is the first position of key `t` in `m`.
pub open spec fn first_index(m: Entries, t: Seq<char>, i: int) -> bool {
    &&& 0 <= i < m.len()
    &&& m[i].0 == t
    &&& forall|j: int| 0 <= j < i ==> m[j].0 != t
}

/// Merges value `v` into key `t` of `m`: the key ends up holding an array of
/// what it held before (if anything) followed by what `v` brings.
pub open spec fn merge_one(m: Entries, t: Seq<char>, v: JVal) -> Entries {
    if exists|i: int| first_index(m, t, i) {
        let i = choose|i: int| first_index(m, t, i);
        m.update(i, (t, JVal::Arr(as_list(m[i].1) + as_list(v))))
    } else {
        m.push((t, JVal::Arr(as_list(v))))
    }
}

/// Merges the entries of `d` into `m`, first to last.
pub open spec fn merge_all(m: Entries, d: Entries) -> Entries
    decreases d.len(),
{
    if d.len() == 0 {
        m
    } else {
        merge_all(merge_one(m, d[0].0, d[0].1), d.drop_first())
    }
}

/// The scalars among the first `n` elements of `a`, in order.
pub open spec fn top_scalars(a: Seq<JVal>, n: int) -> Seq<JVal>
    decreases n,
{
    if n <= 0 || n > a.len() {
        seq![]
    } else if is_scalar(a[n - 1]) {
        top_scalars(a, n - 1).push(a[n - 1])
    } else {
        top_scalars(a, n - 1)
    }
}

/// The survivors of the arrays among the first `n` elements of `a`, in order.
pub open spec fn nested_survivors(a: Seq<JVal>, n: int) -> Seq<JVal>
    decreases a, n,
{
    if n <= 0 || n > a.len() {
        seq![]
    } else {
        match a[n - 1] {
            JVal::Arr(b) => nested_survivors(a, n - 1) + survivors(b),
            _ => nested_survivors(a, n - 1),
        }
    }
}

/// What an array keeps at its own key: its scalars, then the survivors of its
/// nested arrays.
pub open spec fn survivors(a: Seq<JVal>) -> Seq<JVal>
    decreases a, a.len() + 1,
{
    top_scalars(a, a.len() as int) + nested_survivors(a, a.len() as int)
}

/// The objects among the first `n` elements of `a` and, depth first, inside
/// its nested arrays, left to right.
pub open spec fn objects_in(a: Seq<JVal>, n: int) -> Seq<Entries>
    decreases a, n,
{
    if n <= 0 || n > a.len() {
        seq![]
    } else {
        match a[n - 1] {
            JVal::Obj(o) => objects_in(a, n - 1).push(o),
            JVal::Arr(b) => objects_in(a, n - 1) + objects_in(b, b.len() as int),
            _ => objects_in(a, n - 1),
        }
    }
}

/// The objects that the value of a key hands on to be merged.
pub open spec fn objects_of(v: JVal) -> Seq<Entries> {
    match v {
        JVal::Obj(o) => seq![o],
        JVal::Arr(a) => objects_in(a, a.len() as int),
        _ => seq![],
    }
}

/// What key `k` with value `v` keeps of itself.
pub open spec fn own_entry(k: Seq<char>, v: JVal) -> Entries {
    match v {
        JVal::Obj(_) => seq![],
        JVal::Arr(a) => if survivors(a).len() > 0 {
            seq![(k, JVal::Arr(survivors(a)))]
        } else {
            seq![]
        },
        _ => seq![(k, v)],
    }
}

/// What the first `n` keys of `m` keep of themselves.
pub open spec fn own_entries(m: Entries, n: int) -> Entries
    decreases n,
{
    if n <= 0 || n > m.len() {
        seq![]
    } else {
        own_entries(m, n - 1) + own_entry(m[n - 1].0, m[n - 1].1)
    }
}

/// The entries of `f`, each key put under `base`.
pub open spec fn prefixed(base: Seq<char>, f: Entries) -> Entries {
    f.map_values(|e: (Seq<char>, JVal)| (dotted(base, e.0), e.1))
}

/// The flat form of object `m`.
pub open spec fn flat(m: Entries) -> Entries
    decreases m, m.len() + 1,
{
    merge_all(own_entries(m, m.len() as int), derived(m, m.len() as int))
}

/// The entries that the nested objects under the first `n` keys of `m` merge
/// into the result, in order.
pub open spec fn derived(m: Entries, n: int) -> Entries
    decreases m, n,
{
    if n <= 0 || n > m.len() {
        seq![]
    } else {
        derived(m, n - 1) + derived_value(m[n - 1].0, m[n - 1].1)
    }
}

/// The entries that the nested objects of value `v`, found under key `k`,
/// merge into the result.
pub open spec fn derived_value(k: Seq<char>, v: JVal) -> Entries
    decreases v, 0int,
{
    match v {
        JVal::Obj(o) => prefixed(k, flat(o)),
        JVal::Arr(a) => derived_array(k, a, a.len() as int),
        _ => seq![],
    }
}

/// The entries that the nested objects of the first `n` elements of array `a`,
/// found under key `k`, merge into the result.
pub open spec fn derived_array(k: Seq<char>, a: Seq<JVal>, n: int) -> Entries
    decreases a, n,
{
    if n <= 0 || n > a.len() {
        seq![]
    } else {
        derived_array(k, a, n - 1) + derived_value(k, a[n - 1])
    }
}

/// The flat forms of objects `os`, each put under `base`, one after another.
pub open spec fn flat_all(base: Seq<char>, os: Seq<Entries>) -> Entries
    decreases os.len(),
{
    if os.len() == 0 {
        seq![]
    } else {
        prefixed(base, flat(os[0])) + flat_all(base, os.drop_first())
    }
}

/// Flattening the objects of `x + y` gives those of `x`, then those of `y`.
pub proof fn lemma_flat_all_append(base: Seq<char>, x: Seq<Entries>, y: Seq<Entries>)
    ensures
        flat_all(base, x + y) == flat_all(base, x) + flat_all(base, y),
    decreases x.len(),
{
    if x.len() == 0 {
        assert(x + y =~= y);
    } else {
        assert((x + y).drop_first() =~= x.drop_first() + y);
        lemma_flat_all_append(base, x.drop_first(), y);
    }
}

/// What the nested objects of an array merge in is what its objects,
/// flattened one after another, give.
pub proof fn lemma_derived_array(k: Seq<char>, a: Seq<JVal>, n: int)
    requires
        0 <= n <= a.len(),
    ensures
        derived_array(k, a, n) == flat_all(k, objects_in(a, n)),
    decreases a, n,
{
    if n > 0 {
        lemma_derived_array(k, a, n - 1);
        let prev = objects_in(a, n - 1);
        match a[n - 1] {
            JVal::Obj(o) => {
                assert(flat_all(k, seq![o]) == prefixed(k, flat(o)) + flat_all(k, seq![o].drop_first()));
                assert(flat_all(k, seq![o]) =~= prefixed(k, flat(o)));
                assert(prev.push(o) =~= prev + seq![o]);
                lemma_flat_all_append(k, prev, seq![o]);
                assert(derived_value(k, a[n - 1]) == prefixed(k, flat(o)));
                assert(derived_array(k, a, n) == flat_all(k, objects_in(a, n)));
            },
            JVal::Arr(b) => {
                lemma_derived_array(k, b, b.len() as int);
                lemma_flat_all_append(k, prev, objects_in(b, b.len() as int));
                assert(derived_value(k, a[n - 1]) == derived_array(k, b, b.len() as int));
                assert(derived_array(k, a, n) == flat_all(k, objects_in(a, n)));
            },
            _ => {
                assert(derived_value(k, a[n - 1]) =~= seq![]);
                assert(objects_in(a, n) == prev);
                assert(derived_array(k, a, n) =~= derived_array(k, a, n - 1));
                assert(derived_array(k, a, n) == flat_all(k, objects_in(a, n)));
            },
        }
    } else {
        assert(derived_array(k, a, n) == flat_all(k, objects_in(a, n)));
    }
}

/// What the nested objects of a value merge in is what the objects it hands
/// on, flattened one after another, give.
pub proof fn lemma_derived_value(k: Seq<char>, v: JVal)
    ensures
        derived_value(k, v) == flat_all(k, objects_of(v)),
{
    match v {
        JVal::Obj(o) => {
            assert(flat_all(k, seq![o]) == prefixed(k, flat(o)) + flat_all(k, seq![o].drop_first()));
            assert(flat_all(k, seq![o]) =~= prefixed(k, flat(o)));
        },
        JVal::Arr(a) => {
            lemma_derived_array(k, a, a.len() as int);
        },
        _ => {},
    }
}

/// Every object found in an array lies strictly inside it.
pub proof fn lemma_objects_inside(a: Seq<JVal>, n: int)
    requires
        0 <= n <= a.len(),
    ensures
        forall|q: int|
            0 <= q < objects_in(a, n).len() ==> decreases_to!(a => #[trigger] objects_in(a, n)[q]),
    decreases a, n,
{
    if n > 0 {
        lemma_objects_inside(a, n - 1);
        let prev = objects_in(a, n - 1);
        assert(decreases_to!(a => a[n - 1]));
        match a[n - 1] {
            JVal::Obj(o) => {
                assert(decreases_to!(a[n - 1] => o));
                assert(forall|q: int| 0 <= q < prev.len() ==> #[trigger] prev.push(o)[q] == prev[q]);
            },
            JVal::Arr(b) => {
                assert(decreases_to!(a[n - 1] => b));
                lemma_objects_inside(b, b.len() as int);
                let inner = objects_in(b, b.len() as int);
                assert forall|q: int| 0 <= q < (prev + inner).len() implies decreases_to!(a => #[trigger] (prev + inner)[q]) by {
                    if q >= prev.len() {
                        assert((prev + inner)[q] == inner[q - prev.len()]);
                    }
                }
            },
            _ => {},
        }
    }
}

/// Every object that a value hands on lies strictly inside it.
pub proof fn lemma_objects_of_inside(v: JVal)
    ensures
        forall|q: int| 0 <= q < objects_of(v).len() ==> decreases_to!(v => #[trigger] objects_of(v)[q]),
{
    match v {
        JVal::Obj(o) => {
            assert(decreases_to!(v => o));
        },
        JVal::Arr(a) => {
            assert(decreases_to!(v => a));
            lemma_objects_inside(a, a.len() as int);
        },
        _ => {},
    }
}

} // verus!
