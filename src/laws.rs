//! Properties of flattening that hold for every input.

use vstd::prelude::*;
use vstd::multiset::Multiset;
use crate::rules::{
    as_list, derived, derived_array, derived_value, dotted, first_index, flat, is_scalar, merge_all,
    merge_one, nested_survivors, own_entries, own_entry, prefixed, survivors, top_scalars,
    Entries,
};
use crate::value::{unique_keys, JVal};

verus! {

/// Every element of `s` is a scalar.
pub open spec fn all_scalars(s: Seq<JVal>) -> bool {
    forall|i: int| 0 <= i < s.len() ==> is_scalar(#[trigger] s[i])
}

/// A value that may stand in a flat object: a scalar, or an array of scalars.
pub open spec fn is_flat_value(v: JVal) -> bool {
    is_scalar(v) || (v is Arr && all_scalars(v->Arr_0))
}

/// No value of the object is an object, and no array in it holds an array or
/// an object.
pub open spec fn is_flat(m: Entries) -> bool {
    forall|i: int| 0 <= i < m.len() ==> is_flat_value(#[trigger] m[i].1)
}

proof fn lemma_top_scalars_scalar(a: Seq<JVal>, n: int)
    ensures
        all_scalars(top_scalars(a, n)),
    decreases n,
{
    if 0 < n <= a.len() {
        lemma_top_scalars_scalar(a, n - 1);
    }
}

proof fn lemma_nested_survivors_scalar(a: Seq<JVal>, n: int)
    ensures
        all_scalars(nested_survivors(a, n)),
    decreases a, n,
{
    if 0 < n <= a.len() {
        lemma_nested_survivors_scalar(a, n - 1);
        if let JVal::Arr(b) = a[n - 1] {
            lemma_survivors_scalar(b);
        }
    }
}

/// What an array keeps at its own key is scalars only.
pub proof fn lemma_survivors_scalar(a: Seq<JVal>)
    ensures
        all_scalars(survivors(a)),
    decreases a, a.len() + 1,
{
    lemma_top_scalars_scalar(a, a.len() as int);
    lemma_nested_survivors_scalar(a, a.len() as int);
}

proof fn lemma_own_entries_flat(m: Entries, n: int)
    ensures
        is_flat(own_entries(m, n)),
    decreases n,
{
    if 0 < n <= m.len() {
        lemma_own_entries_flat(m, n - 1);
        if let JVal::Arr(a) = m[n - 1].1 {
            lemma_survivors_scalar(a);
        }
        let prev = own_entries(m, n - 1);
        let e = own_entry(m[n - 1].0, m[n - 1].1);
        assert forall|i: int| 0 <= i < (prev + e).len() implies is_flat_value(#[trigger] (prev + e)[i].1) by {
            if i >= prev.len() {
                assert((prev + e)[i] == e[i - prev.len()]);
            }
        }
    }
}

proof fn lemma_merge_one_flat(m: Entries, t: Seq<char>, v: JVal)
    requires
        is_flat(m),
        is_flat_value(v),
    ensures
        is_flat(merge_one(m, t, v)),
{
    if exists|i: int| first_index(m, t, i) {
        let i = choose|i: int| first_index(m, t, i);
        let joined = as_list(m[i].1) + as_list(v);
        assert(all_scalars(as_list(m[i].1)));
        assert(all_scalars(joined));
        let r = merge_one(m, t, v);
        assert forall|j: int| 0 <= j < r.len() implies is_flat_value(#[trigger] r[j].1) by {
            if j != i {
                assert(r[j] == m[j]);
            }
        }
    } else {
        assert(all_scalars(as_list(v)));
        let r = merge_one(m, t, v);
        assert forall|j: int| 0 <= j < r.len() implies is_flat_value(#[trigger] r[j].1) by {
            if j < m.len() {
                assert(r[j] == m[j]);
            }
        }
    }
}

proof fn lemma_merge_all_flat(m: Entries, d: Entries)
    requires
        is_flat(m),
        is_flat(d),
    ensures
        is_flat(merge_all(m, d)),
    decreases d.len(),
{
    if d.len() > 0 {
        assert(is_flat_value(d[0].1));
        lemma_merge_one_flat(m, d[0].0, d[0].1);
        assert forall|i: int| 0 <= i < d.drop_first().len() implies is_flat_value(#[trigger] d.drop_first()[i].1) by {
            assert(d.drop_first()[i] == d[i + 1]);
        }
        lemma_merge_all_flat(merge_one(m, d[0].0, d[0].1), d.drop_first());
    }
}

proof fn lemma_append_flat(x: Entries, y: Entries)
    requires
        is_flat(x),
        is_flat(y),
    ensures
        is_flat(x + y),
{
    assert forall|i: int| 0 <= i < (x + y).len() implies is_flat_value(#[trigger] (x + y)[i].1) by {
        if i >= x.len() {
            assert((x + y)[i] == y[i - x.len()]);
        }
    }
}

proof fn lemma_derived_flat(m: Entries, n: int)
    ensures
        is_flat(derived(m, n)),
    decreases m, n,
{
    if 0 < n <= m.len() {
        lemma_derived_flat(m, n - 1);
        assert(decreases_to!(m => m[n - 1]));
        lemma_derived_value_flat(m[n - 1].0, m[n - 1].1);
        lemma_append_flat(derived(m, n - 1), derived_value(m[n - 1].0, m[n - 1].1));
    }
}

proof fn lemma_derived_value_flat(k: Seq<char>, v: JVal)
    ensures
        is_flat(derived_value(k, v)),
    decreases v, 0int,
{
    match v {
        JVal::Obj(o) => {
            lemma_flat_is_flat(o);
            let f = flat(o);
            assert forall|i: int| 0 <= i < prefixed(k, f).len() implies is_flat_value(#[trigger] prefixed(k, f)[i].1) by {
                assert(prefixed(k, f)[i].1 == f[i].1);
            }
        },
        JVal::Arr(a) => {
            lemma_derived_array_flat(k, a, a.len() as int);
        },
        _ => {},
    }
}

proof fn lemma_derived_array_flat(k: Seq<char>, a: Seq<JVal>, n: int)
    ensures
        is_flat(derived_array(k, a, n)),
    decreases a, n,
{
    if 0 < n <= a.len() {
        lemma_derived_array_flat(k, a, n - 1);
        lemma_derived_value_flat(k, a[n - 1]);
        lemma_append_flat(derived_array(k, a, n - 1), derived_value(k, a[n - 1]));
    }
}

/// Flatness: no value of a flattened object is an object, and no array in it
/// holds an object or an array.
pub proof fn lemma_flat_is_flat(m: Entries)
    ensures
        is_flat(flat(m)),
    decreases m, m.len() + 1,
{
    lemma_own_entries_flat(m, m.len() as int);
    lemma_derived_flat(m, m.len() as int);
    lemma_merge_all_flat(own_entries(m, m.len() as int), derived(m, m.len() as int));
}

proof fn lemma_own_entries_keys(m: Entries, n: int)
    requires
        unique_keys(m),
        0 <= n <= m.len(),
    ensures
        unique_keys(own_entries(m, n)),
        forall|i: int|
            0 <= i < own_entries(m, n).len() ==> exists|j: int|
                0 <= j < n && #[trigger] own_entries(m, n)[i].0 == m[j].0,
    decreases n,
{
    if n > 0 {
        lemma_own_entries_keys(m, n - 1);
        let prev = own_entries(m, n - 1);
        let e = own_entry(m[n - 1].0, m[n - 1].1);
        let r = prev + e;
        assert(forall|i: int| 0 <= i < e.len() ==> #[trigger] e[i].0 == m[n - 1].0);
        assert forall|i: int| 0 <= i < r.len() implies exists|j: int|
            0 <= j < n && #[trigger] r[i].0 == m[j].0 by {
            if i >= prev.len() {
                assert(r[i] == e[i - prev.len()]);
                assert(r[i].0 == m[n - 1].0);
            } else {
                assert(r[i] == prev[i]);
                let j = choose|j: int| 0 <= j < n - 1 && prev[i].0 == m[j].0;
                assert(r[i].0 == m[j].0);
            }
        }
        assert forall|a: int, b: int| 0 <= a < b < r.len() implies r[a].0 != r[b].0 by {
            if b >= prev.len() {
                assert(r[b] == e[b - prev.len()]);
                if a >= prev.len() {
                    assert(e.len() <= 1);
                } else {
                    assert(r[a] == prev[a]);
                    let j = choose|j: int| 0 <= j < n - 1 && prev[a].0 == m[j].0;
                    assert(m[j].0 != m[n - 1].0);
                }
            } else {
                assert(r[a] == prev[a]);
                assert(r[b] == prev[b]);
            }
        }
    }
}

proof fn lemma_merge_one_keys(m: Entries, t: Seq<char>, v: JVal)
    requires
        unique_keys(m),
    ensures
        unique_keys(merge_one(m, t, v)),
{
    let r = merge_one(m, t, v);
    if exists|i: int| first_index(m, t, i) {
        let i = choose|i: int| first_index(m, t, i);
        assert(forall|j: int| 0 <= j < r.len() ==> #[trigger] r[j].0 == m[j].0);
    } else {
        assert forall|j: int| 0 <= j < m.len() implies m[j].0 != t by {
            if m[j].0 == t {
                assert forall|j2: int| 0 <= j2 < j implies m[j2].0 != t by {}
                assert(first_index(m, t, j));
            }
        }
        assert forall|a: int, b: int| 0 <= a < b < r.len() implies r[a].0 != r[b].0 by {
            assert(r[a] == m[a]);
            if b < m.len() {
                assert(r[b] == m[b]);
            }
        }
    }
}

proof fn lemma_merge_all_keys(m: Entries, d: Entries)
    requires
        unique_keys(m),
    ensures
        unique_keys(merge_all(m, d)),
    decreases d.len(),
{
    if d.len() > 0 {
        lemma_merge_one_keys(m, d[0].0, d[0].1);
        lemma_merge_all_keys(merge_one(m, d[0].0, d[0].1), d.drop_first());
    }
}

/// A flattened object holds each key once, if the input does.
pub proof fn lemma_flat_keys(m: Entries)
    requires
        unique_keys(m),
    ensures
        unique_keys(flat(m)),
{
    lemma_own_entries_keys(m, m.len() as int);
    lemma_merge_all_keys(own_entries(m, m.len() as int), derived(m, m.len() as int));
}

/// Every value of the object is a scalar or a non-empty array of scalars.
pub open spec fn is_flat_input(m: Entries) -> bool {
    forall|i: int|
        0 <= i < m.len() ==> #[trigger] is_scalar(m[i].1) || (m[i].1 is Arr && m[i].1->Arr_0.len()
            > 0 && all_scalars(m[i].1->Arr_0))
}

proof fn lemma_scalar_array_kept(a: Seq<JVal>, n: int)
    requires
        all_scalars(a),
        0 <= n <= a.len(),
    ensures
        top_scalars(a, n) == a.subrange(0, n),
        nested_survivors(a, n) == Seq::<JVal>::empty(),
    decreases n,
{
    if n > 0 {
        lemma_scalar_array_kept(a, n - 1);
        assert(is_scalar(a[n - 1]));
        assert(a.subrange(0, n - 1).push(a[n - 1]) =~= a.subrange(0, n));
    } else {
        assert(a.subrange(0, 0) =~= seq![]);
    }
}

proof fn lemma_scalar_array_derives_nothing(k: Seq<char>, a: Seq<JVal>, n: int)
    requires
        all_scalars(a),
        0 <= n <= a.len(),
    ensures
        derived_array(k, a, n) == Seq::<(Seq<char>, JVal)>::empty(),
    decreases n,
{
    if n > 0 {
        lemma_scalar_array_derives_nothing(k, a, n - 1);
        assert(is_scalar(a[n - 1]));
        assert(derived_value(k, a[n - 1]) =~= seq![]);
        assert(derived_array(k, a, n) =~= derived_array(k, a, n - 1));
    }
}

proof fn lemma_flat_input_parts(m: Entries, n: int)
    requires
        is_flat_input(m),
        0 <= n <= m.len(),
    ensures
        own_entries(m, n) == m.subrange(0, n),
        derived(m, n) == Seq::<(Seq<char>, JVal)>::empty(),
    decreases n,
{
    if n > 0 {
        lemma_flat_input_parts(m, n - 1);
        let (k, v) = m[n - 1];
        assert(is_scalar(v) || (v is Arr && v->Arr_0.len() > 0 && all_scalars(v->Arr_0)));
        if let JVal::Arr(a) = v {
            lemma_scalar_array_kept(a, a.len() as int);
            lemma_scalar_array_derives_nothing(k, a, a.len() as int);
            assert(a.subrange(0, a.len() as int) =~= a);
            assert(survivors(a) =~= a);
            assert(own_entry(k, v) =~= seq![(k, v)]);
            assert(derived_value(k, v) =~= seq![]);
        } else {
            assert(own_entry(k, v) =~= seq![(k, v)]);
            assert(derived_value(k, v) =~= seq![]);
        }
        assert(m.subrange(0, n - 1) + seq![(k, v)] =~= m.subrange(0, n));
        assert(derived(m, n) =~= derived(m, n - 1));
    } else {
        assert(m.subrange(0, 0) =~= seq![]);
    }
}

/// Idempotence on flat input: an object whose values are all scalars or
/// non-empty arrays of scalars is its own flat form.
pub proof fn lemma_flat_input_unchanged(m: Entries)
    requires
        is_flat_input(m),
    ensures
        flat(m) == m,
{
    lemma_flat_input_parts(m, m.len() as int);
    assert(m.subrange(0, m.len() as int) =~= m);
}

/// The elements that the entries of `d` bring to key `t`, in order.
pub open spec fn arrivals(d: Entries, t: Seq<char>) -> Seq<JVal>
    decreases d.len(),
{
    if d.len() == 0 {
        seq![]
    } else {
        (if d[0].0 == t {
            as_list(d[0].1)
        } else {
            seq![]
        }) + arrivals(d.drop_first(), t)
    }
}

proof fn lemma_merge_one_order(m: Entries, t: Seq<char>, i: int, k: Seq<char>, v: JVal)
    requires
        first_index(m, t, i),
    ensures
        first_index(merge_one(m, k, v), t, i),
        as_list(merge_one(m, k, v)[i].1) == as_list(m[i].1) + (if k == t {
            as_list(v)
        } else {
            seq![]
        }),
{
    let r = merge_one(m, k, v);
    if k == t {
        assert(first_index(m, k, i));
        let c = choose|c: int| first_index(m, k, c);
        assert(c == i);
    } else {
        if exists|c: int| first_index(m, k, c) {
            let c = choose|c: int| first_index(m, k, c);
            assert(c != i);
            assert(r[i] == m[i]);
            assert(forall|j: int| 0 <= j < i ==> #[trigger] r[j].0 != t) by {
                assert(forall|j: int| 0 <= j < i && j != c ==> r[j] == m[j]);
            }
        } else {
            assert(r[i] == m[i]);
            assert(forall|j: int| 0 <= j < i ==> r[j] == m[j]);
        }
        assert(as_list(m[i].1) + seq![] =~= as_list(m[i].1));
    }
}

/// Collision ordering: once key `t` holds a value, merging `d` leaves the key
/// where it stands, and its elements are the ones it held first, followed by
/// those that `d` brings to it, in the order of `d`.
pub proof fn lemma_collision_order(m: Entries, d: Entries, t: Seq<char>, i: int)
    requires
        first_index(m, t, i),
    ensures
        first_index(merge_all(m, d), t, i),
        as_list(merge_all(m, d)[i].1) == as_list(m[i].1) + arrivals(d, t),
    decreases d.len(),
{
    if d.len() == 0 {
        assert(as_list(m[i].1) + arrivals(d, t) =~= as_list(m[i].1));
    } else {
        let m1 = merge_one(m, d[0].0, d[0].1);
        lemma_merge_one_order(m, t, i, d[0].0, d[0].1);
        lemma_collision_order(m1, d.drop_first(), t, i);
        let first: Seq<JVal> = if d[0].0 == t {
            as_list(d[0].1)
        } else {
            seq![]
        };
        assert(as_list(m[i].1) + first + arrivals(d.drop_first(), t) =~= as_list(m[i].1) + arrivals(d, t));
    }
}

/// Collision ordering in a flattened object: a key that the input establishes
/// for itself holds that value first, followed by every value that nested
/// objects bring to it later, in order.
pub proof fn lemma_established_first(m: Entries, t: Seq<char>, i: int)
    requires
        first_index(own_entries(m, m.len() as int), t, i),
    ensures
        first_index(flat(m), t, i),
        as_list(flat(m)[i].1) == as_list(own_entries(m, m.len() as int)[i].1) + arrivals(
            derived(m, m.len() as int),
            t,
        ),
{
    lemma_collision_order(own_entries(m, m.len() as int), derived(m, m.len() as int), t, i);
}

/// The scalars reachable from a value, counted with multiplicity.
pub open spec fn leaves(v: JVal) -> Multiset<JVal>
    decreases v, 0int,
{
    match v {
        JVal::Arr(a) => leaves_of(a, a.len() as int),
        JVal::Obj(o) => leaves_in(o, o.len() as int),
        _ => Multiset::singleton(v),
    }
}

/// The scalars reachable from the first `n` elements of `a`.
pub open spec fn leaves_of(a: Seq<JVal>, n: int) -> Multiset<JVal>
    decreases a, n,
{
    if n <= 0 || n > a.len() {
        Multiset::empty()
    } else {
        leaves_of(a, n - 1).add(leaves(a[n - 1]))
    }
}

/// The scalars reachable from the values of the first `n` entries of `m`.
pub open spec fn leaves_in(m: Entries, n: int) -> Multiset<JVal>
    decreases m, n,
{
    if n <= 0 || n > m.len() {
        Multiset::empty()
    } else {
        leaves_in(m, n - 1).add(leaves(m[n - 1].1))
    }
}

/// The scalars reachable from all of `a`.
pub open spec fn all_leaves_of(a: Seq<JVal>) -> Multiset<JVal> {
    leaves_of(a, a.len() as int)
}

/// The scalars reachable from all of the values of `m`.
pub open spec fn all_leaves_in(m: Entries) -> Multiset<JVal> {
    leaves_in(m, m.len() as int)
}

proof fn lemma_leaves_of_prefix(x: Seq<JVal>, y: Seq<JVal>, n: int)
    requires
        0 <= n <= x.len(),
    ensures
        leaves_of(x + y, n) == leaves_of(x, n),
    decreases n,
{
    if n > 0 {
        lemma_leaves_of_prefix(x, y, n - 1);
        assert((x + y)[n - 1] == x[n - 1]);
    }
}

proof fn lemma_leaves_of_append(x: Seq<JVal>, y: Seq<JVal>)
    ensures
        all_leaves_of(x + y) == all_leaves_of(x).add(all_leaves_of(y)),
    decreases y.len(),
{
    if y.len() == 0 {
        assert(x + y =~= x);
        assert(all_leaves_of(x).add(all_leaves_of(y)) =~= all_leaves_of(x));
    } else {
        let y1 = y.drop_last();
        lemma_leaves_of_append(x, y1);
        assert(x + y1 =~= (x + y).drop_last());
        lemma_leaves_of_prefix(x + y1, seq![y.last()], (x + y1).len() as int);
        assert((x + y1) + seq![y.last()] =~= x + y);
        lemma_leaves_of_prefix(y1, seq![y.last()], y1.len() as int);
        assert(y1 + seq![y.last()] =~= y);
        assert((x + y)[(x + y).len() - 1] == y.last());
        assert(y[y.len() - 1] == y.last());
        assert(all_leaves_of(x + y) =~= all_leaves_of(x).add(all_leaves_of(y)));
    }
}

proof fn lemma_leaves_in_prefix(x: Entries, y: Entries, n: int)
    requires
        0 <= n <= x.len(),
    ensures
        leaves_in(x + y, n) == leaves_in(x, n),
    decreases n,
{
    if n > 0 {
        lemma_leaves_in_prefix(x, y, n - 1);
        assert((x + y)[n - 1] == x[n - 1]);
    }
}

proof fn lemma_leaves_in_append(x: Entries, y: Entries)
    ensures
        all_leaves_in(x + y) == all_leaves_in(x).add(all_leaves_in(y)),
    decreases y.len(),
{
    if y.len() == 0 {
        assert(x + y =~= x);
        assert(all_leaves_in(x).add(all_leaves_in(y)) =~= all_leaves_in(x));
    } else {
        let y1 = y.drop_last();
        lemma_leaves_in_append(x, y1);
        lemma_leaves_in_prefix(x + y1, seq![y.last()], (x + y1).len() as int);
        assert((x + y1) + seq![y.last()] =~= x + y);
        lemma_leaves_in_prefix(y1, seq![y.last()], y1.len() as int);
        assert(y1 + seq![y.last()] =~= y);
        assert((x + y)[(x + y).len() - 1] == y.last());
        assert(y[y.len() - 1] == y.last());
        assert(all_leaves_in(x + y) =~= all_leaves_in(x).add(all_leaves_in(y)));
    }
}

proof fn lemma_leaves_single(e: (Seq<char>, JVal))
    ensures
        all_leaves_in(seq![e]) == leaves(e.1),
{
    let s = seq![e];
    assert(s[0] == e);
    assert(leaves_in(s, 0) == Multiset::<JVal>::empty());
    assert(leaves_in(s, 1) == leaves_in(s, 0).add(leaves(s[0].1)));
    assert(all_leaves_in(s) =~= leaves(e.1));
}

proof fn lemma_leaves_as_list(v: JVal)
    ensures
        all_leaves_of(as_list(v)) == leaves(v),
{
    if !(v is Arr) {
        let s = seq![v];
        assert(s[0] == v);
        assert(leaves_of(s, 0) == Multiset::<JVal>::empty());
        assert(leaves_of(s, 1) == leaves_of(s, 0).add(leaves(s[0])));
        assert(all_leaves_of(s) =~= leaves(v));
    }
}

proof fn lemma_merge_one_leaves(m: Entries, t: Seq<char>, v: JVal)
    ensures
        all_leaves_in(merge_one(m, t, v)) == all_leaves_in(m).add(leaves(v)),
{
    lemma_leaves_as_list(v);
    if exists|i: int| first_index(m, t, i) {
        let i = choose|i: int| first_index(m, t, i);
        let joined = as_list(m[i].1) + as_list(v);
        lemma_leaves_as_list(m[i].1);
        lemma_leaves_of_append(as_list(m[i].1), as_list(v));
        let pre = m.subrange(0, i);
        let post = m.subrange(i + 1, m.len() as int);
        let e = (t, JVal::Arr(joined));
        assert(m =~= pre + seq![m[i]] + post);
        assert(merge_one(m, t, v) =~= pre + seq![e] + post);
        lemma_leaves_in_append(pre + seq![m[i]], post);
        lemma_leaves_in_append(pre, seq![m[i]]);
        lemma_leaves_in_append(pre + seq![e], post);
        lemma_leaves_in_append(pre, seq![e]);
        lemma_leaves_single(m[i]);
        lemma_leaves_single(e);
        assert(all_leaves_in(merge_one(m, t, v)) =~= all_leaves_in(m).add(leaves(v)));
    } else {
        let e = (t, JVal::Arr(as_list(v)));
        assert(merge_one(m, t, v) =~= m + seq![e]);
        lemma_leaves_in_append(m, seq![e]);
        lemma_leaves_single(e);
    }
}

proof fn lemma_merge_all_leaves(m: Entries, d: Entries)
    ensures
        all_leaves_in(merge_all(m, d)) == all_leaves_in(m).add(all_leaves_in(d)),
    decreases d.len(),
{
    if d.len() == 0 {
        assert(all_leaves_in(m).add(all_leaves_in(d)) =~= all_leaves_in(m));
    } else {
        lemma_merge_one_leaves(m, d[0].0, d[0].1);
        lemma_merge_all_leaves(merge_one(m, d[0].0, d[0].1), d.drop_first());
        assert(d =~= seq![d[0]] + d.drop_first());
        lemma_leaves_in_append(seq![d[0]], d.drop_first());
        lemma_leaves_single(d[0]);
        assert(all_leaves_in(merge_all(m, d)) =~= all_leaves_in(m).add(all_leaves_in(d)));
    }
}

proof fn lemma_prefixed_leaves(k: Seq<char>, f: Entries, n: int)
    requires
        0 <= n <= f.len(),
    ensures
        leaves_in(prefixed(k, f), n) == leaves_in(f, n),
    decreases n,
{
    if n > 0 {
        lemma_prefixed_leaves(k, f, n - 1);
        assert(prefixed(k, f)[n - 1] == (dotted(k, f[n - 1].0), f[n - 1].1));
    }
}

proof fn lemma_array_split_leaves(k: Seq<char>, a: Seq<JVal>, n: int)
    requires
        0 <= n <= a.len(),
    ensures
        all_leaves_of(top_scalars(a, n)).add(all_leaves_of(nested_survivors(a, n))).add(
            all_leaves_in(derived_array(k, a, n)),
        ) == leaves_of(a, n),
    decreases a, n,
{
    if n == 0 {
        assert(all_leaves_of(top_scalars(a, n)).add(all_leaves_of(nested_survivors(a, n))).add(
            all_leaves_in(derived_array(k, a, n)),
        ) =~= leaves_of(a, n));
    } else {
        lemma_array_split_leaves(k, a, n - 1);
        let x = a[n - 1];
        let ts = top_scalars(a, n - 1);
        let ns = nested_survivors(a, n - 1);
        let da = derived_array(k, a, n - 1);
        lemma_leaves_in_append(da, derived_value(k, x));
        match x {
            JVal::Arr(b) => {
                assert(decreases_to!(a => a[n - 1]));
                lemma_value_leaves(k, x);
                lemma_leaves_of_append(ns, survivors(b));
                assert(top_scalars(a, n) == ts);
                assert(own_entry(k, x) == (if survivors(b).len() > 0 {
                    seq![(k, JVal::Arr(survivors(b)))]
                } else {
                    Seq::<(Seq<char>, JVal)>::empty()
                }));
                if survivors(b).len() > 0 {
                    lemma_leaves_single((k, JVal::Arr(survivors(b))));
                } else {
                    assert(all_leaves_of(survivors(b)) =~= Multiset::empty());
                }
            },
            JVal::Obj(o) => {
                lemma_value_leaves(k, x);
                assert(top_scalars(a, n) == ts);
                assert(nested_survivors(a, n) == ns);
                assert(all_leaves_in(own_entry(k, x)) =~= Multiset::empty());
            },
            _ => {
                assert(top_scalars(a, n) == ts.push(x));
                assert(nested_survivors(a, n) == ns);
                assert(ts.push(x) =~= ts + seq![x]);
                lemma_leaves_of_append(ts, seq![x]);
                lemma_leaves_as_list(x);
                assert(derived_value(k, x) =~= seq![]);
                assert(all_leaves_in(derived_value(k, x)) =~= Multiset::empty());
            },
        }
        assert(all_leaves_of(top_scalars(a, n)).add(all_leaves_of(nested_survivors(a, n))).add(
            all_leaves_in(derived_array(k, a, n)),
        ) =~= leaves_of(a, n));
    }
}

/// The scalars of a value are split without loss between what its key keeps
/// of itself and what its nested objects merge in.
proof fn lemma_value_leaves(k: Seq<char>, v: JVal)
    ensures
        all_leaves_in(own_entry(k, v)).add(all_leaves_in(derived_value(k, v))) == leaves(v),
    decreases v, 1int,
{
    match v {
        JVal::Arr(a) => {
            lemma_array_split_leaves(k, a, a.len() as int);
            lemma_leaves_of_append(top_scalars(a, a.len() as int), nested_survivors(a, a.len() as int));
            if survivors(a).len() > 0 {
                lemma_leaves_single((k, JVal::Arr(survivors(a))));
            } else {
                assert(all_leaves_of(survivors(a)) =~= Multiset::empty());
                assert(all_leaves_in(own_entry(k, v)) =~= Multiset::empty());
            }
            assert(all_leaves_in(own_entry(k, v)).add(all_leaves_in(derived_value(k, v))) =~= leaves(v));
        },
        JVal::Obj(o) => {
            lemma_flat_keeps_leaves(o);
            lemma_prefixed_leaves(k, flat(o), flat(o).len() as int);
            assert(all_leaves_in(own_entry(k, v)) =~= Multiset::empty());
            assert(all_leaves_in(own_entry(k, v)).add(all_leaves_in(derived_value(k, v))) =~= leaves(v));
        },
        _ => {
            lemma_leaves_single((k, v));
            assert(all_leaves_in(derived_value(k, v)) =~= Multiset::empty());
            assert(all_leaves_in(own_entry(k, v)).add(all_leaves_in(derived_value(k, v))) =~= leaves(v));
        },
    }
}

proof fn lemma_entries_leaves(m: Entries, n: int)
    requires
        0 <= n <= m.len(),
    ensures
        all_leaves_in(own_entries(m, n)).add(all_leaves_in(derived(m, n))) == leaves_in(m, n),
    decreases m, n,
{
    if n == 0 {
        assert(all_leaves_in(own_entries(m, n)).add(all_leaves_in(derived(m, n))) =~= leaves_in(m, n));
    } else {
        lemma_entries_leaves(m, n - 1);
        assert(decreases_to!(m => m[n - 1]));
        lemma_value_leaves(m[n - 1].0, m[n - 1].1);
        lemma_leaves_in_append(own_entries(m, n - 1), own_entry(m[n - 1].0, m[n - 1].1));
        lemma_leaves_in_append(derived(m, n - 1), derived_value(m[n - 1].0, m[n - 1].1));
        assert(all_leaves_in(own_entries(m, n)).add(all_leaves_in(derived(m, n))) =~= leaves_in(m, n));
    }
}

/// Scalar conservation: a flattened object holds exactly the scalars that
/// the input reaches, each as often as the input holds it.
pub proof fn lemma_flat_keeps_leaves(m: Entries)
    ensures
        all_leaves_in(flat(m)) == all_leaves_in(m),
    decreases m, m.len() + 1,
{
    lemma_entries_leaves(m, m.len() as int);
    lemma_merge_all_leaves(own_entries(m, m.len() as int), derived(m, m.len() as int));
}

} // verus!
