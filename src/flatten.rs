//! Flattening of objects, proved against the rules.

use vstd::prelude::*;
use vstd::string::*;
use crate::rules::{
    derived, derived_value, lemma_derived_value, lemma_objects_of_inside, merge_all, objects_of,
    own_entries, own_entry, prefixed, as_list, dotted, first_index, flat, flat_all, merge_one, nested_survivors, objects_in,
    survivors, top_scalars, is_scalar, Entries,
};
use crate::laws::{
    all_leaves_in, is_flat, lemma_flat_is_flat, lemma_flat_keeps_leaves, lemma_flat_keys,
};
use crate::value::{unique_keys, JVal, lemma_object_view, lemma_array_view, objects_view, views, entries_view, Json, Object};

verus! {

/// The model of a list of keys still waiting for their objects to be merged.
pub open spec fn pending_view(p: Seq<(String, Vec<Object>)>) -> Seq<(Seq<char>, Seq<Entries>)> {
    p.map_values(|e: (String, Vec<Object>)| (e.0@, objects_view(e.1@)))
}

/// The entries that a list of waiting keys merges in, in order.
pub open spec fn pending_entries(p: Seq<(Seq<char>, Seq<Entries>)>) -> Entries
    decreases p.len(),
{
    if p.len() == 0 {
        seq![]
    } else {
        flat_all(p[0].0, p[0].1) + pending_entries(p.drop_first())
    }
}

proof fn lemma_pending_push(p: Seq<(Seq<char>, Seq<Entries>)>, x: (Seq<char>, Seq<Entries>))
    ensures
        pending_entries(p.push(x)) == pending_entries(p) + flat_all(x.0, x.1),
    decreases p.len(),
{
    if p.len() == 0 {
        assert(p.push(x).drop_first() =~= p);
        assert(pending_entries(p) == Seq::<(Seq<char>, JVal)>::empty());
        assert(pending_entries(p.push(x)) =~= flat_all(x.0, x.1));
    } else {
        assert(p.push(x).drop_first() =~= p.drop_first().push(x));
        lemma_pending_push(p.drop_first(), x);
        assert(pending_entries(p.push(x)) =~= pending_entries(p) + flat_all(x.0, x.1));
    }
}

/// The elements that `v` brings when merged into an array.
fn into_list(v: Json) -> (r: Vec<Json>)
    ensures
        views(r@) == as_list(v@),
{
    match v {
        Json::Array(a) => {
            proof {
                lemma_array_view(a);
            }
            a
        },
        other => {
            let r = vec![other];
            proof {
                assert(views(r@) =~= seq![other@]);
            }
            r
        },
    }
}

/// The key `base.key`.
pub fn dotted_key(base: &String, key: &String) -> (r: String)
    ensures
        r@ == dotted(base@, key@),
{
    let mut t = base.clone();
    t.append(".");
    t.append(key.as_str());
    proof {
        reveal_strlit(".");
    }
    t
}

/// Merges `v` into key `t` of `out` by the collision rule.
fn merge_into(out: &mut Vec<(String, Json)>, t: String, v: Json)
    ensures
        entries_view(final(out)@) == merge_one(entries_view(old(out)@), t@, v@),
{
    let ghost m = entries_view(out@);
    let n = out.len();
    let mut i: usize = 0;
    let mut found = false;
    while i < n && !found
        invariant
            n == out.len(),
            0 <= i <= n,
            m == entries_view(out@),
            found ==> i < n && out@[i as int].0@ == t@,
            forall|j: int| 0 <= j < i ==> out@[j].0@ != t@,
        decreases n - i + (if found { 0int } else { 1int }),
    {
        if out[i].0 == t {
            found = true;
        } else {
            i = i + 1;
        }
    }
    if found {
        proof {
            assert(first_index(m, t@, i as int));
            assert forall|j: int| first_index(m, t@, j) implies j == i by {
                if j < i {
                } else if j > i {
                    assert(m[i as int].0 == t@);
                }
            }
        }
        let (k, held) = out.remove(i);
        let mut items = into_list(held);
        let mut more = into_list(v);
        items.append(&mut more);
        let ghost before = items@;
        proof {
            lemma_array_view(items);
        }
        out.insert(i, (k, Json::Array(items)));
        proof {
            assert(views(before) =~= as_list(m[i as int].1) + as_list(v@));
            assert(entries_view(out@) =~= merge_one(m, t@, v@));
        }
    } else {
        let items = into_list(v);
        proof {
            lemma_array_view(items);
            assert(!exists|j: int| first_index(m, t@, j));
        }
        out.push((t, Json::Array(items)));
        proof {
            assert(entries_view(out@) =~= merge_one(m, t@, v@));
        }
    }
}

/// Splits an array into what it keeps at its own key and the objects that it
/// hands on to be merged.
fn split_array(a: Vec<Json>) -> (r: (Vec<Json>, Vec<Object>))
    ensures
        views(r.0@) == survivors(views(a@)),
        objects_view(r.1@) == objects_in(views(a@), a.len() as int),
    decreases views(a@),
{
    let ghost orig = a@;
    let ghost s = views(a@);
    let mut rest = a;
    let mut scalars: Vec<Json> = Vec::new();
    let mut nested: Vec<Json> = Vec::new();
    let mut objects: Vec<Object> = Vec::new();
    let ghost mut i: int = 0;
    while rest.len() > 0
        invariant
            0 <= i <= orig.len(),
            rest@ == orig.subrange(i, orig.len() as int),
            s == views(orig),
            s == views(a@),
            views(scalars@) == top_scalars(s, i),
            views(nested@) == nested_survivors(s, i),
            objects_view(objects@) == objects_in(s, i),
        decreases rest.len(),
    {
        let ghost prev_scalars = scalars@;
        let ghost prev_nested = nested@;
        let ghost prev_objects = objects@;
        let e = rest.remove(0);
        proof {
            assert(e == orig[i]);
            assert(s[i] == e@);
        }
        match e {
            Json::Array(b) => {
                proof {
                    lemma_array_view(b);
                    assert(decreases_to!(s => s[i]));
                    assert(decreases_to!(s[i] => s[i]->Arr_0));
                    assert(decreases_to!(s => views(b@)));
                }
                let (mut bs, mut bo) = split_array(b);
                let ghost got_s = bs@;
                let ghost got_o = bo@;
                nested.append(&mut bs);
                objects.append(&mut bo);
                proof {
                    assert(views(nested@) =~= views(prev_nested) + views(got_s));
                    assert(objects_view(objects@) =~= objects_view(prev_objects) + objects_view(got_o));
                    assert(top_scalars(s, i + 1) == top_scalars(s, i));
                }
            },
            Json::Object(o) => {
                objects.push(o);
                proof {
                    assert(objects_view(objects@) =~= objects_view(prev_objects).push(o@));
                    assert(top_scalars(s, i + 1) == top_scalars(s, i));
                    assert(nested_survivors(s, i + 1) == nested_survivors(s, i));
                }
            },
            other => {
                scalars.push(other);
                proof {
                    assert(is_scalar(other@));
                    assert(views(scalars@) =~= views(prev_scalars).push(other@));
                    assert(nested_survivors(s, i + 1) == nested_survivors(s, i));
                    assert(objects_in(s, i + 1) == objects_in(s, i));
                }
            },
        }
        proof {
            i = i + 1;
        }
    }
    let ghost tops = scalars@;
    let ghost nests = nested@;
    scalars.append(&mut nested);
    proof {
        assert(i == orig.len());
        assert(views(scalars@) =~= views(tops) + views(nests));
    }
    (scalars, objects)
}

/// Flattens `json`: every nested object is merged into the result under
/// dotted keys, and values that meet at one key are gathered into an array.
pub fn flatten(json: Object) -> (r: Object)
    ensures
        r@ == flat(json@),
        is_flat(r@),
        all_leaves_in(r@) == all_leaves_in(json@),
        unique_keys(json@) ==> unique_keys(r@),
    decreases json@,
{
    let ghost m = json@;
    proof {
        lemma_object_view(json);
    }
    let ghost orig = json.entries@;
    let mut rest = json.entries;
    let mut out: Vec<(String, Json)> = Vec::new();
    let mut pending: Vec<(String, Vec<Object>)> = Vec::new();
    let ghost mut i: int = 0;
    while rest.len() > 0
        invariant
            0 <= i <= orig.len(),
            m == json@,
            rest@ == orig.subrange(i, orig.len() as int),
            m == entries_view(orig),
            entries_view(out@) == own_entries(m, i),
            pending_entries(pending_view(pending@)) == derived(m, i),
            forall|q: int, j: int|
                0 <= q < pending@.len() && 0 <= j < pending_view(pending@)[q].1.len()
                    ==> decreases_to!(m => #[trigger] pending_view(pending@)[q].1[j]),
        decreases rest.len(),
    {
        let ghost prev_out = out@;
        let ghost prev_pending = pending@;
        let (k, v) = rest.remove(0);
        proof {
            assert((k, v) == orig[i]);
            assert(m[i] == (k@, v@));
            lemma_derived_value(k@, v@);
            lemma_objects_of_inside(v@);
            assert(decreases_to!(m => m[i]));
            assert(decreases_to!(m[i] => m[i].1));
            assert(derived(m, i + 1) == derived(m, i) + derived_value(k@, v@));
            assert(own_entries(m, i + 1) == own_entries(m, i) + own_entry(k@, v@));
        }
        let ghost handed = objects_of(v@);
        let ghost key = k@;
        match v {
            Json::Array(a) => {
                proof {
                    lemma_array_view(a);
                }
                let (surv, objs) = split_array(a);
                if surv.len() > 0 {
                    proof {
                        lemma_array_view(surv);
                    }
                    out.push((k.clone(), Json::Array(surv)));
                    proof {
                        assert(entries_view(out@) =~= entries_view(prev_out) + own_entry(key, v@));
                    }
                } else {
                    proof {
                        assert(entries_view(out@) =~= entries_view(prev_out) + own_entry(key, v@));
                    }
                }
                pending.push((k, objs));
                proof {
                    assert(pending_view(pending@) =~= pending_view(prev_pending).push((key, handed)));
                    lemma_pending_push(pending_view(prev_pending), (key, handed));
                }
            },
            Json::Object(o) => {
                let objs = vec![o];
                proof {
                    assert(objects_view(objs@) =~= seq![o@]);
                    assert(entries_view(out@) =~= entries_view(prev_out) + own_entry(key, v@));
                }
                pending.push((k, objs));
                proof {
                    assert(pending_view(pending@) =~= pending_view(prev_pending).push((key, handed)));
                    lemma_pending_push(pending_view(prev_pending), (key, handed));
                }
            },
            other => {
                out.push((k, other));
                proof {
                    assert(entries_view(out@) =~= entries_view(prev_out) + own_entry(key, v@));
                    assert(handed =~= seq![]);
                    assert(flat_all(key, handed) =~= seq![]);
                    assert(derived(m, i + 1) =~= derived(m, i));
                }
            },
        }
        proof {
            i = i + 1;
        }
    }
    proof {
        assert(i == orig.len());
    }
    while pending.len() > 0
        invariant
            m == json@,
            merge_all(entries_view(out@), pending_entries(pending_view(pending@))) == flat(m),
            forall|q: int, j: int|
                0 <= q < pending@.len() && 0 <= j < pending_view(pending@)[q].1.len()
                    ==> decreases_to!(m => #[trigger] pending_view(pending@)[q].1[j]),
        decreases pending.len(),
    {
        let ghost pv = pending_view(pending@);
        let (k, objs) = pending.remove(0);
        proof {
            assert(pv[0] == (k@, objects_view(objs@)));
            assert(pending_view(pending@) =~= pv.drop_first());
            assert(forall|j: int| 0 <= j < objs@.len() ==> #[trigger] objects_view(objs@)[j] == pv[0].1[j]);
        }
        let ghost tail = pending_entries(pending_view(pending@));
        let mut objs = objs;
        while objs.len() > 0
            invariant
                m == json@,
                tail == pending_entries(pending_view(pending@)),
                merge_all(entries_view(out@), flat_all(k@, objects_view(objs@)) + tail) == flat(m),
                forall|j: int|
                    0 <= j < objs@.len() ==> decreases_to!(m => #[trigger] objects_view(objs@)[j]),
            decreases objs.len(),
        {
            let ghost ov = objects_view(objs@);
            let o = objs.remove(0);
            proof {
                assert(ov[0] == o@);
                assert(objects_view(objs@) =~= ov.drop_first());
                assert(decreases_to!(m => o@));
            }
            let f = flatten(o);
            proof {
                lemma_object_view(f);
            }
            let ghost after = flat_all(k@, objects_view(objs@)) + tail;
            proof {
                assert(flat_all(k@, ov) + tail =~= prefixed(k@, entries_view(f.entries@)) + after);
            }
            let mut fe = f.entries;
            while fe.len() > 0
                invariant
                    merge_all(entries_view(out@), prefixed(k@, entries_view(fe@)) + after) == flat(m),
                decreases fe.len(),
            {
                let ghost fv = entries_view(fe@);
                let ghost whole = prefixed(k@, fv) + after;
                let (k2, v2) = fe.remove(0);
                let t = dotted_key(&k, &k2);
                proof {
                    assert(fv[0] == (k2@, v2@));
                    assert(whole[0] == (t@, v2@));
                    assert(whole.drop_first() =~= prefixed(k@, entries_view(fe@)) + after);
                }
                merge_into(&mut out, t, v2);
            }
            proof {
                assert(prefixed(k@, entries_view(fe@)) + after =~= after);
            }
        }
        proof {
            assert(flat_all(k@, objects_view(objs@)) + tail =~= tail);
        }
    }
    proof {
        assert(pending_view(pending@) =~= seq![]);
        lemma_flat_is_flat(m);
        lemma_flat_keeps_leaves(m);
        if unique_keys(m) {
            lemma_flat_keys(m);
        }
    }
    let r = Object { entries: out };
    proof {
        lemma_object_view(r);
    }
    r
}

} // verus!
