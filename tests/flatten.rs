use json_flatten::flatten::{dotted_key, flatten};
use json_flatten::value::{Json, Object};

fn s(x: &str) -> Json {
    Json::String(x.to_string())
}

fn n(x: u64) -> Json {
    Json::Number(serde_json::Number::from(x))
}

fn arr(items: Vec<Json>) -> Json {
    Json::Array(items)
}

fn object(entries: Vec<(&str, Json)>) -> Object {
    let mut o = Object::new();
    for (k, v) in entries {
        o.insert(k.to_string(), v);
    }
    o
}

fn obj(entries: Vec<(&str, Json)>) -> Json {
    Json::Object(object(entries))
}

/// Compares two objects as maps: the order of their keys does not matter.
fn assert_same(got: &Object, want: &Object) {
    assert_eq!(got.len(), want.len(), "got {:?}, want {:?}", got, want);
    for (k, v) in want.entries.iter() {
        assert_eq!(got.get(k), Some(v), "at key {:?} in {:?}", k, got);
    }
}

#[test]
fn no_flattening() {
    let input = || {
        object(vec![
            ("id", s("287947")),
            ("title", s("Shazam!")),
            ("release_date", n(1553299200)),
            ("genres", arr(vec![s("Action"), s("Comedy"), s("Fantasy")])),
        ])
    };
    let flat = flatten(input());
    assert_same(&flat, &input());
}

#[test]
fn flatten_object() {
    let input = object(vec![("a", obj(vec![("b", s("c")), ("d", s("e")), ("f", s("g"))]))]);
    let flat = flatten(input);
    assert_same(
        &flat,
        &object(vec![
            ("a.b", arr(vec![s("c")])),
            ("a.d", arr(vec![s("e")])),
            ("a.f", arr(vec![s("g")])),
        ]),
    );
}

#[test]
fn flatten_array() {
    let input = object(vec![(
        "a",
        arr(vec![obj(vec![("b", s("c"))]), obj(vec![("b", s("d"))]), obj(vec![("b", s("e"))])]),
    )]);
    let flat = flatten(input);
    assert_same(&flat, &object(vec![("a.b", arr(vec![s("c"), s("d"), s("e")]))]));

    let input = object(vec![(
        "a",
        arr(vec![
            n(42),
            obj(vec![("b", s("c"))]),
            obj(vec![("b", s("d"))]),
            obj(vec![("b", s("e"))]),
        ]),
    )]);
    let flat = flatten(input);
    assert_same(
        &flat,
        &object(vec![("a", arr(vec![n(42)])), ("a.b", arr(vec![s("c"), s("d"), s("e")]))]),
    );
}

#[test]
fn collision_with_object() {
    let input = object(vec![("a", obj(vec![("b", s("c"))])), ("a.b", s("d"))]);
    let flat = flatten(input);
    assert_same(&flat, &object(vec![("a.b", arr(vec![s("d"), s("c")]))]));
}

#[test]
fn collision_with_array() {
    let input = object(vec![
        (
            "a",
            arr(vec![obj(vec![("b", s("c"))]), obj(vec![("b", s("d")), ("c", s("e"))]), n(35)]),
        ),
        ("a.b", s("f")),
    ]);
    let flat = flatten(input);
    assert_same(
        &flat,
        &object(vec![
            ("a.b", arr(vec![s("f"), s("c"), s("d")])),
            ("a.c", arr(vec![s("e")])),
            ("a", arr(vec![n(35)])),
        ]),
    );
}

#[test]
fn flatten_nested_arrays() {
    let input = object(vec![(
        "a",
        arr(vec![
            arr(vec![s("b"), s("c")]),
            obj(vec![("d", s("e"))]),
            arr(vec![s("f"), s("g")]),
            arr(vec![obj(vec![("h", s("i"))]), obj(vec![("d", s("j"))])]),
            arr(vec![s("k"), s("l")]),
        ]),
    )]);
    let flat = flatten(input);
    assert_same(
        &flat,
        &object(vec![
            ("a", arr(vec![s("b"), s("c"), s("f"), s("g"), s("k"), s("l")])),
            ("a.d", arr(vec![s("e"), s("j")])),
            ("a.h", arr(vec![s("i")])),
        ]),
    );
}

#[test]
fn flatten_nested_arrays_and_objects() {
    let input = object(vec![(
        "a",
        arr(vec![
            s("b"),
            arr(vec![s("c"), s("d")]),
            obj(vec![("e", arr(vec![s("f"), s("g")]))]),
            arr(vec![
                obj(vec![("h", s("i"))]),
                obj(vec![("e", arr(vec![s("j"), obj(vec![("z", s("y"))])]))]),
            ]),
            arr(vec![s("l")]),
            s("m"),
        ]),
    )]);
    let flat = flatten(input);
    assert_same(
        &flat,
        &object(vec![
            ("a", arr(vec![s("b"), s("m"), s("c"), s("d"), s("l")])),
            ("a.e", arr(vec![s("f"), s("g"), s("j")])),
            ("a.h", arr(vec![s("i")])),
            ("a.e.z", arr(vec![s("y")])),
        ]),
    );
}

#[test]
fn empty_object_stays_empty() {
    let flat = flatten(Object::new());
    assert_eq!(flat.len(), 0);
}

#[test]
fn empty_nested_object_and_empty_array_disappear() {
    let input = object(vec![("a", obj(vec![])), ("b", arr(vec![])), ("c", Json::Null)]);
    let flat = flatten(input);
    assert_same(&flat, &object(vec![("c", Json::Null)]));
}

#[test]
fn array_of_only_containers_loses_its_key() {
    let input = object(vec![("a", arr(vec![obj(vec![("x", Json::Bool(true))]), arr(vec![])]))]);
    let flat = flatten(input);
    assert_same(&flat, &object(vec![("a.x", arr(vec![Json::Bool(true)]))]));
}

#[test]
fn deep_objects_join_every_level() {
    let input = object(vec![("a", obj(vec![("b", obj(vec![("c", n(1))]))]))]);
    let flat = flatten(input);
    assert_same(&flat, &object(vec![("a.b.c", arr(vec![n(1)]))]));
}

#[test]
fn flat_input_is_kept() {
    let input = || {
        object(vec![
            ("x", Json::Null),
            ("y", arr(vec![Json::Bool(false), n(7)])),
            ("a.b", s("q")),
        ])
    };
    let flat = flatten(input());
    assert_eq!(flat, input());
    let again = flatten(flatten(input()));
    assert_eq!(again, input());
}

#[test]
fn scalars_are_kept_once_each() {
    let input = object(vec![
        ("a", arr(vec![n(1), obj(vec![("b", n(2))]), arr(vec![n(3), obj(vec![("b", n(4))])])])),
        ("a.b", n(5)),
    ]);
    let flat = flatten(input);
    assert_same(
        &flat,
        &object(vec![("a", arr(vec![n(1), n(3)])), ("a.b", arr(vec![n(5), n(2), n(4)]))]),
    );
}

#[test]
fn dotted_key_joins_with_a_dot() {
    let k = dotted_key(&"left".to_string(), &"right".to_string());
    assert_eq!(k, "left.right");
    let k = dotted_key(&"".to_string(), &"".to_string());
    assert_eq!(k, ".");
}

#[test]
fn insert_replaces_in_place() {
    let mut o = object(vec![("a", n(1)), ("b", n(2))]);
    o.insert("a".to_string(), n(3));
    assert_eq!(o.len(), 2);
    assert_eq!(o.get("a"), Some(&n(3)));
    assert_eq!(o.get("b"), Some(&n(2)));
    assert_eq!(o.get("c"), None);
    assert_eq!(o.entries[0].0, "a");
}

#[test]
fn no_nesting_scenario() {
    let input = || {
        object(vec![
            ("id", s("287947")),
            ("genres", arr(vec![s("Action"), s("Comedy"), s("Fantasy")])),
        ])
    };
    assert_eq!(flatten(input()), input());
}

#[test]
fn plain_object_scenario() {
    let input = object(vec![("a", obj(vec![("b", s("c")), ("d", s("e"))]))]);
    assert_same(
        &flatten(input),
        &object(vec![("a.b", arr(vec![s("c")])), ("a.d", arr(vec![s("e")]))]),
    );
}

#[test]
fn array_of_objects_scenario() {
    let input = object(vec![("a", arr(vec![obj(vec![("b", s("c"))]), obj(vec![("b", s("d"))])]))]);
    assert_same(&flatten(input), &object(vec![("a.b", arr(vec![s("c"), s("d")]))]));

    let input = object(vec![(
        "a",
        arr(vec![n(42), obj(vec![("b", s("c"))]), obj(vec![("b", s("d"))])]),
    )]);
    assert_same(
        &flatten(input),
        &object(vec![("a", arr(vec![n(42)])), ("a.b", arr(vec![s("c"), s("d")]))]),
    );
}

#[test]
fn nested_arrays_scenario() {
    let input = object(vec![(
        "a",
        arr(vec![
            arr(vec![s("b"), s("c")]),
            obj(vec![("d", s("e"))]),
            arr(vec![s("f"), s("g")]),
        ]),
    )]);
    assert_same(
        &flatten(input),
        &object(vec![
            ("a", arr(vec![s("b"), s("c"), s("f"), s("g")])),
            ("a.d", arr(vec![s("e")])),
        ]),
    );
}

fn is_scalar(v: &Json) -> bool {
    !matches!(v, Json::Array(_) | Json::Object(_))
}

#[test]
fn output_holds_no_containers_inside() {
    let input = object(vec![
        ("a", obj(vec![("b", arr(vec![arr(vec![n(1)]), obj(vec![("c", Json::Null)])]))])),
        ("d", arr(vec![arr(vec![arr(vec![s("x")])]), obj(vec![])])),
        ("e", obj(vec![("f", obj(vec![("g", Json::Bool(true))]))])),
    ]);
    let flat = flatten(input);
    let mut leaves = 0;
    for (_, v) in flat.entries.iter() {
        match v {
            Json::Array(items) => {
                assert!(items.iter().all(is_scalar), "{:?}", flat);
                leaves += items.len();
            }
            Json::Object(_) => panic!("object left in {:?}", flat),
            _ => leaves += 1,
        }
    }
    assert_eq!(leaves, 4);
    assert_same(
        &flat,
        &object(vec![
            ("a.b", arr(vec![n(1)])),
            ("a.b.c", arr(vec![Json::Null])),
            ("d", arr(vec![s("x")])),
            ("e.f.g", arr(vec![Json::Bool(true)])),
        ]),
    );
}

#[test]
fn later_collisions_come_after_earlier_ones() {
    let input = object(vec![
        ("a.b", arr(vec![n(1), n(2)])),
        ("a", obj(vec![("b", arr(vec![n(3), n(4)]))])),
    ]);
    assert_same(&flatten(input), &object(vec![("a.b", arr(vec![n(1), n(2), n(3), n(4)]))]));
}
