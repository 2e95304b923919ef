use lib::uimigrate::{get, show_unmounted_drives, with_key, Json, STATE_VERSION};

fn obj(pairs: Vec<(&str, Json)>) -> Json {
    Json::Obj(pairs.into_iter().map(|(k, v)| (k.to_string(), v)).collect())
}

fn num(text: &str) -> Json {
    Json::Num(text.to_string())
}

#[test]
fn a_key_is_replaced_where_it_stands_or_added_at_the_end() {
    let base = || obj(vec![("a", num("1")), ("b", num("2"))]);
    assert_eq!(with_key(base(), "a", num("3")), obj(vec![("a", num("3")), ("b", num("2"))]));
    assert_eq!(with_key(base(), "c", num("3")), obj(vec![("a", num("1")), ("b", num("2")), ("c", num("3"))]));
    assert_eq!(with_key(Json::Bool(false), "a", num("3")), Json::Bool(false), "only an object takes a key");
    let twice = obj(vec![("a", num("1")), ("a", num("2"))]);
    assert_eq!(with_key(twice, "a", num("9")), obj(vec![("a", num("9")), ("a", num("2"))]), "the first one is set");
}

#[test]
fn the_unmounted_drives_are_turned_on_and_every_other_leaf_kept() {
    let old = obj(vec![
        ("view", Json::Str("grid".to_string())),
        ("places", obj(vec![("showUnmounted", Json::Bool(false)), ("driveSize", Json::Bool(true))])),
    ]);
    let on = show_unmounted_drives(old);
    assert_eq!(
        on,
        obj(vec![
            ("view", Json::Str("grid".to_string())),
            ("places", obj(vec![("showUnmounted", Json::Bool(true)), ("driveSize", Json::Bool(true))])),
        ])
    );
    let bare = show_unmounted_drives(obj(vec![("view", Json::Str("list".to_string()))]));
    assert_eq!(
        bare,
        obj(vec![("view", Json::Str("list".to_string())), ("places", obj(vec![("showUnmounted", Json::Bool(true))]))])
    );
    assert_eq!(show_unmounted_drives(Json::Null), Json::Null);
}

#[test]
fn a_lookup_finds_the_stamp_or_nothing() {
    let stamped = obj(vec![(STATE_VERSION, num("1")), ("view", Json::Null)]);
    assert_eq!(get(&stamped, STATE_VERSION), Some(&num("1")));
    assert_eq!(get(&stamped, "places"), None);
    assert_eq!(get(&Json::Null, "view"), None);
}
