// The steps of the one-time changes a stored ui.json is owed that touch no number: looking a key up,
// putting a key where it stands, and turning the unmounted drives on.
use crate::text::{chars_of, push_str, range_eq};
use vstd::prelude::*;

verus! {

/// The key of the stamp that records which changes a file has had.
pub const STATE_VERSION: &'static str = "stateVersion";

/// A JSON document as the state file holds it; a number keeps the text it was written with.
#[derive(Debug, PartialEq)]
pub enum Json {
    Null,
    Bool(bool),
    Num(String),
    Str(String),
    Arr(Vec<Json>),
    Obj(Vec<(String, Json)>),
}

/// The index of the first pair named `key`, or the number of pairs when none is.
pub open spec fn key_index(pairs: Seq<(String, Json)>, key: Seq<char>) -> nat
    decreases pairs.len(),
{
    if pairs.len() == 0 {
        0
    } else if pairs[0].0@ == key {
        0
    } else {
        1 + key_index(pairs.drop_first(), key)
    }
}

proof fn lemma_key_index(pairs: Seq<(String, Json)>, key: Seq<char>, k: int)
    requires
        0 <= k <= pairs.len(),
        forall|j: int| 0 <= j < k ==> (#[trigger] pairs[j]).0@ != key,
        k == pairs.len() || pairs[k].0@ == key,
    ensures
        key_index(pairs, key) == k,
    decreases k,
{
    if k > 0 {
        let d = pairs.drop_first();
        assert forall|j: int| 0 <= j < k - 1 implies (#[trigger] d[j]).0@ != key by {
            assert(d[j] == pairs[j + 1]);
        }
        lemma_key_index(d, key, k - 1);
    }
}

/// `r` is `object` with `key` set to `value`: replaced where the key first stands, keeping its place,
/// or added at the end; anything but an object is left as it is.
pub open spec fn with_key_of(object: Json, key: Seq<char>, value: Json, r: Json) -> bool {
    match object {
        Json::Obj(pairs) => match r {
            Json::Obj(out) => {
                let k = key_index(pairs@, key);
                if k < pairs.len() {
                    out@ == pairs@.update(k as int, (pairs@[k as int].0, value))
                } else {
                    &&& out@.len() == pairs.len() + 1
                    &&& out@.take(pairs.len() as int) == pairs@
                    &&& out@.last().0@ == key
                    &&& out@.last().1 == value
                }
            },
            _ => false,
        },
        _ => r == object,
    }
}

/// The value an object holds under `key`, where it holds one.
pub open spec fn value_at(object: Json, key: Seq<char>) -> Option<Json> {
    match object {
        Json::Obj(pairs) => if key_index(pairs@, key) < pairs.len() {
            Some(pairs@[key_index(pairs@, key) as int].1)
        } else {
            None
        },
        _ => None,
    }
}

/// Whether `j` is an object with no pairs.
pub open spec fn is_empty_object(j: Json) -> bool {
    match j {
        Json::Obj(pairs) => pairs.len() == 0,
        _ => false,
    }
}

fn find_key(pairs: &Vec<(String, Json)>, key: &str) -> (k: usize)
    ensures
        k == key_index(pairs@, key@),
{
    let w = chars_of(key);
    let mut i: usize = 0;
    while i < pairs.len()
        invariant
            i <= pairs.len(),
            w@ == key@,
            forall|j: int| 0 <= j < i ==> (#[trigger] pairs@[j]).0@ != key@,
        decreases pairs.len() - i,
    {
        let v = chars_of(pairs[i].0.as_str());
        assert(v@.subrange(0, v.len() as int) =~= v@);
        if range_eq(&v, 0, v.len(), &w) {
            proof {
                lemma_key_index(pairs@, key@, i as int);
            }
            return i;
        }
        i = i + 1;
    }
    proof {
        lemma_key_index(pairs@, key@, i as int);
    }
    i
}

/// Sample: {"view":"grid"} looked up under "view" gives "grid", and under "places" nothing.
pub fn get<'a>(object: &'a Json, key: &str) -> (r: Option<&'a Json>)
    ensures
        match r {
            Some(v) => value_at(*object, key@) == Some(*v),
            None => value_at(*object, key@) is None,
        },
{
    match object {
        Json::Obj(pairs) => {
            let k = find_key(pairs, key);
            if k < pairs.len() {
                Some(&pairs[k].1)
            } else {
                None
            }
        },
        _ => None,
    }
}

/// Sample: {"a":1,"b":2} with "a" set to 3 gives {"a":3,"b":2}; with "c" set to 3, {"a":1,"b":2,"c":3}.
///
/// Replaced where it stands, so the key order a rewrite renders is the merge's and not this file's.
pub fn with_key(object: Json, key: &str, value: Json) -> (r: Json)
    ensures
        with_key_of(object, key@, value, r),
{
    match object {
        Json::Obj(mut pairs) => {
            let ghost before = pairs@;
            let k = find_key(&pairs, key);
            if k < pairs.len() {
                let (name, _old) = pairs.remove(k);
                pairs.insert(k, (name, value));
                assert(pairs@ =~= before.update(k as int, (before[k as int].0, value)));
            } else {
                let mut name = String::new();
                push_str(&mut name, key);
                pairs.push((name, value));
                assert(pairs@.take(before.len() as int) =~= before);
            }
            Json::Obj(pairs)
        },
        other => other,
    }
}

/// Sample: {"places":{"showUnmounted":false,"driveSize":true}} gives
/// {"places":{"showUnmounted":true,"driveSize":true}}, and {"view":"grid"} gives
/// {"view":"grid","places":{"showUnmounted":true}}.
///
/// Turned on once for every file written before the stamp, including one switched off before it: the
/// file's places, or an empty object where it has none, get showUnmounted set to true, and that is put
/// back under "places".
pub fn show_unmounted_drives(state: Json) -> (r: Json)
    ensures
        exists|places: Json, shown: Json|
            {
                &&& match value_at(state, "places"@) {
                    Some(p) => places == p,
                    None => is_empty_object(places),
                }
                &&& #[trigger] with_key_of(places, "showUnmounted"@, Json::Bool(true), shown)
                &&& with_key_of(state, "places"@, shown, r)
            },
{
    match state {
        Json::Obj(mut pairs) => {
            let ghost before = pairs@;
            let k = find_key(&pairs, "places");
            if k < pairs.len() {
                let (name, places) = pairs.remove(k);
                let ghost p = places;
                let shown = with_key(places, "showUnmounted", Json::Bool(true));
                let ghost s = shown;
                pairs.insert(k, (name, shown));
                assert(pairs@ =~= before.update(k as int, (before[k as int].0, s)));
                let r = Json::Obj(pairs);
                assert(with_key_of(p, "showUnmounted"@, Json::Bool(true), s));
                r
            } else {
                let empty = Json::Obj(Vec::new());
                let ghost p = empty;
                let shown = with_key(empty, "showUnmounted", Json::Bool(true));
                let ghost s = shown;
                let mut name = String::new();
                push_str(&mut name, "places");
                pairs.push((name, shown));
                assert(pairs@.take(before.len() as int) =~= before);
                let r = Json::Obj(pairs);
                assert(with_key_of(p, "showUnmounted"@, Json::Bool(true), s));
                r
            }
        },
        other => {
            let empty = Json::Obj(Vec::new());
            let ghost p = empty;
            let shown = with_key(empty, "showUnmounted", Json::Bool(true));
            assert(with_key_of(p, "showUnmounted"@, Json::Bool(true), shown));
            other
        },
    }
}

} // verus!
