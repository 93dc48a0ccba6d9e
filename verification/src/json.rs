//! The JSON data model used by every rewrite: an in-memory tree of values,
//! with objects kept as ordered key/value lists so that the key order of the
//! input document is preserved.

use vstd::prelude::*;
use vstd::string::StringExecFns;

verus! {

/// An in-memory JSON value. Objects keep their entries in insertion order.
pub enum Json {
    Null,
    Bool(bool),
    /// A number, held as the numeral text it was written with.
    Num(String),
    Str(String),
    Arr(Vec<Json>),
    Obj(Vec<(String, Json)>),
}

/// The mathematical model of a JSON value: object entries and array elements
/// become sequences, strings become sequences of characters.
pub enum JsonV {
    Null,
    Bool(bool),
    Num(Seq<char>),
    Str(Seq<char>),
    Arr(Seq<JsonV>),
    Obj(Seq<(Seq<char>, JsonV)>),
}

/// Model of a sequence of array elements.
pub open spec fn arr_v(s: Seq<Json>) -> Seq<JsonV>
    decreases s,
{
    if s.len() == 0 {
        Seq::empty()
    } else {
        seq![s[0]@] + arr_v(s.drop_first())
    }
}

/// Model of a sequence of object entries.
pub open spec fn obj_v(s: Seq<(String, Json)>) -> Seq<(Seq<char>, JsonV)>
    decreases s,
{
    if s.len() == 0 {
        Seq::empty()
    } else {
        seq![(s[0].0@, s[0].1@)] + obj_v(s.drop_first())
    }
}

impl View for Json {
    type V = JsonV;

    open spec fn view(&self) -> JsonV
        decreases self,
    {
        match self {
            Json::Null => JsonV::Null,
            Json::Bool(b) => JsonV::Bool(*b),
            Json::Num(n) => JsonV::Num(n@),
            Json::Str(s) => JsonV::Str(s@),
            Json::Arr(items) => JsonV::Arr(arr_v(items@)),
            Json::Obj(entries) => JsonV::Obj(obj_v(entries@)),
        }
    }
}

/// The model of an array is elementwise: same length, each element modelled.
pub proof fn lemma_arr_v(s: Seq<Json>)
    ensures
        arr_v(s).len() == s.len(),
        forall|i: int| #![trigger arr_v(s)[i]] #![trigger s[i]@] 0 <= i < s.len() ==> arr_v(s)[i]
            == s[i]@,
    decreases s.len(),
{
    if s.len() > 0 {
        lemma_arr_v(s.drop_first());
        let head = seq![s[0]@];
        assert(arr_v(s) == head + arr_v(s.drop_first()));
        assert forall|i: int| 0 <= i < s.len() implies arr_v(s)[i] == #[trigger] s[i]@ by {
            if i > 0 {
                assert((head + arr_v(s.drop_first()))[i] == arr_v(s.drop_first())[i - 1]);
                assert(s.drop_first()[i - 1] == s[i]);
            }
        }
    }
}

/// Index of the first entry carrying key `k`, or -1 when no entry does.
pub open spec fn key_idx(es: Seq<(Seq<char>, JsonV)>, k: Seq<char>) -> int
    decreases es.len(),
{
    if es.len() == 0 {
        -1
    } else if es[0].0 == k {
        0
    } else if key_idx(es.drop_first(), k) == -1 {
        -1
    } else {
        key_idx(es.drop_first(), k) + 1
    }
}

pub open spec fn has_key(es: Seq<(Seq<char>, JsonV)>, k: Seq<char>) -> bool {
    key_idx(es, k) >= 0
}

/// Value of the first entry carrying key `k`.
pub open spec fn get_key(es: Seq<(Seq<char>, JsonV)>, k: Seq<char>) -> Option<JsonV> {
    if has_key(es, k) {
        Some(es[key_idx(es, k)].1)
    } else {
        None
    }
}

/// `key_idx` finds exactly the first entry with the given key.
pub proof fn lemma_key_idx(es: Seq<(Seq<char>, JsonV)>, k: Seq<char>)
    ensures
        key_idx(es, k) >= -1,
        key_idx(es, k) == -1 ==> forall|i: int| 0 <= i < es.len() ==> (#[trigger] es[i]).0 != k,
        key_idx(es, k) >= 0 ==> key_idx(es, k) < es.len() && es[key_idx(es, k)].0 == k && forall|
            j: int,
        | 0 <= j < key_idx(es, k) ==> (#[trigger] es[j]).0 != k,
    decreases es.len(),
{
    if es.len() > 0 && es[0].0 != k {
        lemma_key_idx(es.drop_first(), k);
        assert(forall|i: int|
            1 <= i < es.len() ==> (#[trigger] es[i]) == es.drop_first()[i - 1]);
    }
}

/// The model of an object is entrywise: same length, each key and value modelled.
pub proof fn lemma_obj_v(s: Seq<(String, Json)>)
    ensures
        obj_v(s).len() == s.len(),
        forall|i: int| #![trigger obj_v(s)[i]] #![trigger s[i].0@] 0 <= i < s.len() ==> obj_v(
            s,
        )[i] == (s[i].0@, s[i].1@),
    decreases s.len(),
{
    if s.len() > 0 {
        lemma_obj_v(s.drop_first());
        let head = seq![(s[0].0@, s[0].1@)];
        assert(obj_v(s) == head + obj_v(s.drop_first()));
        assert forall|i: int| 0 <= i < s.len() implies obj_v(s)[i] == (
        #[trigger] s[i].0@,
        s[i].1@,
        ) by {
            if i > 0 {
                assert((head + obj_v(s.drop_first()))[i] == obj_v(s.drop_first())[i - 1]);
                assert(s.drop_first()[i - 1] == s[i]);
            }
        }
    }
}

/// Entry sequence after an insert of `(k, v)`: the first entry with key `k`
/// is overwritten in place, or a new entry is appended.
pub open spec fn set_key(es: Seq<(Seq<char>, JsonV)>, k: Seq<char>, v: JsonV) -> Seq<
    (Seq<char>, JsonV),
> {
    if has_key(es, k) {
        es.update(key_idx(es, k), (k, v))
    } else {
        es.push((k, v))
    }
}

/// Equality of a `String` with a string slice, decided at the level of views.
pub fn str_lit_eq(s: &String, lit: &str) -> (r: bool)
    ensures
        r == (s@ == lit@),
{
    let t = String::from_str(lit);
    *s == t
}

/// First value stored under `key`, by the first-match rule of `get_key`.
pub fn obj_lookup<'a>(entries: &'a Vec<(String, Json)>, key: &str) -> (r: Option<&'a Json>)
    ensures
        match r {
            Some(v) => get_key(obj_v(entries@), key@) == Some(v@),
            None => !has_key(obj_v(entries@), key@),
        },
{
    let kk = String::from_str(key);
    let mut i: usize = 0;
    while i < entries.len()
        invariant
            i <= entries.len(),
            kk@ == key@,
            forall|j: int| 0 <= j < i ==> obj_v(entries@)[j].0 != key@,
        decreases entries.len() - i,
    {
        proof {
            lemma_obj_v(entries@);
        }
        if entries[i].0 == kk {
            proof {
                lemma_key_idx(obj_v(entries@), key@);
            }
            return Some(&entries[i].1);
        }
        i += 1;
    }
    proof {
        lemma_obj_v(entries@);
        lemma_key_idx(obj_v(entries@), key@);
    }
    None
}

/// Whether any entry carries `key`.
pub fn obj_contains(entries: &Vec<(String, Json)>, key: &str) -> (r: bool)
    ensures
        r == has_key(obj_v(entries@), key@),
{
    obj_lookup(entries, key).is_some()
}

/// Insert `(key, val)`: overwrite the first entry with that key in place, or
/// append a new entry, as `set_key` states.
pub fn obj_set(entries: &mut Vec<(String, Json)>, key: String, val: Json)
    ensures
        obj_v(final(entries)@) == set_key(obj_v(old(entries)@), key@, val@),
{
    let ghost es0 = obj_v(old(entries)@);
    let mut i: usize = 0;
    while i < entries.len()
        invariant
            i <= entries.len(),
            entries@ == old(entries)@,
            es0 == obj_v(old(entries)@),
            forall|j: int| 0 <= j < i ==> obj_v(entries@)[j].0 != key@,
        decreases entries.len() - i,
    {
        proof {
            lemma_obj_v(entries@);
        }
        if entries[i].0 == key {
            proof {
                lemma_key_idx(es0, key@);
            }
            let ghost k0 = key@;
            let ghost v0 = val@;
            entries[i] = (key, val);
            proof {
                lemma_obj_v(old(entries)@);
                lemma_obj_v(entries@);
                assert(obj_v(entries@) =~= es0.update(i as int, (k0, v0)));
            }
            return ;
        }
        i += 1;
    }
    proof {
        lemma_key_idx(es0, key@);
    }
    let ghost k0 = key@;
    let ghost v0 = val@;
    entries.push((key, val));
    proof {
        lemma_obj_v(old(entries)@);
        lemma_obj_v(entries@);
        assert(obj_v(entries@) =~= es0.push((k0, v0)));
    }
}

/// Structural equality of two JSON values, decided at the level of models.
pub fn json_eq(a: &Json, b: &Json) -> (r: bool)
    ensures
        r == (a@ == b@),
    decreases a@,
{
    match (a, b) {
        (Json::Null, Json::Null) => true,
        (Json::Bool(x), Json::Bool(y)) => *x == *y,
        (Json::Num(x), Json::Num(y)) => *x == *y,
        (Json::Str(x), Json::Str(y)) => *x == *y,
        (Json::Arr(x), Json::Arr(y)) => {
            proof {
                lemma_arr_v(x@);
                lemma_arr_v(y@);
            }
            if x.len() != y.len() {
                return false;
            }
            let mut i: usize = 0;
            while i < x.len()
                invariant
                    i <= x.len(),
                    x@.len() == y@.len(),
                    a@ == JsonV::Arr(arr_v(x@)),
                    b@ == JsonV::Arr(arr_v(y@)),
                    forall|j: int| 0 <= j < i ==> arr_v(x@)[j] == arr_v(y@)[j],
                decreases x.len() - i,
            {
                proof {
                    lemma_arr_v(x@);
                    lemma_arr_v(y@);
                    assert(decreases_to!(a@ => a@->Arr_0));
                    assert(decreases_to!(a@->Arr_0 => a@->Arr_0[i as int]));
                }
                if !json_eq(&x[i], &y[i]) {
                    return false;
                }
                i += 1;
            }
            proof {
                lemma_arr_v(x@);
                lemma_arr_v(y@);
                assert(arr_v(x@) =~= arr_v(y@));
            }
            true
        },
        (Json::Obj(x), Json::Obj(y)) => {
            proof {
                lemma_obj_v(x@);
                lemma_obj_v(y@);
            }
            if x.len() != y.len() {
                return false;
            }
            let mut i: usize = 0;
            while i < x.len()
                invariant
                    i <= x.len(),
                    x@.len() == y@.len(),
                    a@ == JsonV::Obj(obj_v(x@)),
                    b@ == JsonV::Obj(obj_v(y@)),
                    forall|j: int| 0 <= j < i ==> obj_v(x@)[j] == obj_v(y@)[j],
                decreases x.len() - i,
            {
                proof {
                    lemma_obj_v(x@);
                    lemma_obj_v(y@);
                }
                if !(x[i].0 == y[i].0) {
                    return false;
                }
                proof {
                    assert(decreases_to!(a@ => a@->Obj_0));
                    assert(decreases_to!(a@->Obj_0 => a@->Obj_0[i as int]));
                    assert(decreases_to!(a@->Obj_0[i as int] => a@->Obj_0[i as int].1));
                }
                if !json_eq(&x[i].1, &y[i].1) {
                    return false;
                }
                i += 1;
            }
            proof {
                lemma_obj_v(x@);
                lemma_obj_v(y@);
                assert(obj_v(x@) =~= obj_v(y@));
            }
            true
        },
        _ => false,
    }
}

/// A copy of a JSON value with the same model.
pub fn deep_copy(v: &Json) -> (r: Json)
    ensures
        r@ == v@,
    decreases v@,
{
    match v {
        Json::Null => Json::Null,
        Json::Bool(b) => Json::Bool(*b),
        Json::Num(n) => Json::Num(n.clone()),
        Json::Str(s) => Json::Str(s.clone()),
        Json::Arr(items) => {
            let mut out: Vec<Json> = Vec::new();
            let mut i: usize = 0;
            while i < items.len()
                invariant
                    i <= items.len(),
                    v@ == JsonV::Arr(arr_v(items@)),
                    out@.len() == i,
                    forall|j: int| 0 <= j < i ==> arr_v(out@)[j] == arr_v(items@)[j],
                decreases items.len() - i,
            {
                proof {
                    lemma_arr_v(items@);
                    lemma_arr_v(out@);
                    assert(decreases_to!(v@ => v@->Arr_0));
                    assert(decreases_to!(v@->Arr_0 => v@->Arr_0[i as int]));
                }
                let c = deep_copy(&items[i]);
                out.push(c);
                proof {
                    lemma_arr_v(out@);
                    lemma_arr_v(items@);
                }
                i += 1;
            }
            proof {
                lemma_arr_v(out@);
                lemma_arr_v(items@);
                assert(arr_v(out@) =~= arr_v(items@));
            }
            Json::Arr(out)
        },
        Json::Obj(entries) => {
            let mut out: Vec<(String, Json)> = Vec::new();
            let mut i: usize = 0;
            while i < entries.len()
                invariant
                    i <= entries.len(),
                    v@ == JsonV::Obj(obj_v(entries@)),
                    out@.len() == i,
                    forall|j: int| 0 <= j < i ==> obj_v(out@)[j] == obj_v(entries@)[j],
                decreases entries.len() - i,
            {
                proof {
                    lemma_obj_v(entries@);
                    lemma_obj_v(out@);
                    assert(decreases_to!(v@ => v@->Obj_0));
                    assert(decreases_to!(v@->Obj_0 => v@->Obj_0[i as int]));
                    assert(decreases_to!(v@->Obj_0[i as int] => v@->Obj_0[i as int].1));
                }
                let k = entries[i].0.clone();
                let c = deep_copy(&entries[i].1);
                out.push((k, c));
                proof {
                    lemma_obj_v(out@);
                    lemma_obj_v(entries@);
                }
                i += 1;
            }
            proof {
                lemma_obj_v(out@);
                lemma_obj_v(entries@);
                assert(obj_v(out@) =~= obj_v(entries@));
            }
            Json::Obj(out)
        },
    }
}

} // verus!
