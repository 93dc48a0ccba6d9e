//! The deep-merge primitive shared by the rewrites: objects are merged
//! entrywise (with composition keywords withheld), arrays are unioned by
//! structural equality, and for any other pair the right value replaces the
//! left one — so the later operand wins on scalar conflicts.

use vstd::prelude::*;

use crate::json::{
    arr_v, deep_copy, has_key, json_eq, key_idx, lemma_arr_v, lemma_key_idx, lemma_obj_v, obj_v,
    str_lit_eq, Json, JsonV,
};

verus! {

/// Keys that a merge never copies from its right operand into the left one.
pub open spec fn is_skip_key(k: Seq<char>) -> bool {
    k == "allOf"@ || k == "oneOf"@ || k == "discriminator"@
}

/// Whether `xs` holds an element structurally equal to `v`.
pub open spec fn arr_contains(xs: Seq<JsonV>, v: JsonV) -> bool {
    exists|i: int| 0 <= i < xs.len() && xs[i] == v
}

/// Array union: keep the left elements in order, then append each right
/// element that is not already present.
pub open spec fn arr_union(ax: Seq<JsonV>, bx: Seq<JsonV>) -> Seq<JsonV>
    decreases bx.len(),
{
    if bx.len() == 0 {
        ax
    } else {
        let a2 = if arr_contains(ax, bx[0]) {
            ax
        } else {
            ax.push(bx[0])
        };
        arr_union(a2, bx.drop_first())
    }
}

/// The deep merge of two JSON values.
pub open spec fn merged(a: JsonV, b: JsonV) -> JsonV
    decreases b, 0int,
{
    if a is Obj && b is Obj {
        JsonV::Obj(merged_entries(a->Obj_0, b->Obj_0))
    } else if a is Arr && b is Arr {
        JsonV::Arr(arr_union(a->Arr_0, b->Arr_0))
    } else {
        b
    }
}

/// Folds the right entries into the left ones, first to last: a key in the
/// skip set is withheld; a key already present has its value deep-merged in
/// place; any other entry is appended.
pub open spec fn merged_entries(
    ae: Seq<(Seq<char>, JsonV)>,
    be: Seq<(Seq<char>, JsonV)>,
) -> Seq<(Seq<char>, JsonV)>
    decreases be, 1int,
{
    if be.len() == 0 {
        ae
    } else {
        merged_entries(merged_entry(ae, be[0].0, be[0].1), be.drop_first())
    }
}

/// One step of `merged_entries`: fold a single right entry into `ae`.
pub open spec fn merged_entry(
    ae: Seq<(Seq<char>, JsonV)>,
    k: Seq<char>,
    v: JsonV,
) -> Seq<(Seq<char>, JsonV)>
    decreases v, 1int,
{
    if is_skip_key(k) {
        ae
    } else if has_key(ae, k) {
        ae.update(key_idx(ae, k), (ae[key_idx(ae, k)].0, merged(ae[key_idx(ae, k)].1, v)))
    } else {
        ae.push((k, v))
    }
}

/// Folding a concatenation folds the first part, then the second.
pub proof fn lemma_merged_entries_append(
    ae: Seq<(Seq<char>, JsonV)>,
    p: Seq<(Seq<char>, JsonV)>,
    q: Seq<(Seq<char>, JsonV)>,
)
    ensures
        merged_entries(ae, p + q) == merged_entries(merged_entries(ae, p), q),
    decreases p.len(),
{
    if p.len() == 0 {
        assert(p + q =~= q);
    } else {
        assert((p + q)[0] == p[0]);
        assert((p + q).drop_first() =~= p.drop_first() + q);
        lemma_merged_entries_append(merged_entry(ae, p[0].0, p[0].1), p.drop_first(), q);
    }
}

/// Unioning a concatenation unions the first part, then the second.
pub proof fn lemma_arr_union_append(ax: Seq<JsonV>, p: Seq<JsonV>, q: Seq<JsonV>)
    ensures
        arr_union(ax, p + q) == arr_union(arr_union(ax, p), q),
    decreases p.len(),
{
    if p.len() == 0 {
        assert(p + q =~= q);
    } else {
        assert((p + q)[0] == p[0]);
        assert((p + q).drop_first() =~= p.drop_first() + q);
        let a2 = if arr_contains(ax, p[0]) {
            ax
        } else {
            ax.push(p[0])
        };
        lemma_arr_union_append(a2, p.drop_first(), q);
    }
}

/// Position of the first entry with key `key`, as `key_idx` states it.
pub fn obj_find(entries: &Vec<(String, Json)>, key: &String) -> (r: Option<usize>)
    ensures
        match r {
            Some(j) => key_idx(obj_v(entries@), key@) == j as int,
            None => key_idx(obj_v(entries@), key@) == -1,
        },
{
    let mut i: usize = 0;
    while i < entries.len()
        invariant
            i <= entries.len(),
            forall|j: int| 0 <= j < i ==> obj_v(entries@)[j].0 != key@,
        decreases entries.len() - i,
    {
        proof {
            lemma_obj_v(entries@);
        }
        if entries[i].0 == *key {
            proof {
                lemma_key_idx(obj_v(entries@), key@);
            }
            return Some(i);
        }
        i += 1;
    }
    proof {
        lemma_obj_v(entries@);
        lemma_key_idx(obj_v(entries@), key@);
    }
    None
}

/// A copy of an entry list with the same model.
pub fn clone_entries(entries: &Vec<(String, Json)>) -> (r: Vec<(String, Json)>)
    ensures
        obj_v(r@) == obj_v(entries@),
{
    let mut out: Vec<(String, Json)> = Vec::new();
    let mut i: usize = 0;
    while i < entries.len()
        invariant
            i <= entries.len(),
            out@.len() == i,
            forall|j: int| 0 <= j < i ==> obj_v(out@)[j] == obj_v(entries@)[j],
        decreases entries.len() - i,
    {
        proof {
            lemma_obj_v(entries@);
            lemma_obj_v(out@);
        }
        let k = entries[i].0.clone();
        let c = deep_copy(&entries[i].1);
        out.push((k, c));
        proof {
            lemma_obj_v(out@);
        }
        i += 1;
    }
    proof {
        lemma_obj_v(out@);
        lemma_obj_v(entries@);
        assert(obj_v(out@) =~= obj_v(entries@));
    }
    out
}

/// A copy of an element list with the same model.
pub fn clone_elems(items: &Vec<Json>) -> (r: Vec<Json>)
    ensures
        arr_v(r@) == arr_v(items@),
{
    let mut out: Vec<Json> = Vec::new();
    let mut i: usize = 0;
    while i < items.len()
        invariant
            i <= items.len(),
            out@.len() == i,
            forall|j: int| 0 <= j < i ==> arr_v(out@)[j] == arr_v(items@)[j],
        decreases items.len() - i,
    {
        proof {
            lemma_arr_v(items@);
            lemma_arr_v(out@);
        }
        let c = deep_copy(&items[i]);
        out.push(c);
        proof {
            lemma_arr_v(out@);
        }
        i += 1;
    }
    proof {
        lemma_arr_v(out@);
        lemma_arr_v(items@);
        assert(arr_v(out@) =~= arr_v(items@));
    }
    out
}

/// Whether `items` holds an element structurally equal to `v`.
pub fn arr_contains_exec(items: &Vec<Json>, v: &Json) -> (r: bool)
    ensures
        r == arr_contains(arr_v(items@), v@),
{
    let mut i: usize = 0;
    while i < items.len()
        invariant
            i <= items.len(),
            forall|j: int| 0 <= j < i ==> arr_v(items@)[j] != v@,
        decreases items.len() - i,
    {
        proof {
            lemma_arr_v(items@);
        }
        if json_eq(&items[i], v) {
            proof {
                lemma_arr_v(items@);
            }
            return true;
        }
        i += 1;
    }
    proof {
        lemma_arr_v(items@);
    }
    false
}

/// Deep-merge `b` into a copy of `a`, as `merged` states.
pub fn merge_values(a: &Json, b: &Json) -> (r: Json)
    ensures
        r@ == merged(a@, b@),
    decreases b@,
{
    match (a, b) {
        (Json::Obj(ae), Json::Obj(be)) => {
            let mut out = clone_entries(ae);
            let ghost ae0 = obj_v(ae@);
            let ghost bes = obj_v(be@);
            proof {
                lemma_obj_v(be@);
                assert(bes.take(0) =~= Seq::<(Seq<char>, JsonV)>::empty());
            }
            let mut i: usize = 0;
            while i < be.len()
                invariant
                    i <= be.len(),
                    ae0 == obj_v(ae@),
                    bes == obj_v(be@),
                    bes.len() == be@.len(),
                    a@ == JsonV::Obj(ae0),
                    b@ == JsonV::Obj(bes),
                    obj_v(out@) == merged_entries(ae0, bes.take(i as int)),
                decreases be.len() - i,
            {
                proof {
                    lemma_obj_v(be@);
                    lemma_obj_v(out@);
                    assert(bes.take(i + 1) =~= bes.take(i as int) + seq![bes[i as int]]);
                    lemma_merged_entries_append(ae0, bes.take(i as int), seq![bes[i as int]]);
                    assert(seq![bes[i as int]].drop_first() =~= Seq::<(Seq<char>, JsonV)>::empty());
                    let cur = obj_v(out@);
                    let e = bes[i as int];
                    assert(merged_entries(cur, seq![e]) == merged_entries(
                        merged_entry(cur, e.0, e.1),
                        seq![e].drop_first(),
                    ));
                    assert(merged_entries(
                        merged_entry(cur, e.0, e.1),
                        Seq::<(Seq<char>, JsonV)>::empty(),
                    ) == merged_entry(cur, e.0, e.1));
                }
                let key = &be[i].0;
                if !(str_lit_eq(key, "allOf") || str_lit_eq(key, "oneOf") || str_lit_eq(
                    key,
                    "discriminator",
                )) {
                    match obj_find(&out, key) {
                        Some(j) => {
                            proof {
                                lemma_key_idx(obj_v(out@), key@);
                                assert(decreases_to!(b@ => b@->Obj_0));
                                assert(decreases_to!(b@->Obj_0 => b@->Obj_0[i as int]));
                                assert(decreases_to!(b@->Obj_0[i as int] => b@->Obj_0[
                                i as int
                                ].1));
                            }
                            let m = merge_values(&out[j].1, &be[i].1);
                            let k2 = key.clone();
                            let ghost out_before = obj_v(out@);
                            out[j] = (k2, m);
                            proof {
                                lemma_obj_v(out@);
                                assert(obj_v(out@) =~= merged_entry(out_before, bes[i as int].0,
                                bes[i as int].1));
                            }
                        },
                        None => {
                            let k2 = key.clone();
                            let c = deep_copy(&be[i].1);
                            let ghost out_before = obj_v(out@);
                            out.push((k2, c));
                            proof {
                                lemma_obj_v(out@);
                                assert(obj_v(out@) =~= merged_entry(out_before, bes[i as int].0,
                                bes[i as int].1));
                            }
                        },
                    }
                }
                i += 1;
            }
            proof {
                assert(bes.take(be@.len() as int) =~= bes);
            }
            Json::Obj(out)
        },
        (Json::Arr(ax), Json::Arr(bx)) => {
            let mut out = clone_elems(ax);
            let ghost ax0 = arr_v(ax@);
            let ghost bxs = arr_v(bx@);
            proof {
                lemma_arr_v(bx@);
                assert(bxs.take(0) =~= Seq::<JsonV>::empty());
            }
            let mut i: usize = 0;
            while i < bx.len()
                invariant
                    i <= bx.len(),
                    ax0 == arr_v(ax@),
                    bxs == arr_v(bx@),
                    bxs.len() == bx@.len(),
                    a@ == JsonV::Arr(ax0),
                    b@ == JsonV::Arr(bxs),
                    arr_v(out@) == arr_union(ax0, bxs.take(i as int)),
                decreases bx.len() - i,
            {
                proof {
                    lemma_arr_v(bx@);
                    lemma_arr_v(out@);
                    assert(bxs.take(i + 1) =~= bxs.take(i as int) + seq![bxs[i as int]]);
                    lemma_arr_union_append(ax0, bxs.take(i as int), seq![bxs[i as int]]);
                    assert(seq![bxs[i as int]].drop_first() =~= Seq::<JsonV>::empty());
                    let cur = arr_v(out@);
                    let e = bxs[i as int];
                    let step = if arr_contains(cur, e) {
                        cur
                    } else {
                        cur.push(e)
                    };
                    assert(arr_union(cur, seq![e]) == arr_union(step, seq![e].drop_first()));
                    assert(arr_union(step, Seq::<JsonV>::empty()) == step);
                }
                if !arr_contains_exec(&out, &bx[i]) {
                    let c = deep_copy(&bx[i]);
                    let ghost out_before = arr_v(out@);
                    out.push(c);
                    proof {
                        lemma_arr_v(out@);
                        assert(arr_v(out@) =~= out_before.push(bxs[i as int]));
                    }
                }
                i += 1;
            }
            proof {
                assert(bxs.take(bx@.len() as int) =~= bxs);
            }
            Json::Arr(out)
        },
        _ => deep_copy(b),
    }
}

} // verus!
