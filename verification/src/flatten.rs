//! The AllOf merger walks a document depth-first and, at each object whose
//! `allOf` passes the configured filter, folds the `allOf` array into the
//! object: the entries are deep-merged left to right into the first one, and
//! the result is deep-merged into the object itself, whose `allOf` key is
//! removed. An entry that is a reference is resolved first. A non-array or
//! empty `allOf` is left in place and counted as a diagnostic.

use vstd::prelude::*;

use crate::dereference::{DereferencerContext, RewriteOut, SCOPE_LIMIT};
use crate::error::ErrV;
use crate::error::Error;
use crate::filter::Filter;
use crate::json::{
    arr_v, deep_copy, get_key, has_key, key_idx, lemma_arr_v, lemma_key_idx, lemma_obj_v,
    obj_contains, obj_lookup, obj_v, Json, JsonV,
};
use crate::merge::{arr_union, clone_entries, is_skip_key, merge_values, merged, merged_entries,
    merged_entry};
use crate::pointer::{fragment_navigate, pointer_get};
use crate::storage::{Schema, SchemaStorage};
use crate::urls::{parse_url, ref_to_url, ref_url_of, split_ref};

verus! {

pub struct Merger;

pub struct FlattenAllOfOptions {
    /// Accepted and stored, with no effect yet.
    pub leave_invalid_properties: bool,
    /// The predicate that gates each fold.
    pub filter: Filter,
}

impl Clone for Filter {
    fn clone(&self) -> (r: Self)
        ensures
            r.keyword_contains@ == self.keyword_contains@,
            r.require_key == self.require_key,
    {
        let mut kw: Vec<String> = Vec::new();
        let mut i: usize = 0;
        while i < self.keyword_contains.len()
            invariant
                i <= self.keyword_contains@.len(),
                kw@.len() == i,
                forall|j: int| 0 <= j < i ==> kw@[j] == self.keyword_contains@[j],
            decreases self.keyword_contains@.len() - i,
        {
            kw.push(self.keyword_contains[i].clone());
            i += 1;
        }
        proof {
            assert(kw@ =~= self.keyword_contains@);
        }
        let rk = match &self.require_key {
            Some(k) => Some(k.clone()),
            None => None,
        };
        Filter { keyword_contains: kw, require_key: rk }
    }
}

impl Clone for FlattenAllOfOptions {
    fn clone(&self) -> (r: Self)
        ensures
            r.leave_invalid_properties == self.leave_invalid_properties,
            r.filter.keyword_contains@ == self.filter.keyword_contains@,
            r.filter.require_key == self.filter.require_key,
    {
        FlattenAllOfOptions {
            leave_invalid_properties: self.leave_invalid_properties,
            filter: self.filter.clone(),
        }
    }
}

impl FlattenAllOfOptions {
    pub fn with_leave_invalid_properties(self, value: bool) -> (r: Self)
        ensures
            r.leave_invalid_properties == value,
            r.filter == self.filter,
    {
        FlattenAllOfOptions { leave_invalid_properties: value, ..self }
    }

    pub fn with_filter(self, value: Filter) -> (r: Self)
        ensures
            r.leave_invalid_properties == self.leave_invalid_properties,
            r.filter == value,
    {
        FlattenAllOfOptions { filter: value, ..self }
    }
}

impl Merger {
    /// The default options: no filter, every `allOf` is folded.
    pub fn options() -> (r: FlattenAllOfOptions)
        ensures
            r.leave_invalid_properties == false,
            r.filter.always_matches(),
    {
        FlattenAllOfOptions { leave_invalid_properties: false, filter: Filter::always() }
    }
}

/// No object reachable in `v` carries an `allOf` key.
pub open spec fn allof_free(v: JsonV) -> bool
    decreases v,
{
    match v {
        JsonV::Obj(es) => !has_key(es, "allOf"@) && forall|i: int|
            0 <= i < es.len() ==> allof_free(#[trigger] es[i].1),
        JsonV::Arr(xs) => forall|i: int| 0 <= i < xs.len() ==> allof_free(#[trigger] xs[i]),
        _ => true,
    }
}

/// The entries of `es` that do not carry the key `k`, in order.
pub open spec fn drop_key_all(es: Seq<(Seq<char>, JsonV)>, k: Seq<char>) -> Seq<
    (Seq<char>, JsonV),
>
    decreases es.len(),
{
    if es.len() == 0 {
        es
    } else if es[0].0 == k {
        drop_key_all(es.drop_first(), k)
    } else {
        seq![es[0]] + drop_key_all(es.drop_first(), k)
    }
}

/// Dropping a key drops every entry with it and keeps the other entries.
proof fn lemma_drop_key_all(es: Seq<(Seq<char>, JsonV)>, k: Seq<char>)
    ensures
        drop_key_all(es, k).len() <= es.len(),
        forall|i: int|
            0 <= i < drop_key_all(es, k).len() ==> (#[trigger] drop_key_all(es, k)[i]).0 != k
                && exists|j: int| 0 <= j < es.len() && drop_key_all(es, k)[i] == #[trigger] es[j],
        !has_key(drop_key_all(es, k), k),
    decreases es.len(),
{
    let d = drop_key_all(es, k);
    if es.len() > 0 {
        lemma_drop_key_all(es.drop_first(), k);
        let dr = drop_key_all(es.drop_first(), k);
        assert(forall|j: int|
            0 <= j < es.drop_first().len() ==> #[trigger] es.drop_first()[j] == es[j + 1]);
        if es[0].0 == k {
            assert forall|i: int| 0 <= i < d.len() implies (#[trigger] d[i]).0 != k && exists|
                j: int,
            | 0 <= j < es.len() && d[i] == #[trigger] es[j] by {
                let dfirst = es.drop_first();
                let j0 = choose|j: int| 0 <= j < dfirst.len() && dr[i] == dfirst[j];
                assert(d[i] == es[j0 + 1]);
            }
        } else {
            assert forall|i: int| 0 <= i < d.len() implies (#[trigger] d[i]).0 != k && exists|
                j: int,
            | 0 <= j < es.len() && d[i] == #[trigger] es[j] by {
                if i == 0 {
                    assert(d[0] == es[0]);
                } else {
                    assert(d[i] == dr[i - 1]);
                    let j0 = choose|j: int|
                        0 <= j < es.drop_first().len() && dr[i - 1] == es.drop_first()[j];
                    assert(d[i] == es[j0 + 1]);
                }
            }
        }
    }
    lemma_key_idx(d, k);
    if has_key(d, k) {
        assert(d[key_idx(d, k)].0 == k);
        assert(false);
    }
}

/// Merging two values that are free of `allOf` keys gives a value free of
/// them: a merge never copies an `allOf` entry from its right operand, and
/// never invents a key.
proof fn lemma_merged_allof_free(a: JsonV, b: JsonV)
    requires
        allof_free(a),
        allof_free(b),
    ensures
        allof_free(merged(a, b)),
    decreases b, 0int,
{
    if a is Obj && b is Obj {
        lemma_merged_entries_allof_free(a->Obj_0, b->Obj_0);
    } else if a is Arr && b is Arr {
        lemma_arr_union_allof_free(a->Arr_0, b->Arr_0);
    }
}

proof fn lemma_merged_entries_allof_free(
    ae: Seq<(Seq<char>, JsonV)>,
    be: Seq<(Seq<char>, JsonV)>,
)
    requires
        allof_free(JsonV::Obj(ae)),
        forall|j: int| 0 <= j < be.len() ==> allof_free((#[trigger] be[j]).1),
    ensures
        allof_free(JsonV::Obj(merged_entries(ae, be))),
    decreases be, 1int,
{
    if be.len() > 0 {
        let k = be[0].0;
        let v = be[0].1;
        let ae2 = merged_entry(ae, k, v);
        assert(allof_free(JsonV::Obj(ae2))) by {
            if !is_skip_key(k) {
                lemma_key_idx(ae, k);
                if has_key(ae, k) {
                    let i = key_idx(ae, k);
                    lemma_merged_allof_free(ae[i].1, v);
                    assert(forall|j: int|
                        0 <= j < ae2.len() ==> allof_free((#[trigger] ae2[j]).1));
                    lemma_key_idx(ae2, "allOf"@);
                    if has_key(ae2, "allOf"@) {
                        let bad = key_idx(ae2, "allOf"@);
                        assert(ae2[bad].0 == "allOf"@);
                        lemma_key_idx(ae, "allOf"@);
                        assert(false);
                    }
                } else {
                    assert(forall|j: int|
                        0 <= j < ae2.len() ==> allof_free((#[trigger] ae2[j]).1));
                    lemma_key_idx(ae2, "allOf"@);
                    if has_key(ae2, "allOf"@) {
                        let bad = key_idx(ae2, "allOf"@);
                        assert(ae2[bad].0 == "allOf"@);
                        lemma_key_idx(ae, "allOf"@);
                        assert(false);
                    }
                }
            }
        }
        assert(forall|j: int|
            0 <= j < be.drop_first().len() ==> #[trigger] be.drop_first()[j] == be[j + 1]);
        lemma_merged_entries_allof_free(ae2, be.drop_first());
    }
}

proof fn lemma_arr_union_allof_free(ax: Seq<JsonV>, bx: Seq<JsonV>)
    requires
        forall|i: int| 0 <= i < ax.len() ==> allof_free(#[trigger] ax[i]),
        forall|i: int| 0 <= i < bx.len() ==> allof_free(#[trigger] bx[i]),
    ensures
        allof_free(JsonV::Arr(arr_union(ax, bx))),
        forall|i: int|
            0 <= i < arr_union(ax, bx).len() ==> allof_free(#[trigger] arr_union(ax, bx)[i]),
    decreases bx.len(),
{
    if bx.len() == 0 {
    } else {
        let a2 = if crate::merge::arr_contains(ax, bx[0]) {
            ax
        } else {
            ax.push(bx[0])
        };
        assert(forall|i: int| 0 <= i < a2.len() ==> allof_free(#[trigger] a2[i]));
        assert(forall|j: int|
            0 <= j < bx.drop_first().len() ==> #[trigger] bx.drop_first()[j] == bx[j + 1]);
        lemma_arr_union_allof_free(a2, bx.drop_first());
    }
}

/// The allOf rewrite of one node, resolving reference entries against the
/// interned documents `st` with the document stack `cur`. This is the
/// functional statement the executable traversal is proved against, branch
/// for branch.
pub open spec fn spec_flat_node(
    st: Seq<(Seq<char>, JsonV)>,
    cur: Seq<Seq<char>>,
    depth: nat,
    opts: FlattenAllOfOptions,
    node: JsonV,
    fuel: nat,
) -> RewriteOut
    decreases fuel, node, 2int, 0int,
{
    match node {
        JsonV::Obj(es) => {
            let c = spec_flat_children(st, cur, depth, opts, es, 0, fuel);
            if c.2 is Some {
                RewriteOut { v: JsonV::Obj(c.0), ok: false, err: c.2 }
            } else if !has_key(es, "allOf"@) {
                RewriteOut { v: JsonV::Obj(c.0), ok: c.1, err: None }
            } else if !opts.filter.matches(JsonV::Obj(c.0)) {
                RewriteOut { v: JsonV::Obj(c.0), ok: c.1, err: None }
            } else {
                match get_key(es, "allOf"@) {
                    Some(av) => match av {
                        JsonV::Arr(items) => {
                            if items.len() == 0 {
                                RewriteOut { v: JsonV::Obj(c.0), ok: false, err: None }
                            } else {
                                proof {
                                    lemma_key_idx(es, "allOf"@);
                                    let o = JsonV::Obj(es);
                                    let ai = key_idx(es, "allOf"@);
                                    assert(decreases_to!(o => o->Obj_0));
                                    assert(decreases_to!(es => es[ai]));
                                    assert(decreases_to!(es[ai] => es[ai].1));
                                    assert(decreases_to!(es[ai].1 => es[ai].1->Arr_0));
                                    assert(decreases_to!(es[ai].1->Arr_0 => es[ai].1->Arr_0[0]));
                                }
                                let first = spec_flat_entry(st, cur, depth, opts, items[0], fuel);
                                if first.err is Some {
                                    first
                                } else {
                                    let fold = spec_fold_entries(st, cur, depth, opts, items, 1,
                                        first.v, fuel);
                                    if fold.2 is Some {
                                        RewriteOut { v: fold.0, ok: false, err: fold.2 }
                                    } else {
                                        RewriteOut {
                                            v: merged(
                                                JsonV::Obj(drop_key_all(c.0, "allOf"@)),
                                                fold.0,
                                            ),
                                            ok: c.1 && first.ok && fold.1,
                                            err: None,
                                        }
                                    }
                                }
                            }
                        },
                        _ => RewriteOut { v: JsonV::Obj(c.0), ok: false, err: None },
                    },
                    None => RewriteOut { v: JsonV::Obj(c.0), ok: false, err: None },
                }
            }
        },
        JsonV::Arr(xs) => {
            let c = spec_flat_elems(st, cur, depth, opts, xs, 0, fuel);
            RewriteOut { v: JsonV::Arr(c.0), ok: c.1, err: c.2 }
        },
        _ => RewriteOut { v: node, ok: true, err: None },
    }
}

/// The children of an object, rewritten in order from position `i` on; an
/// `allOf` entry is carried over as it stands for the fold step.
pub open spec fn spec_flat_children(
    st: Seq<(Seq<char>, JsonV)>,
    cur: Seq<Seq<char>>,
    depth: nat,
    opts: FlattenAllOfOptions,
    es: Seq<(Seq<char>, JsonV)>,
    i: int,
    fuel: nat,
) -> (Seq<(Seq<char>, JsonV)>, bool, Option<ErrV>)
    decreases fuel, JsonV::Obj(es), 1int, es.len() - i,
{
    if i < 0 || i >= es.len() {
        (Seq::empty(), true, None)
    } else if es[i].0 == "allOf"@ {
        let rest = spec_flat_children(st, cur, depth, opts, es, i + 1, fuel);
        (seq![es[i]] + rest.0, rest.1, rest.2)
    } else {
        proof {
            let o = JsonV::Obj(es);
            assert(decreases_to!(o => o->Obj_0));
            assert(decreases_to!(es => es[i]));
            assert(decreases_to!(es[i] => es[i].1));
        }
        let c = spec_flat_node(st, cur, depth + 1, opts, es[i].1, fuel);
        if c.err is Some {
            (Seq::empty(), false, c.err)
        } else {
            let rest = spec_flat_children(st, cur, depth, opts, es, i + 1, fuel);
            (seq![(es[i].0, c.v)] + rest.0, c.ok && rest.1, rest.2)
        }
    }
}

/// The elements of an array, rewritten in order from position `i` on.
pub open spec fn spec_flat_elems(
    st: Seq<(Seq<char>, JsonV)>,
    cur: Seq<Seq<char>>,
    depth: nat,
    opts: FlattenAllOfOptions,
    xs: Seq<JsonV>,
    i: int,
    fuel: nat,
) -> (Seq<JsonV>, bool, Option<ErrV>)
    decreases fuel, JsonV::Arr(xs), 1int, xs.len() - i,
{
    if i < 0 || i >= xs.len() {
        (Seq::empty(), true, None)
    } else {
        proof {
            let a = JsonV::Arr(xs);
            assert(decreases_to!(a => a->Arr_0));
            assert(decreases_to!(xs => xs[i]));
        }
        let c = spec_flat_node(st, cur, depth + 1, opts, xs[i], fuel);
        if c.err is Some {
            (Seq::empty(), false, c.err)
        } else {
            let rest = spec_flat_elems(st, cur, depth, opts, xs, i + 1, fuel);
            (seq![c.v] + rest.0, c.ok && rest.1, rest.2)
        }
    }
}

/// One `allOf` entry: a reference entry is resolved and flattened, any
/// other entry is flattened directly.
pub open spec fn spec_flat_entry(
    st: Seq<(Seq<char>, JsonV)>,
    cur: Seq<Seq<char>>,
    depth: nat,
    opts: FlattenAllOfOptions,
    item: JsonV,
    fuel: nat,
) -> RewriteOut
    decreases fuel, item, 3int, 0int,
{
    if item is Obj {
        match get_key(item->Obj_0, "$ref"@) {
            Some(rv) => match rv {
                JsonV::Str(s) => spec_flat_resolve(st, cur, depth, opts, item->Obj_0, s, fuel),
                _ => spec_flat_node(st, cur, depth, opts, item, fuel),
            },
            None => spec_flat_node(st, cur, depth, opts, item, fuel),
        }
    } else {
        spec_flat_node(st, cur, depth, opts, item, fuel)
    }
}

/// The remaining `allOf` entries from position `k` on, each flattened and
/// deep-merged into the accumulator left to right.
pub open spec fn spec_fold_entries(
    st: Seq<(Seq<char>, JsonV)>,
    cur: Seq<Seq<char>>,
    depth: nat,
    opts: FlattenAllOfOptions,
    items: Seq<JsonV>,
    k: int,
    acc: JsonV,
    fuel: nat,
) -> (JsonV, bool, Option<ErrV>)
    decreases fuel, JsonV::Arr(items), 3int, items.len() - k,
{
    if k < 0 || k >= items.len() {
        (acc, true, None)
    } else {
        proof {
            let a = JsonV::Arr(items);
            assert(decreases_to!(a => a->Arr_0));
            assert(decreases_to!(items => items[k]));
        }
        let e = spec_flat_entry(st, cur, depth, opts, items[k], fuel);
        if e.err is Some {
            (acc, false, e.err)
        } else {
            let rest = spec_fold_entries(st, cur, depth, opts, items, k + 1, merged(acc, e.v),
                fuel);
            (rest.0, e.ok && rest.1, rest.2)
        }
    }
}

/// Resolution of a reference entry: parse it, switch the active document
/// for an addressed reference, and flatten the target.
pub open spec fn spec_flat_resolve(
    st: Seq<(Seq<char>, JsonV)>,
    cur: Seq<Seq<char>>,
    depth: nat,
    opts: FlattenAllOfOptions,
    es: Seq<(Seq<char>, JsonV)>,
    refstr: Seq<char>,
    fuel: nat,
) -> RewriteOut
    decreases fuel, JsonV::Obj(es), 1int, 1int,
{
    if depth > SCOPE_LIMIT || fuel == 0 {
        RewriteOut { v: JsonV::Obj(es), ok: false, err: Some(ErrV::Cyclic) }
    } else {
        match split_ref(refstr) {
            None => RewriteOut { v: JsonV::Obj(es), ok: false, err: None },
            Some((addr, frag)) => {
                match addr {
                    Some(a) => match ref_url_of(cur.last(), a) {
                        None => RewriteOut { v: JsonV::Obj(es), ok: false, err: None },
                        Some(abs) => {
                            if !has_key(st, abs) {
                                RewriteOut {
                                    v: JsonV::Obj(es),
                                    ok: false,
                                    err: Some(ErrV::Load(abs)),
                                }
                            } else {
                                spec_flat_target(st, cur.push(abs), depth, opts, es, frag, fuel)
                            }
                        },
                    },
                    None => spec_flat_target(st, cur, depth, opts, es, frag, fuel),
                }
            },
        }
    }
}

/// Flattening of the target inside the active document: navigate the
/// fragment, then flatten the selected value one level deeper.
pub open spec fn spec_flat_target(
    st: Seq<(Seq<char>, JsonV)>,
    cur: Seq<Seq<char>>,
    depth: nat,
    opts: FlattenAllOfOptions,
    es: Seq<(Seq<char>, JsonV)>,
    frag: Option<Seq<char>>,
    fuel: nat,
) -> RewriteOut
    decreases fuel, JsonV::Obj(es), 1int, 0int,
{
    if fuel == 0 {
        RewriteOut { v: JsonV::Obj(es), ok: false, err: Some(ErrV::Cyclic) }
    } else if !has_key(st, cur.last()) {
        RewriteOut { v: JsonV::Obj(es), ok: false, err: Some(ErrV::Load(cur.last())) }
    } else {
        let doc = get_key(st, cur.last())->0;
        let target = match frag {
            Some(f) => fragment_navigate(doc, f),
            None => Some(doc),
        };
        match target {
            None => RewriteOut { v: JsonV::Obj(es), ok: false, err: None },
            Some(t) => spec_flat_node(st, cur, depth + 1, opts, t, (fuel - 1) as nat),
        }
    }
}

/// A document free of `allOf` keys is a fixed point of the allOf rewrite:
/// it comes back unchanged, clean, with no error. Together with the
/// rewrite's own contract (a clean rewrite under an unconfigured filter
/// leaves an allOf-free document) this makes the rewrite idempotent.
pub proof fn lemma_spec_flat_fixpoint(
    st: Seq<(Seq<char>, JsonV)>,
    cur: Seq<Seq<char>>,
    depth: nat,
    opts: FlattenAllOfOptions,
    node: JsonV,
    fuel: nat,
)
    requires
        allof_free(node),
    ensures
        spec_flat_node(st, cur, depth, opts, node, fuel) == (RewriteOut {
            v: node,
            ok: true,
            err: None,
        }),
    decreases fuel, node, 2int, 0int,
{
    match node {
        JsonV::Obj(es) => {
            lemma_spec_flat_children_fixpoint(st, cur, depth, opts, es, 0, fuel);
            assert(es.skip(0) =~= es);
        },
        JsonV::Arr(xs) => {
            lemma_spec_flat_elems_fixpoint(st, cur, depth, opts, xs, 0, fuel);
            assert(xs.skip(0) =~= xs);
        },
        _ => {},
    }
}

proof fn lemma_spec_flat_children_fixpoint(
    st: Seq<(Seq<char>, JsonV)>,
    cur: Seq<Seq<char>>,
    depth: nat,
    opts: FlattenAllOfOptions,
    es: Seq<(Seq<char>, JsonV)>,
    i: int,
    fuel: nat,
)
    requires
        0 <= i <= es.len(),
        !has_key(es, "allOf"@),
        forall|j: int| 0 <= j < es.len() ==> allof_free((#[trigger] es[j]).1),
    ensures
        spec_flat_children(st, cur, depth, opts, es, i, fuel) == (es.skip(i), true, None::<
            ErrV,
        >),
    decreases fuel, JsonV::Obj(es), 1int, es.len() - i,
{
    if i >= es.len() {
        assert(es.skip(i) =~= Seq::<(Seq<char>, JsonV)>::empty());
    } else {
        lemma_key_idx(es, "allOf"@);
        assert(es[i].0 != "allOf"@);
        let o = JsonV::Obj(es);
        assert(decreases_to!(o => o->Obj_0));
        assert(decreases_to!(es => es[i]));
        assert(decreases_to!(es[i] => es[i].1));
        lemma_spec_flat_fixpoint(st, cur, depth + 1, opts, es[i].1, fuel);
        lemma_spec_flat_children_fixpoint(st, cur, depth, opts, es, i + 1, fuel);
        assert(seq![(es[i].0, es[i].1)] + es.skip(i + 1) =~= es.skip(i));
        assert(seq![(es[i].0, es[i].1)][0] == es[i]);
    }
}

proof fn lemma_spec_flat_elems_fixpoint(
    st: Seq<(Seq<char>, JsonV)>,
    cur: Seq<Seq<char>>,
    depth: nat,
    opts: FlattenAllOfOptions,
    xs: Seq<JsonV>,
    i: int,
    fuel: nat,
)
    requires
        0 <= i <= xs.len(),
        forall|j: int| 0 <= j < xs.len() ==> allof_free(#[trigger] xs[j]),
    ensures
        spec_flat_elems(st, cur, depth, opts, xs, i, fuel) == (xs.skip(i), true, None::<ErrV>),
    decreases fuel, JsonV::Arr(xs), 1int, xs.len() - i,
{
    if i >= xs.len() {
        assert(xs.skip(i) =~= Seq::<JsonV>::empty());
    } else {
        let a = JsonV::Arr(xs);
        assert(decreases_to!(a => a->Arr_0));
        assert(decreases_to!(xs => xs[i]));
        lemma_spec_flat_fixpoint(st, cur, depth + 1, opts, xs[i], fuel);
        lemma_spec_flat_elems_fixpoint(st, cur, depth, opts, xs, i + 1, fuel);
        assert(seq![xs[i]] + xs.skip(i + 1) =~= xs.skip(i));
    }
}

/// Dropping a key from a concatenation drops it from each part.
proof fn lemma_drop_key_all_append(
    p: Seq<(Seq<char>, JsonV)>,
    q: Seq<(Seq<char>, JsonV)>,
    k: Seq<char>,
)
    ensures
        drop_key_all(p + q, k) == drop_key_all(p, k) + drop_key_all(q, k),
    decreases p.len(),
{
    if p.len() == 0 {
        assert(p + q =~= q);
        assert(drop_key_all(p, k) + drop_key_all(q, k) =~= drop_key_all(q, k));
    } else {
        assert((p + q)[0] == p[0]);
        assert((p + q).drop_first() =~= p.drop_first() + q);
        lemma_drop_key_all_append(p.drop_first(), q, k);
        if p[0].0 != k {
            assert(seq![p[0]] + (drop_key_all(p.drop_first(), k) + drop_key_all(q, k)) =~= (
            seq![p[0]] + drop_key_all(p.drop_first(), k)) + drop_key_all(q, k));
        }
    }
}

/// Resolve one reference that stands as an `allOf` entry and flatten the
/// value it denotes. On a non-fatal problem the entry (whose entries are
/// given) is returned unchanged and the context is marked not clean.
fn flat_deref(
    reference: String,
    entries: &Vec<(String, Json)>,
    opts: &FlattenAllOfOptions,
    ctx: &mut DereferencerContext,
    fuel: usize,
) -> (r: Result<Json, Error>)
    requires
        old(ctx).current.deep_view().len() >= 1,
        crate::dereference::current_in_storage(*old(ctx)),
        fuel + old(ctx).scope@.len() >= SCOPE_LIMIT + 1,
    ensures
        final(ctx).storage@ == old(ctx).storage@,
        final(ctx).scope@ == old(ctx).scope@,
        final(ctx).current.deep_view() == old(ctx).current.deep_view(),
        final(ctx).clean ==> old(ctx).clean,
        r is Ok && final(ctx).clean && opts.filter.always_matches() ==> allof_free(r->Ok_0@),
        r is Err ==> r->Err_0 is CyclicReference || r->Err_0 is LoadFailure,
        ({
            let out = spec_flat_resolve(
                old(ctx).storage@,
                old(ctx).current.deep_view(),
                old(ctx).scope@.len(),
                *opts,
                obj_v(entries@),
                reference@,
                fuel as nat,
            );
            &&& (r is Ok <==> out.err is None)
            &&& r matches Ok(v) ==> v@ == out.v && final(ctx).clean == (old(ctx).clean && out.ok)
            &&& r matches Err(e) ==> out.err == Some(e@)
        }),
    decreases fuel, JsonV::Obj(obj_v(entries@)), 0int,
{
    let ghost st0 = old(ctx).storage@;
    let ghost depth0 = old(ctx).scope@.len();
    let ghost es0 = obj_v(entries@);
    let ghost refv = reference@;
    let ghost sout = spec_flat_resolve(st0, old(ctx).current.deep_view(), depth0, *opts, es0, refv,
    fuel as nat);
    if ctx.scope.len() > SCOPE_LIMIT {
        proof {
            assert(sout.err == Some(ErrV::Cyclic));
        }
        return Err(Error::CyclicReference);
    }
    proof {
        assert(depth0 <= SCOPE_LIMIT && fuel >= 1);
    }
    let ghost cur0 = old(ctx).current.deep_view();
    let ghost mut pushed_url: Seq<char> = Seq::empty();
    let refc = reference.clone();
    match parse_url(reference) {
        Err(_) => {
            ctx.warn();
            proof {
                assert(sout == RewriteOut { v: JsonV::Obj(es0), ok: false, err: None });
            }
            Ok(Json::Obj(clone_entries(entries)))
        },
        Ok((addr, frag)) => {
            let ghost saddr = addr.deep_view();
            let ghost sfrag = frag.deep_view();
            proof {
                assert(split_ref(refv) == Some((saddr, sfrag)));
            }
            let mut pushed = false;
            match &addr {
                Some(a) => {
                    let idx = ctx.current.len() - 1;
                    proof {
                        crate::dereference::lemma_deep_view_strings(ctx.current);
                        assert((ctx.current@[idx as int])@ == cur0.last());
                    }
                    let abs_opt = ref_to_url(a, &ctx.current[idx]);
                    match abs_opt {
                        None => {
                            ctx.warn();
                            proof {
                                assert(ref_url_of(cur0.last(), saddr->0) is None);
                                assert(sout == RewriteOut {
                                    v: JsonV::Obj(es0),
                                    ok: false,
                                    err: None,
                                });
                            }
                            return Ok(Json::Obj(clone_entries(entries)));
                        },
                        Some(abs) => {
                            proof {
                                assert(ref_url_of(cur0.last(), saddr->0) == Some(abs@));
                            }
                            let ghost absv = abs@;
                            match ctx.resolve(abs) {
                                Ok(()) => {
                                    pushed = true;
                                    proof {
                                        pushed_url = absv;
                                        assert(ctx.current.deep_view() == cur0.push(pushed_url));
                                        assert(sout == spec_flat_target(st0, cur0.push(absv),
                                        depth0, *opts, es0, sfrag, fuel as nat));
                                    }
                                },
                                Err(e) => {
                                    proof {
                                        assert(sout.err == Some(e@));
                                    }
                                    return Err(e);
                                },
                            }
                        },
                    }
                },
                None => {
                    proof {
                        assert(sout == spec_flat_target(st0, cur0, depth0, *opts, es0, sfrag,
                        fuel as nat));
                    }
                },
            }
            let ghost cur2 = ctx.current.deep_view();
            proof {
                assert(sout == spec_flat_target(st0, cur2, depth0, *opts, es0, sfrag,
                fuel as nat));
                assert(ctx.current@.len() == ctx.current.deep_view().len());
                crate::dereference::lemma_deep_view_strings(ctx.current);
            }
            let idx = ctx.current.len() - 1;
            proof {
                assert((ctx.current@[idx as int])@ == cur2.last());
            }
            let docbody: Json = match ctx.storage.get(&ctx.current[idx]) {
                Some(d) => deep_copy(d),
                None => {
                    let u = ctx.current[idx].clone();
                    if pushed {
                        let ghost prepop = ctx.current.deep_view();
                        ctx.leave_doc();
                        proof {
                            assert(prepop == cur0.push(pushed_url));
                            assert(ctx.current.deep_view() =~= cur0);
                        }
                    }
                    proof {
                        assert(sout.err == Some(ErrV::Load(cur2.last())));
                        assert(u@ == cur2.last());
                    }
                    return Err(Error::LoadFailure(u));
                },
            };
            proof {
                assert(get_key(st0, cur2.last()) == Some(docbody@));
            }
            let ghost docv = docbody@;
            let target: Option<Json> = match &frag {
                Some(f) => match pointer_get(&docbody, f) {
                    Some(t) => Some(deep_copy(t)),
                    None => None,
                },
                None => Some(docbody),
            };
            proof {
                match &target {
                    Some(t) => {
                        assert(t@ == (match sfrag {
                            Some(f) => fragment_navigate(docv, f)->0,
                            None => docv,
                        }));
                    },
                    None => {
                        assert(sfrag matches Some(f) && fragment_navigate(docv, f) is None);
                    },
                }
            }
            match target {
                None => {
                    ctx.warn();
                    if pushed {
                        let ghost prepop = ctx.current.deep_view();
                        ctx.leave_doc();
                        proof {
                            assert(prepop == cur0.push(pushed_url));
                            assert(ctx.current.deep_view() =~= cur0);
                        }
                    }
                    proof {
                        assert(sout == RewriteOut { v: JsonV::Obj(es0), ok: false, err: None });
                    }
                    Ok(Json::Obj(clone_entries(entries)))
                },
                Some(t) => {
                    proof {
                        assert(sout == spec_flat_node(st0, cur2, depth0 + 1, *opts, t@, (
                        fuel - 1) as nat));
                    }
                    ctx.scope.property(refc);
                    let processed = process_flat_node(&t, opts, ctx, fuel - 1);
                    ctx.scope.pop();
                    proof {
                        assert(ctx.scope@ =~= old(ctx).scope@);
                    }
                    if pushed {
                        let ghost prepop = ctx.current.deep_view();
                        ctx.leave_doc();
                        proof {
                            assert(prepop == cur0.push(pushed_url));
                            assert(ctx.current.deep_view() =~= cur0);
                        }
                    }
                    match processed {
                        Ok(v) => {
                            proof {
                                assert(v@ == sout.v);
                            }
                            Ok(v)
                        },
                        Err(e) => {
                            proof {
                                assert(sout.err == Some(e@));
                            }
                            Err(e)
                        },
                    }
                },
            }
        },
    }
}

/// Flatten one `allOf` entry: a reference entry is resolved first, any other
/// entry is flattened directly.
fn flat_entry(
    item: &Json,
    opts: &FlattenAllOfOptions,
    ctx: &mut DereferencerContext,
    fuel: usize,
) -> (r: Result<Json, Error>)
    requires
        old(ctx).current.deep_view().len() >= 1,
        crate::dereference::current_in_storage(*old(ctx)),
        fuel + old(ctx).scope@.len() >= SCOPE_LIMIT + 1,
    ensures
        final(ctx).storage@ == old(ctx).storage@,
        final(ctx).scope@ == old(ctx).scope@,
        final(ctx).current.deep_view() == old(ctx).current.deep_view(),
        final(ctx).clean ==> old(ctx).clean,
        r is Ok && final(ctx).clean && opts.filter.always_matches() ==> allof_free(r->Ok_0@),
        r is Err ==> r->Err_0 is CyclicReference || r->Err_0 is LoadFailure,
        ({
            let out = spec_flat_entry(
                old(ctx).storage@,
                old(ctx).current.deep_view(),
                old(ctx).scope@.len(),
                *opts,
                item@,
                fuel as nat,
            );
            &&& (r is Ok <==> out.err is None)
            &&& r matches Ok(v) ==> v@ == out.v && final(ctx).clean == (old(ctx).clean && out.ok)
            &&& r matches Err(e) ==> out.err == Some(e@)
        }),
    decreases fuel, item@, 4int,
{
    let ghost st0 = old(ctx).storage@;
    let ghost cur0 = old(ctx).current.deep_view();
    let ghost depth0 = old(ctx).scope@.len();
    let ghost sout = spec_flat_entry(st0, cur0, depth0, *opts, item@, fuel as nat);
    let ghost delegate = spec_flat_node(st0, cur0, depth0, *opts, item@, fuel as nat);
    if let Json::Obj(entries) = item {
        proof {
            lemma_obj_v(entries@);
        }
        match obj_lookup(entries, "$ref") {
            Some(j) => match j {
                Json::Str(s) => {
                    proof {
                        assert(get_key(obj_v(entries@), "$ref"@) == Some(JsonV::Str(s@)));
                        assert(sout == spec_flat_resolve(st0, cur0, depth0, *opts, obj_v(
                        entries@,
                        ), s@, fuel as nat));
                    }
                    return flat_deref(s.clone(), entries, opts, ctx, fuel);
                },
                Json::Null => {
                    proof {
                        assert(sout == delegate);
                    }
                },
                Json::Bool(_) => {
                    proof {
                        assert(sout == delegate);
                    }
                },
                Json::Num(_) => {
                    proof {
                        assert(sout == delegate);
                    }
                },
                Json::Arr(_) => {
                    proof {
                        assert(sout == delegate);
                    }
                },
                Json::Obj(_) => {
                    proof {
                        assert(sout == delegate);
                    }
                },
            },
            None => {
                proof {
                    assert(sout == delegate);
                }
            },
        }
    } else {
        proof {
            assert(sout == delegate);
        }
    }
    process_flat_node(item, opts, ctx, fuel)
}

/// Walk a node depth-first and fold each `allOf` that the filter accepts, as
/// the module description states.
pub fn process_flat_node(
    node: &Json,
    opts: &FlattenAllOfOptions,
    ctx: &mut DereferencerContext,
    fuel: usize,
) -> (r: Result<Json, Error>)
    requires
        old(ctx).current.deep_view().len() >= 1,
        crate::dereference::current_in_storage(*old(ctx)),
        fuel + old(ctx).scope@.len() >= SCOPE_LIMIT + 1,
    ensures
        final(ctx).storage@ == old(ctx).storage@,
        final(ctx).scope@ == old(ctx).scope@,
        final(ctx).current.deep_view() == old(ctx).current.deep_view(),
        final(ctx).clean ==> old(ctx).clean,
        allof_free(node@) ==> r is Ok && r->Ok_0@ == node@ && final(ctx).clean == old(
            ctx,
        ).clean,
        r is Ok && final(ctx).clean && opts.filter.always_matches() ==> allof_free(r->Ok_0@),
        r is Err ==> r->Err_0 is CyclicReference || r->Err_0 is LoadFailure,
        ({
            let out = spec_flat_node(
                old(ctx).storage@,
                old(ctx).current.deep_view(),
                old(ctx).scope@.len(),
                *opts,
                node@,
                fuel as nat,
            );
            &&& (r is Ok <==> out.err is None)
            &&& r matches Ok(v) ==> v@ == out.v && final(ctx).clean == (old(ctx).clean && out.ok)
            &&& r matches Err(e) ==> out.err == Some(e@)
        }),
    decreases fuel, node@, 1int,
{
    let ghost st0 = old(ctx).storage@;
    let ghost cur0 = old(ctx).current.deep_view();
    let ghost depth0 = old(ctx).scope@.len();
    let ghost sout = spec_flat_node(st0, cur0, depth0, *opts, node@, fuel as nat);
    match node {
        Json::Obj(entries) => {
            proof {
                lemma_obj_v(entries@);
            }
            let has_allof = obj_contains(entries, "allOf");
            let ghost es = obj_v(entries@);
            let ghost ctotal = spec_flat_children(st0, cur0, depth0, *opts, es, 0, fuel as nat);
            let ghost mut ok_pre: bool = true;
            let mut out: Vec<(String, Json)> = Vec::new();
            let mut i: usize = 0;
            while i < entries.len()
                invariant
                    i <= entries.len(),
                    node@ == JsonV::Obj(obj_v(entries@)),
                    es == obj_v(entries@),
                    has_allof == has_key(es, "allOf"@),
                    ctx.storage@ == old(ctx).storage@,
                    ctx.scope@ == old(ctx).scope@,
                    ctx.current.deep_view() == old(ctx).current.deep_view(),
                    ctx.current.deep_view().len() >= 1,
                    crate::dereference::current_in_storage(*ctx),
                    fuel + ctx.scope@.len() >= SCOPE_LIMIT + 1,
                    ctx.clean ==> old(ctx).clean,
                    st0 == old(ctx).storage@,
                    cur0 == old(ctx).current.deep_view(),
                    depth0 == old(ctx).scope@.len(),
                    sout == spec_flat_node(st0, cur0, depth0, *opts, node@, fuel as nat),
                    ctotal == spec_flat_children(st0, cur0, depth0, *opts, es, 0, fuel as nat),
                    ctotal.0 == obj_v(out@) + spec_flat_children(st0, cur0, depth0, *opts, es,
                    i as int, fuel as nat).0,
                    ctotal.1 == (ok_pre && spec_flat_children(st0, cur0, depth0, *opts, es,
                    i as int, fuel as nat).1),
                    ctotal.2 == spec_flat_children(st0, cur0, depth0, *opts, es, i as int,
                    fuel as nat).2,
                    ctx.clean == (old(ctx).clean && ok_pre),
                    out@.len() == i,
                    forall|j: int| 0 <= j < i ==> (#[trigger] obj_v(out@)[j]).0 == es[j].0,
                    allof_free(node@) ==> ctx.clean == old(ctx).clean && forall|j: int|
                        0 <= j < i ==> (#[trigger] obj_v(out@)[j]).1 == es[j].1,
                    ctx.clean && opts.filter.always_matches() ==> forall|j: int|
                        0 <= j < i ==> es[j].0 == "allOf"@ || allof_free(
                            (#[trigger] obj_v(out@)[j]).1,
                        ),
                decreases entries.len() - i,
            {
                proof {
                    lemma_obj_v(entries@);
                    lemma_obj_v(out@);
                    assert(decreases_to!(node@ => node@->Obj_0));
                    assert(decreases_to!(node@->Obj_0 => node@->Obj_0[i as int]));
                    assert(decreases_to!(node@->Obj_0[i as int] => node@->Obj_0[
                    i as int
                    ].1));
                }
                let key = entries[i].0.clone();
                if crate::json::str_lit_eq(&entries[i].0, "allOf") {
                    let raw = deep_copy(&entries[i].1);
                    let ghost out0 = obj_v(out@);
                    let ghost rest_next = spec_flat_children(st0, cur0, depth0, *opts, es, i + 1,
                    fuel as nat);
                    out.push((key, raw));
                    proof {
                        lemma_obj_v(out@);
                        assert(spec_flat_children(st0, cur0, depth0, *opts, es, i as int,
                        fuel as nat) == (seq![es[i as int]] + rest_next.0, rest_next.1,
                        rest_next.2));
                        assert(obj_v(out@) =~= out0.push(es[i as int]));
                        assert(out0 + (seq![es[i as int]] + rest_next.0) =~= obj_v(out@)
                            + rest_next.0);
                    }
                } else {
                    ctx.scope.any(entries[i].0.clone());
                    let cr = process_flat_node(&entries[i].1, opts, ctx, fuel);
                    ctx.scope.pop();
                    let ghost cspec = spec_flat_node(st0, cur0, depth0 + 1, *opts, es[
                    i as int
                    ].1, fuel as nat);
                    proof {
                        assert(ctx.scope@ =~= old(ctx).scope@);
                        assert(es[i as int].1 == entries@[i as int].1@);
                    }
                    match cr {
                        Err(e) => {
                            proof {
                                assert(cspec.err == Some(e@));
                                assert(spec_flat_children(st0, cur0, depth0, *opts, es, i as int,
                                fuel as nat).2 == Some(e@));
                                assert(sout.err == Some(e@));
                            }
                            return Err(e);
                        },
                        Ok(v) => {
                            let ghost out0 = obj_v(out@);
                            let ghost rest_next = spec_flat_children(st0, cur0, depth0, *opts, es,
                            i + 1, fuel as nat);
                            out.push((key, v));
                            proof {
                                lemma_obj_v(out@);
                                assert(v@ == cspec.v);
                                assert(spec_flat_children(st0, cur0, depth0, *opts, es, i as int,
                                fuel as nat) == (
                                seq![(es[i as int].0, cspec.v)] + rest_next.0,
                                cspec.ok && rest_next.1,
                                rest_next.2,
                                ));
                                assert(obj_v(out@) =~= out0.push((es[i as int].0, cspec.v)));
                                assert(out0 + (seq![(es[i as int].0, cspec.v)] + rest_next.0)
                                    =~= obj_v(out@) + rest_next.0);
                                ok_pre = ok_pre && cspec.ok;
                            }
                        },
                    }
                }
                i += 1;
            }
            proof {
                lemma_obj_v(entries@);
                assert(spec_flat_children(st0, cur0, depth0, *opts, es, entries@.len() as int,
                fuel as nat) == (Seq::<(Seq<char>, JsonV)>::empty(), true, None::<ErrV>));
                assert(ctotal.0 =~= obj_v(out@));
                assert(ctotal.1 == ok_pre);
            }
            let ghost clean_mid = ctx.clean;
            proof {
                lemma_obj_v(entries@);
                lemma_obj_v(out@);
                if allof_free(node@) {
                    assert(obj_v(out@) =~= es);
                }
            }
            if !has_allof {
                proof {
                    assert(sout == RewriteOut { v: JsonV::Obj(ctotal.0), ok: ctotal.1, err: None });
                    if ctx.clean && opts.filter.always_matches() {
                        lemma_key_idx(obj_v(out@), "allOf"@);
                        lemma_key_idx(es, "allOf"@);
                        if has_key(obj_v(out@), "allOf"@) {
                            assert(obj_v(out@)[key_idx(obj_v(out@), "allOf"@)].0 == "allOf"@);
                            assert(false);
                        }
                    }
                }
                return Ok(Json::Obj(out));
            }
            if !opts.filter.check_entries(&out) {
                proof {
                    assert(!opts.filter.matches(JsonV::Obj(ctotal.0)));
                    assert(sout == RewriteOut { v: JsonV::Obj(ctotal.0), ok: ctotal.1, err: None });
                    if opts.filter.always_matches() {
                        assert(opts.filter.matches(JsonV::Obj(obj_v(out@))));
                    }
                }
                return Ok(Json::Obj(out));
            }
            proof {
                assert(opts.filter.matches(JsonV::Obj(ctotal.0)));
            }
            match obj_lookup(entries, "allOf") {
                Some(allof_val) => {
                    if let Json::Arr(items) = allof_val {
                        proof {
                            lemma_obj_v(entries@);
                            lemma_key_idx(es, "allOf"@);
                            lemma_arr_v(items@);
                            assert(get_key(es, "allOf"@) == Some(JsonV::Arr(arr_v(items@))));
                        }
                        if items.len() == 0 {
                            ctx.warn();
                            proof {
                                assert(sout == RewriteOut {
                                    v: JsonV::Obj(ctotal.0),
                                    ok: false,
                                    err: None,
                                });
                            }
                            return Ok(Json::Obj(out));
                        }
                        proof {
                            lemma_obj_v(entries@);
                            lemma_key_idx(es, "allOf"@);
                            lemma_arr_v(items@);
                            assert(es[key_idx(es, "allOf"@)].1 == JsonV::Arr(arr_v(items@)));
                            assert(decreases_to!(node@ => node@->Obj_0));
                            assert(decreases_to!(node@->Obj_0 => node@->Obj_0[key_idx(es,
                            "allOf"@)]));
                            assert(decreases_to!(node@->Obj_0[key_idx(es, "allOf"@)] => node@
                                ->Obj_0[key_idx(es, "allOf"@)].1));
                            assert(decreases_to!(node@->Obj_0[key_idx(es, "allOf"@)].1 => node@
                                ->Obj_0[key_idx(es, "allOf"@)].1->Arr_0));
                            assert(decreases_to!(node@->Obj_0[key_idx(es, "allOf"@)].1->Arr_0
                                => node@->Obj_0[key_idx(es, "allOf"@)].1->Arr_0[0]));
                        }
                        let ghost itemsv = arr_v(items@);
                        let ghost fspec = spec_flat_entry(st0, cur0, depth0, *opts, itemsv[0],
                        fuel as nat);
                        let first = flat_entry(&items[0], opts, ctx, fuel);
                        let mut acc: Json = match first {
                            Err(e) => {
                                proof {
                                    assert(fspec.err == Some(e@));
                                    assert(sout.err == Some(e@));
                                }
                                return Err(e);
                            },
                            Ok(v) => v,
                        };
                        let ghost clean_fold = ctx.clean;
                        let ghost ftotal = spec_fold_entries(st0, cur0, depth0, *opts, itemsv, 1,
                        fspec.v, fuel as nat);
                        let ghost mut fok_pre: bool = true;
                        proof {
                            assert(acc@ == fspec.v);
                            assert(clean_fold == (clean_mid && fspec.ok));
                        }
                        let mut k: usize = 1;
                        while k < items.len()
                            invariant
                                1 <= k <= items@.len(),
                                node@ == JsonV::Obj(es),
                                es == obj_v(entries@),
                                has_key(es, "allOf"@),
                                es[key_idx(es, "allOf"@)].1 == JsonV::Arr(arr_v(items@)),
                                itemsv == arr_v(items@),
                                itemsv.len() == items@.len(),
                                ctx.storage@ == old(ctx).storage@,
                                ctx.scope@ == old(ctx).scope@,
                                ctx.current.deep_view() == old(ctx).current.deep_view(),
                                ctx.current.deep_view().len() >= 1,
                                crate::dereference::current_in_storage(*ctx),
                                fuel + ctx.scope@.len() >= SCOPE_LIMIT + 1,
                                ctx.clean ==> old(ctx).clean,
                                ctx.clean ==> clean_mid,
                                st0 == old(ctx).storage@,
                                cur0 == old(ctx).current.deep_view(),
                                depth0 == old(ctx).scope@.len(),
                                sout == spec_flat_node(st0, cur0, depth0, *opts, node@,
                                fuel as nat),
                                ctotal == spec_flat_children(st0, cur0, depth0, *opts, es, 0,
                                fuel as nat),
                                ctotal.2 is None,
                                ctotal.0 == obj_v(out@),
                                ctotal.1 == ok_pre,
                                clean_mid == (old(ctx).clean && ok_pre),
                                opts.filter.matches(JsonV::Obj(ctotal.0)),
                                get_key(es, "allOf"@) == Some(JsonV::Arr(itemsv)),
                                itemsv.len() > 0,
                                fspec == spec_flat_entry(st0, cur0, depth0, *opts, itemsv[0],
                                fuel as nat),
                                fspec.err is None,
                                clean_fold == (clean_mid && fspec.ok),
                                ftotal == spec_fold_entries(st0, cur0, depth0, *opts, itemsv, 1,
                                fspec.v, fuel as nat),
                                ftotal.0 == spec_fold_entries(st0, cur0, depth0, *opts, itemsv,
                                k as int, acc@, fuel as nat).0,
                                ftotal.1 == (fok_pre && spec_fold_entries(st0, cur0, depth0, *opts,
                                itemsv, k as int, acc@, fuel as nat).1),
                                ftotal.2 == spec_fold_entries(st0, cur0, depth0, *opts, itemsv,
                                k as int, acc@, fuel as nat).2,
                                ctx.clean == (clean_fold && fok_pre),
                                clean_mid && opts.filter.always_matches() ==> forall|j: int|
                                    0 <= j < es.len() ==> es[j].0 == "allOf"@ || allof_free(
                                        (#[trigger] obj_v(out@)[j]).1,
                                    ),
                                ctx.clean && opts.filter.always_matches() ==> allof_free(acc@),
                            decreases items@.len() - k,
                        {
                            proof {
                                lemma_obj_v(entries@);
                                lemma_key_idx(es, "allOf"@);
                                lemma_arr_v(items@);
                                assert(decreases_to!(node@ => node@->Obj_0));
                                assert(decreases_to!(node@->Obj_0 => node@->Obj_0[key_idx(es,
                                "allOf"@)]));
                                assert(decreases_to!(node@->Obj_0[key_idx(es, "allOf"@)] => node@
                                    ->Obj_0[key_idx(es, "allOf"@)].1));
                                assert(decreases_to!(node@->Obj_0[key_idx(es, "allOf"@)].1 => node@
                                    ->Obj_0[key_idx(es, "allOf"@)].1->Arr_0));
                                assert(decreases_to!(node@->Obj_0[key_idx(es, "allOf"@)].1->Arr_0
                                    => node@->Obj_0[key_idx(es, "allOf"@)].1->Arr_0[k as int]));
                            }
                            let ghost espec = spec_flat_entry(st0, cur0, depth0, *opts, itemsv[
                            k as int
                            ], fuel as nat);
                            proof {
                                assert(itemsv[k as int] == items@[k as int]@);
                            }
                            let nxt = flat_entry(&items[k], opts, ctx, fuel);
                            match nxt {
                                Err(e) => {
                                    proof {
                                        assert(espec.err == Some(e@));
                                        assert(spec_fold_entries(st0, cur0, depth0, *opts, itemsv,
                                        k as int, acc@, fuel as nat).2 == Some(e@));
                                        assert(sout.err == Some(e@));
                                    }
                                    return Err(e);
                                },
                                Ok(v) => {
                                    let merged_acc = merge_values(&acc, &v);
                                    proof {
                                        assert(v@ == espec.v);
                                        assert(merged_acc@ == merged(acc@, espec.v));
                                        assert(spec_fold_entries(st0, cur0, depth0, *opts, itemsv,
                                        k as int, acc@, fuel as nat) == ({
                                            let rest = spec_fold_entries(st0, cur0, depth0, *opts,
                                            itemsv, k + 1, merged(acc@, espec.v), fuel as nat);
                                            (rest.0, espec.ok && rest.1, rest.2)
                                        }));
                                        if ctx.clean && opts.filter.always_matches() {
                                            lemma_merged_allof_free(acc@, v@);
                                        }
                                        fok_pre = fok_pre && espec.ok;
                                    }
                                    acc = merged_acc;
                                },
                            }
                            k += 1;
                        }
                        proof {
                            assert(spec_fold_entries(st0, cur0, depth0, *opts, itemsv,
                            items@.len() as int, acc@, fuel as nat) == (acc@, true, None::<ErrV>));
                            assert(ftotal.0 == acc@);
                            assert(ftotal.1 == fok_pre);
                            assert(ftotal.2 is None);
                        }
                        let mut base: Vec<(String, Json)> = Vec::new();
                        let ghost outv = obj_v(out@);
                        proof {
                            assert(outv.take(0) =~= Seq::<(Seq<char>, JsonV)>::empty());
                        }
                        let mut j: usize = 0;
                        while j < out.len()
                            invariant
                                j <= out@.len(),
                                outv == obj_v(out@),
                                outv.len() == out@.len(),
                                obj_v(base@) == drop_key_all(outv.take(j as int), "allOf"@),
                            decreases out@.len() - j,
                        {
                            proof {
                                lemma_obj_v(out@);
                                lemma_obj_v(base@);
                                assert(outv.take(j + 1) =~= outv.take(j as int) + seq![outv[
                                j as int
                                ]]);
                                lemma_drop_key_all_append(outv.take(j as int), seq![outv[
                                j as int
                                ]], "allOf"@);
                                let single = seq![outv[j as int]];
                                assert(single.drop_first()
                                    =~= Seq::<(Seq<char>, JsonV)>::empty());
                                assert(drop_key_all(Seq::<(Seq<char>, JsonV)>::empty(), "allOf"@)
                                    == Seq::<(Seq<char>, JsonV)>::empty());
                                if single[0].0 == "allOf"@ {
                                    assert(drop_key_all(single, "allOf"@) =~= Seq::<(
                                        Seq<char>,
                                        JsonV,
                                    )>::empty());
                                } else {
                                    assert(drop_key_all(single, "allOf"@) =~= single);
                                }
                            }
                            if !crate::json::str_lit_eq(&out[j].0, "allOf") {
                                let ghost b0 = obj_v(base@);
                                base.push((out[j].0.clone(), deep_copy(&out[j].1)));
                                proof {
                                    lemma_obj_v(base@);
                                    assert(obj_v(base@) =~= b0.push(outv[j as int]));
                                    assert(b0.push(outv[j as int]) =~= b0 + seq![outv[j as int]]);
                                }
                            } else {
                                proof {
                                    assert(obj_v(base@) + Seq::<(Seq<char>, JsonV)>::empty()
                                        =~= obj_v(base@));
                                }
                            }
                            j += 1;
                        }
                        proof {
                            assert(outv.take(out@.len() as int) =~= outv);
                        }
                        let basenode = Json::Obj(base);
                        let result = merge_values(&basenode, &acc);
                        proof {
                            assert(obj_v(base@) == drop_key_all(ctotal.0, "allOf"@));
                            assert(result@ == merged(JsonV::Obj(drop_key_all(ctotal.0, "allOf"@)),
                            ftotal.0));
                            assert(sout == RewriteOut {
                                v: merged(JsonV::Obj(drop_key_all(ctotal.0, "allOf"@)), ftotal.0),
                                ok: ctotal.1 && fspec.ok && ftotal.1,
                                err: None,
                            });
                            if ctx.clean && opts.filter.always_matches() {
                                lemma_drop_key_all(outv, "allOf"@);
                                let dk = drop_key_all(outv, "allOf"@);
                                assert forall|m: int| 0 <= m < dk.len() implies allof_free(
                                    (#[trigger] dk[m]).1,
                                ) by {
                                    let j0 = choose|j: int|
                                        0 <= j < outv.len() && dk[m] == outv[j];
                                    assert(outv[j0].0 != "allOf"@);
                                    assert(es[j0].0 == outv[j0].0);
                                }
                                assert(allof_free(basenode@));
                                lemma_merged_allof_free(basenode@, acc@);
                            }
                        }
                        Ok(result)
                    } else {
                        ctx.warn();
                        proof {
                            match allof_val@ {
                                JsonV::Arr(q) => {
                                    assert(false);
                                },
                                _ => {},
                            }
                            assert(sout == RewriteOut {
                                v: JsonV::Obj(ctotal.0),
                                ok: false,
                                err: None,
                            });
                        }
                        Ok(Json::Obj(out))
                    }
                },
                None => {
                    ctx.warn();
                    proof {
                        assert(sout == RewriteOut { v: JsonV::Obj(ctotal.0), ok: false, err: None });
                    }
                    Ok(Json::Obj(out))
                },
            }
        },
        Json::Arr(items) => {
            let ghost xs = arr_v(items@);
            let ghost ctotal = spec_flat_elems(st0, cur0, depth0, *opts, xs, 0, fuel as nat);
            let ghost mut ok_pre: bool = true;
            let mut out: Vec<Json> = Vec::new();
            let mut i: usize = 0;
            proof {
                lemma_arr_v(items@);
            }
            while i < items.len()
                invariant
                    i <= items.len(),
                    node@ == JsonV::Arr(arr_v(items@)),
                    xs == arr_v(items@),
                    ctx.storage@ == old(ctx).storage@,
                    ctx.scope@ == old(ctx).scope@,
                    ctx.current.deep_view() == old(ctx).current.deep_view(),
                    ctx.current.deep_view().len() >= 1,
                    crate::dereference::current_in_storage(*ctx),
                    fuel + ctx.scope@.len() >= SCOPE_LIMIT + 1,
                    ctx.clean ==> old(ctx).clean,
                    st0 == old(ctx).storage@,
                    cur0 == old(ctx).current.deep_view(),
                    depth0 == old(ctx).scope@.len(),
                    sout == spec_flat_node(st0, cur0, depth0, *opts, node@, fuel as nat),
                    ctotal == spec_flat_elems(st0, cur0, depth0, *opts, xs, 0, fuel as nat),
                    ctotal.0 == arr_v(out@) + spec_flat_elems(st0, cur0, depth0, *opts, xs,
                    i as int, fuel as nat).0,
                    ctotal.1 == (ok_pre && spec_flat_elems(st0, cur0, depth0, *opts, xs, i as int,
                    fuel as nat).1),
                    ctotal.2 == spec_flat_elems(st0, cur0, depth0, *opts, xs, i as int,
                    fuel as nat).2,
                    ctx.clean == (old(ctx).clean && ok_pre),
                    out@.len() == i,
                    allof_free(node@) ==> ctx.clean == old(ctx).clean && forall|j: int|
                        0 <= j < i ==> (#[trigger] arr_v(out@)[j]) == xs[j],
                    ctx.clean && opts.filter.always_matches() ==> forall|j: int|
                        0 <= j < i ==> allof_free(#[trigger] arr_v(out@)[j]),
                decreases items.len() - i,
            {
                proof {
                    lemma_arr_v(items@);
                    lemma_arr_v(out@);
                    assert(decreases_to!(node@ => node@->Arr_0));
                    assert(decreases_to!(node@->Arr_0 => node@->Arr_0[i as int]));
                }
                ctx.scope.index(i);
                let cr = process_flat_node(&items[i], opts, ctx, fuel);
                ctx.scope.pop();
                let ghost cspec = spec_flat_node(st0, cur0, depth0 + 1, *opts, xs[i as int],
                fuel as nat);
                proof {
                    assert(ctx.scope@ =~= old(ctx).scope@);
                    assert(xs[i as int] == items@[i as int]@);
                }
                match cr {
                    Err(e) => {
                        proof {
                            assert(cspec.err == Some(e@));
                            assert(spec_flat_elems(st0, cur0, depth0, *opts, xs, i as int,
                            fuel as nat).2 == Some(e@));
                            assert(sout.err == Some(e@));
                        }
                        return Err(e);
                    },
                    Ok(v) => {
                        let ghost out0 = arr_v(out@);
                        let ghost rest_next = spec_flat_elems(st0, cur0, depth0, *opts, xs, i + 1,
                        fuel as nat);
                        out.push(v);
                        proof {
                            lemma_arr_v(out@);
                            assert(v@ == cspec.v);
                            assert(spec_flat_elems(st0, cur0, depth0, *opts, xs, i as int,
                            fuel as nat) == (
                            seq![cspec.v] + rest_next.0,
                            cspec.ok && rest_next.1,
                            rest_next.2,
                            ));
                            assert(arr_v(out@) =~= out0.push(cspec.v));
                            assert(out0 + (seq![cspec.v] + rest_next.0) =~= arr_v(out@)
                                + rest_next.0);
                            ok_pre = ok_pre && cspec.ok;
                        }
                    },
                }
                i += 1;
            }
            proof {
                assert(spec_flat_elems(st0, cur0, depth0, *opts, xs, items@.len() as int,
                fuel as nat) == (Seq::<JsonV>::empty(), true, None::<ErrV>));
                assert(ctotal.0 =~= arr_v(out@));
                assert(sout == RewriteOut { v: JsonV::Arr(ctotal.0), ok: ctotal.1, err: None });
            }
            proof {
                lemma_arr_v(items@);
                lemma_arr_v(out@);
                if allof_free(node@) {
                    assert(arr_v(out@) =~= xs);
                }
            }
            Ok(Json::Arr(out))
        },
        Json::Null => Ok(Json::Null),
        Json::Bool(b) => Ok(Json::Bool(*b)),
        Json::Num(n) => Ok(Json::Num(n.clone())),
        Json::Str(s) => Ok(Json::Str(s.clone())),
    }
}

impl FlattenAllOfOptions {
    /// Rewrite the schema in place, folding every `allOf` the filter
    /// accepts; reference entries resolve against the given storage (the
    /// schema's own original body is interned first).
    ///
    /// On success the result reports whether the rewrite was clean. A clean
    /// rewrite under a filter with nothing configured leaves no `allOf` key
    /// anywhere; a document already free of them comes back unchanged, and
    /// clean. On failure the schema is unchanged.
    pub fn process(&self, schema: &mut Schema, storage: &SchemaStorage) -> (r: Result<
        bool,
        Error,
    >)
        ensures
            final(schema).url@ == old(schema).url@,
            allof_free(old(schema).body@) ==> r is Ok && final(schema).body@ == old(
                schema,
            ).body@ && r->Ok_0 == true,
            r is Ok && r->Ok_0 == true && self.filter.always_matches() ==> allof_free(
                final(schema).body@,
            ),
            r is Err ==> (r->Err_0 is CyclicReference || r->Err_0 is LoadFailure)
                && final(schema).body@ == old(schema).body@,
            ({
                let st = crate::dereference::intern_docs(
                    seq![(old(schema).url@, old(schema).body@)],
                    storage@,
                    0,
                );
                let out = spec_flat_node(
                    st,
                    seq![old(schema).url@],
                    0,
                    *self,
                    old(schema).body@,
                    (SCOPE_LIMIT + 1) as nat,
                );
                &&& (r is Ok <==> out.err is None)
                &&& r matches Ok(clean) ==> final(schema).body@ == out.v && clean == out.ok
                &&& r matches Err(e) ==> out.err == Some(e@)
            }),
    {
        let ghost init = seq![(old(schema).url@, old(schema).body@)];
        let ghost itotal = crate::dereference::intern_docs(init, storage@, 0);
        let mut local = SchemaStorage::new();
        local.insert(schema.url.clone(), deep_copy(&schema.body));
        proof {
            crate::dereference::lemma_has_key_pushed(
                Seq::<(Seq<char>, JsonV)>::empty(),
                (schema.url@, schema.body@),
            );
            assert(local@ =~= init);
            lemma_obj_v(storage.entries@);
        }
        let mut i: usize = 0;
        while i < storage.entries.len()
            invariant
                i <= storage.entries.len(),
                has_key(local@, old(schema).url@),
                storage@.len() == storage.entries@.len(),
                itotal == crate::dereference::intern_docs(init, storage@, 0),
                itotal == crate::dereference::intern_docs(local@, storage@, i as int),
            decreases storage.entries.len() - i,
        {
            proof {
                lemma_obj_v(storage.entries@);
            }
            let k = storage.entries[i].0.clone();
            let v = deep_copy(&storage.entries[i].1);
            let ghost l0 = local@;
            local.insert(k, v);
            proof {
                assert(storage@[i as int] == (k@, v@));
                if !has_key(l0, k@) {
                    crate::dereference::lemma_has_key_push(l0, (k@, v@), old(schema).url@);
                    assert(local@ =~= l0.push(storage@[i as int]));
                }
            }
            i += 1;
        }
        proof {
            assert(crate::dereference::intern_docs(local@, storage@, storage@.len() as int)
                == local@);
            assert(local@ == itotal);
        }
        let mut ctx = DereferencerContext {
            storage: local,
            current: Vec::new(),
            scope: crate::scope::SchemaScope::new(),
            clean: true,
        };
        ctx.current.push(schema.url.clone());
        proof {
            assert(ctx.current.deep_view() =~= Seq::<Seq<char>>::empty().push(
                old(schema).url@,
            ));
        }
        match process_flat_node(&schema.body, self, &mut ctx, SCOPE_LIMIT + 1) {
            Ok(v) => {
                schema.body = v;
                Ok(ctx.clean)
            },
            Err(e) => Err(e),
        }
    }
}

} // verus!
