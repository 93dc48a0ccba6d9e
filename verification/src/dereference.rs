//! The Dereferencer walks a document depth-first and replaces every object
//! carrying a `$ref` key by the value the reference resolves to, with the
//! remaining keys of the object layered on top. Non-fatal problems (a
//! malformed reference, an unresolved fragment, a non-string `$ref`, a
//! sibling that itself still holds references) leave the node unchanged and
//! are counted as diagnostics; a missing document or a reference cycle
//! aborts the rewrite.

use vstd::prelude::*;

use crate::error::Error;
use crate::json::{
    arr_v, deep_copy, get_key, has_key, key_idx, lemma_arr_v, lemma_key_idx, lemma_obj_v,
    obj_contains, obj_lookup, obj_set, obj_v, set_key, Json, JsonV,
};
use crate::merge::clone_entries;
use crate::pointer::{fragment_navigate, pointer_get};
use crate::scope::SchemaScope;
use crate::storage::{Schema, SchemaStorage};
use crate::error::ErrV;
use crate::urls::{host_of, parse_url, ref_to_url, ref_url_of, split_ref, url_host_of};

verus! {

/// Depth bound on re-entering resolved references; past it the rewrite
/// fails with `CyclicReference`.
pub const SCOPE_LIMIT: usize = 50;

pub struct Dereferencer;

pub struct DereferencerOptions {
    /// Leave a fragment-only reference untouched while the root document is
    /// the active one.
    pub skip_root_internal_references: bool,
    /// Accepted and stored, with no effect yet.
    pub create_internal_references: bool,
    /// Host names whose references are left as they are.
    pub skip_references: Vec<String>,
}

impl DereferencerOptions {
    /// No option that would leave a reference behind is set.
    pub open spec fn plain(&self) -> bool {
        !self.skip_root_internal_references && self.skip_references@.len() == 0
    }

    pub fn with_skip_root_internal_references(self, value: bool) -> (r: Self)
        ensures
            r.skip_root_internal_references == value,
            r.create_internal_references == self.create_internal_references,
            r.skip_references@ == self.skip_references@,
    {
        DereferencerOptions { skip_root_internal_references: value, ..self }
    }

    pub fn with_create_internal_references(self, value: bool) -> (r: Self)
        ensures
            r.skip_root_internal_references == self.skip_root_internal_references,
            r.create_internal_references == value,
            r.skip_references@ == self.skip_references@,
    {
        DereferencerOptions { create_internal_references: value, ..self }
    }

    pub fn with_skip_references(self, value: Vec<String>) -> (r: Self)
        ensures
            r.skip_root_internal_references == self.skip_root_internal_references,
            r.create_internal_references == self.create_internal_references,
            r.skip_references@ == value@,
    {
        DereferencerOptions { skip_references: value, ..self }
    }
}

impl Dereferencer {
    /// The default options: every reference is inlined.
    pub fn options() -> (r: DereferencerOptions)
        ensures
            r.skip_root_internal_references == false,
            r.create_internal_references == false,
            r.skip_references@.len() == 0,
            r.plain(),
    {
        DereferencerOptions {
            skip_root_internal_references: false,
            create_internal_references: false,
            skip_references: Vec::new(),
        }
    }
}

/// The state a rewrite threads through its traversal; both the
/// dereference and the allOf rewrites resolve references through it.
pub struct DereferencerContext {
    /// The interned documents the rewrite resolves against; never changed
    /// during the rewrite.
    pub storage: SchemaStorage,
    /// The chain of documents entered through cross-document references;
    /// the last element is the active document.
    pub current: Vec<String>,
    /// The path from the root to the node being processed.
    pub scope: SchemaScope,
    /// Whether the rewrite has been free of diagnostics so far; a node left
    /// with its reference for a non-fatal reason clears it for good.
    pub clean: bool,
}

impl DereferencerContext {
    /// Enter the document stored under `url`: push it onto the stack of
    /// active documents, or fail when storage does not hold it.
    pub fn resolve(&mut self, url: String) -> (r: Result<(), Error>)
        ensures
            final(self).storage@ == old(self).storage@,
            final(self).scope@ == old(self).scope@,
            final(self).clean == old(self).clean,
            r is Ok ==> has_key(old(self).storage@, url@) && final(self).current.deep_view()
                == old(self).current.deep_view().push(url@),
            r is Err ==> !has_key(old(self).storage@, url@) && final(self).current.deep_view()
                == old(self).current.deep_view() && r->Err_0 is LoadFailure && r->Err_0@
                == ErrV::Load(url@),
    {
        let present = match self.storage.get(&url) {
            Some(_) => true,
            None => false,
        };
        if present {
            let ghost u = url@;
            self.current.push(url);
            proof {
                assert(self.current.deep_view() =~= old(self).current.deep_view().push(u));
            }
            Ok(())
        } else {
            Err(Error::LoadFailure(url))
        }
    }


    /// Leave the innermost document entered through a reference.
    pub fn leave_doc(&mut self)
        requires
            old(self).current@.len() >= 1,
        ensures
            final(self).storage@ == old(self).storage@,
            final(self).scope@ == old(self).scope@,
            final(self).clean == old(self).clean,
            final(self).current.deep_view() == old(self).current.deep_view().drop_last(),
    {
        let ghost prevec = self.current@;
        self.current.pop();
        proof {
            lemma_deep_view_strings(self.current);
            lemma_deep_view_strings(old(self).current);
            assert(self.current@ == prevec.subrange(0, prevec.len() - 1));
            assert(self.current.deep_view() =~= old(self).current.deep_view().drop_last());
        }
    }

    /// Record a diagnostic: the rewrite is no longer clean.
    pub fn warn(&mut self)
        ensures
            final(self).storage@ == old(self).storage@,
            final(self).scope@ == old(self).scope@,
            final(self).current.deep_view() == old(self).current.deep_view(),
            final(self).clean == false,
    {
        self.clean = false;
    }
}

/// No object reachable in `v` carries a `$ref` key.
pub open spec fn ref_free(v: JsonV) -> bool
    decreases v,
{
    match v {
        JsonV::Obj(es) => !has_key(es, "$ref"@) && forall|i: int|
            0 <= i < es.len() ==> ref_free(#[trigger] es[i].1),
        JsonV::Arr(xs) => forall|i: int| 0 <= i < xs.len() ==> ref_free(#[trigger] xs[i]),
        _ => true,
    }
}

/// Whether any object reachable in `v` carries a `$ref` key.
pub fn has_refs(v: &Json) -> (r: bool)
    ensures
        r == !ref_free(v@),
    decreases v@,
{
    match v {
        Json::Obj(entries) => {
            proof {
                lemma_obj_v(entries@);
            }
            if obj_contains(entries, "$ref") {
                return true;
            }
            let mut i: usize = 0;
            while i < entries.len()
                invariant
                    i <= entries.len(),
                    v@ == JsonV::Obj(obj_v(entries@)),
                    !has_key(obj_v(entries@), "$ref"@),
                    forall|j: int| 0 <= j < i ==> ref_free(#[trigger] obj_v(entries@)[j].1),
                decreases entries.len() - i,
            {
                proof {
                    lemma_obj_v(entries@);
                    assert(decreases_to!(v@ => v@->Obj_0));
                    assert(decreases_to!(v@->Obj_0 => v@->Obj_0[i as int]));
                    assert(decreases_to!(v@->Obj_0[i as int] => v@->Obj_0[i as int].1));
                }
                if has_refs(&entries[i].1) {
                    return true;
                }
                i += 1;
            }
            proof {
                lemma_obj_v(entries@);
            }
            false
        },
        Json::Arr(items) => {
            let mut i: usize = 0;
            while i < items.len()
                invariant
                    i <= items.len(),
                    v@ == JsonV::Arr(arr_v(items@)),
                    forall|j: int| 0 <= j < i ==> ref_free(#[trigger] arr_v(items@)[j]),
                decreases items.len() - i,
            {
                proof {
                    lemma_arr_v(items@);
                    assert(decreases_to!(v@ => v@->Arr_0));
                    assert(decreases_to!(v@->Arr_0 => v@->Arr_0[i as int]));
                }
                if has_refs(&items[i]) {
                    return true;
                }
                i += 1;
            }
            proof {
                lemma_arr_v(items@);
            }
            false
        },
        _ => false,
    }
}

/// Inserting a reference-free value under a key other than `$ref` keeps an
/// object reference-free.
proof fn lemma_set_key_ref_free(es: Seq<(Seq<char>, JsonV)>, k: Seq<char>, v: JsonV)
    requires
        ref_free(JsonV::Obj(es)),
        ref_free(v),
        k != "$ref"@,
    ensures
        ref_free(JsonV::Obj(set_key(es, k, v))),
{
    lemma_key_idx(es, k);
    let es2 = set_key(es, k, v);
    assert(forall|j: int| 0 <= j < es2.len() ==> ref_free(#[trigger] es2[j].1));
    lemma_key_idx(es2, "$ref"@);
    if has_key(es2, "$ref"@) {
        let bad = key_idx(es2, "$ref"@);
        assert(es2[bad].0 == "$ref"@);
        lemma_key_idx(es, "$ref"@);
        assert(false);
    }
}

/// The outcome of rewriting one node: the rewritten value, whether the
/// subtree stayed free of diagnostics, and the fatal error if one arose
/// (in which case the other two fields are not meaningful).
pub struct RewriteOut {
    pub v: JsonV,
    pub ok: bool,
    pub err: Option<ErrV>,
}

/// Whether the host of the absolute URL `abs` is on the skip list.
pub open spec fn host_skipped(skips: Vec<String>, abs: Seq<char>) -> bool {
    match url_host_of(abs) {
        Some(h) => exists|i: int| 0 <= i < skips.deep_view().len() && skips.deep_view()[i] == h,
        None => false,
    }
}

/// The dereference rewrite of one node, resolving against the interned
/// documents `st` with the document stack `cur`, at traversal depth `depth`.
/// This is the functional statement the executable traversal is proved
/// against, branch for branch.
pub open spec fn spec_deref_node(
    st: Seq<(Seq<char>, JsonV)>,
    cur: Seq<Seq<char>>,
    depth: nat,
    opts: DereferencerOptions,
    node: JsonV,
    fuel: nat,
) -> RewriteOut
    decreases fuel, node, 2int, 0int,
{
    match node {
        JsonV::Obj(es) => {
            if has_key(es, "$ref"@) {
                spec_deref_refobj(st, cur, depth, opts, es, fuel)
            } else {
                let c = spec_deref_children(st, cur, depth, opts, es, 0, fuel);
                RewriteOut { v: JsonV::Obj(c.0), ok: c.1, err: c.2 }
            }
        },
        JsonV::Arr(xs) => {
            let c = spec_deref_elems(st, cur, depth, opts, xs, 0, fuel);
            RewriteOut { v: JsonV::Arr(c.0), ok: c.1, err: c.2 }
        },
        _ => RewriteOut { v: node, ok: true, err: None },
    }
}

/// The children of an object without `$ref`, rewritten in order from
/// position `i` on; stops at the first fatal error.
pub open spec fn spec_deref_children(
    st: Seq<(Seq<char>, JsonV)>,
    cur: Seq<Seq<char>>,
    depth: nat,
    opts: DereferencerOptions,
    es: Seq<(Seq<char>, JsonV)>,
    i: int,
    fuel: nat,
) -> (Seq<(Seq<char>, JsonV)>, bool, Option<ErrV>)
    decreases fuel, JsonV::Obj(es), 1int, es.len() - i,
{
    if i < 0 || i >= es.len() {
        (Seq::empty(), true, None)
    } else {
        proof {
            let o = JsonV::Obj(es);
            assert(decreases_to!(o => o->Obj_0));
            assert(decreases_to!(es => es[i]));
            assert(decreases_to!(es[i] => es[i].1));
        }
        let c = spec_deref_node(st, cur, depth + 1, opts, es[i].1, fuel);
        if c.err is Some {
            (Seq::empty(), false, c.err)
        } else {
            let rest = spec_deref_children(st, cur, depth, opts, es, i + 1, fuel);
            (seq![(es[i].0, c.v)] + rest.0, c.ok && rest.1, rest.2)
        }
    }
}

/// The elements of an array, rewritten in order from position `i` on.
pub open spec fn spec_deref_elems(
    st: Seq<(Seq<char>, JsonV)>,
    cur: Seq<Seq<char>>,
    depth: nat,
    opts: DereferencerOptions,
    xs: Seq<JsonV>,
    i: int,
    fuel: nat,
) -> (Seq<JsonV>, bool, Option<ErrV>)
    decreases fuel, JsonV::Arr(xs), 1int, xs.len() - i,
{
    if i < 0 || i >= xs.len() {
        (Seq::empty(), true, None)
    } else {
        proof {
            let a = JsonV::Arr(xs);
            assert(decreases_to!(a => a->Arr_0));
            assert(decreases_to!(xs => xs[i]));
        }
        let c = spec_deref_node(st, cur, depth + 1, opts, xs[i], fuel);
        if c.err is Some {
            (Seq::empty(), false, c.err)
        } else {
            let rest = spec_deref_elems(st, cur, depth, opts, xs, i + 1, fuel);
            (seq![c.v] + rest.0, c.ok && rest.1, rest.2)
        }
    }
}

/// An object carrying `$ref`: the target is resolved and expanded, and the
/// other keys are layered on top when the expansion is an object. A
/// non-string `$ref` keeps the node and records a diagnostic.
pub open spec fn spec_deref_refobj(
    st: Seq<(Seq<char>, JsonV)>,
    cur: Seq<Seq<char>>,
    depth: nat,
    opts: DereferencerOptions,
    es: Seq<(Seq<char>, JsonV)>,
    fuel: nat,
) -> RewriteOut
    decreases fuel, JsonV::Obj(es), 1int, 0int,
{
    match get_key(es, "$ref"@) {
        Some(JsonV::Str(s)) => {
            let d = spec_deref_resolve(st, cur, depth, opts, es, s, fuel);
            if d.err is Some {
                d
            } else {
                match d.v {
                    JsonV::Obj(res) => {
                        let l = layer_siblings(res, es, 0);
                        RewriteOut { v: JsonV::Obj(l.0), ok: d.ok && l.1, err: None }
                    },
                    _ => d,
                }
            }
        },
        _ => RewriteOut { v: JsonV::Obj(es), ok: false, err: None },
    }
}

/// The keys of the original object other than `$ref`, laid over the
/// resolved object in order, overwriting same-named keys. The layering is
/// free of diagnostics exactly when every layered value is reference-free.
pub open spec fn layer_siblings(
    res: Seq<(Seq<char>, JsonV)>,
    es: Seq<(Seq<char>, JsonV)>,
    i: int,
) -> (Seq<(Seq<char>, JsonV)>, bool)
    decreases es.len() - i,
{
    if i < 0 || i >= es.len() {
        (res, true)
    } else if es[i].0 == "$ref"@ {
        layer_siblings(res, es, i + 1)
    } else {
        let rest = layer_siblings(set_key(res, es[i].0, es[i].1), es, i + 1);
        (rest.0, rest.1 && ref_free(es[i].1))
    }
}

/// Resolution of one reference string: parse it, switch the active document
/// for an addressed reference, and expand the target. Each non-fatal
/// problem yields the node unchanged; a missing document or exhausted depth
/// is fatal.
pub open spec fn spec_deref_resolve(
    st: Seq<(Seq<char>, JsonV)>,
    cur: Seq<Seq<char>>,
    depth: nat,
    opts: DereferencerOptions,
    es: Seq<(Seq<char>, JsonV)>,
    refstr: Seq<char>,
    fuel: nat,
) -> RewriteOut
    decreases fuel, JsonV::Obj(es), 0int, 1int,
{
    if depth > SCOPE_LIMIT || fuel == 0 {
        RewriteOut { v: JsonV::Obj(es), ok: false, err: Some(ErrV::Cyclic) }
    } else {
        match split_ref(refstr) {
            None => RewriteOut { v: JsonV::Obj(es), ok: false, err: None },
            Some((addr, frag)) => {
                if opts.skip_root_internal_references && cur.len() == 1 && addr is None {
                    RewriteOut { v: JsonV::Obj(es), ok: true, err: None }
                } else {
                    match addr {
                        Some(a) => match ref_url_of(cur.last(), a) {
                            None => RewriteOut { v: JsonV::Obj(es), ok: false, err: None },
                            Some(abs) => {
                                if host_skipped(opts.skip_references, abs) {
                                    RewriteOut { v: JsonV::Obj(es), ok: true, err: None }
                                } else if !has_key(st, abs) {
                                    RewriteOut {
                                        v: JsonV::Obj(es),
                                        ok: false,
                                        err: Some(ErrV::Load(abs)),
                                    }
                                } else {
                                    spec_deref_target(st, cur.push(abs), depth, opts, es, frag, fuel)
                                }
                            },
                        },
                        None => spec_deref_target(st, cur, depth, opts, es, frag, fuel),
                    }
                }
            },
        }
    }
}

/// Expansion of the target inside the active document: navigate the
/// fragment, then rewrite the selected value one level deeper.
pub open spec fn spec_deref_target(
    st: Seq<(Seq<char>, JsonV)>,
    cur: Seq<Seq<char>>,
    depth: nat,
    opts: DereferencerOptions,
    es: Seq<(Seq<char>, JsonV)>,
    frag: Option<Seq<char>>,
    fuel: nat,
) -> RewriteOut
    decreases fuel, JsonV::Obj(es), 0int, 0int,
{
    if fuel == 0 {
        RewriteOut { v: JsonV::Obj(es), ok: false, err: Some(ErrV::Cyclic) }
    } else if !has_key(st, cur.last()) {
        RewriteOut { v: JsonV::Obj(es), ok: false, err: Some(ErrV::Load(cur.last())) }
    } else {
        let doc = get_key(st, cur.last())->0;
        let target = match frag {
            Some(f) => fragment_navigate(doc, f),
            None => Some(doc),
        };
        match target {
            None => RewriteOut { v: JsonV::Obj(es), ok: false, err: None },
            Some(t) => spec_deref_node(st, cur, depth + 1, opts, t, (fuel - 1) as nat),
        }
    }
}

/// The documents a rewrite resolves against: the root document first, then
/// every stored document from position `i` on, first insertion winning.
pub open spec fn intern_docs(
    acc: Seq<(Seq<char>, JsonV)>,
    entries: Seq<(Seq<char>, JsonV)>,
    i: int,
) -> Seq<(Seq<char>, JsonV)>
    decreases entries.len() - i,
{
    if i < 0 || i >= entries.len() {
        acc
    } else if has_key(acc, entries[i].0) {
        intern_docs(acc, entries, i + 1)
    } else {
        intern_docs(acc.push(entries[i]), entries, i + 1)
    }
}

/// A document free of references is a fixed point of the dereference
/// rewrite: it comes back unchanged, clean, with no error. Together with
/// the rewrite's own contract (a clean rewrite without skip options leaves
/// a reference-free document) this makes the rewrite idempotent.
pub proof fn lemma_spec_deref_fixpoint(
    st: Seq<(Seq<char>, JsonV)>,
    cur: Seq<Seq<char>>,
    depth: nat,
    opts: DereferencerOptions,
    node: JsonV,
    fuel: nat,
)
    requires
        ref_free(node),
    ensures
        spec_deref_node(st, cur, depth, opts, node, fuel) == (RewriteOut {
            v: node,
            ok: true,
            err: None,
        }),
    decreases fuel, node, 2int, 0int,
{
    match node {
        JsonV::Obj(es) => {
            lemma_spec_deref_children_fixpoint(st, cur, depth, opts, es, 0, fuel);
            assert(es.skip(0) =~= es);
        },
        JsonV::Arr(xs) => {
            lemma_spec_deref_elems_fixpoint(st, cur, depth, opts, xs, 0, fuel);
            assert(xs.skip(0) =~= xs);
        },
        _ => {},
    }
}

proof fn lemma_spec_deref_children_fixpoint(
    st: Seq<(Seq<char>, JsonV)>,
    cur: Seq<Seq<char>>,
    depth: nat,
    opts: DereferencerOptions,
    es: Seq<(Seq<char>, JsonV)>,
    i: int,
    fuel: nat,
)
    requires
        0 <= i <= es.len(),
        forall|j: int| 0 <= j < es.len() ==> ref_free((#[trigger] es[j]).1),
    ensures
        spec_deref_children(st, cur, depth, opts, es, i, fuel) == (es.skip(i), true, None::<
            ErrV,
        >),
    decreases fuel, JsonV::Obj(es), 1int, es.len() - i,
{
    if i >= es.len() {
        assert(es.skip(i) =~= Seq::<(Seq<char>, JsonV)>::empty());
    } else {
        let o = JsonV::Obj(es);
        assert(decreases_to!(o => o->Obj_0));
        assert(decreases_to!(es => es[i]));
        assert(decreases_to!(es[i] => es[i].1));
        lemma_spec_deref_fixpoint(st, cur, depth + 1, opts, es[i].1, fuel);
        lemma_spec_deref_children_fixpoint(st, cur, depth, opts, es, i + 1, fuel);
        assert(seq![(es[i].0, es[i].1)] + es.skip(i + 1) =~= es.skip(i));
        assert(seq![(es[i].0, es[i].1)][0] == es[i]);
    }
}

proof fn lemma_spec_deref_elems_fixpoint(
    st: Seq<(Seq<char>, JsonV)>,
    cur: Seq<Seq<char>>,
    depth: nat,
    opts: DereferencerOptions,
    xs: Seq<JsonV>,
    i: int,
    fuel: nat,
)
    requires
        0 <= i <= xs.len(),
        forall|j: int| 0 <= j < xs.len() ==> ref_free(#[trigger] xs[j]),
    ensures
        spec_deref_elems(st, cur, depth, opts, xs, i, fuel) == (xs.skip(i), true, None::<ErrV>),
    decreases fuel, JsonV::Arr(xs), 1int, xs.len() - i,
{
    if i >= xs.len() {
        assert(xs.skip(i) =~= Seq::<JsonV>::empty());
    } else {
        let a = JsonV::Arr(xs);
        assert(decreases_to!(a => a->Arr_0));
        assert(decreases_to!(xs => xs[i]));
        lemma_spec_deref_fixpoint(st, cur, depth + 1, opts, xs[i], fuel);
        lemma_spec_deref_elems_fixpoint(st, cur, depth, opts, xs, i + 1, fuel);
        assert(seq![xs[i]] + xs.skip(i + 1) =~= xs.skip(i));
    }
}

/// Every document URL on the `current` stack is interned in `storage`.
pub open spec fn current_in_storage(ctx: DereferencerContext) -> bool {
    forall|i: int|
        0 <= i < ctx.current.deep_view().len() ==> has_key(
            ctx.storage@,
            #[trigger] ctx.current.deep_view()[i],
        )
}

/// The deep view of a vector of strings is elementwise.
pub proof fn lemma_deep_view_strings(v: Vec<String>)
    ensures
        v.deep_view().len() == v@.len(),
        forall|i: int| 0 <= i < v@.len() ==> #[trigger] v.deep_view()[i] == v@[i]@,
{
}

/// A key that an entry sequence holds is still held after a push.
pub proof fn lemma_has_key_push(es: Seq<(Seq<char>, JsonV)>, e: (Seq<char>, JsonV), k: Seq<char>)
    requires
        has_key(es, k),
    ensures
        has_key(es.push(e), k),
{
    lemma_key_idx(es, k);
    lemma_key_idx(es.push(e), k);
    if !has_key(es.push(e), k) {
        assert(es.push(e)[key_idx(es, k)].0 == k);
        assert(false);
    }
}

/// A pushed key is held.
pub proof fn lemma_has_key_pushed(es: Seq<(Seq<char>, JsonV)>, e: (Seq<char>, JsonV))
    ensures
        has_key(es.push(e), e.0),
{
    lemma_key_idx(es.push(e), e.0);
    if !has_key(es.push(e), e.0) {
        assert(es.push(e)[es.len() as int].0 == e.0);
        assert(false);
    }
}

/// Whether the host of `abs` is on the skip list.
fn skip_host_matches(skips: &Vec<String>, abs: &String) -> (r: bool)
    ensures
        r ==> skips@.len() > 0,
        r == (url_host_of(abs@) matches Some(h) && exists|i: int|
            0 <= i < skips.deep_view().len() && skips.deep_view()[i] == h),
{
    match host_of(abs.as_str()) {
        Some(h) => {
            let mut i: usize = 0;
            while i < skips.len()
                invariant
                    i <= skips.len(),
                    url_host_of(abs@) == Some(h@),
                    forall|j: int| 0 <= j < i ==> skips.deep_view()[j] != h@,
                decreases skips.len() - i,
            {
                if skips[i] == h {
                    proof {
                        assert(skips.deep_view()[i as int] == h@);
                    }
                    return true;
                }
                i += 1;
            }
            false
        },
        None => false,
    }
}

/// Resolve one reference string against the active document and expand the
/// target. On a non-fatal problem the node (whose entries are given) is
/// returned unchanged and the context is marked not clean; a missing
/// document or exhausted depth aborts.
fn dereference(
    reference: String,
    entries: &Vec<(String, Json)>,
    opts: &DereferencerOptions,
    ctx: &mut DereferencerContext,
    fuel: usize,
) -> (r: Result<Json, Error>)
    requires
        old(ctx).current.deep_view().len() >= 1,
        current_in_storage(*old(ctx)),
        fuel + old(ctx).scope@.len() >= SCOPE_LIMIT + 1,
    ensures
        final(ctx).storage@ == old(ctx).storage@,
        final(ctx).scope@ == old(ctx).scope@,
        final(ctx).current.deep_view() == old(ctx).current.deep_view(),
        final(ctx).clean ==> old(ctx).clean,
        r is Ok && final(ctx).clean && opts.plain() ==> ref_free(r->Ok_0@),
        r is Err ==> r->Err_0 is CyclicReference || r->Err_0 is LoadFailure,
        ({
            let out = spec_deref_resolve(
                old(ctx).storage@,
                old(ctx).current.deep_view(),
                old(ctx).scope@.len(),
                *opts,
                obj_v(entries@),
                reference@,
                fuel as nat,
            );
            &&& (r is Ok <==> out.err is None)
            &&& r matches Ok(v) ==> v@ == out.v && final(ctx).clean == (old(ctx).clean && out.ok)
            &&& r matches Err(e) ==> out.err == Some(e@)
        }),
    decreases fuel, JsonV::Obj(obj_v(entries@)), 0int,
{
    let ghost st0 = old(ctx).storage@;
    let ghost depth0 = old(ctx).scope@.len();
    let ghost es0 = obj_v(entries@);
    let ghost refv = reference@;
    let ghost sout = spec_deref_resolve(st0, old(ctx).current.deep_view(), depth0, *opts, es0, refv, fuel as nat);
    if ctx.scope.len() > SCOPE_LIMIT {
        proof {
            assert(sout.err == Some(ErrV::Cyclic));
        }
        return Err(Error::CyclicReference);
    }
    proof {
        assert(depth0 <= SCOPE_LIMIT && fuel >= 1);
    }
    let ghost cur0 = old(ctx).current.deep_view();
    let ghost mut pushed_url: Seq<char> = Seq::empty();
    let refc = reference.clone();
    match parse_url(reference) {
        Err(_) => {
            ctx.warn();
            proof {
                assert(sout == RewriteOut { v: JsonV::Obj(es0), ok: false, err: None });
            }
            Ok(Json::Obj(clone_entries(entries)))
        },
        Ok((addr, frag)) => {
            let ghost saddr = addr.deep_view();
            let ghost sfrag = frag.deep_view();
            proof {
                assert(split_ref(refv) == Some((saddr, sfrag)));
                assert(cur0.len() == ctx.current@.len());
            }
            if opts.skip_root_internal_references && ctx.current.len() == 1 && addr.is_none() {
                proof {
                    assert(sout == RewriteOut { v: JsonV::Obj(es0), ok: true, err: None });
                }
                return Ok(Json::Obj(clone_entries(entries)));
            }
            let mut pushed = false;
            match &addr {
                Some(a) => {
                    let idx = ctx.current.len() - 1;
                    proof {
                        lemma_deep_view_strings(ctx.current);
                        assert((ctx.current@[idx as int])@ == cur0.last());
                    }
                    let abs_opt = ref_to_url(a, &ctx.current[idx]);
                    match abs_opt {
                        None => {
                            ctx.warn();
                            proof {
                                assert(ref_url_of(cur0.last(), saddr->0) is None);
                                assert(sout == RewriteOut {
                                    v: JsonV::Obj(es0),
                                    ok: false,
                                    err: None,
                                });
                            }
                            return Ok(Json::Obj(clone_entries(entries)));
                        },
                        Some(abs) => {
                            proof {
                                assert(ref_url_of(cur0.last(), saddr->0) == Some(abs@));
                            }
                            if skip_host_matches(&opts.skip_references, &abs) {
                                proof {
                                    assert(host_skipped(opts.skip_references, abs@));
                                    assert(sout == RewriteOut {
                                        v: JsonV::Obj(es0),
                                        ok: true,
                                        err: None,
                                    });
                                }
                                return Ok(Json::Obj(clone_entries(entries)));
                            }
                            proof {
                                assert(!host_skipped(opts.skip_references, abs@));
                            }
                            let ghost absv = abs@;
                            match ctx.resolve(abs) {
                                Ok(()) => {
                                    pushed = true;
                                    proof {
                                        pushed_url = absv;
                                        assert(ctx.current.deep_view() == cur0.push(pushed_url));
                                        assert(sout == spec_deref_target(st0, cur0.push(absv),
                                        depth0, *opts, es0, sfrag, fuel as nat));
                                    }
                                },
                                Err(e) => {
                                    proof {
                                        assert(sout.err == Some(e@));
                                    }
                                    return Err(e);
                                },
                            }
                        },
                    }
                },
                None => {
                    proof {
                        assert(sout == spec_deref_target(st0, cur0, depth0, *opts, es0, sfrag,
                        fuel as nat));
                    }
                },
            }
            let ghost cur2 = ctx.current.deep_view();
            proof {
                assert(sout == spec_deref_target(st0, cur2, depth0, *opts, es0, sfrag,
                fuel as nat));
            }
            proof {
                assert(ctx.current@.len() == ctx.current.deep_view().len());
                lemma_deep_view_strings(ctx.current);
            }
            let idx = ctx.current.len() - 1;
            proof {
                assert((ctx.current@[idx as int])@ == cur2.last());
            }
            let docbody: Json = match ctx.storage.get(&ctx.current[idx]) {
                Some(d) => deep_copy(d),
                None => {
                    let u = ctx.current[idx].clone();
                    if pushed {
                        let ghost prepop = ctx.current.deep_view();
                        ctx.leave_doc();
                        proof {
                            assert(prepop == cur0.push(pushed_url));
                            assert(ctx.current.deep_view() =~= cur0);
                        }
                    }
                    proof {
                        assert(sout.err == Some(ErrV::Load(cur2.last())));
                        assert(u@ == cur2.last());
                    }
                    return Err(Error::LoadFailure(u));
                },
            };
            proof {
                assert(get_key(st0, cur2.last()) == Some(docbody@));
            }
            let ghost docv = docbody@;
            let target: Option<Json> = match &frag {
                Some(f) => match pointer_get(&docbody, f) {
                    Some(t) => Some(deep_copy(t)),
                    None => None,
                },
                None => Some(docbody),
            };
            proof {
                match &target {
                    Some(t) => {
                        assert(t@ == (match sfrag {
                            Some(f) => fragment_navigate(docv, f)->0,
                            None => docv,
                        }));
                    },
                    None => {
                        assert(sfrag matches Some(f) && fragment_navigate(docv, f) is None);
                    },
                }
            }
            match target {
                None => {
                    ctx.warn();
                    if pushed {
                        let ghost prepop = ctx.current.deep_view();
                        ctx.leave_doc();
                        proof {
                            assert(prepop == cur0.push(pushed_url));
                            assert(ctx.current.deep_view() =~= cur0);
                        }
                    }
                    proof {
                        assert(sout == RewriteOut { v: JsonV::Obj(es0), ok: false, err: None });
                    }
                    Ok(Json::Obj(clone_entries(entries)))
                },
                Some(t) => {
                    proof {
                        assert(sout == spec_deref_node(st0, cur2, depth0 + 1, *opts, t@, (
                        fuel - 1) as nat));
                    }
                    ctx.scope.property(refc);
                    let processed = process_node(&t, opts, ctx, fuel - 1);
                    ctx.scope.pop();
                    proof {
                        assert(ctx.scope@ =~= old(ctx).scope@);
                    }
                    if pushed {
                        let ghost prepop = ctx.current.deep_view();
                        ctx.leave_doc();
                        proof {
                            assert(prepop == cur0.push(pushed_url));
                            assert(ctx.current.deep_view() =~= cur0);
                        }
                    }
                    match processed {
                        Ok(v) => {
                            proof {
                                assert(v@ == sout.v);
                            }
                            Ok(v)
                        },
                        Err(e) => {
                            proof {
                                assert(sout.err == Some(e@));
                            }
                            Err(e)
                        },
                    }
                },
            }
        },
    }
}

/// Replace an object that carries a `$ref` by its resolved target, with the
/// object's remaining keys layered on top of it. A sibling that itself still
/// holds references is layered on unchanged and counted as a diagnostic.
fn process_ref(
    entries: &Vec<(String, Json)>,
    opts: &DereferencerOptions,
    ctx: &mut DereferencerContext,
    fuel: usize,
) -> (r: Result<Json, Error>)
    requires
        old(ctx).current.deep_view().len() >= 1,
        current_in_storage(*old(ctx)),
        fuel + old(ctx).scope@.len() >= SCOPE_LIMIT + 1,
    ensures
        final(ctx).storage@ == old(ctx).storage@,
        final(ctx).scope@ == old(ctx).scope@,
        final(ctx).current.deep_view() == old(ctx).current.deep_view(),
        final(ctx).clean ==> old(ctx).clean,
        r is Ok && final(ctx).clean && opts.plain() ==> ref_free(r->Ok_0@),
        r is Err ==> r->Err_0 is CyclicReference || r->Err_0 is LoadFailure,
        ({
            let out = spec_deref_refobj(
                old(ctx).storage@,
                old(ctx).current.deep_view(),
                old(ctx).scope@.len(),
                *opts,
                obj_v(entries@),
                fuel as nat,
            );
            &&& (r is Ok <==> out.err is None)
            &&& r matches Ok(v) ==> v@ == out.v && final(ctx).clean == (old(ctx).clean && out.ok)
            &&& r matches Err(e) ==> out.err == Some(e@)
        }),
    decreases fuel, JsonV::Obj(obj_v(entries@)), 1int,
{
    let ghost st0 = old(ctx).storage@;
    let ghost cur0 = old(ctx).current.deep_view();
    let ghost depth0 = old(ctx).scope@.len();
    let ghost es0 = obj_v(entries@);
    let ghost sout = spec_deref_refobj(st0, cur0, depth0, *opts, es0, fuel as nat);
    let refval = obj_lookup(entries, "$ref");
    let reference: String = match refval {
        Some(j) => match j {
            Json::Str(s) => s.clone(),
            Json::Null => {
                ctx.warn();
                return Ok(Json::Obj(clone_entries(entries)));
            },
            Json::Bool(_) => {
                ctx.warn();
                return Ok(Json::Obj(clone_entries(entries)));
            },
            Json::Num(_) => {
                ctx.warn();
                return Ok(Json::Obj(clone_entries(entries)));
            },
            Json::Arr(_) => {
                ctx.warn();
                return Ok(Json::Obj(clone_entries(entries)));
            },
            Json::Obj(_) => {
                ctx.warn();
                return Ok(Json::Obj(clone_entries(entries)));
            },
        },
        None => {
            ctx.warn();
            return Ok(Json::Obj(clone_entries(entries)));
        },
    };
    proof {
        assert(get_key(es0, "$ref"@) == Some(JsonV::Str(reference@)));
    }
    let ghost dspec = spec_deref_resolve(st0, cur0, depth0, *opts, es0, reference@, fuel as nat);
    match dereference(reference, entries, opts, ctx, fuel) {
        Err(e) => {
            proof {
                assert(sout.err == Some(e@));
            }
            Err(e)
        },
        Ok(d) => match d {
            Json::Obj(mut res_entries) => {
                let ghost mid = *ctx;
                let ghost res_init = obj_v(res_entries@);
                let ghost ltotal = layer_siblings(res_init, es0, 0);
                let ghost mut ok_pre: bool = true;
                let mut i: usize = 0;
                while i < entries.len()
                    invariant
                        i <= entries.len(),
                        es0 == obj_v(entries@),
                        ctx.storage@ == mid.storage@,
                        ctx.scope@ == mid.scope@,
                        ctx.current.deep_view() == mid.current.deep_view(),
                        ctx.clean ==> mid.clean,
                        ctx.clean == (mid.clean && ok_pre),
                        ltotal == layer_siblings(res_init, es0, 0),
                        ltotal.0 == layer_siblings(obj_v(res_entries@), es0, i as int).0,
                        ltotal.1 == (ok_pre && layer_siblings(obj_v(res_entries@), es0, i as int).1),
                        ctx.clean && opts.plain() ==> ref_free(
                            JsonV::Obj(obj_v(res_entries@)),
                        ),
                    decreases entries.len() - i,
                {
                    proof {
                        lemma_obj_v(entries@);
                    }
                    if !crate::json::str_lit_eq(&entries[i].0, "$ref") {
                        let refy = has_refs(&entries[i].1);
                        if refy {
                            ctx.warn();
                        }
                        proof {
                            ok_pre = ok_pre && ref_free(es0[i as int].1);
                        }
                        let k = entries[i].0.clone();
                        let v = deep_copy(&entries[i].1);
                        let ghost res0 = obj_v(res_entries@);
                        let ghost kv = (k@, v@);
                        obj_set(&mut res_entries, k, v);
                        proof {
                            assert(obj_v(res_entries@) == set_key(res0, es0[i as int].0, es0[
                            i as int
                            ].1));
                            if ctx.clean && opts.plain() {
                                lemma_set_key_ref_free(res0, kv.0, kv.1);
                            }
                        }
                    }
                    i += 1;
                }
                proof {
                    lemma_obj_v(entries@);
                    assert(es0.len() == entries@.len());
                    assert(layer_siblings(obj_v(res_entries@), es0, entries@.len() as int) == (
                    obj_v(res_entries@),
                    true,
                    ));
                    assert(ltotal.0 == obj_v(res_entries@));
                    assert(ltotal.1 == ok_pre);
                    assert(sout == RewriteOut {
                        v: JsonV::Obj(ltotal.0),
                        ok: dspec.ok && ltotal.1,
                        err: None,
                    });
                }
                Ok(Json::Obj(res_entries))
            },
            other => {
                proof {
                    assert(sout == dspec);
                    assert(other@ == dspec.v);
                }
                Ok(other)
            },
        },
    }
}

/// Walk a node depth-first: expand an object that carries a `$ref`, or
/// rebuild the node with every child processed.
pub fn process_node(
    node: &Json,
    opts: &DereferencerOptions,
    ctx: &mut DereferencerContext,
    fuel: usize,
) -> (r: Result<Json, Error>)
    requires
        old(ctx).current.deep_view().len() >= 1,
        current_in_storage(*old(ctx)),
        fuel + old(ctx).scope@.len() >= SCOPE_LIMIT + 1,
    ensures
        final(ctx).storage@ == old(ctx).storage@,
        final(ctx).scope@ == old(ctx).scope@,
        final(ctx).current.deep_view() == old(ctx).current.deep_view(),
        final(ctx).clean ==> old(ctx).clean,
        ref_free(node@) ==> r is Ok && r->Ok_0@ == node@ && final(ctx).clean == old(ctx).clean,
        r is Ok && final(ctx).clean && opts.plain() ==> ref_free(r->Ok_0@),
        r is Err ==> r->Err_0 is CyclicReference || r->Err_0 is LoadFailure,
        ({
            let out = spec_deref_node(
                old(ctx).storage@,
                old(ctx).current.deep_view(),
                old(ctx).scope@.len(),
                *opts,
                node@,
                fuel as nat,
            );
            &&& (r is Ok <==> out.err is None)
            &&& r matches Ok(v) ==> v@ == out.v && final(ctx).clean == (old(ctx).clean && out.ok)
            &&& r matches Err(e) ==> out.err == Some(e@)
        }),
    decreases fuel, node@, 2int,
{
    let ghost st0 = old(ctx).storage@;
    let ghost cur0 = old(ctx).current.deep_view();
    let ghost depth0 = old(ctx).scope@.len();
    let ghost sout = spec_deref_node(st0, cur0, depth0, *opts, node@, fuel as nat);
    match node {
        Json::Obj(entries) => {
            proof {
                lemma_obj_v(entries@);
            }
            if obj_contains(entries, "$ref") {
                proof {
                    assert(sout == spec_deref_refobj(st0, cur0, depth0, *opts, obj_v(entries@),
                    fuel as nat));
                }
                process_ref(entries, opts, ctx, fuel)
            } else {
                let ghost es = obj_v(entries@);
                let ghost total = spec_deref_children(st0, cur0, depth0, *opts, es, 0, fuel as nat);
                let ghost mut ok_pre: bool = true;
                let mut out: Vec<(String, Json)> = Vec::new();
                let mut i: usize = 0;
                while i < entries.len()
                    invariant
                        i <= entries.len(),
                        node@ == JsonV::Obj(obj_v(entries@)),
                        es == obj_v(entries@),
                        !has_key(es, "$ref"@),
                        ctx.storage@ == old(ctx).storage@,
                        ctx.scope@ == old(ctx).scope@,
                        ctx.current.deep_view() == old(ctx).current.deep_view(),
                        ctx.current.deep_view().len() >= 1,
                        current_in_storage(*ctx),
                        fuel + ctx.scope@.len() >= SCOPE_LIMIT + 1,
                        ctx.clean ==> old(ctx).clean,
                        st0 == old(ctx).storage@,
                        cur0 == old(ctx).current.deep_view(),
                        depth0 == old(ctx).scope@.len(),
                        total == spec_deref_children(st0, cur0, depth0, *opts, es, 0, fuel as nat),
                        sout == (RewriteOut { v: JsonV::Obj(total.0), ok: total.1, err: total.2 }),
                        total.0 == obj_v(out@) + spec_deref_children(st0, cur0, depth0, *opts, es,
                        i as int, fuel as nat).0,
                        total.1 == (ok_pre && spec_deref_children(st0, cur0, depth0, *opts, es,
                        i as int, fuel as nat).1),
                        total.2 == spec_deref_children(st0, cur0, depth0, *opts, es, i as int,
                        fuel as nat).2,
                        ctx.clean == (old(ctx).clean && ok_pre),
                        out@.len() == i,
                        forall|j: int| 0 <= j < i ==> (#[trigger] obj_v(out@)[j]).0 == es[j].0,
                        ref_free(node@) ==> ctx.clean == old(ctx).clean && forall|j: int|
                            0 <= j < i ==> (#[trigger] obj_v(out@)[j]).1 == es[j].1,
                        ctx.clean && opts.plain() ==> forall|j: int|
                            0 <= j < i ==> ref_free((#[trigger] obj_v(out@)[j]).1),
                    decreases entries.len() - i,
                {
                    proof {
                        lemma_obj_v(entries@);
                        lemma_obj_v(out@);
                        assert(decreases_to!(node@ => node@->Obj_0));
                        assert(decreases_to!(node@->Obj_0 => node@->Obj_0[i as int]));
                        assert(decreases_to!(node@->Obj_0[i as int] => node@->Obj_0[
                        i as int
                        ].1));
                    }
                    let key = entries[i].0.clone();
                    ctx.scope.property(entries[i].0.clone());
                    let cr = process_node(&entries[i].1, opts, ctx, fuel);
                    ctx.scope.pop();
                    let ghost cspec = spec_deref_node(st0, cur0, depth0 + 1, *opts, es[
                    i as int
                    ].1, fuel as nat);
                    proof {
                        assert(ctx.scope@ =~= old(ctx).scope@);
                        assert(es[i as int].1 == entries@[i as int].1@);
                    }
                    match cr {
                        Err(e) => {
                            proof {
                                assert(cspec.err == Some(e@));
                                assert(spec_deref_children(st0, cur0, depth0, *opts, es, i as int,
                                fuel as nat).2 == Some(e@));
                                assert(sout.err == Some(e@));
                            }
                            return Err(e);
                        },
                        Ok(v) => {
                            let ghost out0 = obj_v(out@);
                            let ghost rest_next = spec_deref_children(st0, cur0, depth0, *opts, es,
                            i + 1, fuel as nat);
                            out.push((key, v));
                            proof {
                                lemma_obj_v(out@);
                                assert(v@ == cspec.v);
                                assert(spec_deref_children(st0, cur0, depth0, *opts, es, i as int,
                                fuel as nat) == (
                                seq![(es[i as int].0, cspec.v)] + rest_next.0,
                                cspec.ok && rest_next.1,
                                rest_next.2,
                                ));
                                assert(obj_v(out@) =~= out0.push((es[i as int].0, cspec.v)));
                                assert(out0 + (seq![(es[i as int].0, cspec.v)] + rest_next.0)
                                    =~= obj_v(out@) + rest_next.0);
                                ok_pre = ok_pre && cspec.ok;
                            }
                        },
                    }
                    i += 1;
                }
                proof {
                    lemma_obj_v(entries@);
                    lemma_obj_v(out@);
                    assert(spec_deref_children(st0, cur0, depth0, *opts, es, entries@.len() as int,
                    fuel as nat) == (Seq::<(Seq<char>, JsonV)>::empty(), true, None::<ErrV>));
                    assert(total.0 =~= obj_v(out@));
                    assert(sout == RewriteOut { v: JsonV::Obj(total.0), ok: total.1, err: None });
                    if ref_free(node@) {
                        assert(obj_v(out@) =~= es);
                    }
                    if ctx.clean && opts.plain() {
                        lemma_key_idx(obj_v(out@), "$ref"@);
                        lemma_key_idx(es, "$ref"@);
                        if has_key(obj_v(out@), "$ref"@) {
                            assert(obj_v(out@)[key_idx(obj_v(out@), "$ref"@)].0 == "$ref"@);
                            assert(false);
                        }
                    }
                }
                Ok(Json::Obj(out))
            }
        },
        Json::Arr(items) => {
            let ghost xs = arr_v(items@);
            let ghost total = spec_deref_elems(st0, cur0, depth0, *opts, xs, 0, fuel as nat);
            let ghost mut ok_pre: bool = true;
            let mut out: Vec<Json> = Vec::new();
            let mut i: usize = 0;
            proof {
                lemma_arr_v(items@);
            }
            while i < items.len()
                invariant
                    i <= items.len(),
                    node@ == JsonV::Arr(arr_v(items@)),
                    xs == arr_v(items@),
                    ctx.storage@ == old(ctx).storage@,
                    ctx.scope@ == old(ctx).scope@,
                    ctx.current.deep_view() == old(ctx).current.deep_view(),
                    ctx.current.deep_view().len() >= 1,
                    current_in_storage(*ctx),
                    fuel + ctx.scope@.len() >= SCOPE_LIMIT + 1,
                    ctx.clean ==> old(ctx).clean,
                    st0 == old(ctx).storage@,
                    cur0 == old(ctx).current.deep_view(),
                    depth0 == old(ctx).scope@.len(),
                    total == spec_deref_elems(st0, cur0, depth0, *opts, xs, 0, fuel as nat),
                    sout == (RewriteOut { v: JsonV::Arr(total.0), ok: total.1, err: total.2 }),
                    total.0 == arr_v(out@) + spec_deref_elems(st0, cur0, depth0, *opts, xs,
                    i as int, fuel as nat).0,
                    total.1 == (ok_pre && spec_deref_elems(st0, cur0, depth0, *opts, xs, i as int,
                    fuel as nat).1),
                    total.2 == spec_deref_elems(st0, cur0, depth0, *opts, xs, i as int,
                    fuel as nat).2,
                    ctx.clean == (old(ctx).clean && ok_pre),
                    out@.len() == i,
                    ref_free(node@) ==> ctx.clean == old(ctx).clean && forall|j: int|
                        0 <= j < i ==> (#[trigger] arr_v(out@)[j]) == xs[j],
                    ctx.clean && opts.plain() ==> forall|j: int|
                        0 <= j < i ==> ref_free(#[trigger] arr_v(out@)[j]),
                decreases items.len() - i,
            {
                proof {
                    lemma_arr_v(items@);
                    lemma_arr_v(out@);
                    assert(decreases_to!(node@ => node@->Arr_0));
                    assert(decreases_to!(node@->Arr_0 => node@->Arr_0[i as int]));
                }
                ctx.scope.index(i);
                let cr = process_node(&items[i], opts, ctx, fuel);
                ctx.scope.pop();
                let ghost cspec = spec_deref_node(st0, cur0, depth0 + 1, *opts, xs[i as int],
                fuel as nat);
                proof {
                    assert(ctx.scope@ =~= old(ctx).scope@);
                    assert(xs[i as int] == items@[i as int]@);
                }
                match cr {
                    Err(e) => {
                        proof {
                            assert(cspec.err == Some(e@));
                            assert(spec_deref_elems(st0, cur0, depth0, *opts, xs, i as int,
                            fuel as nat).2 == Some(e@));
                            assert(sout.err == Some(e@));
                        }
                        return Err(e);
                    },
                    Ok(v) => {
                        let ghost out0 = arr_v(out@);
                        let ghost rest_next = spec_deref_elems(st0, cur0, depth0, *opts, xs, i + 1,
                        fuel as nat);
                        out.push(v);
                        proof {
                            lemma_arr_v(out@);
                            assert(v@ == cspec.v);
                            assert(spec_deref_elems(st0, cur0, depth0, *opts, xs, i as int,
                            fuel as nat) == (
                            seq![cspec.v] + rest_next.0,
                            cspec.ok && rest_next.1,
                            rest_next.2,
                            ));
                            assert(arr_v(out@) =~= out0.push(cspec.v));
                            assert(out0 + (seq![cspec.v] + rest_next.0) =~= arr_v(out@)
                                + rest_next.0);
                            ok_pre = ok_pre && cspec.ok;
                        }
                    },
                }
                i += 1;
            }
            proof {
                lemma_arr_v(items@);
                lemma_arr_v(out@);
                assert(spec_deref_elems(st0, cur0, depth0, *opts, xs, items@.len() as int,
                fuel as nat) == (Seq::<JsonV>::empty(), true, None::<ErrV>));
                assert(total.0 =~= arr_v(out@));
                assert(sout == RewriteOut { v: JsonV::Arr(total.0), ok: total.1, err: None });
                if ref_free(node@) {
                    assert(arr_v(out@) =~= xs);
                }
            }
            Ok(Json::Arr(out))
        },
        Json::Null => Ok(Json::Null),
        Json::Bool(b) => Ok(Json::Bool(*b)),
        Json::Num(n) => Ok(Json::Num(n.clone())),
        Json::Str(s) => Ok(Json::Str(s.clone())),
    }
}

impl DereferencerOptions {
    /// Rewrite the schema in place, resolving references against the given
    /// storage (the schema's own original body is interned first, so its
    /// fragment references resolve against the unrewritten document).
    ///
    /// On success the result reports whether the rewrite was clean. A clean
    /// rewrite with no skip option set leaves no `$ref` key anywhere; a
    /// document that is already free of references comes back unchanged, and
    /// clean. On failure the schema is unchanged.
    pub fn process(&self, schema: &mut Schema, storage: &SchemaStorage) -> (r: Result<
        bool,
        Error,
    >)
        ensures
            final(schema).url@ == old(schema).url@,
            ref_free(old(schema).body@) ==> r is Ok && final(schema).body@ == old(schema).body@
                && r->Ok_0 == true,
            r is Ok && r->Ok_0 == true && self.plain() ==> ref_free(final(schema).body@),
            r is Err ==> (r->Err_0 is CyclicReference || r->Err_0 is LoadFailure)
                && final(schema).body@ == old(schema).body@,
            ({
                let st = intern_docs(
                    seq![(old(schema).url@, old(schema).body@)],
                    storage@,
                    0,
                );
                let out = spec_deref_node(
                    st,
                    seq![old(schema).url@],
                    0,
                    *self,
                    old(schema).body@,
                    (SCOPE_LIMIT + 1) as nat,
                );
                &&& (r is Ok <==> out.err is None)
                &&& r matches Ok(clean) ==> final(schema).body@ == out.v && clean == out.ok
                &&& r matches Err(e) ==> out.err == Some(e@)
            }),
    {
        let ghost init = seq![(old(schema).url@, old(schema).body@)];
        let ghost itotal = intern_docs(init, storage@, 0);
        let mut local = SchemaStorage::new();
        local.insert(schema.url.clone(), deep_copy(&schema.body));
        proof {
            lemma_has_key_pushed(Seq::<(Seq<char>, JsonV)>::empty(), (schema.url@, schema.body@));
            assert(local@ =~= init);
            lemma_obj_v(storage.entries@);
        }
        let mut i: usize = 0;
        while i < storage.entries.len()
            invariant
                i <= storage.entries.len(),
                has_key(local@, old(schema).url@),
                storage@.len() == storage.entries@.len(),
                itotal == intern_docs(init, storage@, 0),
                itotal == intern_docs(local@, storage@, i as int),
            decreases storage.entries.len() - i,
        {
            proof {
                lemma_obj_v(storage.entries@);
            }
            let k = storage.entries[i].0.clone();
            let v = deep_copy(&storage.entries[i].1);
            let ghost l0 = local@;
            local.insert(k, v);
            proof {
                assert(storage@[i as int] == (k@, v@));
                if !has_key(l0, k@) {
                    lemma_has_key_push(l0, (k@, v@), old(schema).url@);
                    assert(local@ =~= l0.push(storage@[i as int]));
                }
            }
            i += 1;
        }
        proof {
            assert(intern_docs(local@, storage@, storage@.len() as int) == local@);
            assert(local@ == itotal);
        }
        let mut ctx = DereferencerContext {
            storage: local,
            current: Vec::new(),
            scope: SchemaScope::new(),
            clean: true,
        };
        ctx.current.push(schema.url.clone());
        proof {
            assert(ctx.current.deep_view() =~= Seq::<Seq<char>>::empty().push(
                old(schema).url@,
            ));
        }
        match process_node(&schema.body, self, &mut ctx, SCOPE_LIMIT + 1) {
            Ok(v) => {
                schema.body = v;
                Ok(ctx.clean)
            },
            Err(e) => Err(e),
        }
    }
}

} // verus!
