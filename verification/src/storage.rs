//! A schema is a document paired with its canonical URL; storage interns
//! documents keyed by canonical URL. Insertion is idempotent per URL — the
//! first load wins — and nothing is ever evicted, so the size of a storage
//! never decreases.

use vstd::prelude::*;
use vstd::string::StringExecFns;

use crate::json::{deep_copy, get_key, has_key, lemma_key_idx, lemma_obj_v, obj_v, Json, JsonV};

verus! {

/// A loaded document together with its canonical URL. The body is rewritten
/// in place by the rewrites; the URL never changes.
pub struct Schema {
    pub url: String,
    pub body: Json,
}

impl Schema {
    /// A schema with an explicit canonical URL.
    pub fn new(url: String, body: Json) -> (r: Schema)
        ensures
            r.url@ == url@,
            r.body@ == body@,
    {
        Schema { url, body }
    }

    /// A schema built from an in-memory value, with no address of its own.
    pub fn from_json(body: Json) -> (r: Schema)
        ensures
            r.url@ == "memory://schema"@,
            r.body@ == body@,
    {
        Schema { url: String::from_str("memory://schema"), body }
    }

    /// The document root.
    pub fn get_body(&self) -> (r: &Json)
        ensures
            r@ == self.body@,
    {
        &self.body
    }

    /// The canonical URL.
    pub fn get_url(&self) -> (r: &String)
        ensures
            r@ == self.url@,
    {
        &self.url
    }
}

/// Interned documents, keyed by canonical URL in insertion order.
pub struct SchemaStorage {
    pub entries: Vec<(String, Json)>,
}

impl View for SchemaStorage {
    type V = Seq<(Seq<char>, JsonV)>;

    open spec fn view(&self) -> Seq<(Seq<char>, JsonV)> {
        obj_v(self.entries@)
    }
}

impl SchemaStorage {
    /// An empty storage.
    pub fn new() -> (r: SchemaStorage)
        ensures
            r@ == Seq::<(Seq<char>, JsonV)>::empty(),
    {
        SchemaStorage { entries: Vec::new() }
    }

    /// Number of interned documents.
    pub fn len(&self) -> (r: usize)
        ensures
            r == self@.len(),
    {
        proof {
            lemma_obj_v(self.entries@);
        }
        self.entries.len()
    }

    /// Intern a document under its canonical URL. The first document stored
    /// under a URL wins: inserting an already-present URL changes nothing.
    /// The size of the storage never decreases.
    pub fn insert(&mut self, url: String, body: Json)
        ensures
            has_key(old(self)@, url@) ==> final(self)@ == old(self)@,
            !has_key(old(self)@, url@) ==> final(self)@ == old(self)@.push((url@, body@)),
            final(self)@.len() >= old(self)@.len(),
    {
        let present = crate::json::obj_contains(&self.entries, url.as_str());
        let ghost k0 = url@;
        let ghost v0 = body@;
        if !present {
            self.entries.push((url, body));
            proof {
                lemma_obj_v(old(self).entries@);
                lemma_obj_v(self.entries@);
                assert(self@ =~= old(self)@.push((k0, v0)));
            }
        }
        proof {
            lemma_obj_v(old(self).entries@);
            lemma_obj_v(self.entries@);
        }
    }

    /// The document stored under `url`, if any.
    pub fn get(&self, url: &String) -> (r: Option<&Json>)
        ensures
            match r {
                Some(d) => get_key(self@, url@) == Some(d@),
                None => !has_key(self@, url@),
            },
    {
        crate::json::obj_lookup(&self.entries, url.as_str())
    }

    /// A deep copy of the document stored under `url`, if any.
    pub fn get_copy(&self, url: &String) -> (r: Option<Json>)
        ensures
            match r {
                Some(d) => get_key(self@, url@) == Some(d@),
                None => !has_key(self@, url@),
            },
    {
        match self.get(url) {
            Some(d) => Some(deep_copy(d)),
            None => None,
        }
    }
}

} // verus!
