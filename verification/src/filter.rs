//! The filter that gates the allOf fold: a small configuration value, not a
//! plugin system. It can require a key to be present and can require some
//! key of the node to contain one of a list of patterns. With nothing
//! configured it matches every node.

use vstd::prelude::*;
use vstd::string::StrSliceExecFns;

use crate::json::{has_key, lemma_obj_v, obj_contains, obj_v, Json, JsonV};

verus! {

/// Whether `sub` occurs contiguously in `s`.
pub open spec fn is_substring_of(sub: Seq<char>, s: Seq<char>) -> bool {
    exists|off: int|
        0 <= off && off + sub.len() <= s.len() && #[trigger] s.subrange(off, off + sub.len())
            == sub
}

/// A predicate over nodes, configured by the caller.
pub struct Filter {
    /// Patterns; the node must have a key containing one of them.
    pub keyword_contains: Vec<String>,
    /// A key the node must carry.
    pub require_key: Option<String>,
}

impl Filter {
    /// Nothing configured: the filter matches every node.
    pub open spec fn always_matches(&self) -> bool {
        self.keyword_contains@.len() == 0 && self.require_key is None
    }

    /// What the filter accepts: the required key is present, and some key of
    /// the node contains some configured pattern.
    pub open spec fn matches(&self, v: JsonV) -> bool {
        &&& match self.require_key {
            Some(k) => v is Obj && has_key(v->Obj_0, k@),
            None => true,
        }
        &&& (self.keyword_contains@.len() == 0 || (v is Obj && exists|i: int, j: int|
            0 <= i < self.keyword_contains.deep_view().len() && 0 <= j < v->Obj_0.len()
                && #[trigger] is_substring_of(
                self.keyword_contains.deep_view()[i],
                v->Obj_0[j].0,
            )))
    }

    /// The filter with nothing configured.
    pub fn always() -> (r: Filter)
        ensures
            r.always_matches(),
    {
        Filter { keyword_contains: Vec::new(), require_key: None }
    }

    /// Require a key to be present.
    pub fn with_require_key(self, key: String) -> (r: Filter)
        ensures
            r.keyword_contains@ == self.keyword_contains@,
            r.require_key matches Some(k) && k@ == key@,
    {
        Filter { require_key: Some(key), ..self }
    }

    /// Add a pattern that some key of the node must contain.
    pub fn with_keyword(self, pattern: String) -> (r: Filter)
        ensures
            r.keyword_contains@ == self.keyword_contains@.push(pattern),
            r.require_key == self.require_key,
    {
        let mut kw = self.keyword_contains;
        kw.push(pattern);
        Filter { keyword_contains: kw, require_key: self.require_key }
    }

    /// Decide the filter on an object given by its entries.
    pub fn check_entries(&self, entries: &Vec<(String, Json)>) -> (r: bool)
        ensures
            r == self.matches(JsonV::Obj(obj_v(entries@))),
    {
        let ghost v = JsonV::Obj(obj_v(entries@));
        match &self.require_key {
            Some(k) => {
                proof {
                    lemma_obj_v(entries@);
                }
                if !obj_contains(entries, k.as_str()) {
                    return false;
                }
            },
            None => {},
        }
        if self.keyword_contains.len() == 0 {
            return true;
        }
        let mut i: usize = 0;
        while i < self.keyword_contains.len()
            invariant
                i <= self.keyword_contains@.len(),
                match self.require_key {
                    Some(k) => has_key(obj_v(entries@), k@),
                    None => true,
                },
                forall|i0: int, j: int|
                    0 <= i0 < i && 0 <= j < obj_v(entries@).len() ==> !(#[trigger] is_substring_of(
                        self.keyword_contains.deep_view()[i0],
                        obj_v(entries@)[j].0,
                    )),
            decreases self.keyword_contains@.len() - i,
        {
            let mut j: usize = 0;
            while j < entries.len()
                invariant
                    i < self.keyword_contains@.len(),
                    j <= entries@.len(),
                    match self.require_key {
                        Some(k) => has_key(obj_v(entries@), k@),
                        None => true,
                    },
                    forall|j0: int|
                        0 <= j0 < j ==> !(#[trigger] is_substring_of(
                            self.keyword_contains.deep_view()[i as int],
                            obj_v(entries@)[j0].0,
                        )),
                decreases entries@.len() - j,
            {
                proof {
                    lemma_obj_v(entries@);
                }
                if contains_sub(&entries[j].0, &self.keyword_contains[i]) {
                    proof {
                        assert(self.keyword_contains.deep_view()[i as int]
                            == self.keyword_contains@[i as int]@);
                        assert(obj_v(entries@)[j as int].0 == entries@[j as int].0@);
                        let vv = JsonV::Obj(obj_v(entries@));
                        assert(is_substring_of(
                            self.keyword_contains.deep_view()[i as int],
                            vv->Obj_0[j as int].0,
                        ));
                    }
                    return true;
                }
                j += 1;
            }
            proof {
                lemma_obj_v(entries@);
            }
            i += 1;
        }
        false
    }

    /// Decide the filter on any node.
    pub fn check(&self, node: &Json) -> (r: bool)
        ensures
            r == self.matches(node@),
    {
        match node {
            Json::Obj(entries) => self.check_entries(entries),
            Json::Null => self.check_scalar(),
            Json::Bool(_) => self.check_scalar(),
            Json::Num(_) => self.check_scalar(),
            Json::Str(_) => self.check_scalar(),
            Json::Arr(_) => self.check_scalar(),
        }
    }

    /// The filter on a node that is not an object: only a wholly
    /// unconfigured filter matches it.
    fn check_scalar(&self) -> (r: bool)
        ensures
            r == (self.keyword_contains@.len() == 0 && self.require_key is None),
    {
        match &self.require_key {
            Some(_) => false,
            None => self.keyword_contains.len() == 0,
        }
    }
}

/// Whether `needle`'s characters occur contiguously in `hay`, starting at
/// `off`.
fn match_at(hay: &String, needle: &String, off: usize, hn: usize, nn: usize) -> (r: bool)
    requires
        hn == hay@.len(),
        nn == needle@.len(),
        off + nn <= hn,
    ensures
        r == (hay@.subrange(off as int, off + needle@.len()) == needle@),
{
    let mut j: usize = 0;
    while j < nn
        invariant
            j <= nn,
            hn == hay@.len(),
            nn == needle@.len(),
            off + nn <= hn,
            forall|m: int| 0 <= m < j ==> hay@[off + m] == needle@[m],
        decreases nn - j,
    {
        let hc = hay.as_str().get_char(off + j);
        let nc = needle.as_str().get_char(j);
        if !(hc == nc) {
            proof {
                assert(hay@.subrange(off as int, off + needle@.len())[j as int] == hay@[off + j]);
            }
            return false;
        }
        j += 1;
    }
    proof {
        assert(hay@.subrange(off as int, off + needle@.len()) =~= needle@);
    }
    true
}

/// Whether `needle` occurs contiguously anywhere in `hay`.
pub fn contains_sub(hay: &String, needle: &String) -> (r: bool)
    ensures
        r == is_substring_of(needle@, hay@),
{
    let hn = hay.as_str().unicode_len();
    let nn = needle.as_str().unicode_len();
    if nn > hn {
        return false;
    }
    if nn == 0 {
        proof {
            assert(hay@.subrange(0, 0 + needle@.len() as int) =~= needle@);
        }
        return true;
    }
    let mut off: usize = 0;
    while off <= hn - nn
        invariant
            hn == hay@.len(),
            nn == needle@.len(),
            1 <= nn <= hn,
            off <= hn - nn + 1,
            forall|o: int|
                0 <= o < off ==> #[trigger] hay@.subrange(o, o + needle@.len()) != needle@,
        decreases hn - off,
    {
        if match_at(hay, needle, off, hn, nn) {
            return true;
        }
        off += 1;
    }
    false
}

} // verus!
