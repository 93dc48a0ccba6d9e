//! Reference strings and URLs. A reference is `<address>#<fragment>` where
//! either part may be absent; more than one `#` is malformed. Address
//! handling (absolute parse, relative join, host extraction) is done by the
//! `url` crate behind trusted wrappers; splitting the reference itself is
//! verified here.

use vstd::prelude::*;
use vstd::string::{StrSliceExecFns, StringExecFns};

use crate::error::Error;

verus! {

/// The canonical serialization that `url::Url::parse` gives `s`, or `None`
/// where `s` does not parse as an absolute URL.
pub uninterp spec fn url_canon(s: Seq<char>) -> Option<Seq<char>>;

/// The canonical serialization of `rel` joined against the base URL `base`
/// by `url::Url::join`, or `None` where parsing or joining fails.
pub uninterp spec fn url_joined(base: Seq<char>, rel: Seq<char>) -> Option<Seq<char>>;

/// The host part that `url::Url::host_str` reports for `s`, or `None` where
/// `s` does not parse or has no host.
pub uninterp spec fn url_host_of(s: Seq<char>) -> Option<Seq<char>>;

/// Relies on `url::Url::parse` and `url::Url::as_str`: an absolute URL
/// string is parsed and re-serialized in canonical form; the result depends
/// on the input string alone.
#[verifier::external_body]
pub fn parse_absolute(s: &str) -> (r: Option<String>)
    ensures
        r.deep_view() == url_canon(s@),
{
    match url::Url::parse(s) {
        Ok(u) => Some(u.as_str().to_string()),
        Err(_) => None,
    }
}

/// Relies on `url::Url::parse`, `url::Url::join` and `url::Url::as_str`: the
/// relative reference is resolved against the base URL; the result depends
/// on the two strings alone.
#[verifier::external_body]
pub fn join_url(base: &str, rel: &str) -> (r: Option<String>)
    ensures
        r.deep_view() == url_joined(base@, rel@),
{
    match url::Url::parse(base) {
        Ok(b) => match b.join(rel) {
            Ok(u) => Some(u.as_str().to_string()),
            Err(_) => None,
        },
        Err(_) => None,
    }
}

/// Relies on `url::Url::parse` and `url::Url::host_str`: the host of the
/// URL, if it parses and has one; the result depends on the string alone.
#[verifier::external_body]
pub fn host_of(s: &str) -> (r: Option<String>)
    ensures
        r.deep_view() == url_host_of(s@),
{
    match url::Url::parse(s) {
        Ok(u) => match u.host_str() {
            Some(h) => Some(h.to_string()),
            None => None,
        },
        Err(_) => None,
    }
}

/// Index of the first `#` in `s`, or -1 when there is none.
pub open spec fn first_hash(s: Seq<char>) -> int
    decreases s.len(),
{
    if s.len() == 0 {
        -1
    } else if s[0] == '#' {
        0
    } else if first_hash(s.drop_first()) == -1 {
        -1
    } else {
        first_hash(s.drop_first()) + 1
    }
}

/// `first_hash` finds exactly the first `#`.
pub proof fn lemma_first_hash(s: Seq<char>)
    ensures
        first_hash(s) >= -1,
        first_hash(s) == -1 ==> forall|i: int| 0 <= i < s.len() ==> s[i] != '#',
        first_hash(s) >= 0 ==> first_hash(s) < s.len() && s[first_hash(s)] == '#' && forall|
            j: int,
        | 0 <= j < first_hash(s) ==> s[j] != '#',
    decreases s.len(),
{
    if s.len() > 0 && s[0] != '#' {
        lemma_first_hash(s.drop_first());
        assert(forall|i: int| 1 <= i < s.len() ==> (#[trigger] s[i]) == s.drop_first()[i - 1]);
    }
}

/// Whether a reference holds a second `#` after its first one.
pub open spec fn has_second_hash(s: Seq<char>) -> bool {
    first_hash(s) >= 0 && first_hash(s.skip(first_hash(s) + 1)) >= 0
}

/// The split of a reference into its address and fragment parts, or `None`
/// where the reference is malformed (more than one `#`).
pub open spec fn split_ref(s: Seq<char>) -> Option<(Option<Seq<char>>, Option<Seq<char>>)> {
    if has_second_hash(s) {
        None
    } else {
        let h = first_hash(s);
        if h == -1 {
            Some((Some(s), None))
        } else if h == 0 {
            Some((None, Some(s.skip(1))))
        } else {
            Some((Some(s.take(h)), Some(s.skip(h + 1))))
        }
    }
}

/// Position of the first `#` in `s`, or its length when there is none.
fn find_first_hash(s: &String, n: usize) -> (r: usize)
    requires
        n == s@.len(),
    ensures
        r <= n,
        r == n ==> first_hash(s@) == -1,
        r < n ==> first_hash(s@) == r,
{
    let mut i: usize = 0;
    while i < n
        invariant
            i <= n,
            n == s@.len(),
            forall|j: int| 0 <= j < i ==> s@[j] != '#',
        decreases n - i,
    {
        if s.as_str().get_char(i) == '#' {
            proof {
                lemma_first_hash(s@);
            }
            return i;
        }
        i += 1;
    }
    proof {
        lemma_first_hash(s@);
    }
    n
}

/// Split a reference into its address and fragment parts.
///
/// With no `#` the whole string is the address; with one `#` the part before
/// it is the address (absent when empty) and the part after it the fragment;
/// with more than one `#` the reference is malformed.
pub fn parse_url(reference: String) -> (r: Result<(Option<String>, Option<String>), Error>)
    ensures
        r is Ok <==> !has_second_hash(reference@),
        r matches Ok(p) ==> split_ref(reference@) == Some(
            (p.0.deep_view(), p.1.deep_view()),
        ),
        r matches Err(e) ==> e is ReferenceSyntax,
{
    let n = reference.as_str().unicode_len();
    let h = find_first_hash(&reference, n);
    if h == n {
        // no `#` at all
        return Ok((Some(reference), None));
    }
    let mut k: usize = h + 1;
    while k < n
        invariant
            h < k <= n,
            n == reference@.len(),
            first_hash(reference@) == h,
            forall|j: int| h < j < k ==> reference@[j] != '#',
        decreases n - k,
    {
        if reference.as_str().get_char(k) == '#' {
            proof {
                lemma_first_hash(reference@);
                let tail = reference@.skip(h + 1);
                lemma_first_hash(tail);
                assert(tail[k - (h + 1)] == '#');
            }
            return Err(Error::ReferenceSyntax(reference));
        }
        k += 1;
    }
    proof {
        lemma_first_hash(reference@);
        let tail = reference@.skip(h + 1);
        lemma_first_hash(tail);
        assert(forall|j: int| 0 <= j < tail.len() ==> (#[trigger] tail[j]) == reference@[j + h + 1]);
    }
    let frag = String::from_str(reference.as_str().substring_char(h + 1, n));
    if h == 0 {
        Ok((None, Some(frag)))
    } else {
        let addr = String::from_str(reference.as_str().substring_char(0, h));
        Ok((Some(addr), Some(frag)))
    }
}

/// The absolute URL that an address denotes in the context of the active
/// document `base`: the address itself when absolute, otherwise the address
/// joined against `base`.
pub open spec fn ref_url_of(base: Seq<char>, addr: Seq<char>) -> Option<Seq<char>> {
    match url_canon(addr) {
        Some(u) => Some(u),
        None => url_joined(base, addr),
    }
}

/// Turn a reference address into the absolute URL it denotes, resolving
/// relative addresses against the active document's URL.
pub fn ref_to_url(mixed: &String, current: &String) -> (r: Option<String>)
    ensures
        r.deep_view() == ref_url_of(current@, mixed@),
{
    match parse_absolute(mixed.as_str()) {
        Some(abs) => Some(abs),
        None => join_url(current.as_str(), mixed.as_str()),
    }
}

} // verus!
