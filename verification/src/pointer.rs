//! JSON-pointer navigation: a fragment is empty (the whole document) or a
//! sequence of `/`-separated segments; `~0` and `~1` in a segment stand for
//! `~` and `/`. An array is indexed by a segment that is a plain run of
//! decimal digits without a leading zero.

use vstd::prelude::*;
use vstd::string::StrSliceExecFns;

use crate::json::{
    get_key, has_key, key_idx, lemma_key_idx, lemma_obj_v, lemma_arr_v, Json, JsonV,
};

verus! {

/// A segment with its escapes decoded: `~0` is `~`, `~1` is `/`, and a stray
/// `~` stands for itself.
pub open spec fn ptr_unescape(s: Seq<char>) -> Seq<char>
    decreases s.len(),
{
    if s.len() == 0 {
        s
    } else if s[0] == '~' && s.len() >= 2 && s[1] == '0' {
        seq!['~'] + ptr_unescape(s.skip(2))
    } else if s[0] == '~' && s.len() >= 2 && s[1] == '1' {
        seq!['/'] + ptr_unescape(s.skip(2))
    } else {
        seq![s[0]] + ptr_unescape(s.skip(1))
    }
}

pub open spec fn is_digit(c: char) -> bool {
    48 <= c as u32 <= 57
}

/// Value of a run of decimal digits, most significant first.
pub open spec fn dec_val(s: Seq<char>) -> int
    decreases s.len(),
{
    if s.len() == 0 {
        0
    } else {
        dec_val(s.drop_last()) * 10 + (s[s.len() - 1] as u32 - 48)
    }
}

/// Whether a segment is a valid array index: digits only, no leading zero.
pub open spec fn is_index_seq(s: Seq<char>) -> bool {
    s.len() > 0 && (forall|i: int| 0 <= i < s.len() ==> is_digit(#[trigger] s[i])) && (s.len() > 1
        ==> s[0] != '0')
}

/// Navigation of a value by a sequence of raw (still escaped) segments.
pub open spec fn ptr_navigate(v: JsonV, segs: Seq<Seq<char>>) -> Option<JsonV>
    decreases segs.len(),
{
    if segs.len() == 0 {
        Some(v)
    } else {
        match v {
            JsonV::Obj(es) => {
                if has_key(es, ptr_unescape(segs[0])) {
                    ptr_navigate(es[key_idx(es, ptr_unescape(segs[0]))].1, segs.drop_first())
                } else {
                    None
                }
            },
            JsonV::Arr(xs) => {
                if is_index_seq(segs[0]) && dec_val(segs[0]) < xs.len() {
                    ptr_navigate(xs[dec_val(segs[0])], segs.drop_first())
                } else {
                    None
                }
            },
            _ => None,
        }
    }
}

/// Index of the first `/` in `s`, or -1 when there is none.
pub open spec fn first_slash(s: Seq<char>) -> int
    decreases s.len(),
{
    if s.len() == 0 {
        -1
    } else if s[0] == '/' {
        0
    } else if first_slash(s.drop_first()) == -1 {
        -1
    } else {
        first_slash(s.drop_first()) + 1
    }
}

/// The `/`-separated segments of `s` (which is a fragment with its leading
/// `/` already removed). A trailing or doubled `/` yields an empty segment.
pub open spec fn split_slash(s: Seq<char>) -> Seq<Seq<char>>
    decreases s.len(),
{
    if first_slash(s) == -1 {
        seq![s]
    } else {
        proof {
            lemma_first_slash(s);
        }
        seq![s.take(first_slash(s))] + split_slash(s.skip(first_slash(s) + 1))
    }
}

/// Navigation of a value by a whole fragment string.
pub open spec fn fragment_navigate(v: JsonV, frag: Seq<char>) -> Option<JsonV> {
    if frag.len() == 0 {
        Some(v)
    } else if frag[0] != '/' {
        None
    } else {
        ptr_navigate(v, split_slash(frag.drop_first()))
    }
}

/// `first_slash` finds exactly the first `/`.
pub proof fn lemma_first_slash(s: Seq<char>)
    ensures
        first_slash(s) >= -1,
        first_slash(s) == -1 ==> forall|i: int| 0 <= i < s.len() ==> s[i] != '/',
        first_slash(s) >= 0 ==> first_slash(s) < s.len() && s[first_slash(s)] == '/' && forall|
            j: int,
        | 0 <= j < first_slash(s) ==> s[j] != '/',
    decreases s.len(),
{
    if s.len() > 0 && s[0] != '/' {
        lemma_first_slash(s.drop_first());
        assert(forall|i: int| 1 <= i < s.len() ==> (#[trigger] s[i]) == s.drop_first()[i - 1]);
    }
}

/// Whether the escaped segment `seg` decodes to exactly the key `key`.
pub fn seg_matches_key(seg: &String, key: &String) -> (r: bool)
    ensures
        r == (ptr_unescape(seg@) == key@),
{
    let sn = seg.as_str().unicode_len();
    let kn = key.as_str().unicode_len();
    let mut i: usize = 0;
    let mut j: usize = 0;
    proof {
        assert(seg@.skip(0) =~= seg@);
        assert(key@.take(0) + ptr_unescape(seg@) =~= ptr_unescape(seg@));
    }
    while i < sn
        invariant
            i <= sn,
            j <= kn,
            sn == seg@.len(),
            kn == key@.len(),
            ptr_unescape(seg@) == key@.take(j as int) + ptr_unescape(seg@.skip(i as int)),
        decreases sn - i,
    {
        let c0 = seg.as_str().get_char(i);
        let produced: char;
        let consumed: usize;
        if c0 == '~' && i + 1 < sn && seg.as_str().get_char(i + 1) == '0' {
            produced = '~';
            consumed = 2;
        } else if c0 == '~' && i + 1 < sn && seg.as_str().get_char(i + 1) == '1' {
            produced = '/';
            consumed = 2;
        } else {
            produced = c0;
            consumed = 1;
        }
        proof {
            let t = seg@.skip(i as int);
            assert(t[0] == c0);
            if consumed == 2 {
                assert(t.len() >= 2 && t[1] == seg@[i + 1]);
                assert(t.skip(2) =~= seg@.skip(i + 2));
            } else {
                assert(t.skip(1) =~= seg@.skip(i + 1));
            }
            assert(ptr_unescape(t) == seq![produced] + ptr_unescape(
                seg@.skip(i + consumed),
            ));
        }
        if j == kn {
            proof {
                let full = key@.take(kn as int) + (seq![produced] + ptr_unescape(
                    seg@.skip(i + consumed),
                ));
                assert(ptr_unescape(seg@) == full);
                assert(full.len() > kn);
            }
            return false;
        }
        let kc = key.as_str().get_char(j);
        if !(produced == kc) {
            proof {
                let rest = seq![produced] + ptr_unescape(seg@.skip(i + consumed));
                assert(ptr_unescape(seg@) == key@.take(j as int) + rest);
                assert((key@.take(j as int) + rest)[j as int] == produced);
                assert(key@[j as int] == kc);
            }
            return false;
        }
        proof {
            let rest = ptr_unescape(seg@.skip(i + consumed));
            assert(key@.take(j as int) + (seq![produced] + rest) =~= key@.take(j + 1) + rest);
        }
        i += consumed;
        j += 1;
    }
    proof {
        assert(seg@.skip(sn as int) =~= Seq::<char>::empty());
        assert(ptr_unescape(Seq::<char>::empty()) == Seq::<char>::empty());
        assert(key@.take(j as int) + Seq::<char>::empty() =~= key@.take(j as int));
        if j == kn {
            assert(key@.take(kn as int) =~= key@);
        } else {
            assert(ptr_unescape(seg@).len() == j < key@.len());
        }
    }
    j == kn
}

/// If everything from position `m` on is a digit, the value of the whole
/// run is at least the value of the prefix before `m`.
proof fn lemma_dec_val_mono(s: Seq<char>, m: int)
    requires
        0 <= m <= s.len(),
        forall|k: int| m <= k < s.len() ==> is_digit(#[trigger] s[k]),
        dec_val(s.take(m)) >= 0,
    ensures
        dec_val(s) >= dec_val(s.take(m)),
    decreases s.len() - m,
{
    if m < s.len() {
        assert(s.take(m + 1).drop_last() =~= s.take(m));
        assert(s.take(m + 1)[m] == s[m]);
        assert(dec_val(s.take(m + 1)) == dec_val(s.take(m)) * 10 + (s[m] as u32 - 48));
        lemma_dec_val_mono(s, m + 1);
    } else {
        assert(s.take(m) =~= s);
    }
}

/// Parse a segment as an array index. `None` means the segment is not a
/// valid index, or its value does not fit in `usize`.
pub fn parse_index(seg: &String) -> (r: Option<usize>)
    ensures
        match r {
            Some(n) => is_index_seq(seg@) && n as int == dec_val(seg@),
            None => !is_index_seq(seg@) || dec_val(seg@) > usize::MAX,
        },
{
    let n = seg.as_str().unicode_len();
    if n == 0 {
        return None;
    }
    let c0 = seg.as_str().get_char(0);
    if n > 1 && c0 == '0' {
        return None;
    }
    let mut acc: usize = 0;
    let mut i: usize = 0;
    while i < n
        invariant
            i <= n,
            n == seg@.len(),
            n > 1 ==> seg@[0] != '0',
            forall|k: int| 0 <= k < i ==> is_digit(#[trigger] seg@[k]),
            acc as int == dec_val(seg@.take(i as int)),
        decreases n - i,
    {
        let c = seg.as_str().get_char(i);
        let cu = c as u32;
        if cu < 48 || cu > 57 {
            return None;
        }
        let d: usize = (cu - 48) as usize;
        proof {
            assert(seg@.take(i + 1).drop_last() =~= seg@.take(i as int));
            assert(seg@.take(i + 1)[i as int] == seg@[i as int]);
        }
        if acc > usize::MAX / 10 || (acc == usize::MAX / 10 && d > usize::MAX % 10) {
            proof {
                assert(dec_val(seg@.take(i + 1)) == acc as int * 10 + d);
                assert(dec_val(seg@.take(i + 1)) > usize::MAX);
                if forall|k: int| i + 1 <= k < n ==> is_digit(#[trigger] seg@[k]) {
                    lemma_dec_val_mono(seg@, i + 1);
                    assert(dec_val(seg@) >= dec_val(seg@.take(i + 1)));
                } else {
                    let bad = choose|k: int| i + 1 <= k < n && !is_digit(#[trigger] seg@[k]);
                    assert(!is_index_seq(seg@));
                }
            }
            return None;
        }
        proof {
            assert(acc as int * 10 + d <= usize::MAX);
        }
        acc = acc * 10 + d;
        i += 1;
    }
    proof {
        assert(seg@.take(n as int) =~= seg@);
    }
    Some(acc)
}

/// Find the value a segment selects in an object: the first entry whose key
/// equals the decoded segment.
fn nav_object<'a>(entries: &'a Vec<(String, Json)>, seg: &String) -> (r: Option<&'a Json>)
    ensures
        match r {
            Some(v) => get_key(crate::json::obj_v(entries@), ptr_unescape(seg@)) == Some(v@),
            None => !has_key(crate::json::obj_v(entries@), ptr_unescape(seg@)),
        },
{
    let mut i: usize = 0;
    while i < entries.len()
        invariant
            i <= entries.len(),
            forall|j: int| 0 <= j < i ==> crate::json::obj_v(entries@)[j].0 != ptr_unescape(seg@),
        decreases entries.len() - i,
    {
        proof {
            lemma_obj_v(entries@);
        }
        if seg_matches_key(seg, &entries[i].0) {
            proof {
                lemma_key_idx(crate::json::obj_v(entries@), ptr_unescape(seg@));
            }
            return Some(&entries[i].1);
        }
        i += 1;
    }
    proof {
        lemma_obj_v(entries@);
        lemma_key_idx(crate::json::obj_v(entries@), ptr_unescape(seg@));
    }
    None
}

/// Navigate `doc` by the segments `segs[k..]`, as `ptr_navigate` states.
fn nav_segments<'a>(doc: &'a Json, segs: &Vec<String>, k: usize) -> (r: Option<&'a Json>)
    requires
        k <= segs@.len(),
    ensures
        match r {
            Some(v) => ptr_navigate(doc@, segs.deep_view().skip(k as int)) == Some(v@),
            None => ptr_navigate(doc@, segs.deep_view().skip(k as int)) is None,
        },
    decreases segs@.len() - k,
{
    let ghost rest = segs.deep_view().skip(k as int);
    if k == segs.len() {
        proof {
            assert(rest =~= Seq::<Seq<char>>::empty());
        }
        return Some(doc);
    }
    proof {
        assert(rest[0] == segs.deep_view()[k as int]);
        assert(rest.drop_first() =~= segs.deep_view().skip(k + 1));
    }
    match doc {
        Json::Obj(entries) => {
            proof {
                lemma_obj_v(entries@);
            }
            let ghost es = crate::json::obj_v(entries@);
            match nav_object(entries, &segs[k]) {
                Some(child) => {
                    proof {
                        crate::json::lemma_key_idx(es, ptr_unescape(rest[0]));
                        assert(ptr_navigate(doc@, rest) == ptr_navigate(
                            es[crate::json::key_idx(es, ptr_unescape(rest[0]))].1,
                            rest.drop_first(),
                        ));
                    }
                    nav_segments(child, segs, k + 1)
                },
                None => {
                    proof {
                        assert(ptr_navigate(doc@, rest) is None);
                    }
                    None
                },
            }
        },
        Json::Arr(items) => {
            proof {
                lemma_arr_v(items@);
            }
            let ghost xs = crate::json::arr_v(items@);
            let nl = items.len();
            match parse_index(&segs[k]) {
                Some(idx) => {
                    if idx < items.len() {
                        proof {
                            assert(ptr_navigate(doc@, rest) == ptr_navigate(
                                xs[dec_val(rest[0])],
                                rest.drop_first(),
                            ));
                        }
                        nav_segments(&items[idx], segs, k + 1)
                    } else {
                        proof {
                            assert(ptr_navigate(doc@, rest) is None);
                        }
                        None
                    }
                },
                None => {
                    proof {
                        assert(items@.len() == nl <= usize::MAX);
                        assert(ptr_navigate(doc@, rest) is None);
                    }
                    None
                },
            }
        },
        _ => None,
    }
}

/// Split a fragment (after its leading `/`) into raw segments.
fn split_fragment(frag: &String, n: usize) -> (r: Vec<String>)
    requires
        n == frag@.len(),
        n >= 1,
        frag@[0] == '/',
    ensures
        r.deep_view() == split_slash(frag@.drop_first()),
{
    let mut out: Vec<String> = Vec::new();
    let mut start: usize = 1;
    let mut i: usize = 1;
    while i < n
        invariant
            1 <= start <= i <= n,
            n == frag@.len(),
            forall|m: int| start <= m < i ==> frag@[m] != '/',
            split_slash(frag@.drop_first()) == out.deep_view() + split_slash(
                frag@.skip(start as int),
            ),
        decreases n - i,
    {
        if frag.as_str().get_char(i) == '/' {
            let seg = String::from_str(frag.as_str().substring_char(start, i));
            let ghost pre = out.deep_view();
            out.push(seg);
            proof {
                let tail = frag@.skip(start as int);
                lemma_first_slash(tail);
                assert(tail[i - start] == '/');
                assert(forall|m: int|
                    0 <= m < i - start ==> tail[m] == frag@[m + start] && tail[m] != '/');
                assert(first_slash(tail) == i - start);
                assert(tail.take(i - start) =~= frag@.subrange(start as int, i as int));
                assert(tail.skip(i - start + 1) =~= frag@.skip(i + 1));
                assert(split_slash(tail) == seq![frag@.subrange(start as int, i as int)]
                    + split_slash(frag@.skip(i + 1)));
                assert(out.deep_view() =~= pre.push(frag@.subrange(start as int, i as int)));
                assert(pre + (seq![frag@.subrange(start as int, i as int)] + split_slash(
                    frag@.skip(i + 1),
                )) =~= out.deep_view() + split_slash(frag@.skip(i + 1)));
            }
            start = i + 1;
        }
        i += 1;
    }
    let seg = String::from_str(frag.as_str().substring_char(start, n));
    let ghost pre = out.deep_view();
    out.push(seg);
    proof {
        let tail = frag@.skip(start as int);
        lemma_first_slash(tail);
        assert(forall|m: int|
            0 <= m < tail.len() ==> tail[m] == frag@[m + start] && tail[m] != '/');
        assert(first_slash(tail) == -1);
        assert(split_slash(tail) == seq![tail]);
        assert(tail =~= frag@.subrange(start as int, n as int));
        assert(out.deep_view() =~= pre.push(tail));
        assert(pre + seq![tail] =~= out.deep_view());
    }
    out
}

/// The sub-value of `doc` that the fragment selects, if navigation succeeds.
pub fn pointer_get<'a>(doc: &'a Json, frag: &String) -> (r: Option<&'a Json>)
    ensures
        match r {
            Some(v) => fragment_navigate(doc@, frag@) == Some(v@),
            None => fragment_navigate(doc@, frag@) is None,
        },
{
    let n = frag.as_str().unicode_len();
    if n == 0 {
        return Some(doc);
    }
    if !(frag.as_str().get_char(0) == '/') {
        return None;
    }
    let segs = split_fragment(frag, n);
    proof {
        assert(segs.deep_view().skip(0) =~= segs.deep_view());
    }
    nav_segments(doc, &segs, 0)
}

} // verus!
