//! The scope tracks the JSON-pointer path from the root of the document to
//! the node being processed. Every traversal pushes before descending and
//! pops afterwards, so a finished traversal leaves the scope as it found it.

use vstd::prelude::*;
use vstd::string::{StrSliceExecFns, StringExecFns};

verus! {

/// One step of a traversal path: a property name or an array index.
pub enum ScopeSegment {
    Property(String),
    Index(usize),
}

/// The model of a path segment.
pub enum ScopeSegV {
    Property(Seq<char>),
    Index(int),
}

impl View for ScopeSegment {
    type V = ScopeSegV;

    open spec fn view(&self) -> ScopeSegV {
        match self {
            ScopeSegment::Property(s) => ScopeSegV::Property(s@),
            ScopeSegment::Index(i) => ScopeSegV::Index(*i as int),
        }
    }
}

/// The current traversal path, a stack of segments.
pub struct SchemaScope {
    pub segments: Vec<ScopeSegment>,
}

impl View for SchemaScope {
    type V = Seq<ScopeSegV>;

    open spec fn view(&self) -> Seq<ScopeSegV> {
        Seq::new(self.segments@.len(), |i: int| self.segments@[i]@)
    }
}

impl SchemaScope {
    /// An empty path.
    pub fn new() -> (r: SchemaScope)
        ensures
            r@ == Seq::<ScopeSegV>::empty(),
    {
        let r = SchemaScope { segments: Vec::new() };
        proof {
            assert(r@ =~= Seq::<ScopeSegV>::empty());
        }
        r
    }

    /// Number of segments on the path.
    pub fn len(&self) -> (r: usize)
        ensures
            r == self@.len(),
    {
        self.segments.len()
    }

    /// Enter a property of an object.
    pub fn property(&mut self, name: String)
        ensures
            final(self)@ == old(self)@.push(ScopeSegV::Property(name@)),
    {
        let ghost n = name@;
        self.segments.push(ScopeSegment::Property(name));
        proof {
            assert(self@ =~= old(self)@.push(ScopeSegV::Property(n)));
        }
    }

    /// Enter a property of an object; kept as a synonym used by traversals
    /// that do not distinguish the kind of key.
    pub fn any(&mut self, name: String)
        ensures
            final(self)@ == old(self)@.push(ScopeSegV::Property(name@)),
    {
        self.property(name);
    }

    /// Enter an element of an array.
    pub fn index(&mut self, i: usize)
        ensures
            final(self)@ == old(self)@.push(ScopeSegV::Index(i as int)),
    {
        self.segments.push(ScopeSegment::Index(i));
        proof {
            assert(self@ =~= old(self)@.push(ScopeSegV::Index(i as int)));
        }
    }

    /// Leave the innermost segment.
    pub fn pop(&mut self)
        requires
            old(self)@.len() > 0,
        ensures
            final(self)@ == old(self)@.drop_last(),
    {
        self.segments.pop();
        proof {
            assert(self@ =~= old(self)@.drop_last());
        }
    }
}

/// The decimal numeral of `n`, most significant digit first.
pub open spec fn dec_digits(n: nat) -> Seq<char>
    decreases n,
{
    if n < 10 {
        seq![((48 + n) as u8) as char]
    } else {
        dec_digits(n / 10) + seq![((48 + n % 10) as u8) as char]
    }
}

/// The JSON-pointer-like rendering of one segment: a `/`, then the property
/// name or the decimal index.
pub open spec fn rendered_seg(seg: ScopeSegV) -> Seq<char> {
    match seg {
        ScopeSegV::Property(name) => seq!['/'] + name,
        ScopeSegV::Index(i) => seq!['/'] + dec_digits(i as nat),
    }
}

/// The rendering of a whole path: its segments, in order.
pub open spec fn rendered(path: Seq<ScopeSegV>) -> Seq<char>
    decreases path.len(),
{
    if path.len() == 0 {
        Seq::empty()
    } else {
        rendered(path.drop_last()) + rendered_seg(path.last())
    }
}

/// Append one decimal digit to `s`.
fn push_digit(s: &mut String, d: usize)
    requires
        d < 10,
    ensures
        final(s)@ == old(s)@ + seq![((48 + d) as u8) as char],
{
    let lit: &str = match d {
        0 => "0",
        1 => "1",
        2 => "2",
        3 => "3",
        4 => "4",
        5 => "5",
        6 => "6",
        7 => "7",
        8 => "8",
        _ => "9",
    };
    proof {
        reveal_strlit("0");
        reveal_strlit("1");
        reveal_strlit("2");
        reveal_strlit("3");
        reveal_strlit("4");
        reveal_strlit("5");
        reveal_strlit("6");
        reveal_strlit("7");
        reveal_strlit("8");
        reveal_strlit("9");
    }
    s.append(lit);
}

/// Append the decimal numeral of `n` to `s`.
fn push_index(s: &mut String, n: usize)
    ensures
        final(s)@ == old(s)@ + dec_digits(n as nat),
    decreases n,
{
    if n < 10 {
        push_digit(s, n);
    } else {
        push_index(s, n / 10);
        push_digit(s, n % 10);
        proof {
            assert(old(s)@ + dec_digits((n / 10) as nat) + seq![((48 + n % 10) as u8) as char]
                =~= old(s)@ + dec_digits(n as nat));
        }
    }
}

impl SchemaScope {
    /// The path rendered as a JSON-pointer-like string, for diagnostics.
    pub fn render(&self) -> (r: String)
        ensures
            r@ == rendered(self@),
    {
        let mut r = String::new();
        let mut i: usize = 0;
        while i < self.segments.len()
            invariant
                i <= self.segments@.len(),
                r@ == rendered(self@.take(i as int)),
            decreases self.segments@.len() - i,
        {
            proof {
                reveal_strlit("/");
                assert(self@.take(i + 1).drop_last() =~= self@.take(i as int));
                assert(self@.take(i + 1).last() == self@[i as int]);
            }
            match &self.segments[i] {
                ScopeSegment::Property(name) => {
                    r.append("/");
                    r.append(name.as_str());
                    proof {
                        assert(rendered(self@.take(i as int)) + (seq!['/'] + name@)
                            =~= rendered(self@.take(i + 1)));
                    }
                },
                ScopeSegment::Index(x) => {
                    r.append("/");
                    push_index(&mut r, *x);
                    proof {
                        assert(rendered(self@.take(i as int)) + seq!['/'] + dec_digits(
                            *x as nat,
                        ) =~= rendered(self@.take(i + 1)));
                    }
                },
            }
            i += 1;
        }
        proof {
            assert(self@.take(self.segments@.len() as int) =~= self@);
        }
        r
    }
}

} // verus!
