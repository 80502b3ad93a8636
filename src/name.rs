use vstd::prelude::*;
use vstd::string::*;

verus! {

/// Width of a name field on the wire, NUL padding included.
pub const NAME_MAX: usize = 24;

/// The marker that opens a package, as bytes: `=begin=`.
pub open spec fn begin_marker() -> Seq<u8> {
    seq![61u8, 98u8, 101u8, 103u8, 105u8, 110u8, 61u8]
}

/// The marker that closes a package, as bytes: `=end=`.
pub open spec fn end_marker() -> Seq<u8> {
    seq![61u8, 101u8, 110u8, 100u8, 61u8]
}

/// A name is between 1 and `NAME_MAX - 1` bytes long and is neither marker.
pub open spec fn valid_name(s: Seq<u8>) -> bool {
    &&& 1 <= s.len() < NAME_MAX
    &&& s != begin_marker()
    &&& s != end_marker()
}

/// The bytes of the `=begin=` literal.
pub(crate) fn begin_literal() -> (r: &'static str)
    ensures
        r.spec_bytes() == begin_marker(),
{
    let r = "=begin=";
    proof {
        reveal_strlit("=begin=");
        broadcast use is_ascii_spec_bytes;
        assert(is_ascii(r));
        assert(r.spec_bytes() =~= begin_marker());
    }
    r
}

/// The bytes of the `=end=` literal.
pub(crate) fn end_literal() -> (r: &'static str)
    ensures
        r.spec_bytes() == end_marker(),
{
    let r = "=end=";
    proof {
        reveal_strlit("=end=");
        broadcast use is_ascii_spec_bytes;
        assert(is_ascii(r));
        assert(r.spec_bytes() =~= end_marker());
    }
    r
}

/// Byte-wise comparison of two strings.
pub fn equal(first: &str, second: &str) -> (r: bool)
    ensures
        r == (first.spec_bytes() == second.spec_bytes()),
{
    let fb = first.as_bytes();
    let sb = second.as_bytes();
    if fb.len() != sb.len() {
        return false;
    }
    let mut i: usize = 0;
    while i < fb.len()
        invariant
            fb@ == first.spec_bytes(),
            sb@ == second.spec_bytes(),
            fb@.len() == sb@.len(),
            i <= fb@.len(),
            fb@.subrange(0, i as int) == sb@.subrange(0, i as int),
        decreases fb@.len() - i,
    {
        if fb[i] != sb[i] {
            return false;
        }
        proof {
            assert(fb@.subrange(0, i + 1) =~= fb@.subrange(0, i as int).push(fb@[i as int]));
            assert(sb@.subrange(0, i + 1) =~= sb@.subrange(0, i as int).push(sb@[i as int]));
        }
        i += 1;
    }
    proof {
        assert(fb@ =~= fb@.subrange(0, i as int));
        assert(sb@ =~= sb@.subrange(0, i as int));
    }
    true
}

/// A checked module or signal name.
pub struct Name(&'static str);

impl Name {
    /// A `Name` always holds a valid name.
    #[verifier::type_invariant]
    spec fn inv(&self) -> bool {
        valid_name(self.0.spec_bytes())
    }

    /// The bytes of the name.
    pub closed spec fn bytes(&self) -> Seq<u8> {
        self.0.spec_bytes()
    }

    /// Checks `name` and wraps it; a name that is empty, too long or equal
    /// to a package marker is rejected.
    pub fn new(name: &'static str) -> (r: Option<Self>)
        ensures
            r is Some <==> valid_name(name.spec_bytes()),
            r matches Some(n) ==> n.bytes() == name.spec_bytes(),
    {
        let len = name.as_bytes().len();
        if len == 0 || len >= NAME_MAX || equal(name, end_literal())
            || equal(name, begin_literal()) {
            None
        } else {
            Some(Name(name))
        }
    }

    /// The name as a string.
    pub fn as_str(&self) -> (r: &'static str)
        ensures
            r.spec_bytes() == self.bytes(),
            valid_name(r.spec_bytes()),
    {
        proof {
            use_type_invariant(self);
        }
        self.0
    }
}

} // verus!
