//! The two separators that a URL is found by.
use vstd::prelude::*;

verus! {

/// The separator at which a scan is asked for.
#[derive(Clone, Copy, Debug, PartialEq, Eq, Structural)]
pub enum Separator {
    /// The literal `://`, which follows a scheme.
    Scheme,
    /// A bare `.`, as in a host without a scheme before it.
    Dot,
}

/// Whether `bytes` holds `literal` at offset `at`.
pub open spec fn spelled_at(bytes: Seq<u8>, at: int, literal: Seq<u8>) -> bool {
    &&& 0 <= at
    &&& at + literal.len() <= bytes.len()
    &&& bytes.subrange(at, at + literal.len()) == literal
}

/// The separator that `bytes` holds at offset `at`, if any; `://` is looked
/// for first.
pub open spec fn separator_in(bytes: Seq<u8>, at: int) -> Option<Separator> {
    if spelled_at(bytes, at, Separator::Scheme.literal()) {
        Some(Separator::Scheme)
    } else if spelled_at(bytes, at, Separator::Dot.literal()) {
        Some(Separator::Dot)
    } else {
        None
    }
}

impl Separator {
    /// The bytes that spell the separator.
    pub open spec fn literal(self) -> Seq<u8> {
        match self {
            Separator::Scheme => seq![':' as u8, '/' as u8, '/' as u8],
            Separator::Dot => seq!['.' as u8],
        }
    }

    /// Number of bytes that the separator takes.
    pub fn len(self) -> (len: usize)
        ensures
            len == self.literal().len(),
            1 <= len <= 3,
    {
        match self {
            Separator::Scheme => 3,
            Separator::Dot => 1,
        }
    }

    /// Whether the separator tells that a scheme stands before it.
    pub fn has_scheme(self) -> (known: bool)
        ensures
            known == (self == Separator::Scheme),
    {
        match self {
            Separator::Scheme => true,
            Separator::Dot => false,
        }
    }

    /// Tells which separator `bytes` holds at offset `at`, if any.
    pub fn at(bytes: &[u8], at: usize) -> (found: Option<Separator>)
        ensures
            found == separator_in(bytes@, at as int),
    {
        if at >= bytes.len() {
            return None;
        }
        if bytes.len() - at >= 3 && bytes[at] == 0x3A && bytes[at + 1] == 0x2F && bytes[at + 2]
            == 0x2F {
            assert(bytes@.subrange(at as int, at + 3) =~= Separator::Scheme.literal());
            return Some(Separator::Scheme);
        }
        proof {
            if spelled_at(bytes@, at as int, Separator::Scheme.literal()) {
                let part = bytes@.subrange(at as int, at + 3);
                assert(part[0] == bytes@[at as int]);
                assert(part[1] == bytes@[at + 1]);
                assert(part[2] == bytes@[at + 2]);
            }
        }
        if bytes[at] == 0x2E {
            assert(bytes@.subrange(at as int, at + 1) =~= Separator::Dot.literal());
            return Some(Separator::Dot);
        }
        proof {
            if spelled_at(bytes@, at as int, Separator::Dot.literal()) {
                let part = bytes@.subrange(at as int, at + 1);
                assert(part[0] == bytes@[at as int]);
            }
        }
        None
    }
}

} // verus!
