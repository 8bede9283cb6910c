//! Where a URL starts.
//!
//! The backward scan starts just before the separator and walks to the left
//! over the characters that a scheme or a host may hold. The URL starts at
//! the leftmost letter passed, unless a digit, slash or colon stands right
//! before that letter as the leftmost of its kind. This module says what
//! that means for a text and proves what follows from it.
use crate::classes::{start_class, StartClass};
use crate::offsets::{
    lemma_offset_is_boundary, lemma_offset_range, lemma_offset_step, lemma_width_bounds, offset_of,
};
use vstd::prelude::*;
use vstd::utf8::*;

verus! {

/// Whether the backward scan passes over `c`. Letters, digits, `+`, `-` and
/// `.` are always passed. A slash or a colon is passed only as long as no
/// scheme is known to be present, which `has_scheme` tells.
pub open spec fn passes(c: char, has_scheme: bool) -> bool {
    match start_class(c) {
        StartClass::Letter => true,
        StartClass::Digit => true,
        StartClass::Punct => true,
        StartClass::Slash => !has_scheme,
        StartClass::Colon => !has_scheme,
        StartClass::Other => false,
    }
}

/// Whether a scheme is known to be present once `c` has been passed: a
/// colon makes it known.
pub open spec fn scheme_after(c: char, has_scheme: bool) -> bool {
    has_scheme || start_class(c) == StartClass::Colon
}

/// Index of the leftmost character that the scan passes when it walks back
/// from index `n`; `n` itself if it passes none.
pub open spec fn scan_floor(text: Seq<char>, n: int, has_scheme: bool) -> int
    decreases n,
{
    if n <= 0 {
        0
    } else if passes(text[n - 1], has_scheme) {
        scan_floor(text, n - 1, scheme_after(text[n - 1], has_scheme))
    } else {
        n
    }
}

/// Whether `c` is an ASCII letter.
pub open spec fn is_letter(c: char) -> bool {
    start_class(c) == StartClass::Letter
}

/// Whether `c` is a digit, a slash or a colon.
pub open spec fn is_special(c: char) -> bool {
    start_class(c) == StartClass::Digit || start_class(c) == StartClass::Slash || start_class(c)
        == StartClass::Colon
}

/// Index of the leftmost character at or behind `from` that `wanted` holds
/// of; the length of the text if there is none.
pub open spec fn leftmost(text: Seq<char>, from: int, wanted: spec_fn(char) -> bool) -> int
    decreases text.len() - from,
{
    if from >= text.len() {
        text.len() as int
    } else if wanted(text[from]) {
        from
    } else {
        leftmost(text, from + 1, wanted)
    }
}

/// Index of the character at which the URL starts, for the `text` before
/// the separator; `None` if the scan passes no letter, or if the leftmost
/// digit, slash or colon passed stands right before the leftmost letter.
pub open spec fn start_index(text: Seq<char>, has_scheme: bool) -> Option<int> {
    let floor = scan_floor(text, text.len() as int, has_scheme);
    let first = leftmost(text, floor, |c: char| is_letter(c));
    let special = leftmost(text, floor, |c: char| is_special(c));
    if first >= text.len() {
        None
    } else if special + 1 == first {
        None
    } else {
        Some(first)
    }
}

/// Byte offset at which the URL starts, for the `text` before the
/// separator. `has_scheme` tells whether the separator is `://`. Unless
/// `no_proto` allows URLs without a scheme, only such a separator yields a
/// start.
pub open spec fn start_offset(no_proto: bool, text: Seq<char>, has_scheme: bool) -> Option<int> {
    if !has_scheme && !no_proto {
        None
    } else {
        match start_index(text, has_scheme) {
            Some(first) => Some(offset_of(text, first)),
            None => None,
        }
    }
}

/// The scan passes a closed stretch of ASCII characters, and the character
/// before that stretch, if there is one, is not passed.
pub proof fn lemma_scan_floor(text: Seq<char>, n: int, has_scheme: bool)
    requires
        0 <= n <= text.len(),
    ensures
        0 <= scan_floor(text, n, has_scheme) <= n,
        forall|j: int|
            scan_floor(text, n, has_scheme) <= j < n ==> start_class(#[trigger] text[j])
                != StartClass::Other,
        forall|j: int|
            scan_floor(text, n, has_scheme) <= j < n ==> (#[trigger] text[j] as u32) < 0x80,
    decreases n,
{
    if n > 0 && passes(text[n - 1], has_scheme) {
        lemma_scan_floor(text, n - 1, scheme_after(text[n - 1], has_scheme));
    }
}

/// `leftmost` finds the least index from `from` on whose character is
/// wanted.
pub proof fn lemma_leftmost(text: Seq<char>, from: int, wanted: spec_fn(char) -> bool)
    requires
        0 <= from <= text.len(),
    ensures
        from <= leftmost(text, from, wanted) <= text.len(),
        leftmost(text, from, wanted) < text.len() ==> wanted(text[leftmost(text, from, wanted)]),
        forall|j: int| from <= j < leftmost(text, from, wanted) ==> !wanted(#[trigger] text[j]),
    decreases text.len() - from,
{
    if from < text.len() && !wanted(text[from]) {
        lemma_leftmost(text, from + 1, wanted);
    }
}

/// A URL starts at a letter that the scan passes, and no letter that the
/// scan passes stands to the left of it.
pub proof fn lemma_start_index(text: Seq<char>, has_scheme: bool)
    requires
        start_index(text, has_scheme) is Some,
    ensures
        0 <= scan_floor(text, text.len() as int, has_scheme) <= start_index(text, has_scheme)->0
            < text.len(),
        is_letter(text[start_index(text, has_scheme)->0]),
        forall|j: int|
            scan_floor(text, text.len() as int, has_scheme) <= j < start_index(
                text,
                has_scheme,
            )->0 ==> !is_letter(#[trigger] text[j]),
{
    let floor = scan_floor(text, text.len() as int, has_scheme);
    lemma_scan_floor(text, text.len() as int, has_scheme);
    lemma_leftmost(text, floor, |c: char| is_letter(c));
}

/// A start offset lies before the end of the encoded text and falls on a
/// character boundary.
pub proof fn lemma_start_offset_bounds(no_proto: bool, text: Seq<char>, has_scheme: bool)
    requires
        start_offset(no_proto, text, has_scheme) is Some,
    ensures
        0 <= start_offset(no_proto, text, has_scheme)->0 < encode_utf8(text).len(),
        is_char_boundary(encode_utf8(text), start_offset(no_proto, text, has_scheme)->0),
{
    lemma_start_index(text, has_scheme);
    let first = start_index(text, has_scheme)->0;
    lemma_offset_range(text, first);
    lemma_offset_range(text, first + 1);
    lemma_offset_step(text, first);
    lemma_width_bounds(text[first]);
    lemma_offset_is_boundary(text, first);
}

} // verus!
