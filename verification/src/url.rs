//! The URL boundary scanner.
//!
//! Given a text and the byte offset of a separator in it, `://` or `.`, the
//! scanner finds the span of the URL around that separator: it walks back
//! from the separator to the start of the scheme or host, and forward from
//! behind the separator to the end of the URL.
use crate::classes::{classify_end, classify_start, Bracket, EndClass, StartClass};
use crate::end::{
    balanced, can_end, depth, end_chars, end_offset, halts_at, last_end, lemma_brackets_balanced,
    lemma_depth_bounds, lemma_end_chars, lemma_end_offset_bounds, lemma_first_halt,
    lemma_first_halt_skip, quotes,
};
use crate::offsets::{
    decode_scalar, lemma_boundary_behind_ascii, lemma_encode_split, lemma_last_byte,
    lemma_offset_is_boundary, lemma_offset_of_parts, lemma_offset_range, lemma_offset_step,
    lemma_scalar_at, lemma_split_at, lemma_width_bounds, offset_of, prefix_at, suffix_at,
};
use crate::separator::{separator_in, spelled_at, Separator};
use crate::start::{
    is_letter, is_special, leftmost, lemma_start_index, lemma_start_offset_bounds, scan_floor,
    start_index, start_offset,
};
use std::ops::Range;
use vstd::prelude::*;
use vstd::utf8::*;

verus! {

/// Scans for a URL around a separator, `://` or `.`.
#[derive(Clone, Copy, Debug)]
pub struct UrlScanner {
    /// Whether a URL may do without a scheme.
    ///
    /// If `true`, a bare `.` is a separator too, so that `example.org` is
    /// found as well as `https://example.org`. Such matches are wider than
    /// what RFC 3986 calls a URL, and a caller may want to filter them.
    pub no_proto: bool,
}

/// The span of the URL around the separator at byte offset `separator` of
/// `text`, as its first byte offset and the offset behind its last byte.
///
/// There is none unless the text holds `://` or `.` at that offset, with
/// something before it and something behind it, a start is found in the
/// text before the separator, and an end is found in the text behind it.
pub open spec fn url_span(no_proto: bool, text: Seq<char>, separator: int) -> Option<(int, int)> {
    let bytes = encode_utf8(text);
    match separator_in(bytes, separator) {
        None => None,
        Some(kind) => {
            let after = separator + kind.literal().len();
            if separator <= 0 || after >= bytes.len() {
                None
            } else {
                match (
                    start_offset(no_proto, prefix_at(text, separator), kind == Separator::Scheme),
                    end_offset(suffix_at(text, after)),
                ) {
                    (Some(start), Some(end)) => Some((start, after + end)),
                    _ => None,
                }
            }
        },
    }
}

/// What holds of every span from `start` to `end` found around the
/// separator at `separator`: it begins before the separator, reaches beyond
/// the first byte behind the separator, stays within the text, and both its
/// ends fall between characters.
pub open spec fn span_around(text: Seq<char>, separator: int, start: int, end: int) -> bool {
    let bytes = encode_utf8(text);
    &&& separator_in(bytes, separator) matches Some(kind)
    &&& 0 <= start < separator
    &&& separator + kind.literal().len() < end <= bytes.len()
    &&& is_char_boundary(bytes, start)
    &&& is_char_boundary(bytes, end)
}

/// What `scan` promises of its result: it is the span that `url_span`
/// tells, or none if that tells none.
pub open spec fn scan_result(
    no_proto: bool,
    text: Seq<char>,
    separator: usize,
    span: Option<Range<usize>>,
) -> bool {
    match span {
        Some(range) => url_span(no_proto, text, separator as int) == Some(
            (range.start as int, range.end as int),
        ),
        None => url_span(no_proto, text, separator as int) is None,
    }
}

/// The offset of a separator, and each offset up to the one behind it, falls
/// between characters.
pub proof fn lemma_separator_boundaries(text: Seq<char>, separator: int)
    requires
        separator_in(encode_utf8(text), separator) is Some,
    ensures
        is_char_boundary(encode_utf8(text), separator),
        is_char_boundary(
            encode_utf8(text),
            separator + separator_in(encode_utf8(text), separator)->0.literal().len(),
        ),
{
    let bytes = encode_utf8(text);
    let kind = separator_in(bytes, separator)->0;
    let part = bytes.subrange(separator, separator + kind.literal().len());
    encode_utf8_valid_utf8(text);
    assert(part[0] == bytes[separator]);
    is_char_boundary_iff_is_leading_byte(bytes, separator);
    lemma_boundary_behind_ascii(text, separator);
    if kind == Separator::Scheme {
        assert(part[1] == bytes[separator + 1]);
        assert(part[2] == bytes[separator + 2]);
        lemma_boundary_behind_ascii(text, separator + 1);
        lemma_boundary_behind_ascii(text, separator + 2);
    }
}

/// No URL is found around a separator at the very start of a text.
pub proof fn lemma_no_span_at_start(no_proto: bool, text: Seq<char>)
    ensures
        url_span(no_proto, text, 0) is None,
{
}

/// A span that is found holds the separator it was found by, with at least
/// one byte on either side, lies within the text and can be cut out of it.
pub proof fn lemma_span_around(no_proto: bool, text: Seq<char>, separator: int)
    requires
        url_span(no_proto, text, separator) is Some,
    ensures
        ({
            let (start, end) = url_span(no_proto, text, separator).unwrap();
            span_around(text, separator, start, end)
        }),
{
    let bytes = encode_utf8(text);
    let kind = separator_in(bytes, separator)->0;
    let after = separator + kind.literal().len();
    let has_scheme = kind == Separator::Scheme;
    lemma_separator_boundaries(text, separator);
    let head = prefix_at(text, separator);
    let rest = suffix_at(text, after);
    lemma_split_at(text, separator);
    lemma_split_at(text, after);
    // The start, an offset into the text before the separator, is the same
    // offset into the whole text.
    lemma_start_offset_bounds(no_proto, head, has_scheme);
    lemma_start_index(head, has_scheme);
    let first = start_index(head, has_scheme)->0;
    lemma_offset_of_parts(text, first, head.len() - first);
    lemma_offset_is_boundary(text, first);
    // The end, an offset into the text behind the separator, is moved by
    // the offset at which that text begins.
    lemma_end_offset_bounds(rest);
    lemma_end_chars(rest);
    let passed = prefix_at(text, after).len() as int;
    lemma_offset_of_parts(text, passed, end_chars(rest));
    lemma_offset_is_boundary(text, passed + end_chars(rest));
}

/// A scan has one result: two spans that both are what `scan` promises for
/// the same scanner, text and separator are the same span.
pub proof fn lemma_scan_deterministic(
    no_proto: bool,
    text: Seq<char>,
    separator: usize,
    one: Option<Range<usize>>,
    other: Option<Range<usize>>,
)
    requires
        scan_result(no_proto, text, separator, one),
        scan_result(no_proto, text, separator, other),
    ensures
        one == other,
{
}

impl UrlScanner {
    /// Finds the span of the URL around the separator that `s` holds at byte
    /// offset `separator`, or `None` if there is no URL around it.
    ///
    /// The separator is `://` or `.`. Something has to stand before it and
    /// behind it. The span reaches from the start that `find_start` finds in
    /// the text before the separator to the end that `find_end` finds in the
    /// text behind it. Unless `no_proto` is set, only `://` yields a span.
    ///
    /// An offset at which no separator stands yields `None`, be it within
    /// the text, within a character or beyond the text.
    pub fn scan(&self, s: &str, separator: usize) -> (span: Option<Range<usize>>)
        ensures
            scan_result(self.no_proto, s@, separator, span),
            separator == 0 ==> span is None,
            span matches Some(range) ==> span_around(
                s@,
                separator as int,
                range.start as int,
                range.end as int,
            ),
    {
        if separator == 0 {
            return None;
        }
        let bytes = s.as_bytes();
        let len = bytes.len();
        if let Some(kind) = Separator::at(bytes, separator) {
            assert(spelled_at(bytes@, separator as int, kind.literal()));
            let after_separator = separator + kind.len();
            if after_separator < len {
                proof {
                    lemma_separator_boundaries(s@, separator as int);
                }
                let (head, _) = s.split_at(separator);
                let (_, rest) = s.split_at(after_separator);
                proof {
                    encode_utf8_decode_utf8(head@);
                    encode_utf8_decode_utf8(rest@);
                    assert(head@ == prefix_at(s@, separator as int));
                    assert(rest@ == suffix_at(s@, after_separator as int));
                }
                if let Some(start) = self.find_start(head, kind.has_scheme()) {
                    if let Some(end) = self.find_end(rest) {
                        proof {
                            lemma_span_around(self.no_proto, s@, separator as int);
                        }
                        return Some(Range { start, end: after_separator + end });
                    }
                }
            }
        }
        None
    }

    /// Finds the byte offset at which the URL starts, in the text `s` that
    /// ends just before the separator. `has_scheme` tells whether the
    /// separator is `://`; if it is not, there is a start only if `no_proto`
    /// is set.
    ///
    /// The scan walks to the left over letters, digits, `+`, `-` and `.`.
    /// As long as no scheme is known to be present it walks over `/` and
    /// `:` too, and the first `:` makes the scheme known. The start is the
    /// leftmost letter passed. There is none if the leftmost digit, `/` or
    /// `:` passed stands right before that letter.
    pub fn find_start(&self, s: &str, has_scheme: bool) -> (start: Option<usize>)
        ensures
            match start {
                Some(first) => start_offset(self.no_proto, s@, has_scheme) == Some(first as int),
                None => start_offset(self.no_proto, s@, has_scheme) is None,
            },
    {
        if !has_scheme && !self.no_proto {
            return None;
        }
        let bytes = s.as_bytes();
        let ghost text = s@;
        // Every character passed is one byte wide, so that byte offsets and
        // character indices differ by `shift` all the way.
        let ghost shift = bytes.len() - text.len();
        // The scan stands before character `k`, at byte offset `at`.
        let ghost mut k: int = text.len() as int;
        let ghost mut first_index: int = text.len() as int;
        let ghost mut special_index: int = text.len() as int;
        let mut first: Option<usize> = None;
        let mut special: Option<usize> = None;
        let mut scheme_known = has_scheme;
        let mut at: usize = bytes.len();
        proof {
            lemma_offset_range(text, k);
        }
        while at > 0
            invariant
                text == s@,
                bytes@ == encode_utf8(text),
                0 <= k <= text.len(),
                at == offset_of(text, k),
                at == k + shift,
                scan_floor(text, text.len() as int, has_scheme) == scan_floor(
                    text,
                    k,
                    scheme_known,
                ),
                first_index == leftmost(text, k, |c: char| is_letter(c)),
                special_index == leftmost(text, k, |c: char| is_special(c)),
                k <= first_index <= text.len(),
                k <= special_index <= text.len(),
                match first {
                    Some(offset) => first_index < text.len() && offset == first_index + shift
                        && offset == offset_of(text, first_index),
                    None => first_index == text.len(),
                },
                match special {
                    Some(offset) => special_index < text.len() && offset == special_index + shift,
                    None => special_index == text.len(),
                },
            ensures
                scan_floor(text, text.len() as int, has_scheme) == k,
            decreases at,
        {
            proof {
                if k == 0 {
                    lemma_offset_range(text, 0);
                }
                let head = text.take(k);
                lemma_last_byte(head);
                lemma_encode_split(text, k);
                assert(encode_utf8(head).last() == bytes@[at - 1]);
                assert(head.last() == text[k - 1]);
                assert(head.drop_last() =~= text.take(k - 1));
                char_is_scalar(text[k - 1]);
                if encode_utf8(head).last() < 0x80 {
                    char_u32_cast(text[k - 1], encode_utf8(head).last() as u32);
                }
            }
            let byte: u8 = bytes[at - 1];
            if byte >= 0x80 {
                // The last byte of a character beyond ASCII.
                break;
            }
            let class = classify_start(byte as u32);
            match class {
                StartClass::Letter => {
                    first = Some(at - 1);
                    proof {
                        first_index = k - 1;
                    }
                },
                StartClass::Digit => {
                    special = Some(at - 1);
                    proof {
                        special_index = k - 1;
                    }
                },
                StartClass::Punct => {},
                StartClass::Slash => {
                    if scheme_known {
                        break;
                    }
                    special = Some(at - 1);
                    proof {
                        special_index = k - 1;
                    }
                },
                StartClass::Colon => {
                    if scheme_known {
                        break;
                    }
                    scheme_known = true;
                    special = Some(at - 1);
                    proof {
                        special_index = k - 1;
                    }
                },
                StartClass::Other => {
                    break;
                },
            }
            at = at - 1;
            proof {
                k = k - 1;
            }
        }
        if let Some(letter) = first {
            if let Some(mark) = special {
                if letter > 0 && letter - 1 == mark {
                    return None;
                }
            }
        }
        first
    }

    /// Finds the byte offset behind the last character of the URL, in the
    /// text `s` that begins just behind the separator.
    ///
    /// The scan walks to the right until it meets a character that no URL
    /// holds, or a closing bracket without its opening one. The URL ends
    /// behind the last character passed that may end one: not `?`, `!`,
    /// `.`, `,`, `:`, `;` or an opening bracket, not a `'` that leaves the
    /// count of quotes odd, and not a `/` behind a character that may not.
    pub fn find_end(&self, s: &str) -> (end: Option<usize>)
        ensures
            match end {
                Some(last) => end_offset(s@) == Some(last as int),
                None => end_offset(s@) is None,
            },
            end is Some ==> balanced(s@, end_chars(s@)),
    {
        let bytes = s.as_bytes();
        let ghost text = s@;
        // The scan has passed `k` characters and stands at byte offset `at`.
        let ghost mut k: int = 0;
        let mut round: usize = 0;
        let mut square: usize = 0;
        let mut curly: usize = 0;
        let mut single_quote = false;
        let mut previous_can_be_last = true;
        let mut end: Option<usize> = None;
        let mut at: usize = 0;
        proof {
            lemma_offset_range(text, 0);
            lemma_brackets_balanced(text);
        }
        while at < bytes.len()
            invariant
                text == s@,
                bytes@ == encode_utf8(text),
                balanced(text, end_chars(text)),
                0 <= k <= text.len(),
                at == offset_of(text, k),
                k <= at <= bytes.len(),
                forall|j: int| 0 <= j < k ==> !halts_at(text, j),
                round == depth(text, Bracket::Round, k),
                square == depth(text, Bracket::Square, k),
                curly == depth(text, Bracket::Curly, k),
                single_quote == (quotes(text, k) % 2 == 1),
                previous_can_be_last == (k == 0 || can_end(text, k - 1)),
                match end {
                    Some(last) => last_end(text, k) > 0 && last == offset_of(
                        text,
                        last_end(text, k),
                    ),
                    None => last_end(text, k) == 0,
                },
            decreases bytes.len() - at,
        {
            proof {
                lemma_offset_range(text, k);
                assert(k < text.len());
                lemma_scalar_at(text, k);
                lemma_offset_step(text, k);
                lemma_width_bounds(text[k]);
                char_is_scalar(text[k]);
                lemma_first_halt_skip(text, k);
                lemma_first_halt(text, k);
                lemma_depth_bounds(text, Bracket::Round, k);
                lemma_depth_bounds(text, Bracket::Square, k);
                lemma_depth_bounds(text, Bracket::Curly, k);
            }
            let (code, width) = decode_scalar(bytes, at);
            let class = classify_end(code);
            proof {
                char_u32_cast(text[k], code);
            }
            let mut can_be_last = false;
            match class {
                EndClass::Forbidden => {
                    return end;
                },
                EndClass::Soft => {},
                EndClass::Slash => {
                    can_be_last = previous_can_be_last;
                },
                EndClass::Open(kind) => {
                    match kind {
                        Bracket::Round => {
                            round = round + 1;
                        },
                        Bracket::Square => {
                            square = square + 1;
                        },
                        Bracket::Curly => {
                            curly = curly + 1;
                        },
                    }
                },
                EndClass::Close(kind) => {
                    match kind {
                        Bracket::Round => {
                            if round == 0 {
                                return end;
                            }
                            round = round - 1;
                        },
                        Bracket::Square => {
                            if square == 0 {
                                return end;
                            }
                            square = square - 1;
                        },
                        Bracket::Curly => {
                            if curly == 0 {
                                return end;
                            }
                            curly = curly - 1;
                        },
                    }
                    can_be_last = true;
                },
                EndClass::Quote => {
                    single_quote = !single_quote;
                    can_be_last = !single_quote;
                },
                EndClass::Plain => {
                    can_be_last = true;
                },
            }
            if can_be_last {
                end = Some(at + width);
            }
            previous_can_be_last = can_be_last;
            at = at + width;
            proof {
                k = k + 1;
            }
        }
        proof {
            lemma_offset_range(text, k);
            if k < text.len() {
                lemma_offset_step(text, k);
                lemma_width_bounds(text[k]);
                lemma_offset_range(text, k + 1);
            }
            lemma_first_halt_skip(text, k);
        }
        end
    }
}

} // verus!
