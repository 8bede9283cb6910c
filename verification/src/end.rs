//! Where a URL ends.
//!
//! The forward scan starts just behind the separator. It walks on until a
//! character stops it, and the URL ends behind the last character passed
//! that may stand at the end of a URL. This module says what that means for
//! a text, character by character, and proves what follows from it.
use crate::classes::{end_class, Bracket, EndClass};
use crate::offsets::{lemma_offset_is_boundary, lemma_offset_range, offset_of};
use vstd::prelude::*;
use vstd::utf8::*;

verus! {

/// What `c` adds to the nesting depth of brackets of `kind`.
pub open spec fn bracket_delta(c: char, kind: Bracket) -> int {
    if end_class(c) == EndClass::Open(kind) {
        1
    } else if end_class(c) == EndClass::Close(kind) {
        -1
    } else {
        0
    }
}

/// Opening minus closing brackets of `kind` among the first `n` characters.
pub open spec fn depth(text: Seq<char>, kind: Bracket, n: int) -> int
    decreases n,
{
    if n <= 0 {
        0
    } else {
        depth(text, kind, n - 1) + bracket_delta(text[n - 1], kind)
    }
}

/// Number of single quotes among the first `n` characters.
pub open spec fn quotes(text: Seq<char>, n: int) -> int
    decreases n,
{
    if n <= 0 {
        0
    } else if end_class(text[n - 1]) == EndClass::Quote {
        quotes(text, n - 1) + 1
    } else {
        quotes(text, n - 1)
    }
}

/// Whether character `i` stops the scan: it can never be part of a URL, or
/// it closes a bracket that the characters before it have not opened.
pub open spec fn halts_at(text: Seq<char>, i: int) -> bool {
    match end_class(text[i]) {
        EndClass::Forbidden => true,
        EndClass::Close(kind) => depth(text, kind, i) <= 0,
        _ => false,
    }
}

/// Index of the first character at or behind `from` that stops the scan, or
/// the length of the text if none does.
pub open spec fn first_halt(text: Seq<char>, from: int) -> int
    decreases text.len() - from,
{
    if from >= text.len() {
        text.len() as int
    } else if halts_at(text, from) {
        from
    } else {
        first_halt(text, from + 1)
    }
}

/// Number of characters that the scan passes before it stops.
pub open spec fn scan_limit(text: Seq<char>) -> int {
    first_halt(text, 0)
}

/// Whether character `i`, once passed, may be the last character of the
/// URL. A slash may if the character before it may, or if it is the first
/// one; a single quote may if it closes an even count.
pub open spec fn can_end(text: Seq<char>, i: int) -> bool
    decreases i,
{
    match end_class(text[i]) {
        EndClass::Plain => true,
        EndClass::Close(_) => true,
        EndClass::Quote => quotes(text, i + 1) % 2 == 0,
        EndClass::Slash => i <= 0 || can_end(text, i - 1),
        _ => false,
    }
}

/// Number of characters up to and with the last of the first `n` that may
/// end the URL; 0 if none of them may.
pub open spec fn last_end(text: Seq<char>, n: int) -> int
    decreases n,
{
    if n <= 0 {
        0
    } else if can_end(text, n - 1) {
        n
    } else {
        last_end(text, n - 1)
    }
}

/// Number of characters of `text` that belong to the URL; 0 if there is no
/// URL.
pub open spec fn end_chars(text: Seq<char>) -> int {
    last_end(text, scan_limit(text))
}

/// Byte offset behind the last character of the URL in `text`, which begins
/// just behind the separator; `None` if no character may end the URL.
pub open spec fn end_offset(text: Seq<char>) -> Option<int> {
    if end_chars(text) == 0 {
        None
    } else {
        Some(offset_of(text, end_chars(text)))
    }
}

/// Whether, at every point within the first `n` characters, no kind of
/// bracket has been closed more often than opened.
pub open spec fn balanced(text: Seq<char>, n: int) -> bool {
    forall|kind: Bracket, m: int| 0 <= m <= n ==> #[trigger] depth(text, kind, m) >= 0
}

/// A run of `n` single quotes.
pub open spec fn quote_run(n: nat) -> Seq<char> {
    Seq::new(n, |i: int| '\'')
}

/// `first_halt` finds the least index from `from` on that stops the scan.
pub proof fn lemma_first_halt(text: Seq<char>, from: int)
    requires
        0 <= from <= text.len(),
    ensures
        from <= first_halt(text, from) <= text.len(),
        first_halt(text, from) < text.len() ==> halts_at(text, first_halt(text, from)),
        forall|j: int| from <= j < first_halt(text, from) ==> !halts_at(text, j),
    decreases text.len() - from,
{
    if from < text.len() && !halts_at(text, from) {
        lemma_first_halt(text, from + 1);
    }
}

/// While nothing stops the scan, the limit seen from the start is the limit
/// seen from any index reached.
pub proof fn lemma_first_halt_skip(text: Seq<char>, to: int)
    requires
        0 <= to <= text.len(),
        forall|j: int| 0 <= j < to ==> !halts_at(text, j),
    ensures
        scan_limit(text) == first_halt(text, to),
    decreases to,
{
    if to > 0 {
        lemma_first_halt_skip(text, to - 1);
    }
}

/// Within the part that the scan passes, no kind of bracket is closed more
/// often than it was opened, and none is open more often than characters
/// were passed.
pub proof fn lemma_depth_bounds(text: Seq<char>, kind: Bracket, n: int)
    requires
        0 <= n <= scan_limit(text),
    ensures
        0 <= depth(text, kind, n) <= n,
    decreases n,
{
    if n > 0 {
        lemma_depth_bounds(text, kind, n - 1);
        lemma_first_halt(text, 0);
        assert(!halts_at(text, n - 1));
    }
}

/// `last_end` finds the last of the first `n` characters that may end the
/// URL.
pub proof fn lemma_last_end(text: Seq<char>, n: int)
    requires
        0 <= n,
    ensures
        0 <= last_end(text, n) <= n,
        last_end(text, n) > 0 ==> can_end(text, last_end(text, n) - 1),
        forall|j: int| last_end(text, n) <= j < n ==> !can_end(text, j),
    decreases n,
{
    if n > 0 && !can_end(text, n - 1) {
        lemma_last_end(text, n - 1);
    }
}

/// The URL ends within the part that the scan passes, behind a character
/// that may end it, and no later character of that part may.
pub proof fn lemma_end_chars(text: Seq<char>)
    ensures
        0 <= end_chars(text) <= scan_limit(text) <= text.len(),
        end_chars(text) > 0 ==> can_end(text, end_chars(text) - 1),
        forall|j: int| end_chars(text) <= j < scan_limit(text) ==> !can_end(text, j),
        forall|j: int| 0 <= j < scan_limit(text) ==> !halts_at(text, j),
        scan_limit(text) < text.len() ==> halts_at(text, scan_limit(text)),
{
    lemma_first_halt(text, 0);
    lemma_last_end(text, scan_limit(text));
}

/// Bracket balance: up to the end of the URL, and at every point before
/// it, no kind of bracket has been closed more often than opened. The end
/// never lies behind a closing bracket that nothing opened.
pub proof fn lemma_brackets_balanced(text: Seq<char>)
    ensures
        balanced(text, end_chars(text)),
{
    lemma_end_chars(text);
    assert forall|kind: Bracket, m: int| 0 <= m <= end_chars(text) implies #[trigger] depth(
        text,
        kind,
        m,
    ) >= 0 by {
        lemma_depth_bounds(text, kind, m);
    }
}

/// An end offset is positive, lies within the encoded text and falls on a
/// character boundary.
pub proof fn lemma_end_offset_bounds(text: Seq<char>)
    requires
        end_offset(text) is Some,
    ensures
        0 < end_offset(text)->0 <= encode_utf8(text).len(),
        is_char_boundary(encode_utf8(text), end_offset(text)->0),
{
    lemma_end_chars(text);
    lemma_offset_range(text, end_chars(text));
    lemma_offset_is_boundary(text, end_chars(text));
}

/// Two texts agree on their first `n` characters.
spec fn agree(a: Seq<char>, b: Seq<char>, n: int) -> bool {
    &&& 0 <= n <= a.len()
    &&& n <= b.len()
    &&& forall|i: int| 0 <= i < n ==> a[i] == b[i]
}

/// Depths and quote counts depend on the characters counted alone.
proof fn lemma_agree_counts(a: Seq<char>, b: Seq<char>, n: int, kind: Bracket, m: int)
    requires
        agree(a, b, n),
        0 <= m <= n,
    ensures
        depth(a, kind, m) == depth(b, kind, m),
        quotes(a, m) == quotes(b, m),
    decreases m,
{
    if m > 0 {
        lemma_agree_counts(a, b, n, kind, m - 1);
    }
}

/// Whether a character stops the scan, and whether it may end the URL,
/// depends on the text up to that character alone.
proof fn lemma_agree_at(a: Seq<char>, b: Seq<char>, n: int, i: int)
    requires
        agree(a, b, n),
        0 <= i < n,
    ensures
        halts_at(a, i) == halts_at(b, i),
        can_end(a, i) == can_end(b, i),
    decreases i,
{
    lemma_agree_counts(a, b, n, Bracket::Round, i);
    lemma_agree_counts(a, b, n, Bracket::Square, i);
    lemma_agree_counts(a, b, n, Bracket::Curly, i);
    lemma_agree_counts(a, b, n, Bracket::Round, i + 1);
    if i > 0 {
        lemma_agree_at(a, b, n, i - 1);
    }
}

/// Each quote of a trailing run adds one to the count before the run.
proof fn lemma_quotes_in_run(head: Seq<char>, n: nat, m: int)
    requires
        0 <= m <= n,
    ensures
        quotes(head + quote_run(n), head.len() + m) == quotes(head, head.len() as int) + m,
    decreases m,
{
    let text = head + quote_run(n);
    if m > 0 {
        lemma_quotes_in_run(head, n, m - 1);
        assert(text[head.len() + m - 1] == '\'');
    } else {
        assert(agree(text, head, head.len() as int));
        lemma_agree_counts(text, head, head.len() as int, Bracket::Round, head.len() as int);
    }
}

/// Quote parity: let a text end in a run of single quotes, let nothing
/// before the run stop the scan, and let the quotes before the run be
/// paired. If the run is of even count, the URL reaches to the end of the
/// text. If it is of odd count, the URL ends just before the final quote,
/// as long as the character before that quote may end a URL, which a quote
/// of the run always may.
pub proof fn lemma_quote_parity(head: Seq<char>, n: nat)
    requires
        n > 0,
        scan_limit(head) == head.len(),
        quotes(head, head.len() as int) % 2 == 0,
    ensures
        n % 2 == 0 ==> end_chars(head + quote_run(n)) == head.len() + n,
        n % 2 == 1 && (n >= 3 || head.len() == 0 || can_end(head, head.len() - 1))
            ==> end_chars(head + quote_run(n)) == head.len() + n - 1,
{
    let text = head + quote_run(n);
    let len = text.len() as int;
    let base = head.len() as int;
    assert(agree(text, head, base));
    lemma_first_halt(head, 0);
    assert forall|j: int| 0 <= j < len implies !halts_at(text, j) by {
        if j < base {
            lemma_agree_at(text, head, base, j);
        } else {
            assert(text[j] == '\'');
        }
    }
    lemma_first_halt_skip(text, len);
    assert(scan_limit(text) == len);
    lemma_quotes_in_run(head, n, n as int);
    assert(text[len - 1] == '\'');
    if n % 2 == 0 {
        assert(can_end(text, len - 1));
    } else {
        assert(!can_end(text, len - 1));
        assert(last_end(text, len) == last_end(text, len - 1));
        if n >= 3 {
            lemma_quotes_in_run(head, n, n - 1);
            assert(text[len - 2] == '\'');
            assert(can_end(text, len - 2));
        } else if base > 0 && can_end(head, base - 1) {
            lemma_agree_at(text, head, base, base - 1);
        }
    }
}

} // verus!
