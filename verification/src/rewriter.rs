//! The range-rewriting decision engine: inspects the value of an outbound
//! request's `Range` header and decides whether and how to cap it to the
//! configured chunk size.
//!
//! Wire contract: a header `bytes=<start>-` or `bytes=<start>-<end>` whose
//! requested span exceeds the chunk size is replaced by
//! `bytes=<start>-<start + chunk_size - 1>`. Anything else is left alone,
//! with the outcome saying why.

use crate::decimal::{
    all_digits, dec_digits, dec_string, dec_val, find_char, is_digit, lemma_dec_digits_shape,
    lemma_dec_val_of_digits, lemma_find_char_absent, lemma_find_char_at, parse_dec_range,
};
use vstd::prelude::*;
use vstd::string::StrSliceExecFns;
use vstd::string::StringExecFns;

verus! {

/// View of an optional header value.
pub open spec fn opt_view(h: Option<&str>) -> Option<Seq<char>> {
    match h {
        Some(s) => Some(s@),
        None => None,
    }
}

/// The `bytes=` unit prefix of a range header.
pub open spec fn bytes_prefix() -> Seq<char> {
    seq!['b', 'y', 't', 'e', 's', '=']
}

/// Why a header was left untouched.
#[derive(Clone, Copy, PartialEq, Eq, Debug)]
pub enum UnchangedReason {
    /// No `Range` header was present.
    NoRange,
    /// The requested span already fits within the chunk size.
    AlreadyOptimal,
    /// The end position did not parse; the header is skipped.
    InvalidEnd,
}

/// Why a header could not be processed. Always non-fatal: the original header
/// stays in place and the request proceeds.
#[derive(Clone, Copy, PartialEq, Eq, Debug)]
pub enum ParseFailedReason {
    /// Not a `bytes=<start>-<end>?` header (other unit or malformed syntax).
    Malformed,
    /// The start position did not parse as a non-negative integer.
    InvalidStart,
    /// `start + chunk_size` would overflow; no wrapped header is ever produced.
    Overflow,
}

/// Ghost-level rewrite outcome, over character sequences.
pub enum SpecOutcome {
    Unchanged(UnchangedReason),
    Rewritten(Seq<char>),
    ParseFailed(ParseFailedReason),
}

/// Outcome of a rewrite decision.
#[derive(PartialEq, Eq, Debug)]
pub enum RewriteOutcome {
    /// The header (or its absence) is kept as it is.
    Unchanged(UnchangedReason),
    /// The header is to be replaced by the carried value.
    Rewritten(String),
    /// The header could not be processed and is kept as it is.
    ParseFailed(ParseFailedReason),
}

impl View for RewriteOutcome {
    type V = SpecOutcome;

    open spec fn view(&self) -> SpecOutcome {
        match self {
            RewriteOutcome::Unchanged(r) => SpecOutcome::Unchanged(*r),
            RewriteOutcome::Rewritten(h) => SpecOutcome::Rewritten(h@),
            RewriteOutcome::ParseFailed(r) => SpecOutcome::ParseFailed(*r),
        }
    }
}

/// The header text `bytes=<start>-<end>`.
pub open spec fn closed_header(start: u64, end: u64) -> Seq<char> {
    bytes_prefix() + dec_digits(start as nat) + seq!['-'] + dec_digits(end as nat)
}

/// The header text `bytes=<start>-`.
pub open spec fn open_header(start: u64) -> Seq<char> {
    bytes_prefix() + dec_digits(start as nat) + seq!['-']
}

/// Span of the closed range `[start, end]`, computed as
/// `end.saturating_sub(start).saturating_add(1)`: underflow yields a span of
/// one, and the span of `[0, u64::MAX]` saturates.
pub open spec fn requested_size(start: u64, end: u64) -> nat {
    if end >= start {
        if end - start + 1 > u64::MAX {
            u64::MAX as nat
        } else {
            (end - start + 1) as nat
        }
    } else {
        1
    }
}

/// Outcome once policy has decided to rewrite: the capped header, unless
/// `start + chunk_size` overflows.
pub open spec fn spec_apply_rewrite(start: u64, chunk_size: u64) -> SpecOutcome
    recommends
        chunk_size >= 1,
{
    if start + chunk_size <= u64::MAX {
        SpecOutcome::Rewritten(closed_header(start, (start + chunk_size - 1) as u64))
    } else {
        SpecOutcome::ParseFailed(ParseFailedReason::Overflow)
    }
}

/// The full rewrite decision over the (optional) header text.
pub open spec fn spec_rewrite(h: Option<Seq<char>>, chunk_size: u64) -> SpecOutcome
    recommends
        chunk_size >= 1,
{
    match h {
        None => SpecOutcome::Unchanged(UnchangedReason::NoRange),
        Some(s) => {
            if !(s.len() >= 6 && s.subrange(0, 6) == bytes_prefix()) {
                SpecOutcome::ParseFailed(ParseFailedReason::Malformed)
            } else {
                let body = s.subrange(6, s.len() as int);
                match find_char(body, '-') {
                    None => SpecOutcome::ParseFailed(ParseFailedReason::Malformed),
                    Some(d) => {
                        let start_str = body.subrange(0, d);
                        let end_str = body.subrange(d + 1, body.len() as int);
                        if !(start_str.len() > 0 && all_digits(start_str) && dec_val(start_str)
                            <= u64::MAX) {
                            SpecOutcome::ParseFailed(ParseFailedReason::InvalidStart)
                        } else {
                            let start = dec_val(start_str) as u64;
                            if end_str.len() == 0 {
                                spec_apply_rewrite(start, chunk_size)
                            } else if all_digits(end_str) && dec_val(end_str) <= u64::MAX {
                                let end = dec_val(end_str) as u64;
                                if requested_size(start, end) > chunk_size {
                                    spec_apply_rewrite(start, chunk_size)
                                } else {
                                    SpecOutcome::Unchanged(UnchangedReason::AlreadyOptimal)
                                }
                            } else {
                                SpecOutcome::Unchanged(UnchangedReason::InvalidEnd)
                            }
                        }
                    },
                }
            }
        },
    }
}

/// The start position named by a range header, when the header matches
/// `bytes=<start>-...` with an in-range start.
pub open spec fn spec_range_start(s: Seq<char>) -> Option<u64> {
    if !(s.len() >= 6 && s.subrange(0, 6) == bytes_prefix()) {
        None
    } else {
        let body = s.subrange(6, s.len() as int);
        match find_char(body, '-') {
            None => None,
            Some(d) => {
                let start_str = body.subrange(0, d);
                if start_str.len() > 0 && all_digits(start_str) && dec_val(start_str)
                    <= u64::MAX {
                    Some(dec_val(start_str) as u64)
                } else {
                    None
                }
            },
        }
    }
}

/// Extract the start position from a `bytes=<start>-...` header, for the
/// caller that needs it alongside the rewrite outcome (to size buffers and
/// drive prefetching).
pub fn range_start(header: &str) -> (r: Option<u64>)
    ensures
        r == spec_range_start(header@),
{
    let s = header;
    let n = s.unicode_len();
    if n < 6 {
        return None;
    }
    if !(s.get_char(0) == 'b' && s.get_char(1) == 'y' && s.get_char(2) == 't' && s.get_char(3)
        == 'e' && s.get_char(4) == 's' && s.get_char(5) == '=') {
        proof {
            if s@.subrange(0, 6) == bytes_prefix() {
                assert(s@[0] == bytes_prefix()[0] && s@[1] == bytes_prefix()[1] && s@[2]
                    == bytes_prefix()[2] && s@[3] == bytes_prefix()[3] && s@[4]
                    == bytes_prefix()[4] && s@[5] == bytes_prefix()[5]) by {
                    assert(forall|j: int|
                        0 <= j < 6 ==> s@.subrange(0, 6)[j] == #[trigger] s@[j]);
                }
            }
        }
        return None;
    }
    assert(s@.subrange(0, 6) =~= bytes_prefix());
    let ghost body = s@.subrange(6, s@.len() as int);
    let mut i: usize = 6;
    while i < n && s.get_char(i) != '-'
        invariant
            6 <= i <= n,
            n == s@.len(),
            forall|j: int| 6 <= j < i ==> s@[j] != '-',
        decreases n - i,
    {
        i = i + 1;
    }
    if i == n {
        proof {
            assert(forall|j: int| 0 <= j < body.len() ==> body[j] == s@[j + 6]);
            lemma_find_char_absent(body, '-');
        }
        return None;
    }
    proof {
        assert(forall|j: int| 0 <= j < body.len() ==> body[j] == s@[j + 6]);
        lemma_find_char_at(body, '-', i - 6);
    }
    assert(body.subrange(0, i - 6) =~= s@.subrange(6, i as int));
    parse_dec_range(s, 6, i)
}

/// Build the capped replacement header, or report overflow.
fn apply_rewrite(start: u64, chunk_size: u64) -> (r: RewriteOutcome)
    requires
        chunk_size >= 1,
    ensures
        r@ == spec_apply_rewrite(start, chunk_size),
{
    match start.checked_add(chunk_size) {
        None => RewriteOutcome::ParseFailed(ParseFailedReason::Overflow),
        Some(top) => {
            let new_end = top - 1;
            let mut out = String::from_str("bytes=");
            proof {
                reveal_strlit("bytes=");
                assert(out@ =~= bytes_prefix());
            }
            let start_s = dec_string(start);
            out.append(start_s.as_str());
            out.append("-");
            proof {
                reveal_strlit("-");
            }
            let end_s = dec_string(new_end);
            out.append(end_s.as_str());
            assert(out@ =~= closed_header(start, new_end));
            RewriteOutcome::Rewritten(out)
        },
    }
}

/// Decide whether the `Range` header must be rewritten to cap the requested
/// span at `chunk_size` bytes, and produce the replacement header text.
///
/// An open-ended range is always capped; a closed range only when its span
/// exceeds the chunk size. A header that does not match
/// `bytes=<start>-<end>?` never stops the request: the outcome reports the
/// reason and the header is to be kept as it is.
pub fn rewrite(range_header: Option<&str>, chunk_size: u64) -> (r: RewriteOutcome)
    requires
        chunk_size >= 1,
    ensures
        r@ == spec_rewrite(opt_view(range_header), chunk_size),
{
    let s = match range_header {
        None => {
            return RewriteOutcome::Unchanged(UnchangedReason::NoRange);
        },
        Some(s) => s,
    };
    let n = s.unicode_len();
    if n < 6 {
        return RewriteOutcome::ParseFailed(ParseFailedReason::Malformed);
    }
    if !(s.get_char(0) == 'b' && s.get_char(1) == 'y' && s.get_char(2) == 't' && s.get_char(3)
        == 'e' && s.get_char(4) == 's' && s.get_char(5) == '=') {
        proof {
            if s@.subrange(0, 6) == bytes_prefix() {
                assert(s@[0] == bytes_prefix()[0] && s@[1] == bytes_prefix()[1] && s@[2]
                    == bytes_prefix()[2] && s@[3] == bytes_prefix()[3] && s@[4]
                    == bytes_prefix()[4] && s@[5] == bytes_prefix()[5]) by {
                    assert(forall|j: int|
                        0 <= j < 6 ==> s@.subrange(0, 6)[j] == #[trigger] s@[j]);
                }
            }
        }
        return RewriteOutcome::ParseFailed(ParseFailedReason::Malformed);
    }
    assert(s@.subrange(0, 6) =~= bytes_prefix());
    let ghost body = s@.subrange(6, s@.len() as int);
    let mut i: usize = 6;
    while i < n && s.get_char(i) != '-'
        invariant
            6 <= i <= n,
            n == s@.len(),
            forall|j: int| 6 <= j < i ==> s@[j] != '-',
        decreases n - i,
    {
        i = i + 1;
    }
    if i == n {
        proof {
            assert(forall|j: int| 0 <= j < body.len() ==> body[j] == s@[j + 6]);
            lemma_find_char_absent(body, '-');
        }
        return RewriteOutcome::ParseFailed(ParseFailedReason::Malformed);
    }
    proof {
        assert(forall|j: int| 0 <= j < body.len() ==> body[j] == s@[j + 6]);
        lemma_find_char_at(body, '-', i - 6);
    }
    let ghost d = i - 6int;
    assert(body.subrange(0, d) =~= s@.subrange(6, i as int));
    let start = match parse_dec_range(s, 6, i) {
        None => {
            return RewriteOutcome::ParseFailed(ParseFailedReason::InvalidStart);
        },
        Some(v) => {
            proof {
                lemma_dec_val_bounded_by_u64(s@.subrange(6, i as int), v);
            }
            v
        },
    };
    let ghost end_str = body.subrange(d + 1, body.len() as int);
    assert(end_str =~= s@.subrange(i + 1, n as int));
    if i + 1 == n {
        assert(end_str.len() == 0);
        return apply_rewrite(start, chunk_size);
    }
    match parse_dec_range(s, i + 1, n) {
        None => {
            return RewriteOutcome::Unchanged(UnchangedReason::InvalidEnd);
        },
        Some(end) => {
            proof {
                lemma_dec_val_bounded_by_u64(end_str, end);
            }
            let req = end.saturating_sub(start).saturating_add(1);
            assert(req == requested_size(start, end));
            if req > chunk_size {
                apply_rewrite(start, chunk_size)
            } else {
                RewriteOutcome::Unchanged(UnchangedReason::AlreadyOptimal)
            }
        },
    }
}

/// Helper: a parsed value pins down the spec-side branch conditions.
proof fn lemma_dec_val_bounded_by_u64(part: Seq<char>, v: u64)
    requires
        dec_val(part) == v,
    ensures
        dec_val(part) <= u64::MAX,
{
}

/// A digit character is never the dash.
proof fn lemma_digit_not_dash(c: char)
    requires
        is_digit(c),
    ensures
        c != '-',
{
}

/// Shared parsing argument for the laws below: a header of the shape
/// `bytes=<start digits>-<end part>` takes the branch given by its end part.
proof fn lemma_spec_rewrite_shape(start: u64, end_str: Seq<char>, chunk_size: u64)
    requires
        chunk_size >= 1,
    ensures
        ({
            let h = bytes_prefix() + dec_digits(start as nat) + seq!['-'] + end_str;
            spec_rewrite(Some(h), chunk_size) == (if end_str.len() == 0 {
                spec_apply_rewrite(start, chunk_size)
            } else if all_digits(end_str) && dec_val(end_str) <= u64::MAX {
                if requested_size(start, dec_val(end_str) as u64) > chunk_size {
                    spec_apply_rewrite(start, chunk_size)
                } else {
                    SpecOutcome::Unchanged(UnchangedReason::AlreadyOptimal)
                }
            } else {
                SpecOutcome::Unchanged(UnchangedReason::InvalidEnd)
            })
        }),
{
    let h = bytes_prefix() + dec_digits(start as nat) + seq!['-'] + end_str;
    let digits = dec_digits(start as nat);
    let ld = digits.len() as int;
    lemma_dec_digits_shape(start as nat);
    assert(h.len() >= 6);
    assert(h.subrange(0, 6) =~= bytes_prefix());
    let body = h.subrange(6, h.len() as int);
    assert(body =~= digits + seq!['-'] + end_str);
    assert(body[ld] == '-');
    assert forall|j: int| 0 <= j < ld implies body[j] != '-' by {
        assert(body[j] == digits[j]);
        lemma_digit_not_dash(digits[j]);
    }
    lemma_find_char_at(body, '-', ld);
    assert(body.subrange(0, ld) =~= digits);
    lemma_dec_val_of_digits(start as nat);
    assert(body.subrange(ld + 1, body.len() as int) =~= end_str);
}

/// Law: any well-formed open-ended header `bytes=<start>-` is rewritten to
/// `bytes=<start>-<start + chunk_size - 1>`, for every chunk size of at least
/// one byte whose addition to `start` stays within `u64`.
pub proof fn lemma_rewrite_open_ended(start: u64, chunk_size: u64)
    requires
        chunk_size >= 1,
        start + chunk_size <= u64::MAX,
    ensures
        spec_rewrite(Some(open_header(start)), chunk_size) == SpecOutcome::Rewritten(
            closed_header(start, (start + chunk_size - 1) as u64),
        ),
{
    assert(open_header(start) =~= bytes_prefix() + dec_digits(start as nat) + seq!['-']
        + Seq::<char>::empty());
    lemma_spec_rewrite_shape(start, Seq::<char>::empty(), chunk_size);
}

/// Law: a closed header `bytes=<start>-<end>` whose span fits within the
/// chunk size is left unchanged as already optimal.
pub proof fn lemma_rewrite_small_range_unchanged(start: u64, end: u64, chunk_size: u64)
    requires
        chunk_size >= 1,
        start <= end,
        end - start + 1 <= chunk_size,
    ensures
        spec_rewrite(Some(closed_header(start, end)), chunk_size) == SpecOutcome::Unchanged(
            UnchangedReason::AlreadyOptimal,
        ),
{
    assert(closed_header(start, end) == bytes_prefix() + dec_digits(start as nat) + seq!['-']
        + dec_digits(end as nat));
    lemma_spec_rewrite_shape(start, dec_digits(end as nat), chunk_size);
    lemma_dec_digits_shape(end as nat);
    lemma_dec_val_of_digits(end as nat);
    assert(requested_size(start, end) == end - start + 1);
}

/// Law: a closed header `bytes=<start>-<end>` whose span exceeds the chunk
/// size is rewritten, and the new end is exactly `start + chunk_size - 1`.
pub proof fn lemma_rewrite_large_range_capped(start: u64, end: u64, chunk_size: u64)
    requires
        chunk_size >= 1,
        start <= end,
        end - start + 1 <= u64::MAX,
        end - start + 1 > chunk_size,
        start + chunk_size <= u64::MAX,
    ensures
        spec_rewrite(Some(closed_header(start, end)), chunk_size) == SpecOutcome::Rewritten(
            closed_header(start, (start + chunk_size - 1) as u64),
        ),
{
    assert(closed_header(start, end) == bytes_prefix() + dec_digits(start as nat) + seq!['-']
        + dec_digits(end as nat));
    lemma_spec_rewrite_shape(start, dec_digits(end as nat), chunk_size);
    lemma_dec_digits_shape(end as nat);
    lemma_dec_val_of_digits(end as nat);
    assert(requested_size(start, end) == end - start + 1);
}

} // verus!
