//! Parser for human-readable byte sizes in configuration: plain byte counts
//! (`"1024"`) or decimal numbers with a binary unit suffix (`"10MB"`,
//! `"2.5MB"`, `"1G"`, `"2T"`), case-insensitive and ignoring surrounding
//! whitespace. Unit values are binary multiples of 1024. Fractions are
//! resolved with exact integer arithmetic, rounding down; values beyond the
//! `u64` range saturate at `u64::MAX`.

use crate::decimal::{
    all_digits, char_digit, dec_val, digit_val, find_char, is_digit, lemma_dec_val_bound,
    lemma_dec_val_prefix_le, lemma_find_char_absent, lemma_find_char_at, lemma_pow10_pos, pow10,
};
use vstd::arithmetic::div_mod::{lemma_div_denominator, lemma_hoist_over_denominator};
use vstd::arithmetic::mul::lemma_mul_inequality;
use vstd::prelude::*;
use vstd::string::StrSliceExecFns;
use vstd::string::StringExecFns;

verus! {

/// Bytes in one kibibyte-based unit step.
pub const KIB: u64 = 1024;

/// Bytes in one mebibyte.
pub const MIB: u64 = 1024 * 1024;

/// Bytes in one gibibyte.
pub const GIB: u64 = 1024 * 1024 * 1024;

/// Bytes in one tebibyte.
pub const TIB: u64 = 1024 * 1024 * 1024 * 1024;

/// Whitespace stripped from the ends of a size string: the Unicode
/// White_Space characters, as `str::trim` strips them.
pub open spec fn is_space(c: char) -> bool {
    let v = c as int;
    v == 0x9 || v == 0xA || v == 0xB || v == 0xC || v == 0xD || v == 0x20 || v == 0x85 || v
        == 0xA0 || v == 0x1680 || (0x2000 <= v && v <= 0x200A) || v == 0x2028 || v == 0x2029 || v
        == 0x202F || v == 0x205F || v == 0x3000
}

/// ASCII uppercasing of one character.
pub open spec fn upper_char(c: char) -> char {
    if 'a' as int <= c as int && c as int <= 'z' as int {
        ((c as u8) - 32) as char
    } else {
        c
    }
}

pub open spec fn trim_front(s: Seq<char>) -> Seq<char>
    decreases s.len(),
{
    if s.len() > 0 && is_space(s[0]) {
        trim_front(s.drop_first())
    } else {
        s
    }
}

pub open spec fn trim_back(s: Seq<char>) -> Seq<char>
    decreases s.len(),
{
    if s.len() > 0 && is_space(s.last()) {
        trim_back(s.drop_last())
    } else {
        s
    }
}

/// The string with surrounding whitespace removed.
pub open spec fn trimmed(s: Seq<char>) -> Seq<char> {
    trim_back(trim_front(s))
}

/// The size string normalized: trimmed, then uppercased.
pub open spec fn normalized(s: Seq<char>) -> Seq<char> {
    trimmed(s).map_values(|c: char| upper_char(c))
}

/// Whether `s` ends with `suf`.
pub open spec fn ends_with(s: Seq<char>, suf: Seq<char>) -> bool {
    s.len() >= suf.len() && s.subrange(s.len() - suf.len(), s.len() as int) == suf
}

/// The first matching unit suffix of the normalized string, longest forms
/// first, with its multiplier and the part before it.
pub open spec fn split_suffix(t: Seq<char>) -> Option<(Seq<char>, u64)> {
    if ends_with(t, seq!['T', 'B']) {
        Some((t.subrange(0, t.len() - 2), TIB))
    } else if ends_with(t, seq!['G', 'B']) {
        Some((t.subrange(0, t.len() - 2), GIB))
    } else if ends_with(t, seq!['M', 'B']) {
        Some((t.subrange(0, t.len() - 2), MIB))
    } else if ends_with(t, seq!['K', 'B']) {
        Some((t.subrange(0, t.len() - 2), KIB))
    } else if ends_with(t, seq!['T']) {
        Some((t.subrange(0, t.len() - 1), TIB))
    } else if ends_with(t, seq!['G']) {
        Some((t.subrange(0, t.len() - 1), GIB))
    } else if ends_with(t, seq!['M']) {
        Some((t.subrange(0, t.len() - 1), MIB))
    } else if ends_with(t, seq!['K']) {
        Some((t.subrange(0, t.len() - 1), KIB))
    } else {
        None
    }
}

/// Whether a (trimmed) numeric string is a valid unsigned decimal number:
/// digits with at most one decimal point and at least one digit.
pub open spec fn valid_number(u: Seq<char>) -> bool {
    match find_char(u, '.') {
        None => u.len() > 0 && all_digits(u),
        Some(d) => {
            let ip = u.subrange(0, d);
            let fp = u.subrange(d + 1, u.len() as int);
            all_digits(ip) && all_digits(fp) && ip.len() + fp.len() > 0
        },
    }
}

/// Exact byte value of a valid number times its unit multiplier, rounded
/// down.
pub open spec fn number_bytes(u: Seq<char>, mult: u64) -> nat
    recommends
        valid_number(u),
{
    match find_char(u, '.') {
        None => (dec_val(u) * mult) as nat,
        Some(d) => {
            let ip = u.subrange(0, d);
            let fp = u.subrange(d + 1, u.len() as int);
            ((((dec_val(ip) * pow10(fp.len()) + dec_val(fp)) * mult) as int) / (pow10(
                fp.len(),
            ) as int)) as nat
        },
    }
}

/// Saturation of a byte count into the `u64` range.
pub open spec fn sat64(v: nat) -> u64 {
    if v > u64::MAX {
        u64::MAX
    } else {
        v as u64
    }
}

/// Ghost-level parse outcome of a size string.
pub enum ParsedSize {
    /// A well-formed size worth this many bytes.
    Bytes(u64),
    /// A unit suffix was found but the number before it is malformed.
    BadNumber,
    /// Neither a plain byte count nor any known unit suffix.
    BadFormat,
}

/// The full parse: a plain in-range byte count stands for itself; otherwise
/// the unit suffix scales the (re-trimmed) number before it.
pub open spec fn parse_size_spec(s: Seq<char>) -> ParsedSize {
    let t = normalized(s);
    if t.len() > 0 && all_digits(t) && dec_val(t) <= u64::MAX {
        ParsedSize::Bytes(dec_val(t) as u64)
    } else {
        match split_suffix(t) {
            None => ParsedSize::BadFormat,
            Some(pair) => {
                let u = trimmed(pair.0);
                if valid_number(u) {
                    ParsedSize::Bytes(sat64(number_bytes(u, pair.1)))
                } else {
                    ParsedSize::BadNumber
                }
            },
        }
    }
}

/// The error text for a malformed number before a unit suffix. It names the
/// input as the parse saw it: trimmed and uppercased.
pub open spec fn invalid_number_msg(s: Seq<char>) -> Seq<char> {
    "Invalid number in size: "@ + normalized(s)
}

/// The error text for a size string without a recognizable format, naming
/// the trimmed, uppercased input.
pub open spec fn invalid_format_msg(s: Seq<char>) -> Seq<char> {
    "Invalid size format: "@ + normalized(s) + ". Use formats like '10MB', '50MB', '1GB'"@
}

proof fn lemma_trim_front_is_subrange(s: Seq<char>, a: int)
    requires
        0 <= a <= s.len(),
        forall|j: int| 0 <= j < a ==> is_space(#[trigger] s[j]),
        a < s.len() ==> !is_space(s[a]),
    ensures
        trim_front(s) =~= s.subrange(a, s.len() as int),
    decreases a,
{
    if a == 0 {
        assert(trim_front(s) == s);
        assert(s.subrange(0, s.len() as int) =~= s);
    } else {
        assert(is_space(s[0]));
        let d = s.drop_first();
        assert(forall|j: int| 0 <= j < a - 1 ==> is_space(#[trigger] d[j]));
        lemma_trim_front_is_subrange(d, a - 1);
        assert(d.subrange(a - 1, d.len() as int) =~= s.subrange(a, s.len() as int));
    }
}

proof fn lemma_trim_back_is_subrange(s: Seq<char>, b: int)
    requires
        0 <= b <= s.len(),
        forall|j: int| b <= j < s.len() ==> is_space(#[trigger] s[j]),
        b > 0 ==> !is_space(s[b - 1]),
    ensures
        trim_back(s) =~= s.subrange(0, b),
    decreases s.len() - b,
{
    if b == s.len() {
        assert(trim_back(s) == s);
        assert(s.subrange(0, b) =~= s);
    } else {
        assert(is_space(s.last()));
        let d = s.drop_last();
        assert(forall|j: int| b <= j < d.len() ==> is_space(#[trigger] d[j]));
        lemma_trim_back_is_subrange(d, b);
        assert(d.subrange(0, b) =~= s.subrange(0, b));
    }
}

/// ASCII uppercasing of one character.
fn upper_exec(c: char) -> (r: char)
    ensures
        r == upper_char(c),
{
    let v = c as u32;
    if 97 <= v && v <= 122 {
        ((c as u8) - 32) as char
    } else {
        c
    }
}

/// Whether `c` is whitespace to strip.
fn is_space_exec(c: char) -> (r: bool)
    ensures
        r == is_space(c),
{
    let v = c as u32;
    v == 0x9 || v == 0xA || v == 0xB || v == 0xC || v == 0xD || v == 0x20 || v == 0x85 || v
        == 0xA0 || v == 0x1680 || (0x2000 <= v && v <= 0x200A) || v == 0x2028 || v == 0x2029 || v
        == 0x202F || v == 0x205F || v == 0x3000
}

/// The normalized (trimmed, uppercased) form of the input, as characters.
fn normalize(s: &str) -> (v: Vec<char>)
    ensures
        v@ == normalized(s@),
{
    let n = s.unicode_len();
    let mut a: usize = 0;
    while a < n && is_space_exec(s.get_char(a))
        invariant
            a <= n,
            n == s@.len(),
            forall|j: int| 0 <= j < a ==> is_space(#[trigger] s@[j]),
        decreases n - a,
    {
        a = a + 1;
    }
    let mut b: usize = n;
    while b > a && is_space_exec(s.get_char(b - 1))
        invariant
            a <= b <= n,
            n == s@.len(),
            forall|j: int| b <= j < n ==> is_space(#[trigger] s@[j]),
        decreases b,
    {
        b = b - 1;
    }
    proof {
        lemma_trim_front_is_subrange(s@, a as int);
        let mid = s@.subrange(a as int, n as int);
        assert(forall|j: int| b - a <= j < mid.len() ==> is_space(#[trigger] mid[j]));
        lemma_trim_back_is_subrange(mid, b - a);
        assert(mid.subrange(0, b - a) =~= s@.subrange(a as int, b as int));
        assert(trimmed(s@) == s@.subrange(a as int, b as int));
    }
    let mut v: Vec<char> = Vec::new();
    let mut k: usize = a;
    while k < b
        invariant
            a <= k <= b <= n,
            n == s@.len(),
            v@.len() == k - a,
            forall|i: int| 0 <= i < k - a ==> v@[i] == upper_char(#[trigger] s@[a + i]),
        decreases b - k,
    {
        let c = s.get_char(k);
        v.push(upper_exec(c));
        k = k + 1;
    }
    proof {
        let tr = trimmed(s@);
        assert forall|i: int| 0 <= i < v@.len() implies v@[i] == normalized(s@)[i] by {
            assert(tr[i] == s@[a + i]);
        }
        assert(v@ =~= normalized(s@));
    }
    v
}

/// Whether every character of `t[from..to]` is a digit.
fn all_digits_range(t: &Vec<char>, from: usize, to: usize) -> (r: bool)
    requires
        from <= to <= t@.len(),
    ensures
        r == all_digits(t@.subrange(from as int, to as int)),
{
    let ghost part = t@.subrange(from as int, to as int);
    let mut k: usize = from;
    while k < to
        invariant
            from <= k <= to <= t@.len(),
            part == t@.subrange(from as int, to as int),
            forall|j: int| 0 <= j < k - from ==> is_digit(#[trigger] part[j]),
        decreases to - k,
    {
        let c = t[k];
        assert(part[k - from] == c);
        if char_digit(c).is_none() {
            assert(!is_digit(part[k - from]));
            return false;
        }
        assert(is_digit(part[k - from]));
        k = k + 1;
    }
    true
}

/// Parse `t[from..to]` as an unsigned decimal integer, or `None` when it is
/// empty, holds a non-digit, or does not fit in a `u64`.
fn parse_digits_u64(t: &Vec<char>, from: usize, to: usize) -> (r: Option<u64>)
    requires
        from <= to <= t@.len(),
    ensures
        ({
            let part = t@.subrange(from as int, to as int);
            match r {
                Some(v) => part.len() > 0 && all_digits(part) && dec_val(part) == v,
                None => !(part.len() > 0 && all_digits(part) && dec_val(part) <= u64::MAX),
            }
        }),
{
    let ghost part = t@.subrange(from as int, to as int);
    if from == to {
        return None;
    }
    let mut acc: u64 = 0;
    let mut k: usize = from;
    while k < to
        invariant
            from <= k <= to <= t@.len(),
            part == t@.subrange(from as int, to as int),
            all_digits(t@.subrange(from as int, k as int)),
            acc == dec_val(t@.subrange(from as int, k as int)),
        decreases to - k,
    {
        let c = t[k];
        let ghost pre = t@.subrange(from as int, k as int);
        let ghost cur = t@.subrange(from as int, k + 1 as int);
        proof {
            assert(cur.drop_last() =~= pre);
            assert(cur.last() == c);
        }
        let d: u64 = match char_digit(c) {
            None => {
                assert(!all_digits(part)) by {
                    assert(part[k - from] == c);
                }
                return None;
            },
            Some(d8) => d8 as u64,
        };
        assert(d == digit_val(c));
        assert(all_digits(cur)) by {
            assert(forall|j: int| 0 <= j < cur.len() - 1 ==> cur[j] == pre[j]);
        }
        let shifted = match acc.checked_mul(10) {
            Some(m) => m.checked_add(d),
            None => None,
        };
        match shifted {
            Some(next) => {
                acc = next;
                k = k + 1;
            },
            None => {
                assert(dec_val(cur) > u64::MAX);
                assert(!(part.len() > 0 && all_digits(part) && dec_val(part) <= u64::MAX)) by {
                    lemma_dec_val_prefix_le(cur, t@.subrange(k + 1 as int, to as int));
                    assert(cur + t@.subrange(k + 1 as int, to as int) =~= part);
                }
                return None;
            },
        }
    }
    assert(t@.subrange(from as int, k as int) =~= part);
    Some(acc)
}

/// Parse an all-digit `t[from..to]` with saturation: the flag says the value
/// exceeds `u64`, else the value is returned exactly (empty means zero).
fn parse_digits_saturating(t: &Vec<char>, from: usize, to: usize) -> (r: (u64, bool))
    requires
        from <= to <= t@.len(),
        all_digits(t@.subrange(from as int, to as int)),
    ensures
        ({
            let part = t@.subrange(from as int, to as int);
            if r.1 {
                dec_val(part) > u64::MAX
            } else {
                r.0 == dec_val(part)
            }
        }),
{
    let ghost part = t@.subrange(from as int, to as int);
    let mut acc: u64 = 0;
    let mut k: usize = from;
    while k < to
        invariant
            from <= k <= to <= t@.len(),
            part == t@.subrange(from as int, to as int),
            all_digits(part),
            acc == dec_val(t@.subrange(from as int, k as int)),
        decreases to - k,
    {
        let c = t[k];
        let ghost pre = t@.subrange(from as int, k as int);
        let ghost cur = t@.subrange(from as int, k + 1 as int);
        proof {
            assert(cur.drop_last() =~= pre);
            assert(cur.last() == c);
            assert(part[k - from] == c);
            assert(is_digit(c));
        }
        let d: u64 = match char_digit(c) {
            None => {
                proof {
                    assert(false);
                }
                0
            },
            Some(d8) => d8 as u64,
        };
        assert(d == digit_val(c));
        let shifted = match acc.checked_mul(10) {
            Some(m) => m.checked_add(d),
            None => None,
        };
        match shifted {
            Some(next) => {
                acc = next;
                k = k + 1;
            },
            None => {
                assert(dec_val(cur) > u64::MAX);
                assert(dec_val(part) > u64::MAX) by {
                    lemma_dec_val_prefix_le(cur, t@.subrange(k + 1 as int, to as int));
                    assert(cur + t@.subrange(k + 1 as int, to as int) =~= part);
                }
                return (0, true);
            },
        }
    }
    assert(t@.subrange(from as int, k as int) =~= part);
    (acc, false)
}

/// Whether `t` ends with the single character `c0`.
fn ends1(t: &Vec<char>, c0: char) -> (r: bool)
    ensures
        r == ends_with(t@, seq![c0]),
{
    let n = t.len();
    if n >= 1 && t[n - 1] == c0 {
        proof {
            assert(t@.subrange(n - 1, n as int) =~= seq![c0]);
        }
        true
    } else {
        proof {
            if ends_with(t@, seq![c0]) {
                assert(t@.subrange(t@.len() - 1, t@.len() as int)[0] == c0);
            }
        }
        false
    }
}

/// Whether `t` ends with the two characters `c0`, `c1`.
fn ends2(t: &Vec<char>, c0: char, c1: char) -> (r: bool)
    ensures
        r == ends_with(t@, seq![c0, c1]),
{
    let n = t.len();
    if n >= 2 && t[n - 2] == c0 && t[n - 1] == c1 {
        proof {
            assert(t@.subrange(n - 2, n as int) =~= seq![c0, c1]);
        }
        true
    } else {
        proof {
            if ends_with(t@, seq![c0, c1]) {
                assert(t@.subrange(t@.len() - 2, t@.len() as int)[0] == c0);
                assert(t@.subrange(t@.len() - 2, t@.len() as int)[1] == c1);
            }
        }
        false
    }
}

/// Relies on `String::push`: appends exactly the given character.
#[verifier::external_body]
fn push_char(s: &mut String, c: char)
    ensures
        final(s)@ == old(s)@.push(c),
{
    s.push(c)
}

/// The characters of `t`, as an owned string.
fn chars_to_string(t: &Vec<char>) -> (s: String)
    ensures
        s@ == t@,
{
    let mut s = String::new();
    proof {
        assert(s@ =~= t@.subrange(0, 0));
    }
    let mut k: usize = 0;
    while k < t.len()
        invariant
            k <= t@.len(),
            s@ == t@.subrange(0, k as int),
        decreases t@.len() - k,
    {
        push_char(&mut s, t[k]);
        proof {
            assert(s@ =~= t@.subrange(0, k + 1 as int));
        }
        k = k + 1;
    }
    proof {
        assert(t@.subrange(0, t@.len() as int) =~= t@);
    }
    s
}

/// The error message for a malformed number before a unit suffix, built from
/// the normalized input characters.
fn invalid_number_message(t: &Vec<char>) -> (m: String)
    ensures
        m@ == "Invalid number in size: "@ + t@,
{
    let mut m = String::from_str("Invalid number in size: ");
    let tail = chars_to_string(t);
    m.append(tail.as_str());
    m
}

/// The error message for an unrecognizable size format, built from the
/// normalized input characters.
fn invalid_format_message(t: &Vec<char>) -> (m: String)
    ensures
        m@ == "Invalid size format: "@ + t@ + ". Use formats like '10MB', '50MB', '1GB'"@,
{
    let mut m = String::from_str("Invalid size format: ");
    let tail = chars_to_string(t);
    m.append(tail.as_str());
    m.append(". Use formats like '10MB', '50MB', '1GB'");
    m
}

/// Start and end of `t[0..end]` with surrounding whitespace stripped.
fn trim_indices(t: &Vec<char>, end: usize) -> (r: (usize, usize))
    requires
        end <= t@.len(),
    ensures
        r.0 <= r.1 <= end,
        trimmed(t@.subrange(0, end as int)) =~= t@.subrange(r.0 as int, r.1 as int),
{
    let ghost w = t@.subrange(0, end as int);
    let mut a: usize = 0;
    while a < end && is_space_exec(t[a])
        invariant
            a <= end <= t@.len(),
            w == t@.subrange(0, end as int),
            forall|j: int| 0 <= j < a ==> is_space(#[trigger] w[j]),
        decreases end - a,
    {
        assert(w[a as int] == t@[a as int]);
        a = a + 1;
    }
    let mut b: usize = end;
    while b > a && is_space_exec(t[b - 1])
        invariant
            a <= b <= end <= t@.len(),
            w == t@.subrange(0, end as int),
            forall|j: int| b <= j < end ==> is_space(#[trigger] w[j]),
        decreases b,
    {
        assert(w[b - 1] == t@[b - 1]);
        b = b - 1;
    }
    proof {
        lemma_trim_front_is_subrange(w, a as int);
        let mid = w.subrange(a as int, end as int);
        assert(forall|j: int| b - a <= j < mid.len() ==> is_space(#[trigger] mid[j]));
        lemma_trim_back_is_subrange(mid, b - a);
        assert(mid.subrange(0, b - a) =~= t@.subrange(a as int, b as int));
    }
    (a, b)
}

/// Parse a human-readable byte size: a plain decimal byte count, or a decimal
/// number (fractions allowed) followed by one of the unit suffixes
/// `K`/`KB`, `M`/`MB`, `G`/`GB`, `T`/`TB` (binary multiples of 1024, case
/// insensitive). Values beyond the `u64` range saturate at `u64::MAX`; a
/// string in neither form is rejected with a message naming the input.
#[verifier::rlimit(60)]
pub fn parse_size(input: &str) -> (r: Result<u64, String>)
    ensures
        match r {
            Ok(v) => parse_size_spec(input@) == ParsedSize::Bytes(v),
            Err(msg) => (parse_size_spec(input@) == ParsedSize::BadNumber && msg@
                == invalid_number_msg(input@)) || (parse_size_spec(input@) == ParsedSize::BadFormat
                && msg@ == invalid_format_msg(input@)),
        },
{
    let t = normalize(input);
    let n = t.len();
    match parse_digits_u64(&t, 0, n) {
        Some(v) => {
            proof {
                assert(t@.subrange(0, n as int) =~= t@);
            }
            return Ok(v);
        },
        None => {
            proof {
                assert(t@.subrange(0, n as int) =~= t@);
            }
        },
    }
    let sfx: Option<(usize, u64)> = if ends2(&t, 'T', 'B') {
        Some((n - 2, TIB))
    } else if ends2(&t, 'G', 'B') {
        Some((n - 2, GIB))
    } else if ends2(&t, 'M', 'B') {
        Some((n - 2, MIB))
    } else if ends2(&t, 'K', 'B') {
        Some((n - 2, KIB))
    } else if ends1(&t, 'T') {
        Some((n - 1, TIB))
    } else if ends1(&t, 'G') {
        Some((n - 1, GIB))
    } else if ends1(&t, 'M') {
        Some((n - 1, MIB))
    } else if ends1(&t, 'K') {
        Some((n - 1, KIB))
    } else {
        None
    };
    let (cut, mult) = match sfx {
        None => {
            return Err(invalid_format_message(&t));
        },
        Some(p) => p,
    };
    assert(split_suffix(t@) == Some((t@.subrange(0, cut as int), mult)));
    assert(1024 <= mult && mult <= TIB);

    let (u_from, u_to) = trim_indices(&t, cut);
    let ghost u = trimmed(t@.subrange(0, cut as int));
    assert(u == t@.subrange(u_from as int, u_to as int));

    let mut dot: Option<usize> = None;
    let mut k: usize = u_from;
    while k < u_to
        invariant
            u_from <= k <= u_to <= t@.len(),
            match dot {
                None => forall|j: int| u_from <= j < k ==> t@[j] != '.',
                Some(x) => u_from <= x < k && t@[x as int] == '.' && (forall|j: int|
                    u_from <= j < x ==> t@[j] != '.'),
            },
        decreases u_to - k,
    {
        if dot.is_none() {
            if t[k] == '.' {
                dot = Some(k);
            }
        }
        k = k + 1;
    }
    match dot {
        None => {
            proof {
                assert(forall|j: int| 0 <= j < u.len() ==> u[j] != '.');
                lemma_find_char_absent(u, '.');
            }
            if !all_digits_range(&t, u_from, u_to) {
                return Err(invalid_number_message(&t));
            }
            if u_from == u_to {
                assert(u.len() == 0);
                return Err(invalid_number_message(&t));
            }
            let (iv, sat) = parse_digits_saturating(&t, u_from, u_to);
            if sat {
                proof {
                    lemma_mul_inequality(1, mult as int, dec_val(u) as int);
                }
                assert(number_bytes(u, mult) > u64::MAX);
                return Ok(u64::MAX);
            }
            let prod: u128 = (iv as u128) * (mult as u128);
            if prod > u64::MAX as u128 {
                return Ok(u64::MAX);
            }
            return Ok(prod as u64);
        },
        Some(dk) => {
            proof {
                assert(forall|j: int| 0 <= j < dk - u_from ==> u[j] != '.');
                assert(u[dk - u_from] == '.');
                lemma_find_char_at(u, '.', dk - u_from);
            }
            let ghost ip = u.subrange(0, dk - u_from);
            let ghost fp = u.subrange(dk - u_from + 1, u.len() as int);
            proof {
                assert(ip =~= t@.subrange(u_from as int, dk as int));
                assert(fp =~= t@.subrange(dk + 1 as int, u_to as int));
            }
            if !all_digits_range(&t, u_from, dk) {
                return Err(invalid_number_message(&t));
            }
            if !all_digits_range(&t, dk + 1, u_to) {
                return Err(invalid_number_message(&t));
            }
            if u_to - u_from == 1 {
                assert(ip.len() + fp.len() == 0);
                return Err(invalid_number_message(&t));
            }
            assert(valid_number(u));
            let (iv, sat) = parse_digits_saturating(&t, u_from, dk);
            let ghost k_len = fp.len();
            proof {
                lemma_pow10_pos(k_len);
            }
            if sat {
                proof {
                    lemma_number_bytes_int_lower(ip, fp, mult);
                    lemma_mul_inequality(1, mult as int, dec_val(ip) as int);
                }
                assert(number_bytes(u, mult) > u64::MAX);
                return Ok(u64::MAX);
            }
            // fraction, processed from the last digit backwards
            let mut facc: u64 = 0;
            let mut p: usize = u_to;
            proof {
                assert(t@.subrange(u_to as int, u_to as int) =~= Seq::<char>::empty());
                assert(dec_val(Seq::<char>::empty()) == 0);
                assert(pow10(0) == 1);
            }
            while p > dk + 1
                invariant
                    dk + 1 <= p <= u_to <= t@.len(),
                    1024 <= mult <= TIB,
                    fp == t@.subrange(dk + 1 as int, u_to as int),
                    all_digits(fp),
                    facc == ((dec_val(t@.subrange(p as int, u_to as int)) * mult) as int) / (
                    pow10((u_to - p) as nat) as int),
                    facc < mult,
                decreases p,
            {
                p = p - 1;
                let c = t[p];
                proof {
                    assert(fp[p - (dk + 1)] == c);
                    assert(is_digit(c));
                }
                let d: u64 = match char_digit(c) {
                    None => {
                        proof {
                            assert(false);
                        }
                        0
                    },
                    Some(d8) => d8 as u64,
                };
                assert(d == digit_val(c) && d <= 9);
                proof {
                    let ghost sub = t@.subrange(p as int, u_to as int);
                    assert(all_digits(sub)) by {
                        assert(forall|j: int|
                            0 <= j < sub.len() ==> sub[j] == fp[j + (p - (dk + 1))]);
                    }
                    lemma_frac_step(t@, p as int, u_to as int, mult);
                    assert(d * mult <= 9 * mult) by (nonlinear_arith)
                        requires
                            d <= 9,
                    ;
                }
                facc = (d * mult + facc) / 10;
            }
            proof {
                assert(t@.subrange(p as int, u_to as int) =~= fp);
                assert(facc == ((dec_val(fp) * mult) as int) / (pow10(k_len) as int));
            }
            proof {
                assert((iv as int) * (mult as int) <= 0xffff_ffff_ffff_ffff * 0x100_0000_0000)
                    by (nonlinear_arith)
                    requires
                        iv <= 0xffff_ffff_ffff_ffff,
                        mult <= 0x100_0000_0000,
                        0 <= iv,
                        0 <= mult,
                ;
            }
            let total: u128 = (iv as u128) * (mult as u128) + (facc as u128);
            proof {
                lemma_number_bytes_split(ip, fp, mult);
                assert(iv == dec_val(ip));
            }
            if total > u64::MAX as u128 {
                assert(number_bytes(u, mult) > u64::MAX);
                return Ok(u64::MAX);
            }
            assert(total == number_bytes(u, mult));
            return Ok(total as u64);
        },
    }
}

/// The byte value of `<ip>.<fp>` scaled by `mult` is at least `dec_val(ip) * mult`.
proof fn lemma_number_bytes_int_lower(ip: Seq<char>, fp: Seq<char>, mult: u64)
    requires
        mult >= 1,
    ensures
        (((dec_val(ip) * pow10(fp.len()) + dec_val(fp)) * mult) as int) / (pow10(
            fp.len(),
        ) as int) >= dec_val(ip) * mult,
{
    let k = pow10(fp.len());
    lemma_pow10_pos(fp.len());
    let a = dec_val(ip) * mult;
    let b = dec_val(fp) * mult;
    assert((dec_val(ip) * k + dec_val(fp)) * mult == (dec_val(ip) * mult) * k + dec_val(fp)
        * mult) by (nonlinear_arith);
    lemma_hoist_over_denominator(b as int, a as int, k);
    assert((b + a * k) / (k as int) == b as int / k as int + a);
}

/// The byte value of `<ip>.<fp>` scaled by `mult` splits into the integer
/// part's contribution plus the fraction's own scaled-down contribution.
proof fn lemma_number_bytes_split(ip: Seq<char>, fp: Seq<char>, mult: u64)
    ensures
        (((dec_val(ip) * pow10(fp.len()) + dec_val(fp)) * mult) as int) / (pow10(
            fp.len(),
        ) as int) == dec_val(ip) * mult + ((dec_val(fp) * mult) as int) / (pow10(fp.len()) as int),
{
    let k = pow10(fp.len());
    lemma_pow10_pos(fp.len());
    let a = dec_val(ip) * mult;
    let b = dec_val(fp) * mult;
    assert((dec_val(ip) * k + dec_val(fp)) * mult == (dec_val(ip) * mult) * k + dec_val(fp)
        * mult) by (nonlinear_arith);
    lemma_hoist_over_denominator(b as int, a as int, k);
}

/// One step of the right-to-left fraction scan: prepending digit `t[p]`
/// refines the scaled-down value by one more decimal place.
proof fn lemma_frac_step(t: Seq<char>, p: int, to: int, mult: u64)
    requires
        0 <= p < to <= t.len(),
        mult >= 1,
        is_digit(t[p]),
        all_digits(t.subrange(p, to)),
    ensures
        (digit_val(t[p]) * mult + ((dec_val(t.subrange(p + 1, to)) * mult) as int) / (pow10(
            (to - p - 1) as nat,
        ) as int)) / 10 == ((dec_val(t.subrange(p, to)) * mult) as int) / (pow10(
            (to - p) as nat,
        ) as int),
        ((dec_val(t.subrange(p, to)) * mult) as int) / (pow10((to - p) as nat) as int) < mult,
        digit_val(t[p]) * mult + ((dec_val(t.subrange(p + 1, to)) * mult) as int) / (pow10(
            (to - p - 1) as nat,
        ) as int) < 10 * mult,
{
    let whole = t.subrange(p, to);
    let rest = t.subrange(p + 1, to);
    let d = digit_val(t[p]);
    let q = pow10(rest.len());
    lemma_pow10_pos(rest.len());
    // whole = [t[p]] + rest
    assert(whole =~= seq![t[p]] + rest);
    crate::decimal::lemma_dec_val_concat(seq![t[p]], rest);
    assert(dec_val(seq![t[p]]) == d) by {
        assert(seq![t[p]].drop_last() =~= Seq::<char>::empty());
        assert(seq![t[p]].last() == t[p]);
        assert(dec_val(Seq::<char>::empty()) == 0);
    }
    assert(all_digits(rest)) by {
        assert(forall|j: int| 0 <= j < rest.len() ==> rest[j] == whole[j + 1]);
    }
    assert(dec_val(whole) == d * q + dec_val(rest));
    let x = dec_val(rest) * mult;
    let dm = d * mult;
    // (d*q + rest) * mult == dm * q + x
    assert((d * q + dec_val(rest)) * mult == (d * mult) * q + dec_val(rest) * mult)
        by (nonlinear_arith);
    // dm + x/q == (x + dm*q)/q
    lemma_hoist_over_denominator(x as int, dm as int, q);
    // ((x + dm*q)/q)/10 == (x + dm*q)/(q*10)
    lemma_div_denominator((x + dm * q) as int, q as int, 10);
    assert(pow10((to - p) as nat) == 10 * q);
    assert(q * 10 == 10 * q);
    // the bound: dec_val(whole) < pow10(len)
    lemma_dec_val_bound(whole);
    assert(dec_val(whole) * mult < pow10(whole.len()) * mult) by (nonlinear_arith)
        requires
            dec_val(whole) < pow10(whole.len()),
            mult >= 1,
    ;
    lemma_div_strict_bound(dec_val(whole) * mult, mult as int, pow10(whole.len()) as int);
    // x/q < mult, so dm + x/q < 10*mult
    lemma_dec_val_bound(rest);
    assert(x < q * mult) by (nonlinear_arith)
        requires
            dec_val(rest) < q,
            mult >= 1,
            x == dec_val(rest) * mult,
    ;
    lemma_div_strict_bound(x as int, mult as int, q as int);
    assert(d <= 9);
    assert(dm <= 9 * mult) by (nonlinear_arith)
        requires
            d <= 9,
            dm == d * mult,
    ;
}

/// `x < b * c` gives `x / c < b` for positive `c`.
proof fn lemma_div_strict_bound(x: int, b: int, c: int)
    requires
        c >= 1,
        0 <= x,
        x < b * c,
    ensures
        x / c < b,
{
    if x / c >= b {
        lemma_mul_inequality(b, x / c, c);
        vstd::arithmetic::div_mod::lemma_fundamental_div_mod(x, c);
        assert(x >= (x / c) * c) by (nonlinear_arith)
            requires
                x == c * (x / c) + x % c,
                c >= 1,
                0 <= x % c,
        ;
    }
}

} // verus!
