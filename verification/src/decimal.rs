//! Decimal digit strings: the specification of unsigned decimal notation and
//! verified executable parsing and formatting over it.

use vstd::prelude::*;

verus! {

/// The digit character for a value below ten.
pub open spec fn digit_char(d: nat) -> char
    recommends
        d < 10,
{
    if d == 0 {
        '0'
    } else if d == 1 {
        '1'
    } else if d == 2 {
        '2'
    } else if d == 3 {
        '3'
    } else if d == 4 {
        '4'
    } else if d == 5 {
        '5'
    } else if d == 6 {
        '6'
    } else if d == 7 {
        '7'
    } else if d == 8 {
        '8'
    } else {
        '9'
    }
}

/// Whether `c` is a decimal digit character.
pub open spec fn is_digit(c: char) -> bool {
    '0' as int <= c as int && c as int <= '9' as int
}

/// Numeric value of a digit character (zero for anything else).
pub open spec fn digit_val(c: char) -> nat {
    if is_digit(c) {
        (c as int - '0' as int) as nat
    } else {
        0
    }
}

/// Whether every character of `s` is a decimal digit.
pub open spec fn all_digits(s: Seq<char>) -> bool {
    forall|i: int| 0 <= i < s.len() ==> is_digit(#[trigger] s[i])
}

/// Value of a digit string, most significant digit first.
pub open spec fn dec_val(s: Seq<char>) -> nat
    decreases s.len(),
{
    if s.len() == 0 {
        0
    } else {
        dec_val(s.drop_last()) * 10 + digit_val(s.last())
    }
}

/// Canonical decimal rendering of `n`: no sign, no leading zeros, `"0"` for zero.
pub open spec fn dec_digits(n: nat) -> Seq<char>
    decreases n,
{
    if n < 10 {
        seq![digit_char(n)]
    } else {
        dec_digits(n / 10).push(digit_char(n % 10))
    }
}

/// The canonical rendering is a non-empty string of digits.
pub proof fn lemma_dec_digits_shape(n: nat)
    ensures
        dec_digits(n).len() >= 1,
        all_digits(dec_digits(n)),
    decreases n,
{
    if n < 10 {
        assert(is_digit(digit_char(n)));
    } else {
        lemma_dec_digits_shape(n / 10);
        let a = dec_digits(n / 10);
        let s = a.push(digit_char(n % 10));
        assert(is_digit(digit_char(n % 10)));
        assert forall|i: int| 0 <= i < s.len() implies is_digit(#[trigger] s[i]) by {
            if i < a.len() {
                assert(s[i] == a[i]);
            }
        }
    }
}

/// Parsing the canonical rendering gives the value back.
pub proof fn lemma_dec_val_of_digits(n: nat)
    ensures
        dec_val(dec_digits(n)) == n,
    decreases n,
{
    if n < 10 {
        let s = dec_digits(n);
        assert(s == seq![digit_char(n)]);
        assert(s.drop_last() =~= Seq::<char>::empty());
        assert(s.last() == digit_char(n));
        assert(dec_val(s) == dec_val(s.drop_last()) * 10 + digit_val(s.last()));
        assert(digit_val(digit_char(n)) == n);
        assert(dec_val(s) == n);
    } else {
        lemma_dec_val_of_digits(n / 10);
        let a = dec_digits(n / 10);
        let s = a.push(digit_char(n % 10));
        assert(dec_digits(n) == s);
        assert(s.drop_last() =~= a);
        assert(s.last() == digit_char(n % 10));
        assert(digit_val(digit_char(n % 10)) == n % 10);
        assert(dec_val(s) == dec_val(a) * 10 + digit_val(s.last()));
        vstd::arithmetic::div_mod::lemma_fundamental_div_mod(n as int, 10);
        assert(dec_val(s) == (n / 10) * 10 + n % 10);
    }
}

/// A digit string is worth at least any of its prefixes.
pub proof fn lemma_dec_val_prefix_le(s: Seq<char>, t: Seq<char>)
    ensures
        dec_val(s + t) >= dec_val(s),
    decreases t.len(),
{
    if t.len() == 0 {
        assert(s + t =~= s);
    } else {
        lemma_dec_val_prefix_le(s, t.drop_last());
        assert((s + t).drop_last() =~= s + t.drop_last());
        assert(dec_val(s + t) == dec_val(s + t.drop_last()) * 10 + digit_val((s + t).last()));
    }
}

/// Index of the first occurrence of `c` in `s`, if any.
pub open spec fn find_char(s: Seq<char>, c: char) -> Option<int>
    decreases s.len(),
{
    if s.len() == 0 {
        None
    } else if s[0] == c {
        Some(0int)
    } else {
        match find_char(s.drop_first(), c) {
            Some(i) => Some(i + 1),
            None => None,
        }
    }
}

pub proof fn lemma_find_char_at(s: Seq<char>, c: char, k: int)
    requires
        0 <= k < s.len(),
        s[k] == c,
        forall|j: int| 0 <= j < k ==> s[j] != c,
    ensures
        find_char(s, c) == Some(k),
    decreases s.len(),
{
    if k > 0 {
        lemma_find_char_at(s.drop_first(), c, k - 1);
    }
}

pub proof fn lemma_find_char_absent(s: Seq<char>, c: char)
    requires
        forall|j: int| 0 <= j < s.len() ==> s[j] != c,
    ensures
        find_char(s, c) is None,
    decreases s.len(),
{
    if s.len() > 0 {
        lemma_find_char_absent(s.drop_first(), c);
    }
}

/// Ten to the `k`-th power.
pub open spec fn pow10(k: nat) -> nat
    decreases k,
{
    if k == 0 {
        1
    } else {
        10 * pow10((k - 1) as nat)
    }
}

pub proof fn lemma_pow10_pos(k: nat)
    ensures
        pow10(k) >= 1,
    decreases k,
{
    if k > 0 {
        lemma_pow10_pos((k - 1) as nat);
    }
}

/// Concatenation shifts the front part by the length of the back part.
pub proof fn lemma_dec_val_concat(a: Seq<char>, b: Seq<char>)
    ensures
        dec_val(a + b) == dec_val(a) * pow10(b.len()) + dec_val(b),
    decreases b.len(),
{
    if b.len() == 0 {
        assert(a + b =~= a);
        assert(pow10(0) == 1);
    } else {
        lemma_dec_val_concat(a, b.drop_last());
        assert((a + b).drop_last() =~= a + b.drop_last());
        assert((a + b).last() == b.last());
        let x = dec_val(a);
        let p = pow10((b.len() - 1) as nat);
        let y = dec_val(b.drop_last());
        let d = digit_val(b.last());
        assert(dec_val(a + b) == (x * p + y) * 10 + d);
        assert((x * p + y) * 10 + d == x * (10 * p) + (y * 10 + d)) by (nonlinear_arith);
        assert(pow10(b.len()) == 10 * p);
        assert(dec_val(b) == y * 10 + d);
    }
}

/// A string of digits is worth less than ten to its length.
pub proof fn lemma_dec_val_bound(s: Seq<char>)
    requires
        all_digits(s),
    ensures
        dec_val(s) < pow10(s.len()),
    decreases s.len(),
{
    if s.len() > 0 {
        assert(all_digits(s.drop_last())) by {
            assert(forall|j: int| 0 <= j < s.len() - 1 ==> s.drop_last()[j] == s[j]);
        }
        lemma_dec_val_bound(s.drop_last());
        assert(is_digit(s.last()));
        assert(digit_val(s.last()) <= 9);
        assert(pow10(s.len()) == 10 * pow10((s.len() - 1) as nat));
    }
}

/// Numeric value of a digit character, or `None` if `c` is not a digit.
pub fn char_digit(c: char) -> (r: Option<u8>)
    ensures
        match r {
            Some(d) => is_digit(c) && d == digit_val(c),
            None => !is_digit(c),
        },
{
    let v = c as u32;
    if 48 <= v && v <= 57 {
        Some((v - 48) as u8)
    } else {
        None
    }
}

/// Parse `s[from..to]` as an unsigned decimal integer. Returns `None` when the
/// slice is empty, holds a non-digit, or does not fit in a `u64`.
pub fn parse_dec_range(s: &str, from: usize, to: usize) -> (r: Option<u64>)
    requires
        from <= to <= s@.len(),
    ensures
        ({
            let part = s@.subrange(from as int, to as int);
            match r {
                Some(v) => part.len() > 0 && all_digits(part) && dec_val(part) == v,
                None => !(part.len() > 0 && all_digits(part) && dec_val(part) <= u64::MAX),
            }
        }),
{
    let ghost part = s@.subrange(from as int, to as int);
    if from == to {
        return None;
    }
    let mut acc: u64 = 0;
    let mut i: usize = from;
    while i < to
        invariant
            from <= i <= to <= s@.len(),
            part == s@.subrange(from as int, to as int),
            all_digits(s@.subrange(from as int, i as int)),
            acc == dec_val(s@.subrange(from as int, i as int)),
        decreases to - i,
    {
        let c = s.get_char(i);
        let ghost pre = s@.subrange(from as int, i as int);
        let ghost cur = s@.subrange(from as int, i + 1 as int);
        assert(cur.drop_last() =~= pre);
        assert(cur.last() == c);
        match char_digit(c) {
            None => {
                assert(!all_digits(part)) by {
                    assert(part[i - from] == c);
                }
                return None;
            },
            Some(d) => {
                assert(all_digits(cur)) by {
                    assert(forall|j: int| 0 <= j < cur.len() - 1 ==> cur[j] == pre[j]);
                }
                let shifted = match acc.checked_mul(10) {
                    Some(m) => m.checked_add(d as u64),
                    None => None,
                };
                match shifted {
                    Some(next) => {
                        acc = next;
                        i = i + 1;
                    },
                    None => {
                        assert(dec_val(cur) > u64::MAX);
                        assert(!(part.len() > 0 && all_digits(part) && dec_val(part)
                            <= u64::MAX)) by {
                            lemma_dec_val_prefix_le(cur, s@.subrange(i + 1 as int, to as int));
                            assert(cur + s@.subrange(i + 1 as int, to as int) =~= part);
                        }
                        return None;
                    },
                }
            },
        }
    }
    assert(s@.subrange(from as int, i as int) =~= part);
    Some(acc)
}

/// The digit character for a value below ten, as a one-character string slice.
pub fn digit_str(d: u8) -> (r: &'static str)
    requires
        d < 10,
    ensures
        r@ =~= seq![digit_char(d as nat)],
{
    proof {
        reveal_strlit("0");
        reveal_strlit("1");
        reveal_strlit("2");
        reveal_strlit("3");
        reveal_strlit("4");
        reveal_strlit("5");
        reveal_strlit("6");
        reveal_strlit("7");
        reveal_strlit("8");
        reveal_strlit("9");
    }
    match d {
        0 => "0",
        1 => "1",
        2 => "2",
        3 => "3",
        4 => "4",
        5 => "5",
        6 => "6",
        7 => "7",
        8 => "8",
        _ => "9",
    }
}

/// Render `n` in canonical decimal notation.
pub fn dec_string(n: u64) -> (s: String)
    ensures
        s@ == dec_digits(n as nat),
    decreases n,
{
    if n < 10 {
        let r = digit_str(n as u8).to_owned();
        r
    } else {
        let mut front = dec_string(n / 10);
        front.append(digit_str((n % 10) as u8));
        assert(front@ =~= dec_digits(n as nat));
        front
    }
}

} // verus!
