//! Character-level helpers on string slices: equality and unsigned integer
//! parsing in a given radix, with the meaning of each stated over the
//! slice's characters.
use vstd::prelude::*;
use vstd::string::StrSliceExecFns;

verus! {

/// Whether two slices hold the same characters.
pub fn str_equals(a: &str, b: &str) -> (r: bool)
    ensures
        r == (a@ == b@),
{
    let n = a.unicode_len();
    if n != b.unicode_len() {
        return false;
    }
    let mut i: usize = 0;
    while i < n
        invariant
            i <= n,
            a@.len() == n,
            b@.len() == n,
            forall|j: int| 0 <= j < i ==> a@[j] == b@[j],
        decreases n - i,
    {
        if a.get_char(i) != b.get_char(i) {
            return false;
        }
        i = i + 1;
    }
    assert(a@ =~= b@);
    true
}

/// The value of `c` as a digit in `radix`, as `char::to_digit` gives it:
/// `0`-`9`, then `a`-`z` or `A`-`Z` for ten and up.
pub open spec fn digit_value(c: char, radix: nat) -> Option<nat> {
    let d: int = if '0' <= c && c <= '9' {
        c as int - '0' as int
    } else if 'a' <= c && c <= 'z' {
        c as int - 'a' as int + 10
    } else if 'A' <= c && c <= 'Z' {
        c as int - 'A' as int + 10
    } else {
        radix as int
    };
    if d < radix {
        Some(d as nat)
    } else {
        None
    }
}

/// Every character of `s` is a digit in `radix`.
pub open spec fn all_digits(s: Seq<char>, radix: nat) -> bool {
    forall|i: int| 0 <= i < s.len() ==> (#[trigger] digit_value(s[i], radix)) is Some
}

/// The number that the digits of `s` denote in `radix`, most significant
/// first.
pub open spec fn digits_value(s: Seq<char>, radix: nat) -> nat
    decreases s.len(),
{
    if s.len() == 0 {
        0
    } else {
        digits_value(s.drop_last(), radix) * radix + match digit_value(s.last(), radix) {
            Some(d) => d,
            None => 0,
        }
    }
}

/// What `usize::from_str_radix` gives for the characters `s`: an optional
/// leading `+`, then at least one digit, the whole value at most
/// `usize::MAX`; `None` for anything else.
pub open spec fn spec_parse_usize(s: Seq<char>, radix: nat) -> Option<usize> {
    let digits = if s.len() > 0 && s[0] == '+' {
        s.drop_first()
    } else {
        s
    };
    if digits.len() == 0 || !all_digits(digits, radix) || digits_value(digits, radix)
        > usize::MAX {
        None
    } else {
        Some(digits_value(digits, radix) as usize)
    }
}

/// A single decimal digit reads, in radix ten, as its own value.
pub proof fn law_single_decimal_digit(c: char)
    requires
        '0' <= c <= '9',
    ensures
        spec_parse_usize(seq![c], 10) == Some((c as int - '0' as int) as usize),
{
    let s = seq![c];
    assert(s.drop_last() =~= Seq::<char>::empty());
    assert(digits_value(s.drop_last(), 10) == 0);
    assert(all_digits(s, 10)) by {
        assert forall|i: int| 0 <= i < s.len() implies (#[trigger] digit_value(s[i], 10)) is Some by {
            assert(s[i] == c);
        }
    }
}

/// In radix ten, appending a decimal digit to a number that was read
/// multiplies it by ten and adds the digit, while the result fits.
pub proof fn law_decimal_digit_appended(s: Seq<char>, c: char, v: usize)
    requires
        spec_parse_usize(s, 10) == Some(v),
        '0' <= c <= '9',
        10 * v + (c as int - '0' as int) <= usize::MAX,
    ensures
        spec_parse_usize(s.push(c), 10) == Some((10 * v + (c as int - '0' as int)) as usize),
{
    let t = s.push(c);
    let digits = if s.len() > 0 && s[0] == '+' {
        s.drop_first()
    } else {
        s
    };
    let tdigits = if t.len() > 0 && t[0] == '+' {
        t.drop_first()
    } else {
        t
    };
    assert(s.len() > 0);
    assert(t[0] == s[0]);
    assert(tdigits =~= digits.push(c));
    assert(tdigits.drop_last() =~= digits);
    assert forall|i: int| 0 <= i < tdigits.len() implies (#[trigger] digit_value(tdigits[i], 10)) is Some by {
        if i < digits.len() {
            assert(tdigits[i] == digits[i]);
        }
    }
}

/// A longer run of digits never denotes a smaller number than its prefix.
proof fn lemma_digits_value_prefix(s: Seq<char>, radix: nat, k: int)
    requires
        radix >= 1,
        0 <= k <= s.len(),
    ensures
        digits_value(s.take(k), radix) <= digits_value(s, radix),
    decreases s.len(),
{
    if k < s.len() {
        let p = s.drop_last();
        assert(p.take(k) =~= s.take(k));
        lemma_digits_value_prefix(p, radix, k);
        let v = digits_value(p, radix);
        assert(v <= v * radix) by (nonlinear_arith)
            requires
                radix >= 1,
        ;
    } else {
        assert(s.take(k) =~= s);
    }
}

/// The value of the digit `c` in `radix`, or `None`.
fn digit(c: char, radix: u32) -> (r: Option<u32>)
    requires
        2 <= radix <= 36,
    ensures
        match digit_value(c, radix as nat) {
            Some(d) => r == Some(d as u32),
            None => r is None,
        },
{
    let d: u32 = if '0' <= c && c <= '9' {
        (c as u32) - ('0' as u32)
    } else if 'a' <= c && c <= 'z' {
        (c as u32) - ('a' as u32) + 10
    } else if 'A' <= c && c <= 'Z' {
        (c as u32) - ('A' as u32) + 10
    } else {
        radix
    };
    if d < radix {
        Some(d)
    } else {
        None
    }
}

/// Parses an unsigned number in `radix` from `s`, as `usize::from_str_radix`
/// does.
pub fn parse_usize(s: &str, radix: u32) -> (r: Option<usize>)
    requires
        2 <= radix <= 36,
    ensures
        r == spec_parse_usize(s@, radix as nat),
{
    let n = s.unicode_len();
    let start: usize = if n > 0 && s.get_char(0) == '+' {
        1
    } else {
        0
    };
    let ghost digits = s@.subrange(start as int, n as int);
    assert(digits =~= (if s@.len() > 0 && s@[0] == '+' {
        s@.drop_first()
    } else {
        s@
    }));
    if start == n {
        return None;
    }
    let mut acc: u128 = 0;
    let mut i: usize = start;
    while i < n
        invariant
            start <= i <= n,
            n == s@.len(),
            digits == s@.subrange(start as int, n as int),
            digits == (if s@.len() > 0 && s@[0] == '+' {
                s@.drop_first()
            } else {
                s@
            }),
            digits.len() > 0,
            2 <= radix <= 36,
            acc <= usize::MAX,
            acc == digits_value(digits.take(i - start), radix as nat),
            all_digits(digits.take(i - start), radix as nat),
        decreases n - i,
    {
        let c = s.get_char(i);
        let ghost k: int = i - start;
        match digit(c, radix) {
            None => {
                assert(digits[k] == c);
                assert(digit_value(digits[k], radix as nat) is None);
                return None;
            },
            Some(d) => {
                assert(acc * radix <= 0xffff_ffff_ffff_ffffu128 * 36) by (nonlinear_arith)
                    requires
                        acc <= 0xffff_ffff_ffff_ffffu128,
                        radix <= 36,
                ;
                let next: u128 = acc * (radix as u128) + (d as u128);
                assert(digits.take(k + 1).drop_last() =~= digits.take(k));
                assert(digits.take(k + 1).last() == digits[k]);
                assert(all_digits(digits.take(k + 1), radix as nat)) by {
                    assert forall|j: int| 0 <= j < k + 1 implies (#[trigger] digit_value(
                        digits.take(k + 1)[j],
                        radix as nat,
                    )) is Some by {
                        if j < k {
                            assert(digits.take(k + 1)[j] == digits.take(k)[j]);
                        }
                    }
                }
                if next > (usize::MAX as u128) {
                    proof {
                        if all_digits(digits, radix as nat) {
                            lemma_digits_value_prefix(digits, radix as nat, k + 1);
                        }
                    }
                    return None;
                }
                acc = next;
            },
        }
        i = i + 1;
    }
    assert(digits.take(n - start) =~= digits);
    Some(acc as usize)
}

} // verus!
