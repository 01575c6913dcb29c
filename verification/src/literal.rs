//! The literals of the filter language and of series names: decimal counts
//! and the two flags.

use crate::text::Text;
use vstd::prelude::*;
use vstd::string::*;

verus! {

/// The character of the decimal digit `d`.
pub open spec fn digit_char(d: int) -> char {
    if d == 0 {
        '0'
    } else if d == 1 {
        '1'
    } else if d == 2 {
        '2'
    } else if d == 3 {
        '3'
    } else if d == 4 {
        '4'
    } else if d == 5 {
        '5'
    } else if d == 6 {
        '6'
    } else if d == 7 {
        '7'
    } else if d == 8 {
        '8'
    } else {
        '9'
    }
}

/// `c` is one of the ten decimal digits.
pub open spec fn is_digit(c: char) -> bool {
    '0' <= c <= '9'
}

/// The value of the decimal digit `c`.
pub open spec fn digit_value(c: char) -> int {
    c as u32 - 48
}

/// Every character of `s` is a decimal digit.
pub open spec fn all_digits(s: Text) -> bool {
    forall|i: int| 0 <= i < s.len() ==> is_digit(#[trigger] s[i])
}

/// The number that the digits `s` write in base ten.
pub open spec fn digits_value(s: Text) -> int
    decreases s.len(),
{
    if s.len() == 0 {
        0
    } else {
        digits_value(s.drop_last()) * 10 + digit_value(s.last())
    }
}

/// `n` written in base ten, without sign or leading zeros.
pub open spec fn decimal(n: nat) -> Text
    decreases n,
{
    if n < 10 {
        seq![digit_char(n as int)]
    } else {
        decimal(n / 10).push(digit_char((n % 10) as int))
    }
}

/// The count that the text `s` writes: an optional `+`, then one or more
/// decimal digits, whose value fits in 64 bits. Any other text writes none.
pub open spec fn parse_count(s: Text) -> Option<u64> {
    let body = if s.len() > 0 && s[0] == '+' {
        s.drop_first()
    } else {
        s
    };
    if body.len() > 0 && all_digits(body) && digits_value(body) <= u64::MAX {
        Some(digits_value(body) as u64)
    } else {
        None
    }
}

/// The flag that the text `s` writes: `true` or `false`, spelled so and in
/// no other way.
pub open spec fn parse_flag(s: Text) -> Option<bool> {
    if s == seq!['t', 'r', 'u', 'e'] {
        Some(true)
    } else if s == seq!['f', 'a', 'l', 's', 'e'] {
        Some(false)
    } else {
        None
    }
}

/// The text of a flag.
pub open spec fn flag_text(b: bool) -> Text {
    if b {
        seq!['t', 'r', 'u', 'e']
    } else {
        seq!['f', 'a', 'l', 's', 'e']
    }
}

/// The value of a text of digits is not negative and grows with the text.
pub proof fn lemma_digits_value_prefix(s: Text, k: int)
    requires
        all_digits(s),
        0 <= k <= s.len(),
    ensures
        0 <= digits_value(s.take(k)) <= digits_value(s),
    decreases s.len(),
{
    if s.len() == 0 {
        assert(s.take(k) =~= s);
    } else if k == s.len() {
        assert(s.take(k) =~= s);
        lemma_digits_value_prefix(s.drop_last(), k - 1);
        assert(is_digit(s.last()));
    } else {
        lemma_digits_value_prefix(s.drop_last(), k);
        assert(s.drop_last().take(k) =~= s.take(k));
        assert(is_digit(s.last()));
    }
}

/// The decimal text of a number is not empty, is made of digits, and writes
/// that number.
pub proof fn lemma_decimal(n: nat)
    ensures
        decimal(n).len() > 0,
        all_digits(decimal(n)),
        digits_value(decimal(n)) == n,
    decreases n,
{
    if n < 10 {
        let s = decimal(n);
        assert(s.drop_last() =~= Seq::<char>::empty());
        assert(digits_value(s.drop_last()) == 0);
    } else {
        lemma_decimal(n / 10);
        let s = decimal(n);
        assert(s.drop_last() =~= decimal(n / 10));
    }
}

/// Reading back what was written gives the number again.
pub proof fn lemma_parse_count_of_decimal(n: u64)
    ensures
        parse_count(decimal(n as nat)) == Some(n),
        parse_flag(decimal(n as nat)) is None,
{
    lemma_decimal(n as nat);
    let s = decimal(n as nat);
    assert(is_digit(s[0]));
}

/// Reading back the text of a flag gives the flag again.
pub proof fn lemma_parse_flag_of_text(b: bool)
    ensures
        parse_flag(flag_text(b)) == Some(b),
{
    if !b {
        assert(flag_text(false)[0] != seq!['t', 'r', 'u', 'e'][0]);
    }
}

/// The text of the decimal digit `d`.
fn digit_text(d: u64) -> (r: &'static str)
    requires
        d < 10,
    ensures
        r@ == seq![digit_char(d as int)],
{
    proof {
        reveal_strlit("0");
        reveal_strlit("1");
        reveal_strlit("2");
        reveal_strlit("3");
        reveal_strlit("4");
        reveal_strlit("5");
        reveal_strlit("6");
        reveal_strlit("7");
        reveal_strlit("8");
        reveal_strlit("9");
    }
    if d == 0 {
        "0"
    } else if d == 1 {
        "1"
    } else if d == 2 {
        "2"
    } else if d == 3 {
        "3"
    } else if d == 4 {
        "4"
    } else if d == 5 {
        "5"
    } else if d == 6 {
        "6"
    } else if d == 7 {
        "7"
    } else if d == 8 {
        "8"
    } else {
        "9"
    }
}

/// Appends `n` in base ten to `out`.
pub fn push_decimal(out: &mut String, n: u64)
    ensures
        final(out)@ == old(out)@ + decimal(n as nat),
    decreases n,
{
    if n >= 10 {
        push_decimal(out, n / 10);
    }
    out.append(digit_text(n % 10));
    proof {
        if n >= 10 {
            assert(old(out)@ + decimal((n / 10) as nat) + seq![digit_char((n % 10) as int)]
                =~= old(out)@ + decimal(n as nat));
        }
    }
}

/// Appends the text of the flag `b` to `out`.
pub fn push_flag(out: &mut String, b: bool)
    ensures
        final(out)@ == old(out)@ + flag_text(b),
{
    proof {
        reveal_strlit("true");
        reveal_strlit("false");
    }
    if b {
        out.append("true");
        assert("true"@ =~= flag_text(true));
    } else {
        out.append("false");
        assert("false"@ =~= flag_text(false));
    }
}

/// The flag that `v[from..to]` writes.
pub fn read_flag(v: &Vec<char>, from: usize, to: usize) -> (r: Option<bool>)
    requires
        from <= to <= v@.len(),
    ensures
        r == parse_flag(v@.subrange(from as int, to as int)),
{
    let ghost s = v@.subrange(from as int, to as int);
    let n = to - from;
    if n == 4 && v[from] == 't' && v[from + 1] == 'r' && v[from + 2] == 'u' && v[from + 3]
        == 'e' {
        assert(s =~= seq!['t', 'r', 'u', 'e']);
        Some(true)
    } else if n == 5 && v[from] == 'f' && v[from + 1] == 'a' && v[from + 2] == 'l' && v[from + 3]
        == 's' && v[from + 4] == 'e' {
        assert(s =~= seq!['f', 'a', 'l', 's', 'e']);
        Some(false)
    } else {
        proof {
            let yes = seq!['t', 'r', 'u', 'e'];
            let no = seq!['f', 'a', 'l', 's', 'e'];
            if s == yes {
                assert(s.len() == 4);
                assert(s[0] == yes[0] && s[1] == yes[1] && s[2] == yes[2] && s[3] == yes[3]);
                assert(s[0] == v@[from as int] && s[1] == v@[from + 1] && s[2] == v@[from + 2]
                    && s[3] == v@[from + 3]);
            }
            if s == no {
                assert(s.len() == 5);
                assert(s[0] == no[0] && s[1] == no[1] && s[2] == no[2] && s[3] == no[3] && s[4]
                    == no[4]);
                assert(s[0] == v@[from as int] && s[1] == v@[from + 1] && s[2] == v@[from + 2]
                    && s[3] == v@[from + 3] && s[4] == v@[from + 4]);
            }
        }
        None
    }
}

/// The count that `v[from..to]` writes.
pub fn read_count(v: &Vec<char>, from: usize, to: usize) -> (r: Option<u64>)
    requires
        from <= to <= v@.len(),
    ensures
        r == parse_count(v@.subrange(from as int, to as int)),
{
    let ghost s = v@.subrange(from as int, to as int);
    proof {
        if from < to {
            assert(s[0] == v@[from as int]);
        }
    }
    let start: usize = if from < to && v[from] == '+' {
        from + 1
    } else {
        from
    };
    let ghost body = v@.subrange(start as int, to as int);
    let ghost expected = parse_count(s);
    proof {
        if start > from {
            assert(s.drop_first() =~= body);
        } else {
            assert(s =~= body);
            if s.len() > 0 {
                assert(s[0] == v@[from as int]);
            }
        }
    }
    if start == to {
        return None;
    }
    let mut acc: u64 = 0;
    let mut i: usize = start;
    proof {
        assert(body.take(0) =~= Seq::<char>::empty());
    }
    while i < to
        invariant
            start <= i <= to <= v@.len(),
            body == v@.subrange(start as int, to as int),
            body.len() > 0,
            from <= start,
            expected == parse_count(v@.subrange(from as int, to as int)),
            expected == if all_digits(body) && digits_value(body) <= u64::MAX {
                Some(digits_value(body) as u64)
            } else {
                None
            },
            all_digits(body.take(i - start)),
            acc == digits_value(body.take(i - start)),
        decreases to - i,
    {
        let c = v[i];
        let ghost next = body.take(i - start + 1);
        proof {
            assert(next.drop_last() =~= body.take(i - start));
            assert(next.last() == c);
        }
        if !(c >= '0' && c <= '9') {
            proof {
                assert(body[i - start] == c);
            }
            return None;
        }
        let d: u64 = (c as u32 - 48) as u64;
        proof {
            assert forall|j: int| 0 <= j < next.len() implies is_digit(#[trigger] next[j]) by {
                if j < next.len() - 1 {
                    assert(next[j] == body.take(i - start)[j]);
                }
            }
        }
        let grown = match acc.checked_mul(10) {
            Some(m) => m.checked_add(d),
            None => None,
        };
        match grown {
            Some(g) => {
                acc = g;
            },
            None => {
                proof {
                    assert(digits_value(next) > u64::MAX);
                    if all_digits(body) {
                        lemma_digits_value_prefix(body, i - start + 1);
                    }
                }
                return None;
            },
        }
        i = i + 1;
    }
    proof {
        assert(body.take(to - start) =~= body);
    }
    Some(acc)
}

} // verus!
