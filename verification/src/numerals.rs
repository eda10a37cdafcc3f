//! Decimal numerals for user identifiers.
//!
//! Identifiers are `u64` values inside the engine but travel as decimal
//! strings on the wire. [`dec_digits`] is the canonical numeral of a number;
//! [`u64_to_dec`] renders it and [`parse_u64_dec`] recognises exactly the
//! canonical numerals, so that a looked-up identifier string matches at most
//! one user.

use vstd::prelude::*;

verus! {

broadcast use vstd::utf8::char_u32_cast;

/// A digit character is recovered from its value.
proof fn lemma_digit_char_val(c: char)
    requires
        is_digit_char(c),
    ensures
        digit_char(digit_val(c)) == c,
        digit_val(c) < 10,
{
    assert('0' as u32 == 48 && '1' as u32 == 49 && '2' as u32 == 50 && '3' as u32 == 51 && '4'
        as u32 == 52 && '5' as u32 == 53 && '6' as u32 == 54 && '7' as u32 == 55 && '8' as u32
        == 56 && '9' as u32 == 57);
}

/// The value of a digit's character is the digit.
proof fn lemma_digit_val_char(d: nat)
    requires
        d < 10,
    ensures
        digit_val(digit_char(d)) == d,
        is_digit_char(digit_char(d)),
{
    assert('0' as u32 == 48 && '1' as u32 == 49 && '2' as u32 == 50 && '3' as u32 == 51 && '4'
        as u32 == 52 && '5' as u32 == 53 && '6' as u32 == 54 && '7' as u32 == 55 && '8' as u32
        == 56 && '9' as u32 == 57);
}

/// Distinct digit characters carry distinct values.
proof fn lemma_digit_char_nonzero(c: char)
    requires
        is_digit_char(c),
        c != '0',
    ensures
        digit_val(c) >= 1,
{
    assert('0' as u32 == 48);
}

/// Whether `c` is a decimal digit.
pub open spec fn is_digit_char(c: char) -> bool {
    48 <= c as u32 <= 57
}

/// The value of the digit `c`.
pub open spec fn digit_val(c: char) -> nat {
    (c as u32 - 48) as nat
}

/// The digit character for a value below ten.
pub open spec fn digit_char(d: nat) -> char {
    if d == 0 {
        '0'
    } else if d == 1 {
        '1'
    } else if d == 2 {
        '2'
    } else if d == 3 {
        '3'
    } else if d == 4 {
        '4'
    } else if d == 5 {
        '5'
    } else if d == 6 {
        '6'
    } else if d == 7 {
        '7'
    } else if d == 8 {
        '8'
    } else {
        '9'
    }
}

/// The canonical decimal numeral of `n`: no sign, no leading zero.
pub open spec fn dec_digits(n: nat) -> Seq<char>
    decreases n,
{
    if n < 10 {
        seq![digit_char(n)]
    } else {
        dec_digits(n / 10).push(digit_char(n % 10))
    }
}

/// Whether every character of `s` is a decimal digit.
pub open spec fn all_digits(s: Seq<char>) -> bool {
    forall|i: int| 0 <= i < s.len() ==> is_digit_char(#[trigger] s[i])
}

/// The number a digit string denotes.
pub open spec fn seq_val(s: Seq<char>) -> nat
    decreases s.len(),
{
    if s.len() == 0 {
        0
    } else {
        seq_val(s.drop_last()) * 10 + digit_val(s.last())
    }
}

/// Whether `s` is in canonical form: nonempty, digits only, and no leading
/// zero except for the numeral of zero itself.
pub open spec fn is_canonical(s: Seq<char>) -> bool {
    &&& s.len() >= 1
    &&& all_digits(s)
    &&& (s[0] != '0' || s.len() == 1)
}

/// The canonical numeral of every number is canonical and denotes it.
pub proof fn lemma_dec_digits_props(n: nat)
    ensures
        is_canonical(dec_digits(n)),
        seq_val(dec_digits(n)) == n,
        n >= 1 ==> dec_digits(n)[0] != '0',
    decreases n,
{
    if n < 10 {
        lemma_digit_val_char(n);
        let s = dec_digits(n);
        assert(s.drop_last() =~= Seq::<char>::empty());
        assert(seq_val(s.drop_last()) == 0);
        assert(seq_val(s) == n);
    } else {
        lemma_dec_digits_props(n / 10);
        lemma_digit_val_char(n % 10);
        let s = dec_digits(n / 10).push(digit_char(n % 10));
        assert(s.drop_last() =~= dec_digits(n / 10));
        assert(s.last() == digit_char(n % 10));
        vstd::arithmetic::div_mod::lemma_fundamental_div_mod(n as int, 10);
    }
}

/// Two different numbers never share a numeral.
pub proof fn lemma_dec_digits_injective(a: nat, b: nat)
    requires
        dec_digits(a) == dec_digits(b),
    ensures
        a == b,
{
    lemma_dec_digits_props(a);
    lemma_dec_digits_props(b);
}

/// A canonical digit string is the numeral of the number it denotes.
pub proof fn lemma_canonical_is_dec(s: Seq<char>)
    requires
        is_canonical(s),
    ensures
        dec_digits(seq_val(s)) == s,
    decreases s.len(),
{
    let v = seq_val(s);
    if s.len() == 1 {
        assert(s.drop_last() =~= Seq::<char>::empty());
        assert(seq_val(s.drop_last()) == 0);
        assert(s.last() == s[0]);
        assert(v == digit_val(s[0]));
        lemma_digit_char_val(s[0]);
        assert(dec_digits(v) =~= s);
    } else {
        let p = s.drop_last();
        let d = digit_val(s.last());
        assert(is_canonical(p)) by {
            assert(forall|i: int| 0 <= i < p.len() ==> is_digit_char(#[trigger] p[i])) by {
                assert(forall|i: int| 0 <= i < p.len() ==> p[i] == s[i]);
            }
        }
        lemma_canonical_is_dec(p);
        lemma_seq_val_lower_bound(p);
        assert(v == seq_val(p) * 10 + d);
        assert(seq_val(p) >= 1);
        assert(v >= 10);
        vstd::arithmetic::div_mod::lemma_fundamental_div_mod_converse(
            v as int,
            10,
            seq_val(p) as int,
            d as int,
        );
        assert(v / 10 == seq_val(p) && v % 10 == d);
        lemma_digit_char_val(s.last());
        assert(digit_char(d) == s.last());
        assert(dec_digits(v) =~= p.push(s.last()));
        assert(p.push(s.last()) =~= s);
    }
}

/// A canonical digit string with a nonzero leading digit denotes at least one.
proof fn lemma_seq_val_lower_bound(s: Seq<char>)
    requires
        s.len() >= 1,
        all_digits(s),
        s[0] != '0',
    ensures
        seq_val(s) >= 1,
    decreases s.len(),
{
    if s.len() == 1 {
        lemma_digit_char_nonzero(s[0]);
    } else {
        let p = s.drop_last();
        assert(p[0] == s[0]);
        assert(forall|i: int| 0 <= i < p.len() ==> p[i] == s[i]);
        lemma_seq_val_lower_bound(p);
    }
}

/// Appending digits never shrinks the denoted value.
proof fn lemma_seq_val_prefix_monotone(s: Seq<char>, i: int, j: int)
    requires
        0 <= i <= j <= s.len(),
    ensures
        seq_val(s.take(i)) <= seq_val(s.take(j)),
    decreases j - i,
{
    if i < j {
        lemma_seq_val_prefix_monotone(s, i, j - 1);
        assert(s.take(j).drop_last() =~= s.take(j - 1));
        assert(seq_val(s.take(j)) == seq_val(s.take(j - 1)) * 10 + digit_val(s.take(j).last()));
    }
}

/// No numeral of a `u64` matches a string that is not canonical or denotes
/// a value beyond `u64::MAX`.
pub proof fn lemma_no_dec_match(s: Seq<char>)
    requires
        !(is_canonical(s) && seq_val(s) <= u64::MAX),
    ensures
        forall|n: u64| dec_digits(n as nat) != s,
{
    assert forall|n: u64| dec_digits(n as nat) != s by {
        lemma_dec_digits_props(n as nat);
        if dec_digits(n as nat) == s {
            assert(is_canonical(s));
            assert(seq_val(s) == n as nat);
        }
    }
}

/// The digit character for an executable digit value.
fn digit_str(d: u64) -> (r: &'static str)
    requires
        d < 10,
    ensures
        r@ =~= seq![digit_char(d as nat)],
{
    let r: &'static str = if d == 0 {
        "0"
    } else if d == 1 {
        "1"
    } else if d == 2 {
        "2"
    } else if d == 3 {
        "3"
    } else if d == 4 {
        "4"
    } else if d == 5 {
        "5"
    } else if d == 6 {
        "6"
    } else if d == 7 {
        "7"
    } else if d == 8 {
        "8"
    } else {
        "9"
    };
    proof {
        reveal_strlit("0");
        reveal_strlit("1");
        reveal_strlit("2");
        reveal_strlit("3");
        reveal_strlit("4");
        reveal_strlit("5");
        reveal_strlit("6");
        reveal_strlit("7");
        reveal_strlit("8");
        reveal_strlit("9");
    }
    r
}

/// Appends the canonical numeral of `n` to `out`.
fn push_dec(n: u64, out: &mut String)
    ensures
        final(out)@ == old(out)@ + dec_digits(n as nat),
    decreases n,
{
    if n >= 10 {
        push_dec(n / 10, out);
        let ghost mid = out@;
        out.append(digit_str(n % 10));
        proof {
            assert(final(out)@ =~= old(out)@ + dec_digits(n as nat));
        }
    } else {
        out.append(digit_str(n));
        proof {
            assert(final(out)@ =~= old(out)@ + dec_digits(n as nat));
        }
    }
}

/// The canonical decimal numeral of `n`.
pub fn u64_to_dec(n: u64) -> (r: String)
    ensures
        r@ == dec_digits(n as nat),
{
    let mut out = String::new();
    push_dec(n, &mut out);
    proof {
        assert(out@ =~= dec_digits(n as nat));
    }
    out
}

/// Recognises exactly the canonical numerals of `u64` values.
pub fn parse_u64_dec(s: &str) -> (r: Option<u64>)
    ensures
        match r {
            Some(n) => s@ == dec_digits(n as nat),
            None => forall|n: u64| dec_digits(n as nat) != s@,
        },
{
    let len = s.unicode_len();
    if len == 0 {
        proof {
            lemma_no_dec_match(s@);
        }
        return None;
    }
    let first = s.get_char(0);
    if len > 1 && first == '0' {
        proof {
            lemma_no_dec_match(s@);
        }
        return None;
    }
    let mut acc: u64 = 0;
    let mut i: usize = 0;
    while i < len
        invariant
            0 <= i <= len,
            len == s@.len(),
            len >= 1,
            s@[0] != '0' || len == 1,
            all_digits(s@.take(i as int)),
            acc as nat == seq_val(s@.take(i as int)),
        decreases len - i,
    {
        let c = s.get_char(i);
        let u = c as u32;
        if u < 48 || u > 57 {
            proof {
                assert(!is_digit_char(s@[i as int]));
                lemma_no_dec_match(s@);
            }
            return None;
        }
        let d = (u - 48) as u64;
        let next = match acc.checked_mul(10) {
            Some(m) => m.checked_add(d),
            None => None,
        };
        match next {
            Some(v) => {
                acc = v;
                proof {
                    assert(s@.take(i + 1).drop_last() =~= s@.take(i as int));
                    assert(s@.take(i + 1).last() == s@[i as int]);
                }
                i = i + 1;
            },
            None => {
                proof {
                    assert(s@.take(i + 1).drop_last() =~= s@.take(i as int));
                    assert(s@.take(i + 1).last() == s@[i as int]);
                    assert(seq_val(s@.take(i + 1)) > u64::MAX);
                    lemma_seq_val_prefix_monotone(s@, i + 1, s@.len() as int);
                    assert(s@.take(s@.len() as int) =~= s@);
                    lemma_no_dec_match(s@);
                }
                return None;
            },
        }
    }
    proof {
        assert(s@.take(len as int) =~= s@);
        lemma_canonical_is_dec(s@);
    }
    Some(acc)
}

} // verus!
