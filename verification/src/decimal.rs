//! Canonical decimal numerals.
//!
//! The record and message codecs prefix every payload with its length written
//! in decimal.  This module defines the canonical numeral of a number, its
//! value, and the executable conversion from a `usize`, together with the
//! facts the codec proofs need: a numeral consists of digits only, carries no
//! leading zero, and is the one canonical digit string with its value.

use vstd::prelude::*;

verus! {

/// The digit character for a value below ten.
pub open spec fn digit_char(d: int) -> char {
    if d == 0 {
        '0'
    } else if d == 1 {
        '1'
    } else if d == 2 {
        '2'
    } else if d == 3 {
        '3'
    } else if d == 4 {
        '4'
    } else if d == 5 {
        '5'
    } else if d == 6 {
        '6'
    } else if d == 7 {
        '7'
    } else if d == 8 {
        '8'
    } else {
        '9'
    }
}

/// The numeric value of a digit character.
pub open spec fn digit_val(c: char) -> int {
    c as int - 48
}

pub open spec fn is_digit(c: char) -> bool {
    48 <= c as int <= 57
}

/// The canonical decimal numeral of `n`: most significant digit first,
/// no leading zero.
pub open spec fn spec_digits(n: nat) -> Seq<char>
    decreases n,
{
    if n < 10 {
        seq![digit_char(n as int)]
    } else {
        spec_digits(n / 10) + seq![digit_char((n % 10) as int)]
    }
}

/// The value of a digit string, most significant digit first.
pub open spec fn digits_val(s: Seq<char>) -> int
    decreases s.len(),
{
    if s.len() == 0 {
        0
    } else {
        digits_val(s.drop_last()) * 10 + digit_val(s.last())
    }
}

pub open spec fn all_digits(s: Seq<char>) -> bool {
    forall|i: int| 0 <= i < s.len() ==> is_digit(s[i])
}

/// A digit string in the image of `spec_digits`: nonempty, digits only,
/// and no leading zero.
pub open spec fn is_canonical_digits(s: Seq<char>) -> bool {
    &&& s.len() >= 1
    &&& all_digits(s)
    &&& (s.len() > 1 ==> s[0] != '0')
}

/// The value of a one-character digit string.
pub proof fn lemma_digits_val_single(s: Seq<char>)
    requires
        s.len() == 1,
    ensures
        digits_val(s) == digit_val(s[0]),
{
    assert(s.drop_last() =~= Seq::<char>::empty());
    assert(digits_val(Seq::<char>::empty()) == 0);
}

pub proof fn lemma_digits_canonical(n: nat)
    ensures
        is_canonical_digits(spec_digits(n)),
        digits_val(spec_digits(n)) == n,
    decreases n,
{
    if n < 10 {
        assert(spec_digits(n) =~= seq![digit_char(n as int)]);
        lemma_digits_val_single(spec_digits(n));
    } else {
        lemma_digits_canonical(n / 10);
        let prefix = spec_digits(n / 10);
        let whole = spec_digits(n);
        assert(whole =~= prefix + seq![digit_char((n % 10) as int)]);
        assert(whole.drop_last() =~= prefix);
        assert(whole.last() == digit_char((n % 10) as int));
        assert(digits_val(whole) == (n / 10) * 10 + n % 10);
        assert((n / 10) * 10 + n % 10 == n) by {
            vstd::arithmetic::div_mod::lemma_fundamental_div_mod(n as int, 10);
        }
        assert(n / 10 >= 1);
        assert(whole[0] == prefix[0]);
        if prefix.len() == 1 {
            lemma_digits_val_single(prefix);
            assert(digit_val(prefix[0]) >= 1);
            assert(prefix[0] != '0');
        }
    }
}

/// A digit string that does not start with '0' has a positive value.
proof fn lemma_digits_val_positive(s: Seq<char>)
    requires
        all_digits(s),
        s.len() >= 1,
        s[0] != '0',
    ensures
        digits_val(s) >= 1,
    decreases s.len(),
{
    if s.len() == 1 {
        lemma_digits_val_single(s);
        assert(digit_val(s[0]) >= 1);
    } else {
        let p = s.drop_last();
        assert(p[0] == s[0]);
        assert(all_digits(p)) by {
            assert(forall|i: int| 0 <= i < p.len() ==> p[i] == s[i]);
        }
        lemma_digits_val_positive(p);
        assert(digits_val(p) * 10 >= 10) by (nonlinear_arith)
            requires
                digits_val(p) >= 1,
        ;
        assert(digit_val(s.last()) >= 0);
    }
}

pub proof fn lemma_digits_val_nonneg(s: Seq<char>)
    requires
        all_digits(s),
    ensures
        digits_val(s) >= 0,
    decreases s.len(),
{
    if s.len() > 0 {
        let p = s.drop_last();
        assert(all_digits(p)) by {
            assert(forall|i: int| 0 <= i < p.len() ==> p[i] == s[i]);
        }
        lemma_digits_val_nonneg(p);
        assert(digit_val(s.last()) >= 0);
    }
}

/// A canonical digit string is the canonical numeral of its value.
pub proof fn lemma_canonical_digits_unique(s: Seq<char>)
    requires
        is_canonical_digits(s),
    ensures
        spec_digits(digits_val(s) as nat) == s,
    decreases s.len(),
{
    lemma_digits_val_nonneg(s);
    let n = digits_val(s) as nat;
    if s.len() == 1 {
        assert(0 <= digit_val(s[0]) <= 9);
        lemma_digits_val_single(s);
        assert(n < 10);
        assert(digit_char(digit_val(s[0])) == s[0]);
        assert(spec_digits(n) =~= seq![digit_char(n as int)]);
        assert(spec_digits(n) =~= s);
    } else {
        let p = s.drop_last();
        assert(p[0] == s[0]);
        assert(all_digits(p)) by {
            assert(forall|i: int| 0 <= i < p.len() ==> p[i] == s[i]);
        }
        assert(is_canonical_digits(p));
        lemma_canonical_digits_unique(p);
        lemma_digits_val_positive(p);
        let v = digits_val(p);
        let d = digit_val(s.last());
        assert(digits_val(s) == v * 10 + d);
        assert(v >= 1);
        assert(0 <= d <= 9);
        assert(n >= 10) by {
            assert(v * 10 >= 10) by (nonlinear_arith)
                requires
                    v >= 1,
            ;
        }
        assert(n as int / 10 == v && n as int % 10 == d) by {
            vstd::arithmetic::div_mod::lemma_fundamental_div_mod_converse(n as int, 10, v, d);
        }
        assert(spec_digits(n) == spec_digits((n / 10) as nat) + seq![digit_char((n % 10) as int)]);
        assert(spec_digits((n / 10) as nat) == p);
        assert(digit_char(d) == s.last());
        assert(spec_digits(n) =~= s);
    }
}

/// The end of the run of digit characters that begins at `i`: the first
/// position at or after `i` holding a non-digit, or the end of the string.
pub open spec fn digit_run_end(s: Seq<char>, i: int) -> int
    decreases s.len() - i when i <= s.len()
{
    if i >= s.len() || !is_digit(s[i]) {
        i
    } else {
        digit_run_end(s, i + 1)
    }
}

pub proof fn lemma_digit_run_end_props(s: Seq<char>, i: int)
    requires
        0 <= i <= s.len(),
    ensures
        i <= digit_run_end(s, i) <= s.len(),
        forall|k: int| i <= k < digit_run_end(s, i) ==> is_digit(#[trigger] s[k]),
        digit_run_end(s, i) == s.len() || !is_digit(s[digit_run_end(s, i)]),
    decreases s.len() - i,
{
    if i < s.len() && is_digit(s[i]) {
        lemma_digit_run_end_props(s, i + 1);
    }
}

/// Appending further digits to a digit string cannot shrink its value.
pub proof fn lemma_digits_val_prefix_le(s: Seq<char>, m: int)
    requires
        all_digits(s),
        0 <= m <= s.len(),
    ensures
        digits_val(s.subrange(0, m)) <= digits_val(s),
    decreases s.len() - m,
{
    if m == s.len() {
        assert(s.subrange(0, m) =~= s);
    } else {
        let t = s.subrange(0, m + 1);
        let p = s.subrange(0, m);
        assert(t.drop_last() =~= p);
        assert(all_digits(p)) by {
            assert(forall|i: int| 0 <= i < p.len() ==> p[i] == s[i]);
        }
        lemma_digits_val_nonneg(p);
        assert(digits_val(t) == digits_val(p) * 10 + digit_val(t.last()));
        assert(digits_val(p) * 10 >= digits_val(p)) by (nonlinear_arith)
            requires
                digits_val(p) >= 0,
        ;
        assert(digit_val(t.last()) >= 0);
        lemma_digits_val_prefix_le(s, m + 1);
    }
}

/// The one-character string for a digit value.
fn digit_str(d: usize) -> (s: &'static str)
    requires
        d < 10,
    ensures
        s@ =~= seq![digit_char(d as int)],
{
    proof {
        reveal_strlit("0");
        reveal_strlit("1");
        reveal_strlit("2");
        reveal_strlit("3");
        reveal_strlit("4");
        reveal_strlit("5");
        reveal_strlit("6");
        reveal_strlit("7");
        reveal_strlit("8");
        reveal_strlit("9");
    }
    match d {
        0 => "0",
        1 => "1",
        2 => "2",
        3 => "3",
        4 => "4",
        5 => "5",
        6 => "6",
        7 => "7",
        8 => "8",
        _ => "9",
    }
}

/// The canonical decimal numeral of `n`.
pub fn usize_to_decimal(n: usize) -> (s: String)
    ensures
        s@ == spec_digits(n as nat),
    decreases n,
{
    if n < 10 {
        String::from_str(digit_str(n))
    } else {
        proof {
            vstd::arithmetic::div_mod::lemma_fundamental_div_mod(n as int, 10);
        }
        let mut s = usize_to_decimal(n / 10);
        s.append(digit_str(n % 10));
        proof {
            assert(s@ =~= spec_digits((n / 10) as nat) + seq![digit_char((n % 10) as int)]);
        }
        s
    }
}

} // verus!
