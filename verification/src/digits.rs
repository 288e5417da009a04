//! Decimal text: canonical decimal strings (no sign, no leading zero) and
//! unsigned-integer literals as `u64::from_str` accepts them (an optional
//! leading `+`, then one or more digits, leading zeros allowed).

use vstd::prelude::*;

verus! {

pub open spec fn is_digit(c: char) -> bool {
    c == '0' || c == '1' || c == '2' || c == '3' || c == '4' || c == '5' || c == '6' || c == '7'
        || c == '8' || c == '9'
}

pub open spec fn digit_val(c: char) -> nat {
    if c == '0' {
        0
    } else if c == '1' {
        1
    } else if c == '2' {
        2
    } else if c == '3' {
        3
    } else if c == '4' {
        4
    } else if c == '5' {
        5
    } else if c == '6' {
        6
    } else if c == '7' {
        7
    } else if c == '8' {
        8
    } else {
        9
    }
}

pub open spec fn digit_char(v: nat) -> char {
    if v == 0 {
        '0'
    } else if v == 1 {
        '1'
    } else if v == 2 {
        '2'
    } else if v == 3 {
        '3'
    } else if v == 4 {
        '4'
    } else if v == 5 {
        '5'
    } else if v == 6 {
        '6'
    } else if v == 7 {
        '7'
    } else if v == 8 {
        '8'
    } else {
        '9'
    }
}

pub open spec fn all_digits(s: Seq<char>) -> bool {
    forall|i: int| 0 <= i < s.len() ==> is_digit(#[trigger] s[i])
}

/// Numeric value of a sequence of decimal digits.
pub open spec fn uval(s: Seq<char>) -> nat
    decreases s.len(),
{
    if s.len() == 0 {
        0
    } else {
        uval(s.drop_last()) * 10 + digit_val(s.last())
    }
}

/// The digits of an unsigned literal: everything after an optional leading `+`.
pub open spec fn uint_digits(s: Seq<char>) -> Seq<char> {
    if s.len() > 0 && s[0] == '+' {
        s.drop_first()
    } else {
        s
    }
}

/// Whether `s` is an unsigned decimal literal in the sense of `from_str` for
/// the unsigned integer types, ignoring any range bound: an optional leading
/// `+` followed by at least one digit.
pub open spec fn is_uint_literal(s: Seq<char>) -> bool {
    uint_digits(s).len() > 0 && all_digits(uint_digits(s))
}

/// Numeric value of an unsigned decimal literal.
pub open spec fn uint_literal_val(s: Seq<char>) -> nat {
    uval(uint_digits(s))
}

/// Canonical decimal form of `v`: no sign, no leading zero.
pub open spec fn dec_str(v: nat) -> Seq<char>
    decreases v,
{
    if v < 10 {
        seq![digit_char(v)]
    } else {
        dec_str(v / 10).push(digit_char(v % 10))
    }
}

pub proof fn lemma_dec_str_digits(v: nat)
    ensures
        dec_str(v).len() >= 1,
        all_digits(dec_str(v)),
        v >= 1 ==> dec_str(v)[0] != '0',
        v < 10 ==> dec_str(v).len() == 1,
        v >= 10 ==> dec_str(v).len() >= 2,
    decreases v,
{
    if v < 10 {
    } else {
        lemma_dec_str_digits(v / 10);
        assert(forall|i: int|
            0 <= i < dec_str(v).len() ==> dec_str(v)[i] == if i < dec_str(v / 10).len() {
                dec_str(v / 10)[i]
            } else {
                digit_char(v % 10)
            });
    }
}

pub proof fn lemma_uval_dec_str(v: nat)
    ensures
        uval(dec_str(v)) == v,
    decreases v,
{
    if v < 10 {
        let s = seq![digit_char(v)];
        assert(s.drop_last() =~= Seq::<char>::empty());
        assert(uval(s.drop_last()) == 0);
        assert(s.last() == digit_char(v));
        assert(uval(s) == digit_val(digit_char(v)));
        assert(digit_val(digit_char(v)) == v);
    } else {
        lemma_uval_dec_str(v / 10);
        assert(dec_str(v).drop_last() =~= dec_str(v / 10));
        assert(dec_str(v).last() == digit_char(v % 10));
        assert(digit_val(digit_char(v % 10)) == v % 10);
    }
}

pub proof fn lemma_uval_pos(s: Seq<char>)
    requires
        s.len() >= 1,
        all_digits(s),
        s[0] != '0',
    ensures
        uval(s) >= 1,
    decreases s.len(),
{
    if s.len() == 1 {
        assert(digit_val(s[0]) >= 1);
        assert(s.drop_last() =~= Seq::<char>::empty());
    } else {
        assert(s.drop_last()[0] == s[0]);
        assert(all_digits(s.drop_last())) by {
            assert(forall|i: int| 0 <= i < s.drop_last().len() ==> s.drop_last()[i] == s[i]);
        }
        lemma_uval_pos(s.drop_last());
    }
}

proof fn lemma_div10(x: nat, d: nat)
    requires
        d < 10,
    ensures
        (x * 10 + d) / 10 == x,
        (x * 10 + d) % 10 == d,
{
    assert((x * 10 + d) / 10 == x && (x * 10 + d) % 10 == d) by (nonlinear_arith)
        requires
            d < 10,
    ;
}

/// A nonempty digit string with no leading zero is the canonical form of its value.
pub proof fn lemma_canonical_digits(s: Seq<char>)
    requires
        s.len() >= 1,
        all_digits(s),
        s.len() > 1 ==> s[0] != '0',
    ensures
        dec_str(uval(s)) == s,
    decreases s.len(),
{
    if s.len() == 1 {
        assert(s.drop_last() =~= Seq::<char>::empty());
        assert(uval(s.drop_last()) == 0);
        assert(s.last() == s[0]);
        assert(uval(s) == digit_val(s[0]));
        assert(digit_val(s[0]) < 10);
        assert(digit_char(digit_val(s[0])) == s[0]);
        assert(dec_str(uval(s)) =~= s);
    } else {
        let q = s.drop_last();
        let d = digit_val(s.last());
        assert(all_digits(q)) by {
            assert(forall|i: int| 0 <= i < q.len() ==> q[i] == s[i]);
        }
        assert(q[0] == s[0]);
        lemma_canonical_digits(q);
        lemma_uval_pos(q);
        assert(uval(s) == uval(q) * 10 + d);
        lemma_div10(uval(q), d);
        assert(uval(s) >= 10) by {
            assert(uval(q) * 10 >= 10) by (nonlinear_arith)
                requires
                    uval(q) >= 1,
            ;
        }
        assert(dec_str(uval(s)) == dec_str(uval(q)).push(digit_char(d)));
        assert(digit_char(digit_val(s.last())) == s.last());
        assert(q.push(s.last()) =~= s);
    }
}

/// Appending a digit can only increase the value.
pub proof fn lemma_uval_push_ge(s: Seq<char>, c: char)
    ensures
        uval(s.push(c)) >= uval(s),
        uval(s.push(c)) == uval(s) * 10 + digit_val(c),
{
    assert(s.push(c).drop_last() =~= s);
    assert(s.push(c).last() == c);
}

/// Whether `c` is a decimal digit, and its value.
pub fn digit_of(c: char) -> (r: Option<u8>)
    ensures
        match r {
            Some(d) => is_digit(c) && d as nat == digit_val(c) && d < 10,
            None => !is_digit(c),
        },
{
    match c {
        '0' => Some(0),
        '1' => Some(1),
        '2' => Some(2),
        '3' => Some(3),
        '4' => Some(4),
        '5' => Some(5),
        '6' => Some(6),
        '7' => Some(7),
        '8' => Some(8),
        '9' => Some(9),
        _ => None,
    }
}

/// Parses `s` as an unsigned decimal literal, accepting it exactly when its
/// value is at most `bound` (so exactly when `s.parse::<uN>()` with
/// `uN::MAX == bound` would succeed).
pub fn parse_uint_bounded(s: &str, bound: u16) -> (r: Option<u16>)
    ensures
        match r {
            Some(v) => is_uint_literal(s@) && uint_literal_val(s@) <= bound
                && v as nat == uint_literal_val(s@),
            None => !(is_uint_literal(s@) && uint_literal_val(s@) <= bound),
        },
{
    let n = s.unicode_len();
    let start: usize = if n > 0 && s.get_char(0) == '+' {
        1
    } else {
        0
    };
    proof {
        if start == 1 {
            assert(uint_digits(s@) =~= s@.subrange(1, n as int));
        } else {
            assert(uint_digits(s@) =~= s@.subrange(0, n as int));
        }
    }
    let ghost digits = uint_digits(s@);
    if n == start {
        return None;
    }
    let mut acc: u32 = 0;
    let mut too_big = false;
    let mut i: usize = start;
    while i < n
        invariant
            n == s@.len(),
            start <= i <= n,
            digits == uint_digits(s@),
            digits =~= s@.subrange(start as int, n as int),
            all_digits(digits.take(i - start)),
            !too_big ==> acc as nat == uval(digits.take(i - start)) && acc <= bound,
            too_big ==> uval(digits.take(i - start)) > bound,
        decreases n - i,
    {
        let c = s.get_char(i);
        proof {
            assert(digits[i - start] == s@[i as int]);
            assert(digits.take(i - start + 1).drop_last() =~= digits.take(i - start));
            assert(digits.take(i - start + 1).last() == digits[i - start]);
        }
        let d = match digit_of(c) {
            Some(d) => d,
            None => {
                proof {
                    assert(!all_digits(digits)) by {
                        assert(!is_digit(digits[i - start]));
                    }
                }
                return None;
            },
        };
        proof {
            lemma_uval_push_ge(digits.take(i - start), digits[i - start]);
        }
        if !too_big {
            let t = acc * 10 + d as u32;
            if t > bound as u32 {
                too_big = true;
            } else {
                acc = t;
            }
        }
        i = i + 1;
    }
    proof {
        assert(digits.take(n - start) =~= digits);
    }
    if too_big {
        None
    } else {
        Some(acc as u16)
    }
}

} // verus!
