//! Decimal digit strings.
//!
//! Monetary amounts and cursors travel as text. This module gives the
//! specification-level meaning of a digit string and the verified routines
//! that turn numbers into digits and back.

use vstd::prelude::*;

verus! {

/// Relies on String::push: appends exactly the given character.
#[verifier::external_body]
pub fn push_char(s: &mut String, c: char)
    ensures
        final (s)@ == old(s)@.push(c),
{
    s.push(c);
}

/// The numeric value of a decimal digit character.
pub open spec fn digit_val(c: char) -> int {
    c as u32 - 48
}

/// Whether `c` is a decimal digit.
pub open spec fn is_digit_char(c: char) -> bool {
    48 <= c as u32 <= 57
}

/// Whether every character of `s` is a decimal digit.
pub open spec fn all_digits(s: Seq<char>) -> bool {
    forall|i: int| 0 <= i < s.len() ==> is_digit_char(s[i])
}

/// The digit character for a value below ten.
pub open spec fn digit_char(d: int) -> char {
    if d == 0 {
        '0'
    } else if d == 1 {
        '1'
    } else if d == 2 {
        '2'
    } else if d == 3 {
        '3'
    } else if d == 4 {
        '4'
    } else if d == 5 {
        '5'
    } else if d == 6 {
        '6'
    } else if d == 7 {
        '7'
    } else if d == 8 {
        '8'
    } else {
        '9'
    }
}

/// The value of a digit string read most significant digit first. An empty
/// string reads as zero.
pub open spec fn digits_val(s: Seq<char>) -> int
    decreases s.len(),
{
    if s.len() == 0 {
        0
    } else {
        digits_val(s.drop_last()) * 10 + digit_val(s.last())
    }
}

/// The canonical digit string of `n`: no leading zeros, and a single zero
/// digit for zero itself.
pub open spec fn spec_digits(n: nat) -> Seq<char>
    decreases n,
{
    if n < 10 {
        seq![digit_char(n as int)]
    } else {
        spec_digits(n / 10).push(digit_char((n % 10) as int))
    }
}

/// A run of `n` zero digits.
pub open spec fn zeros(n: nat) -> Seq<char> {
    Seq::new(n, |i| '0')
}

pub proof fn lemma_digit_char_val(d: int)
    requires
        0 <= d < 10,
    ensures
        is_digit_char(digit_char(d)),
        digit_val(digit_char(d)) == d,
{
}

pub proof fn lemma_digits_val_nonneg(s: Seq<char>)
    requires
        all_digits(s),
    ensures
        digits_val(s) >= 0,
    decreases s.len(),
{
    if s.len() > 0 {
        assert(all_digits(s.drop_last()));
        lemma_digits_val_nonneg(s.drop_last());
    }
}

/// Reading the canonical digits of `n` yields `n` again.
pub proof fn lemma_spec_digits_val(n: nat)
    ensures
        digits_val(spec_digits(n)) == n,
        all_digits(spec_digits(n)),
        spec_digits(n).len() >= 1,
    decreases n,
{
    if n < 10 {
        lemma_digit_char_val(n as int);
        assert(spec_digits(n).drop_last() =~= Seq::<char>::empty());
        assert(spec_digits(n).last() == digit_char(n as int));
        assert(digits_val(Seq::<char>::empty()) == 0);
    } else {
        lemma_spec_digits_val(n / 10);
        lemma_digit_char_val((n % 10) as int);
        assert(spec_digits(n).drop_last() =~= spec_digits(n / 10));
        assert(spec_digits(n).last() == digit_char((n % 10) as int));
        assert(digits_val(spec_digits(n)) == (n / 10) * 10 + n % 10);
        assert(n == (n / 10) * 10 + n % 10) by (nonlinear_arith);
    }
}

/// Leading zeros do not change the value of a digit string.
pub proof fn lemma_digits_val_leading_zeros(n: nat, s: Seq<char>)
    ensures
        digits_val(zeros(n) + s) == digits_val(s),
    decreases s.len(),
{
    if s.len() == 0 {
        lemma_zeros_val(n);
        assert(zeros(n) + s =~= zeros(n));
    } else {
        lemma_digits_val_leading_zeros(n, s.drop_last());
        assert((zeros(n) + s).drop_last() =~= zeros(n) + s.drop_last());
        assert((zeros(n) + s).last() == s.last());
    }
}

proof fn lemma_zeros_val(n: nat)
    ensures
        digits_val(zeros(n)) == 0,
    decreases n,
{
    if n > 0 {
        lemma_zeros_val((n - 1) as nat);
        assert(zeros(n).drop_last() =~= zeros((n - 1) as nat));
        assert(zeros(n).last() == '0');
    }
}

/// A digit string is worth at least as much as any of its prefixes.
pub proof fn lemma_digits_val_prefix(s: Seq<char>, i: int)
    requires
        all_digits(s),
        0 <= i <= s.len(),
    ensures
        digits_val(s.take(i)) <= digits_val(s),
    decreases s.len() - i,
{
    if i < s.len() {
        lemma_digits_val_prefix(s, i + 1);
        assert(s.take(i + 1).drop_last() =~= s.take(i));
        assert(s.take(i + 1).last() == s[i]);
        lemma_digits_val_nonneg(s.take(i));
    } else {
        assert(s.take(i) =~= s);
    }
}

/// The digit character for a value below ten.
pub fn digit_to_char(d: u32) -> (c: char)
    requires
        d < 10,
    ensures
        c == digit_char(d as int),
{
    if d == 0 {
        '0'
    } else if d == 1 {
        '1'
    } else if d == 2 {
        '2'
    } else if d == 3 {
        '3'
    } else if d == 4 {
        '4'
    } else if d == 5 {
        '5'
    } else if d == 6 {
        '6'
    } else if d == 7 {
        '7'
    } else if d == 8 {
        '8'
    } else {
        '9'
    }
}

/// Append the canonical digits of `n` to `out`.
pub fn push_digits_u32(n: u32, out: &mut Vec<char>)
    ensures
        final (out)@ == old(out)@ + spec_digits(n as nat),
    decreases n,
{
    if n < 10 {
        out.push(digit_to_char(n));
    } else {
        push_digits_u32(n / 10, out);
        out.push(digit_to_char(n % 10));
        proof {
            assert(final (out)@ =~= old(out)@ + spec_digits(n as nat));
        }
    }
}

/// Append the canonical digits of `n` to `out`.
pub fn push_digits_u64(n: u64, out: &mut Vec<char>)
    ensures
        final (out)@ == old(out)@ + spec_digits(n as nat),
    decreases n,
{
    if n < 10 {
        out.push(digit_to_char(n as u32));
    } else {
        push_digits_u64(n / 10, out);
        out.push(digit_to_char((n % 10) as u32));
        proof {
            assert(final (out)@ =~= old(out)@ + spec_digits(n as nat));
        }
    }
}

/// Collect a vector of characters into a string.
pub fn chars_to_string(cs: &Vec<char>) -> (r: String)
    ensures
        r@ == cs@,
{
    let mut r = String::new();
    let mut i: usize = 0;
    while i < cs.len()
        invariant
            i <= cs.len(),
            r@ == cs@.take(i as int),
        decreases cs.len() - i,
    {
        push_char(&mut r, cs[i]);
        proof {
            assert(cs@.take(i + 1) =~= cs@.take(i as int).push(cs@[i as int]));
        }
        i = i + 1;
    }
    proof {
        assert(cs@.take(cs@.len() as int) =~= cs@);
    }
    r
}

/// Collect the characters of a string into a vector.
pub fn string_to_chars(s: &str) -> (r: Vec<char>)
    ensures
        r@ == s@,
{
    let n = s.unicode_len();
    let mut r: Vec<char> = Vec::new();
    let mut i: usize = 0;
    while i < n
        invariant
            i <= n,
            n == s@.len(),
            r@ == s@.take(i as int),
        decreases n - i,
    {
        r.push(s.get_char(i));
        proof {
            assert(s@.take(i + 1) =~= s@.take(i as int).push(s@[i as int]));
        }
        i = i + 1;
    }
    proof {
        assert(s@.take(s@.len() as int) =~= s@);
    }
    r
}


/// Whether two strings hold the same characters.
pub fn str_eq(a: &str, b: &str) -> (r: bool)
    ensures
        r == (a@ == b@),
{
    let n = a.unicode_len();
    let m = b.unicode_len();
    if n != m {
        return false;
    }
    let mut i: usize = 0;
    while i < n
        invariant
            i <= n,
            n == a@.len(),
            n == b@.len(),
            forall|j: int| 0 <= j < i ==> a@[j] == b@[j],
        decreases n - i,
    {
        if a.get_char(i) != b.get_char(i) {
            return false;
        }
        i = i + 1;
    }
    proof {
        assert(a@ =~= b@);
    }
    true
}


/// A digit character is recovered from its value.
pub proof fn lemma_digit_char_inverse(c: char)
    requires
        is_digit_char(c),
    ensures
        digit_char(digit_val(c)) == c,
{
    assert('0' as u32 == 48 && '1' as u32 == 49 && '2' as u32 == 50 && '3' as u32 == 51
        && '4' as u32 == 52 && '5' as u32 == 53 && '6' as u32 == 54 && '7' as u32 == 55
        && '8' as u32 == 56 && '9' as u32 == 57);
}

/// Two digit strings of the same length and the same value are the same
/// string.
pub proof fn lemma_digits_val_injective(a: Seq<char>, b: Seq<char>)
    requires
        all_digits(a),
        all_digits(b),
        a.len() == b.len(),
        digits_val(a) == digits_val(b),
    ensures
        a == b,
    decreases a.len(),
{
    if a.len() == 0 {
        assert(a =~= b);
    } else {
        assert(all_digits(a.drop_last()) && all_digits(b.drop_last()));
        lemma_digits_val_nonneg(a.drop_last());
        lemma_digits_val_nonneg(b.drop_last());
        assert(0 <= digit_val(a.last()) < 10 && 0 <= digit_val(b.last()) < 10);
        assert(digit_val(a.last()) == digit_val(b.last()));
        lemma_digit_char_inverse(a.last());
        lemma_digit_char_inverse(b.last());
        assert(a.last() == b.last());
        lemma_digits_val_injective(a.drop_last(), b.drop_last());
        assert(a =~= a.drop_last().push(a.last()));
        assert(b =~= b.drop_last().push(b.last()));
    }
}

/// A digit string that does not start with a zero is worth at least one.
pub proof fn lemma_digits_val_lower(s: Seq<char>)
    requires
        all_digits(s),
        s.len() >= 1,
        s[0] != '0',
    ensures
        digits_val(s) >= 1,
    decreases s.len(),
{
    assert('0' as u32 == 48);
    assert(is_digit_char(s[0]));
    if s.len() == 1 {
        assert(s.last() == s[0]);
        if digit_val(s[0]) == 0 {
            lemma_digit_char_inverse(s[0]);
            assert(s[0] == '0');
        }
        assert(digit_val(s[0]) >= 1);
    } else {
        assert(all_digits(s.drop_last()));
        assert(s.drop_last()[0] == s[0]);
        lemma_digits_val_lower(s.drop_last());
        assert(is_digit_char(s.last()));
        assert(digit_val(s.last()) >= 0);
        assert(digits_val(s) == digits_val(s.drop_last()) * 10 + digit_val(s.last()));
        assert(digits_val(s.drop_last()) * 10 >= 10) by (nonlinear_arith)
            requires
                digits_val(s.drop_last()) >= 1,
        ;
    }
}

/// The canonical digits of a number never start with a zero.
pub proof fn lemma_spec_digits_no_leading_zero(n: nat)
    ensures
        spec_digits(n).len() > 1 ==> spec_digits(n)[0] != '0',
    decreases n,
{
    if n >= 10 {
        lemma_spec_digits_no_leading_zero(n / 10);
        assert(spec_digits(n) == spec_digits(n / 10).push(digit_char((n % 10) as int)));
        assert(spec_digits(n)[0] == spec_digits(n / 10)[0]);
        if spec_digits(n / 10).len() == 1 {
            if n / 10 >= 10 {
                lemma_spec_digits_val((n / 10) / 10);
                assert(spec_digits(n / 10) == spec_digits((n / 10) / 10).push(
                    digit_char(((n / 10) % 10) as int),
                ));
            }
            assert(n / 10 < 10);
            assert(n / 10 >= 1);
            assert(spec_digits(n / 10)[0] == digit_char((n / 10) as int));
        }
    }
}

/// A non-empty digit string without a leading zero is the canonical digit
/// string of its value.
pub proof fn lemma_canonical_digits(t: Seq<char>)
    requires
        all_digits(t),
        t.len() >= 1,
        t.len() > 1 ==> t[0] != '0',
    ensures
        digits_val(t) >= 0,
        spec_digits(digits_val(t) as nat) == t,
    decreases t.len(),
{
    lemma_digits_val_nonneg(t);
    if t.len() == 1 {
        assert(t.drop_last() =~= Seq::<char>::empty());
        assert(digits_val(Seq::<char>::empty()) == 0);
        assert(digits_val(t) == digit_val(t.last()));
        lemma_digit_char_inverse(t.last());
        assert(spec_digits(digits_val(t) as nat) =~= t);
    } else {
        let d = t.drop_last();
        assert(all_digits(d));
        assert(d[0] == t[0]);
        lemma_canonical_digits(d);
        lemma_digits_val_lower(d);
        let dv = digit_val(t.last());
        assert(0 <= dv < 10);
        let v = digits_val(t);
        assert(v == digits_val(d) * 10 + dv);
        assert(v >= 10) by (nonlinear_arith)
            requires
                digits_val(d) >= 1,
                dv >= 0,
                v == digits_val(d) * 10 + dv,
        ;
        assert(v / 10 == digits_val(d) && v % 10 == dv) by (nonlinear_arith)
            requires
                0 <= dv < 10,
                digits_val(d) >= 0,
                v == digits_val(d) * 10 + dv,
        ;
        lemma_digit_char_inverse(t.last());
        assert(spec_digits(v as nat) == spec_digits((v as nat) / 10).push(
            digit_char(((v as nat) % 10) as int),
        ));
        assert(spec_digits(v as nat) =~= t);
    }
}


/// Strict lexicographic order on character sequences, by code point; a
/// proper prefix comes first.
pub open spec fn lex_lt(a: Seq<char>, b: Seq<char>) -> bool
    decreases a.len(),
{
    if b.len() == 0 {
        false
    } else if a.len() == 0 {
        true
    } else if (a[0] as u32) < (b[0] as u32) {
        true
    } else if a[0] == b[0] {
        lex_lt(a.drop_first(), b.drop_first())
    } else {
        false
    }
}

/// Distinct characters have distinct code points.
proof fn lemma_char_codes_differ(x: char, y: char)
    requires
        x != y,
    ensures
        x as u32 != y as u32,
{
}

/// Any two character sequences compare: below, above, or equal.
pub proof fn lemma_lex_trichotomy(a: Seq<char>, b: Seq<char>)
    ensures
        lex_lt(a, b) || lex_lt(b, a) || a == b,
    decreases a.len(),
{
    if a.len() == 0 && b.len() == 0 {
        assert(a =~= b);
    } else if a.len() > 0 && b.len() > 0 {
        if a[0] == b[0] {
            lemma_lex_trichotomy(a.drop_first(), b.drop_first());
            if a.drop_first() == b.drop_first() {
                assert(a =~= seq![a[0]] + a.drop_first());
                assert(b =~= seq![b[0]] + b.drop_first());
                assert(seq![a[0]] + a.drop_first() == seq![b[0]] + b.drop_first());
            }
        } else {
            lemma_char_codes_differ(a[0], b[0]);
        }
    }
}

/// The order never holds both ways.
pub proof fn lemma_lex_asym(a: Seq<char>, b: Seq<char>)
    ensures
        !(lex_lt(a, b) && lex_lt(b, a)),
    decreases a.len(),
{
    if a.len() > 0 && b.len() > 0 && a[0] == b[0] {
        lemma_lex_asym(a.drop_first(), b.drop_first());
    }
}

/// The order is transitive.
pub proof fn lemma_lex_trans(a: Seq<char>, b: Seq<char>, c: Seq<char>)
    requires
        lex_lt(a, b),
        lex_lt(b, c),
    ensures
        lex_lt(a, c),
    decreases a.len(),
{
    if a.len() > 0 {
        assert(b.len() > 0 && c.len() > 0);
        if a[0] == b[0] && b[0] == c[0] {
            lemma_lex_trans(a.drop_first(), b.drop_first(), c.drop_first());
        }
    }
}

/// Dropping an equal head character keeps the comparison.
proof fn lemma_lex_skip(a: Seq<char>, b: Seq<char>, i: int)
    requires
        0 <= i < a.len(),
        i < b.len(),
        a[i] == b[i],
    ensures
        lex_lt(a.skip(i), b.skip(i)) == lex_lt(a.skip(i + 1), b.skip(i + 1)),
{
    assert(a.skip(i).len() > 0 && b.skip(i).len() > 0);
    assert(a.skip(i)[0] == a[i] && b.skip(i)[0] == b[i]);
    assert(a.skip(i).drop_first() =~= a.skip(i + 1));
    assert(b.skip(i).drop_first() =~= b.skip(i + 1));
}

/// Whether `a` comes strictly before `b` in lexicographic order.
pub fn str_lt(a: &str, b: &str) -> (r: bool)
    ensures
        r == lex_lt(a@, b@),
{
    let n = a.unicode_len();
    let m = b.unicode_len();
    let limit = if n < m {
        n
    } else {
        m
    };
    let mut i: usize = 0;
    proof {
        assert(a@.skip(0) =~= a@);
        assert(b@.skip(0) =~= b@);
    }
    while i < limit
        invariant
            i <= limit,
            n == a@.len(),
            m == b@.len(),
            limit == if n < m {
                n as int
            } else {
                m as int
            },
            lex_lt(a@, b@) == lex_lt(a@.skip(i as int), b@.skip(i as int)),
        decreases limit - i,
    {
        let ca = a.get_char(i);
        let cb = b.get_char(i);
        if (ca as u32) < (cb as u32) {
            assert(a@.skip(i as int)[0] == ca && b@.skip(i as int)[0] == cb);
            assert(a@.skip(i as int).len() > 0 && b@.skip(i as int).len() > 0);
            return true;
        }
        if (ca as u32) > (cb as u32) {
            assert(a@.skip(i as int)[0] == ca && b@.skip(i as int)[0] == cb);
            assert(a@.skip(i as int).len() > 0 && b@.skip(i as int).len() > 0);
            assert(ca != cb);
            return false;
        }
        proof {
            assert(ca == cb);
            lemma_lex_skip(a@, b@, i as int);
        }
        i = i + 1;
    }
    proof {
        if n < m {
            assert(a@.skip(i as int).len() == 0 && b@.skip(i as int).len() > 0);
        } else {
            assert(b@.skip(i as int).len() == 0);
        }
    }
    n < m
}







} // verus!
