//! Currencies and exact monetary amounts.
//!
//! An amount is an integer in the currency's minor units (for example cents),
//! never a floating-point number. Parsing turns user text such as "128.93"
//! into the integer 12893; formatting is its exact inverse.

use vstd::prelude::*;

use crate::text::{
    all_digits, chars_to_string, digits_val, is_digit_char, lemma_digits_val_leading_zeros,
    lemma_digits_val_nonneg, lemma_digits_val_prefix, lemma_spec_digits_val, push_digits_u32,
    spec_digits, string_to_chars, zeros,
};

verus! {

/// Characters that survive cleaning: everything but grouping separators and
/// spaces.
pub open spec fn keep_char(c: char) -> bool {
    c != ',' && c != ' '
}

/// The input with grouping separators and spaces removed.
pub open spec fn cleaned(s: Seq<char>) -> Seq<char> {
    s.filter(|c: char| keep_char(c))
}

/// The index of the last `.` in `s`, or -1 if there is none.
pub open spec fn last_dot(s: Seq<char>) -> int
    decreases s.len(),
{
    if s.len() == 0 {
        -1
    } else if s.last() == '.' {
        s.len() - 1
    } else {
        last_dot(s.drop_last())
    }
}

/// How many characters follow the last `.` of the cleaned input.
pub open spec fn parse_decimals(s: Seq<char>) -> int {
    cleaned(s).len() - 1 - last_dot(cleaned(s))
}

/// Whether the cleaned input has a decimal part longer than the currency's
/// minor units allow.
pub open spec fn parse_too_many(minor: int, s: Seq<char>) -> bool {
    last_dot(cleaned(s)) >= 0 && parse_decimals(s) > minor
}

/// The digit string that is read as an integer: the cleaned input with the
/// last `.` removed and the decimal part padded with zeros to exactly `minor`
/// digits, or, with no decimal point, the cleaned input followed by `minor`
/// zeros.
pub open spec fn parse_num(minor: int, s: Seq<char>) -> Seq<char> {
    let cl = cleaned(s);
    let dot = last_dot(cl);
    if dot < 0 {
        cl + zeros(minor as nat)
    } else {
        cl.take(dot) + cl.skip(dot + 1) + zeros((minor - (cl.len() - 1 - dot)) as nat)
    }
}

/// Whether `s` reads as a signed decimal integer: an optional `-` or `+`
/// sign followed by at least one digit, and nothing else.
pub open spec fn valid_number(s: Seq<char>) -> bool {
    if s.len() == 0 {
        false
    } else if s[0] == '-' || s[0] == '+' {
        s.len() >= 2 && all_digits(s.skip(1))
    } else {
        all_digits(s)
    }
}

/// The integer a signed digit string reads as.
pub open spec fn signed_value(s: Seq<char>) -> int {
    if s.len() > 0 && s[0] == '-' {
        -digits_val(s.skip(1))
    } else if s.len() > 0 && s[0] == '+' {
        digits_val(s.skip(1))
    } else {
        digits_val(s)
    }
}

/// Whether parsing `s` under `minor` minor units succeeds with a value that
/// fits the amount type.
pub open spec fn parse_ok(minor: int, s: Seq<char>) -> bool {
    &&& !parse_too_many(minor, s)
    &&& valid_number(parse_num(minor, s))
    &&& -0x8000_0000 <= signed_value(parse_num(minor, s)) <= 0x7fff_ffff
}

/// The value parsing `s` yields when it succeeds.
pub open spec fn parse_result(minor: int, s: Seq<char>) -> int {
    signed_value(parse_num(minor, s))
}

/// The magnitude of a value.
pub open spec fn format_mag(v: int) -> nat {
    if v < 0 {
        (-v) as nat
    } else {
        v as nat
    }
}

/// The sign prefix of a formatted value.
pub open spec fn format_sign(v: int) -> Seq<char> {
    if v < 0 {
        seq!['-']
    } else {
        Seq::<char>::empty()
    }
}

/// The absolute value of `v` as digits, zero-padded on the left to at least
/// `minor + 1` digits.
pub open spec fn format_padded(minor: int, v: int) -> Seq<char> {
    let digits = spec_digits(format_mag(v));
    let pad = if digits.len() < minor + 1 {
        (minor + 1 - digits.len()) as nat
    } else {
        0
    };
    zeros(pad) + digits
}

/// Where the decimal point splits the padded digits of a formatted value.
pub open spec fn format_cut(minor: int, v: int) -> int {
    format_padded(minor, v).len() - minor
}

/// The text `format_value` produces: the sign, the absolute value zero-padded
/// to at least `minor + 1` digits, and a decimal point `minor` digits from
/// the end.
pub open spec fn spec_format_value(minor: int, v: int) -> Seq<char> {
    let padded = format_padded(minor, v);
    let cut = format_cut(minor, v);
    format_sign(v) + padded.take(cut) + seq!['.'] + padded.skip(cut)
}

/// A currency: a unique short code and the number of decimal digits its
/// amounts carry.
#[derive(Debug)]
pub struct Currency {
    code: String,
    minor_units: u8,
}

/// Why an amount string could not be parsed.
#[derive(Debug)]
pub enum CurrencyParseError {
    /// The provided amount could not be parsed as a number.
    InvalidNumber(String),
    /// The provided amount included more precision than the currency's minor
    /// units allow for. The second field is the number of decimal digits the
    /// input carried.
    TooManyDecimals(Currency, usize),
}

impl Currency {
    /// The currency's code, as a sequence of characters.
    pub closed spec fn spec_code(&self) -> Seq<char> {
        self.code@
    }

    /// The currency's number of minor units.
    pub closed spec fn spec_minor_units(&self) -> u8 {
        self.minor_units
    }

    /// Construct a new currency from its unique code and its number of
    /// decimal places.
    pub fn new(code: String, minor_units: u8) -> (r: Self)
        ensures
            r.spec_code() == code@,
            r.spec_minor_units() == minor_units,
    {
        Self { code, minor_units }
    }

    pub fn code(&self) -> (r: &str)
        ensures
            r@ == self.spec_code(),
    {
        self.code.as_str()
    }

    pub fn minor_units(&self) -> (r: u8)
        ensures
            r == self.spec_minor_units(),
    {
        self.minor_units
    }
}

impl Clone for Currency {
    fn clone(&self) -> (r: Self)
        ensures
            r == *self,
    {
        Currency { code: self.code.clone(), minor_units: self.minor_units }
    }
}

impl PartialEq for Currency {
    fn eq(&self, other: &Self) -> (r: bool) {
        self.code == other.code && self.minor_units == other.minor_units
    }
}

impl vstd::std_specs::cmp::PartialEqSpecImpl for Currency {
    open spec fn obeys_eq_spec() -> bool {
        true
    }

    open spec fn eq_spec(&self, other: &Self) -> bool {
        self.spec_code() == other.spec_code() && self.spec_minor_units()
            == other.spec_minor_units()
    }
}

impl PartialEq for CurrencyParseError {
    fn eq(&self, other: &Self) -> (r: bool) {
        match (self, other) {
            (CurrencyParseError::InvalidNumber(a), CurrencyParseError::InvalidNumber(b)) => *a
                == *b,
            (
                CurrencyParseError::TooManyDecimals(c1, n1),
                CurrencyParseError::TooManyDecimals(c2, n2),
            ) => c1 == c2 && n1 == n2,
            _ => false,
        }
    }
}

impl vstd::std_specs::cmp::PartialEqSpecImpl for CurrencyParseError {
    open spec fn obeys_eq_spec() -> bool {
        true
    }

    open spec fn eq_spec(&self, other: &Self) -> bool {
        match (self, other) {
            (CurrencyParseError::InvalidNumber(a), CurrencyParseError::InvalidNumber(b)) => a@
                == b@,
            (
                CurrencyParseError::TooManyDecimals(c1, n1),
                CurrencyParseError::TooManyDecimals(c2, n2),
            ) => c1.spec_code() == c2.spec_code() && c1.spec_minor_units() == c2.spec_minor_units()
                && n1 == n2,
            _ => false,
        }
    }
}

/// Removing a kept character from the end of the input shortens its cleaned
/// form by that character.
proof fn lemma_cleaned_push(s: Seq<char>, x: char)
    ensures
        cleaned(s.push(x)) == if keep_char(x) {
            cleaned(s).push(x)
        } else {
            cleaned(s)
        },
{
    reveal(Seq::filter);
    assert(s.push(x).drop_last() =~= s);
    assert(s.push(x).last() == x);
}

/// `last_dot` looks only at the end of the string: it is computed by peeling
/// characters from the back.
proof fn lemma_last_dot_take(s: Seq<char>, j: int)
    requires
        0 < j <= s.len(),
    ensures
        last_dot(s.take(j)) == if s[j - 1] == '.' {
            j - 1
        } else {
            last_dot(s.take(j - 1))
        },
{
    assert(s.take(j).drop_last() =~= s.take(j - 1));
    assert(s.take(j).last() == s[j - 1]);
}

proof fn lemma_last_dot_range(s: Seq<char>)
    ensures
        -1 <= last_dot(s) < s.len(),
    decreases s.len(),
{
    if s.len() > 0 && s.last() != '.' {
        lemma_last_dot_range(s.drop_last());
    }
}

impl Currency {
    /// Parse an amount from a string representation.
    ///
    /// Grouping separators (`,`) and spaces are removed; the text before the
    /// last `.` is the whole part and the text after it the decimal part,
    /// which may hold at most `minor_units` digits and is padded with zeros
    /// to exactly that many. The result is the concatenated digit string read
    /// as a signed integer of minor units, so that the amount is always exact.
    pub fn parse_amount(&self, raw_amount: &str) -> (r: Result<i32, CurrencyParseError>)
        ensures
            parse_too_many(self.spec_minor_units() as int, raw_amount@) ==> r == Err::<
                i32,
                CurrencyParseError,
            >(
                CurrencyParseError::TooManyDecimals(
                    *self,
                    parse_decimals(raw_amount@) as usize,
                ),
            ),
            parse_ok(self.spec_minor_units() as int, raw_amount@) ==> r == Ok::<
                i32,
                CurrencyParseError,
            >(parse_result(self.spec_minor_units() as int, raw_amount@) as i32),
            !parse_too_many(self.spec_minor_units() as int, raw_amount@) && !parse_ok(
                self.spec_minor_units() as int,
                raw_amount@,
            ) ==> (r matches Err(CurrencyParseError::InvalidNumber(t)) && t@ == raw_amount@),
    {
        let ghost minor = self.spec_minor_units() as int;
        let cs = string_to_chars(raw_amount);

        // Strip grouping separators and spaces.
        let mut cl: Vec<char> = Vec::new();
        let mut i: usize = 0;
        while i < cs.len()
            invariant
                i <= cs.len(),
                cl@ == cleaned(cs@.take(i as int)),
            decreases cs.len() - i,
        {
            let c = cs[i];
            proof {
                assert(cs@.take(i + 1) =~= cs@.take(i as int).push(cs@[i as int]));
                lemma_cleaned_push(cs@.take(i as int), cs@[i as int]);
            }
            if c != ',' && c != ' ' {
                cl.push(c);
            }
            i = i + 1;
        }
        proof {
            assert(cs@.take(cs@.len() as int) =~= cs@);
        }
        assert(cl@ == cleaned(raw_amount@));

        // Find the last decimal point.
        let mut dot: Option<usize> = None;
        let mut j: usize = cl.len();
        proof {
            assert(cl@.take(cl@.len() as int) =~= cl@);
        }
        while j > 0
            invariant
                j <= cl.len(),
                dot is Some ==> j == 0,
                match dot {
                    None => last_dot(cl@) == last_dot(cl@.take(j as int)),
                    Some(d) => last_dot(cl@) == d && d < cl@.len(),
                },
            decreases j,
        {
            proof {
                lemma_last_dot_take(cl@, j as int);
            }
            if cl[j - 1] == '.' {
                proof {
                    assert(last_dot(cl@.take(j as int)) == j - 1);
                }
                dot = Some(j - 1);
                j = 0;
            } else {
                proof {
                    assert(cl@[j - 1] != '.');
                    assert(last_dot(cl@.take(j as int)) == last_dot(cl@.take(j - 1)));
                }
                j = j - 1;
            }
        }
        proof {
            if dot is None {
                assert(cl@.take(0) =~= Seq::<char>::empty());
            }
            lemma_last_dot_range(cl@);
        }

        let minor_units = self.minor_units as usize;

        // Assemble the digit string to read as an integer.
        let mut num: Vec<char> = Vec::new();
        match dot {
            None => {
                assert(last_dot(cl@) == -1);
                let mut k: usize = 0;
                while k < cl.len()
                    invariant
                        k <= cl.len(),
                        num@ == cl@.take(k as int),
                    decreases cl.len() - k,
                {
                    num.push(cl[k]);
                    proof {
                        assert(cl@.take(k + 1) =~= cl@.take(k as int).push(cl@[k as int]));
                    }
                    k = k + 1;
                }
                let mut z: usize = 0;
                while z < minor_units
                    invariant
                        z <= minor_units,
                        num@ == cl@.take(cl@.len() as int) + zeros(z as nat),
                    decreases minor_units - z,
                {
                    num.push('0');
                    proof {
                        assert(cl@.take(cl@.len() as int) + zeros((z + 1) as nat) =~= (cl@.take(
                            cl@.len() as int,
                        ) + zeros(z as nat)).push('0'));
                    }
                    z = z + 1;
                }
                proof {
                    assert(cl@.take(cl@.len() as int) =~= cl@);
                    assert(num@ =~= parse_num(minor, raw_amount@));
                }
            },
            Some(d) => {
                assert(last_dot(cl@) == d);
                let dec_len = cl.len() - 1 - d;
                if dec_len > minor_units {
                    assert(parse_too_many(minor, raw_amount@));
                    return Err(
                        CurrencyParseError::TooManyDecimals(self.clone(), dec_len),
                    );
                }
                let mut k: usize = 0;
                while k < d
                    invariant
                        k <= d < cl@.len(),
                        num@ == cl@.take(d as int).take(k as int),
                    decreases d - k,
                {
                    num.push(cl[k]);
                    proof {
                        assert(cl@.take(d as int).take(k + 1) =~= cl@.take(d as int).take(
                            k as int,
                        ).push(cl@[k as int]));
                    }
                    k = k + 1;
                }
                proof {
                    assert(cl@.take(d as int).take(d as int) =~= cl@.take(d as int));
                }
                let mut k2: usize = d + 1;
                while k2 < cl.len()
                    invariant
                        d + 1 <= k2 <= cl@.len(),
                        num@ == cl@.take(d as int) + cl@.skip(d + 1).take(k2 - d - 1),
                    decreases cl.len() - k2,
                {
                    num.push(cl[k2]);
                    proof {
                        assert(cl@.skip(d + 1).take(k2 + 1 - d - 1) =~= cl@.skip(d + 1).take(
                            k2 - d - 1,
                        ).push(cl@[k2 as int]));
                        assert(cl@.take(d as int) + cl@.skip(d + 1).take(k2 + 1 - d - 1) =~= (
                        cl@.take(d as int) + cl@.skip(d + 1).take(k2 - d - 1)).push(
                            cl@[k2 as int],
                        ));
                    }
                    k2 = k2 + 1;
                }
                proof {
                    assert(cl@.skip(d + 1).take(cl@.len() - d - 1) =~= cl@.skip(d + 1));
                }
                let mut z: usize = 0;
                let pad = minor_units - dec_len;
                while z < pad
                    invariant
                        z <= pad,
                        num@ == cl@.take(d as int) + cl@.skip(d + 1) + zeros(z as nat),
                    decreases pad - z,
                {
                    num.push('0');
                    proof {
                        assert(cl@.take(d as int) + cl@.skip(d + 1) + zeros((z + 1) as nat) =~= (
                        cl@.take(d as int) + cl@.skip(d + 1) + zeros(z as nat)).push('0'));
                    }
                    z = z + 1;
                }
                proof {
                    assert(num@ =~= parse_num(minor, raw_amount@));
                }
            },
        }
        assert(!parse_too_many(minor, raw_amount@));

        // Read the digit string as a signed integer.
        match parse_signed(&num) {
            Some(v) => {
                assert(parse_ok(minor, raw_amount@));
                Ok(v)
            },
            None => {
                assert(!parse_ok(minor, raw_amount@));
                Err(CurrencyParseError::InvalidNumber(raw_amount.to_owned()))
            },
        }
    }
}

/// Read a signed decimal integer from `num`, or nothing where the characters
/// do not form one or its value does not fit.
fn parse_signed(num: &Vec<char>) -> (r: Option<i32>)
    ensures
        valid_number(num@) && -0x8000_0000 <= signed_value(num@) <= 0x7fff_ffff ==> r == Some(
            signed_value(num@) as i32,
        ),
        !(valid_number(num@) && -0x8000_0000 <= signed_value(num@) <= 0x7fff_ffff) ==> r is None,
{
    if num.len() == 0 {
        return None;
    }
    let first = num[0];
    let (neg, start): (bool, usize) = if first == '-' {
        (true, 1)
    } else if first == '+' {
        (false, 1)
    } else {
        (false, 0)
    };
    if start >= num.len() {
        return None;
    }
    let ghost digits = num@.skip(start as int);
    let bound: u64 = if neg {
        0x8000_0000
    } else {
        0x7fff_ffff
    };
    let mut acc: u64 = 0;
    let mut k: usize = start;
    while k < num.len()
        invariant
            start <= k <= num@.len(),
            start < num@.len(),
            start == 0 || start == 1,
            digits == num@.skip(start as int),
            bound == if neg {
                0x8000_0000u64
            } else {
                0x7fff_ffffu64
            },
            neg <==> num@[0] == '-',
            start == 1 ==> (num@[0] == '-' || num@[0] == '+'),
            start == 0 ==> !(num@[0] == '-' || num@[0] == '+'),
            all_digits(digits.take(k - start)),
            acc == digits_val(digits.take(k - start)),
            acc <= bound,
        decreases num@.len() - k,
    {
        let c = num[k];
        let u = c as u32;
        proof {
            assert(digits.take(k + 1 - start) =~= digits.take(k - start).push(
                digits[k - start],
            ));
            assert(digits.take(k + 1 - start).drop_last() =~= digits.take(k - start));
            assert(digits.take(k + 1 - start).last() == digits[k - start]);
            assert(digits[k - start] == num@[k as int]);
        }
        if u < 48 || u > 57 {
            // A non-digit character: the string is not a number.
            assert(!all_digits(digits));
            assert(!valid_number(num@));
            return None;
        }
        let d = (u - 48) as u64;
        let next = acc * 10 + d;
        if next > bound {
            // The value cannot fit: if the rest is all digits the magnitude
            // only grows, and otherwise the string is not a number.
            proof {
                if valid_number(num@) {
                    assert(all_digits(digits));
                    lemma_digits_val_prefix(digits, k + 1 - start);
                    lemma_digits_val_nonneg(digits);
                    assert(digits_val(digits) >= digits_val(digits.take(k + 1 - start)));
                    assert(digits_val(digits.take(k + 1 - start)) == next);
                    if neg {
                        assert(signed_value(num@) == -digits_val(digits));
                        assert(signed_value(num@) < -0x8000_0000);
                    } else {
                        if start == 1 {
                            assert(signed_value(num@) == digits_val(digits));
                        } else {
                            assert(num@.skip(0) =~= num@);
                            assert(signed_value(num@) == digits_val(num@));
                        }
                        assert(signed_value(num@) > 0x7fff_ffff);
                    }
                }
            }
            return None;
        }
        acc = next;
        k = k + 1;
    }
    proof {
        assert(digits.take(num@.len() - start) =~= digits);
        assert(all_digits(digits));
        if start == 1 {
            assert(num@[0] == '-' || num@[0] == '+');
            assert(num@.len() >= 2);
            assert(digits == num@.skip(1));
            assert(all_digits(num@.skip(1)));
        } else {
            assert(num@.skip(0) =~= num@);
            assert(all_digits(num@));
            assert(signed_value(num@) == digits_val(num@));
        }
        assert(valid_number(num@));
    }
    if neg {
        if acc == 0x8000_0000 {
            Some(i32::MIN)
        } else {
            Some(-(acc as i32))
        }
    } else {
        Some(acc as i32)
    }
}

impl Currency {
    /// Format an integer amount of minor units as a decimal string: the sign,
    /// the absolute value padded with zeros to at least `minor_units + 1`
    /// digits, and a decimal point `minor_units` digits from the end.
    #[verifier::rlimit(60)]
    pub fn format_value(&self, value: i32) -> (r: String)
        ensures
            r@ == spec_format_value(self.spec_minor_units() as int, value as int),
    {
        let ghost minor = self.spec_minor_units() as int;
        let neg = value < 0;
        let mag: u32 = if value < 0 {
            (-(value as i64)) as u32
        } else {
            value as u32
        };

        let mut digits: Vec<char> = Vec::new();
        push_digits_u32(mag, &mut digits);
        assert(digits@ == spec_digits(mag as nat));
        proof {
            lemma_spec_digits_val(mag as nat);
        }

        let minor_units = self.minor_units as usize;
        let pad: usize = if digits.len() < minor_units + 1 {
            minor_units + 1 - digits.len()
        } else {
            0
        };

        // The absolute value, zero-padded to at least `minor_units + 1` digits.
        let mut padded: Vec<char> = Vec::new();
        let mut z: usize = 0;
        while z < pad
            invariant
                z <= pad,
                padded@ == zeros(z as nat),
            decreases pad - z,
        {
            padded.push('0');
            proof {
                assert(zeros((z + 1) as nat) =~= zeros(z as nat).push('0'));
            }
            z = z + 1;
        }
        let mut k: usize = 0;
        while k < digits.len()
            invariant
                k <= digits@.len(),
                padded@ == zeros(pad as nat) + digits@.take(k as int),
            decreases digits@.len() - k,
        {
            padded.push(digits[k]);
            proof {
                assert(zeros(pad as nat) + digits@.take(k + 1) =~= (zeros(pad as nat)
                    + digits@.take(k as int)).push(digits@[k as int]));
            }
            k = k + 1;
        }
        proof {
            assert(digits@.take(digits@.len() as int) =~= digits@);
        }
        assert(padded@ == zeros(pad as nat) + digits@);
        assert(padded@.len() >= minor_units + 1);

        // The decimal point sits `minor_units` digits from the end.
        let cut = padded.len() - minor_units;
        let mut out: Vec<char> = Vec::new();
        if neg {
            out.push('-');
        }
        let ghost sign: Seq<char> = if neg {
            seq!['-']
        } else {
            Seq::<char>::empty()
        };
        assert(out@ =~= sign);
        let mut p: usize = 0;
        while p < cut
            invariant
                p <= cut <= padded@.len(),
                out@ == sign + padded@.take(p as int),
            decreases cut - p,
        {
            out.push(padded[p]);
            proof {
                assert(sign + padded@.take(p + 1) =~= (sign + padded@.take(p as int)).push(
                    padded@[p as int],
                ));
            }
            p = p + 1;
        }
        out.push('.');
        proof {
            assert(sign + padded@.take(cut as int) + seq!['.'] =~= (sign + padded@.take(
                cut as int,
            )).push('.'));
        }
        let mut q: usize = cut;
        while q < padded.len()
            invariant
                cut <= q <= padded@.len(),
                out@ == sign + padded@.take(cut as int) + seq!['.'] + padded@.subrange(
                    cut as int,
                    q as int,
                ),
            decreases padded@.len() - q,
        {
            out.push(padded[q]);
            proof {
                assert(sign + padded@.take(cut as int) + seq!['.'] + padded@.subrange(
                    cut as int,
                    q + 1,
                ) =~= (sign + padded@.take(cut as int) + seq!['.'] + padded@.subrange(
                    cut as int,
                    q as int,
                )).push(padded@[q as int]));
            }
            q = q + 1;
        }
        proof {
            assert(out@ =~= spec_format_value(minor, value as int));
        }
        chars_to_string(&out)
    }
}


/// An amount associated with a specific currency.
///
/// The amount is always stored as a whole number of the currency's minor
/// units, so the value never suffers floating-point error.
#[derive(Debug)]
pub struct CurrencyAmount {
    currency: Currency,
    value: i32,
}

impl CurrencyAmount {
    pub closed spec fn spec_currency(&self) -> Currency {
        self.currency
    }

    pub closed spec fn spec_value(&self) -> i32 {
        self.value
    }

    /// Pair a currency with a value already expressed in minor units.
    pub fn from_minor(currency: Currency, value: i32) -> (r: Self)
        ensures
            r.spec_currency() == currency,
            r.spec_value() == value,
    {
        Self { currency, value }
    }

    /// Parse an amount from text in the given currency.
    pub fn from_str(currency: Currency, raw_amount: &str) -> (r: Result<Self, CurrencyParseError>)
        ensures
            parse_too_many(currency.spec_minor_units() as int, raw_amount@) ==> (r
                matches Err(e) && e == CurrencyParseError::TooManyDecimals(
                currency,
                parse_decimals(raw_amount@) as usize,
            )),
            parse_ok(currency.spec_minor_units() as int, raw_amount@) ==> (r matches Ok(a)
                && a.spec_currency() == currency && a.spec_value() == parse_result(
                currency.spec_minor_units() as int,
                raw_amount@,
            ) as i32),
            !parse_too_many(currency.spec_minor_units() as int, raw_amount@) && !parse_ok(
                currency.spec_minor_units() as int,
                raw_amount@,
            ) ==> (r matches Err(CurrencyParseError::InvalidNumber(t)) && t@ == raw_amount@),
    {
        let value = match currency.parse_amount(raw_amount) {
            Ok(v) => v,
            Err(e) => {
                return Err(e);
            },
        };
        Ok(Self { currency, value })
    }

    pub fn currency(&self) -> (r: &Currency)
        ensures
            *r == self.spec_currency(),
    {
        &self.currency
    }

    pub fn value(&self) -> (r: i32)
        ensures
            r == self.spec_value(),
    {
        self.value
    }

    /// Format the amount's value in its own currency.
    pub fn format_value(&self) -> (r: String)
        ensures
            r@ == spec_format_value(
                self.spec_currency().spec_minor_units() as int,
                self.spec_value() as int,
            ),
    {
        self.currency.format_value(self.value)
    }
}

impl Clone for CurrencyAmount {
    fn clone(&self) -> (r: Self)
        ensures
            r == *self,
    {
        CurrencyAmount { currency: self.currency.clone(), value: self.value }
    }
}

impl PartialEq for CurrencyAmount {
    fn eq(&self, other: &Self) -> (r: bool) {
        self.currency == other.currency && self.value == other.value
    }
}

impl vstd::std_specs::cmp::PartialEqSpecImpl for CurrencyAmount {
    open spec fn obeys_eq_spec() -> bool {
        true
    }

    open spec fn eq_spec(&self, other: &Self) -> bool {
        self.spec_currency().spec_code() == other.spec_currency().spec_code()
            && self.spec_currency().spec_minor_units() == other.spec_currency().spec_minor_units()
            && self.spec_value() == other.spec_value()
    }
}

/// Cleaning an input that has no separators and no spaces leaves it as it is.
proof fn lemma_cleaned_id(s: Seq<char>)
    requires
        forall|i: int| 0 <= i < s.len() ==> keep_char(#[trigger] s[i]),
    ensures
        cleaned(s) == s,
    decreases s.len(),
{
    reveal(Seq::filter);
    if s.len() > 0 {
        assert(forall|i: int|
            0 <= i < s.drop_last().len() ==> keep_char(#[trigger] s.drop_last()[i]));
        lemma_cleaned_id(s.drop_last());
        assert(keep_char(s.last()));
        assert(cleaned(s) == s.drop_last().push(s.last()));
        assert(s.drop_last().push(s.last()) =~= s);
    }
}

/// The last dot of a head, a dot and an all-digit tail is the dot between
/// them.
proof fn lemma_last_dot_concat(a: Seq<char>, d: Seq<char>)
    requires
        all_digits(d),
    ensures
        last_dot(a + seq!['.'] + d) == a.len(),
    decreases d.len(),
{
    let s = a + seq!['.'] + d;
    if d.len() == 0 {
        assert(s.last() == '.');
    } else {
        assert(is_digit_char(d.last()));
        assert(s.last() == d.last());
        assert(s.last() as u32 != 46) by {
            assert(48 <= d.last() as u32 <= 57);
        }
        assert(s.last() != '.');
        assert(all_digits(d.drop_last()));
        lemma_last_dot_concat(a, d.drop_last());
        assert(s.drop_last() =~= a + seq!['.'] + d.drop_last());
    }
}

/// The padded digit string of a formatted value is all digits, long enough,
/// and reads back as the magnitude.
proof fn lemma_format_padded(minor: int, v: int)
    requires
        0 <= minor,
    ensures
        all_digits(format_padded(minor, v)),
        format_padded(minor, v).len() >= minor + 1,
        digits_val(format_padded(minor, v)) == format_mag(v),
{
    let mag = format_mag(v);
    let digits = spec_digits(mag);
    lemma_spec_digits_val(mag);
    let pad = if digits.len() < minor + 1 {
        (minor + 1 - digits.len()) as nat
    } else {
        0
    };
    let padded = format_padded(minor, v);
    assert(padded == zeros(pad) + digits);
    assert(all_digits(padded)) by {
        assert(forall|i: int| 0 <= i < pad ==> #[trigger] padded[i] == '0');
        assert(forall|i: int|
            pad <= i < padded.len() ==> #[trigger] padded[i] == digits[i - pad]);
    }
    lemma_digits_val_leading_zeros(pad, digits);
}

/// Cleaning does not change a formatted value: it holds only digits, a sign
/// and a decimal point.
proof fn lemma_format_cleaned(minor: int, v: int)
    requires
        0 <= minor,
    ensures
        cleaned(spec_format_value(minor, v)) == spec_format_value(minor, v),
{
    lemma_format_padded(minor, v);
    let padded = format_padded(minor, v);
    let cut = format_cut(minor, v);
    let f = spec_format_value(minor, v);
    assert(forall|i: int| 0 <= i < f.len() ==> keep_char(#[trigger] f[i])) by {
        assert(',' as u32 == 44 && ' ' as u32 == 32 && '-' as u32 == 45 && '.' as u32 == 46);
        assert(forall|i: int|
            0 <= i < padded.take(cut).len() ==> is_digit_char(#[trigger] padded.take(cut)[i]));
        assert(forall|i: int|
            0 <= i < padded.skip(cut).len() ==> is_digit_char(#[trigger] padded.skip(cut)[i]));
    }
    lemma_cleaned_id(f);
}

/// The decimal point of a formatted value is its last dot, and the decimal
/// part holds exactly `minor` digits.
proof fn lemma_format_last_dot(minor: int, v: int)
    requires
        0 <= minor,
    ensures
        last_dot(spec_format_value(minor, v)) == format_sign(v).len() + format_cut(minor, v),
        parse_decimals(spec_format_value(minor, v)) == minor,
        !parse_too_many(minor, spec_format_value(minor, v)),
{
    lemma_format_padded(minor, v);
    lemma_format_cleaned(minor, v);
    let padded = format_padded(minor, v);
    let cut = format_cut(minor, v);
    let f = spec_format_value(minor, v);
    let head = format_sign(v) + padded.take(cut);
    assert(f =~= head + seq!['.'] + padded.skip(cut));
    assert(all_digits(padded.skip(cut))) by {
        assert(forall|i: int|
            0 <= i < padded.skip(cut).len() ==> is_digit_char(#[trigger] padded.skip(cut)[i]));
    }
    lemma_last_dot_concat(head, padded.skip(cut));
    assert(last_dot(f) == head.len());
}

/// Removing the decimal point of a formatted value recovers the sign and the
/// padded digit string.
#[verifier::rlimit(100)]
#[verifier::spinoff_prover]
proof fn lemma_format_num(minor: int, v: int)
    requires
        0 <= minor,
    ensures
        parse_num(minor, spec_format_value(minor, v)) == format_sign(v) + format_padded(minor, v),
{
    lemma_format_padded(minor, v);
    lemma_format_cleaned(minor, v);
    lemma_format_last_dot(minor, v);
    let padded = format_padded(minor, v);
    let cut = format_cut(minor, v);
    let f = spec_format_value(minor, v);
    let sign = format_sign(v);
    let dotpos = sign.len() + cut;
    assert(f.take(dotpos) =~= sign + padded.take(cut));
    assert(f.skip(dotpos + 1) =~= padded.skip(cut));
    assert(f.len() - 1 - dotpos == minor);
    assert(zeros((minor - (f.len() - 1 - dotpos)) as nat) =~= Seq::<char>::empty());
    assert(parse_num(minor, f) =~= sign + padded) by {
        assert(padded.take(cut) + padded.skip(cut) =~= padded);
        assert(sign + padded.take(cut) + padded.skip(cut) + Seq::<char>::empty() =~= sign
            + padded);
    }
}

/// Round-trip: parsing a formatted amount yields the value it was formatted
/// from, for every number of minor units and every representable value.
pub proof fn lemma_parse_format_round_trip(minor: int, v: int)
    requires
        0 <= minor <= 255,
        -0x8000_0000 <= v <= 0x7fff_ffff,
    ensures
        !parse_too_many(minor, spec_format_value(minor, v)),
        parse_ok(minor, spec_format_value(minor, v)),
        parse_result(minor, spec_format_value(minor, v)) == v,
{
    lemma_format_padded(minor, v);
    lemma_format_last_dot(minor, v);
    lemma_format_num(minor, v);
    let padded = format_padded(minor, v);
    let f = spec_format_value(minor, v);
    let num = parse_num(minor, f);
    assert(num == format_sign(v) + padded);
    if v < 0 {
        assert(num[0] == '-');
        assert(num.skip(1) =~= padded);
        assert(valid_number(num));
        assert(signed_value(num) == -digits_val(padded));
        assert(signed_value(num) == v);
    } else {
        assert(num =~= padded);
        assert(num.len() > 0 && is_digit_char(num[0]));
        assert(num[0] != '-' && num[0] != '+') by {
            assert('-' as u32 == 45 && '+' as u32 == 43);
            assert(48 <= num[0] as u32 <= 57);
        }
        assert(valid_number(num));
        assert(signed_value(num) == digits_val(padded));
        assert(signed_value(num) == v);
    }
    assert(parse_ok(minor, f));
}

/// Round-trip at the level of amounts: for every currency and value, the
/// formatted text of `CurrencyAmount::from_minor(c, v)` parses back to `v`.
pub proof fn lemma_amount_round_trip(c: Currency, v: i32)
    ensures
        parse_ok(
            c.spec_minor_units() as int,
            spec_format_value(c.spec_minor_units() as int, v as int),
        ),
        parse_result(
            c.spec_minor_units() as int,
            spec_format_value(c.spec_minor_units() as int, v as int),
        ) == v as int,
{
    lemma_parse_format_round_trip(c.spec_minor_units() as int, v as int);
}

} // verus!
