//! Encoded transaction cursors.
//!
//! A pagination cursor travels to clients as an opaque token: the cursor's
//! date and creation time are written as text and base64-encoded. Decoding
//! inverts encoding exactly, and rejects anything that is not a canonical
//! token.

use vstd::prelude::*;

use base64::Engine;

use crate::dates::Date;
use crate::store::TransactionCursor;
use crate::text::{
    all_digits, chars_to_string, digits_val, is_digit_char, lemma_digits_val_injective,
    lemma_digits_val_leading_zeros, lemma_digits_val_nonneg, lemma_digits_val_prefix,
    lemma_spec_digits_val, push_digits_u32, push_digits_u64, spec_digits, string_to_chars, zeros,
};

verus! {

/// The url-safe, padded base64 encoding of a text's UTF-8 bytes.
pub uninterp spec fn base64_url_text(text: Seq<char>) -> Seq<char>;

/// Relies on base64's `URL_SAFE` engine: `Engine::encode` returns the padded
/// url-safe base64 text of the input bytes, a function of the input alone.
#[verifier::external_body]
fn b64_encode_text(s: &str) -> (r: String)
    ensures
        r@ == base64_url_text(s@),
{
    base64::engine::general_purpose::URL_SAFE.encode(s.as_bytes())
}

/// Relies on base64's `URL_SAFE` engine: with canonical padding required and
/// trailing bits rejected, `Engine::decode` accepts exactly the canonical
/// encodings and returns the bytes they encode; `String::from_utf8` then
/// restores the text those bytes spell.
#[verifier::external_body]
fn b64_decode_text(s: &str) -> (r: Option<String>)
    ensures
        r matches Some(t) ==> s@ == base64_url_text(t@),
        forall|t: Seq<char>| s@ == #[trigger] base64_url_text(t) ==> r is Some && r->0@ == t,
{
    match base64::engine::general_purpose::URL_SAFE.decode(s.as_bytes()) {
        Ok(bytes) => String::from_utf8(bytes).ok(),
        Err(_) => None,
    }
}

/// The digits of `n`, left-padded with zeros to at least `k` digits.
pub open spec fn pad_digits(n: nat, k: int) -> Seq<char> {
    let digits = spec_digits(n);
    let pad = if digits.len() < k {
        (k - digits.len()) as nat
    } else {
        0
    };
    zeros(pad) + digits
}

/// The magnitude of a creation time.
pub open spec fn cursor_mag(v: int) -> nat {
    if v < 0 {
        (-v) as nat
    } else {
        v as nat
    }
}

/// The cursor as plain text: the date as year, month and day with fixed
/// widths, then the creation time as a signed decimal.
pub open spec fn spec_cursor_text(c: TransactionCursor) -> Seq<char> {
    pad_digits(c.after_date.year as nat, 4) + seq!['-'] + pad_digits(c.after_date.month as nat, 2)
        + seq!['-'] + pad_digits(c.after_date.day as nat, 2) + seq!['/'] + (if c.after_created_at
        < 0 {
        seq!['-']
    } else {
        Seq::<char>::empty()
    }) + spec_digits(cursor_mag(c.after_created_at as int))
}

/// Ten to the `k`.
pub open spec fn pow10(k: nat) -> nat
    decreases k,
{
    if k == 0 {
        1
    } else {
        10 * pow10((k - 1) as nat)
    }
}

/// A number below ten to the `k` has at most `k` digits.
proof fn lemma_digits_len(n: nat, k: nat)
    requires
        k >= 1,
        n < pow10(k),
    ensures
        spec_digits(n).len() <= k,
    decreases k,
{
    if n >= 10 {
        assert(pow10(k) == 10 * pow10((k - 1) as nat));
        assert(n / 10 < pow10((k - 1) as nat)) by (nonlinear_arith)
            requires
                n < 10 * pow10((k - 1) as nat),
        ;
        lemma_digits_len(n / 10, (k - 1) as nat);
    }
}

/// Append the digits of `n`, zero-padded to at least `width` digits.
fn push_padded(n: u32, width: usize, out: &mut Vec<char>)
    requires
        width >= 1,
    ensures
        final (out)@ == old(out)@ + pad_digits(n as nat, width as int),
{
    let mut digits: Vec<char> = Vec::new();
    push_digits_u32(n, &mut digits);
    let pad: usize = if digits.len() < width {
        width - digits.len()
    } else {
        0
    };
    let ghost base = out@;
    let mut z: usize = 0;
    while z < pad
        invariant
            z <= pad,
            out@ == base + zeros(z as nat),
        decreases pad - z,
    {
        out.push('0');
        proof {
            assert(base + zeros((z + 1) as nat) =~= (base + zeros(z as nat)).push('0'));
        }
        z = z + 1;
    }
    let mut k: usize = 0;
    while k < digits.len()
        invariant
            k <= digits@.len(),
            out@ == base + zeros(pad as nat) + digits@.take(k as int),
        decreases digits@.len() - k,
    {
        out.push(digits[k]);
        proof {
            assert(base + zeros(pad as nat) + digits@.take(k + 1) =~= (base + zeros(pad as nat)
                + digits@.take(k as int)).push(digits@[k as int]));
        }
        k = k + 1;
    }
    proof {
        assert(digits@.take(digits@.len() as int) =~= digits@);
        assert(final (out)@ =~= old(out)@ + pad_digits(n as nat, width as int));
    }
}

/// Encode a cursor as an opaque base64 token.
pub fn encode_cursor(c: &TransactionCursor) -> (r: String)
    ensures
        r@ == base64_url_text(spec_cursor_text(*c)),
{
    let mut text: Vec<char> = Vec::new();
    push_padded(c.after_date.year as u32, 4, &mut text);
    text.push('-');
    push_padded(c.after_date.month as u32, 2, &mut text);
    text.push('-');
    push_padded(c.after_date.day as u32, 2, &mut text);
    text.push('/');
    let mag: u64 = if c.after_created_at < 0 {
        text.push('-');
        (-(c.after_created_at as i128)) as u64
    } else {
        c.after_created_at as u64
    };
    push_digits_u64(mag, &mut text);
    proof {
        assert(text@ =~= spec_cursor_text(*c));
    }
    let text_str = chars_to_string(&text);
    b64_encode_text(text_str.as_str())
}

/// Read an unsigned decimal from a range of characters, refusing a value
/// above `max`, an empty range and any non-digit.
fn parse_digits_range(cs: &Vec<char>, from: usize, to: usize, max: u64) -> (r: Option<u64>)
    requires
        from <= to <= cs@.len(),
    ensures
        ({
            let sub = cs@.subrange(from as int, to as int);
            &&& (to > from && all_digits(sub) && digits_val(sub) <= max) ==> (r == Some(
                digits_val(sub) as u64,
            ) && 0 <= digits_val(sub))
            &&& !(to > from && all_digits(sub) && digits_val(sub) <= max) ==> r is None
        }),
{
    let ghost sub = cs@.subrange(from as int, to as int);
    if to == from {
        return None;
    }
    let mut acc: u64 = 0;
    let mut k: usize = from;
    while k < to
        invariant
            from <= k <= to <= cs@.len(),
            from < to,
            sub == cs@.subrange(from as int, to as int),
            all_digits(sub.take(k - from)),
            acc == digits_val(sub.take(k - from)),
            acc <= max,
        decreases to - k,
    {
        let c = cs[k];
        let u = c as u32;
        proof {
            assert(sub.take(k + 1 - from) =~= sub.take(k - from).push(sub[k - from]));
            assert(sub.take(k + 1 - from).drop_last() =~= sub.take(k - from));
            assert(sub.take(k + 1 - from).last() == sub[k - from]);
            assert(sub[k - from] == cs@[k as int]);
        }
        if u < 48 || u > 57 {
            assert(!all_digits(sub));
            return None;
        }
        let d = (u - 48) as u64;
        let next: u128 = (acc as u128) * 10 + d as u128;
        if next > max as u128 {
            proof {
                if all_digits(sub) {
                    lemma_digits_val_prefix(sub, k + 1 - from);
                    lemma_digits_val_nonneg(sub);
                    assert(digits_val(sub) >= digits_val(sub.take(k + 1 - from)));
                }
            }
            return None;
        }
        acc = next as u64;
        k = k + 1;
    }
    proof {
        assert(sub.take(to - from) =~= sub);
        lemma_digits_val_nonneg(sub);
    }
    Some(acc)
}

/// The fixed layout of a cursor's text, used to read it back.
proof fn lemma_cursor_text_structure(c: TransactionCursor)
    requires
        c.after_date.wf(),
    ensures
        ({
            let t = spec_cursor_text(c);
            let tail = if c.after_created_at < 0 {
                seq!['-'] + spec_digits(cursor_mag(c.after_created_at as int))
            } else {
                spec_digits(cursor_mag(c.after_created_at as int))
            };
            &&& t.len() == 11 + tail.len()
            &&& t.subrange(0, 4) == pad_digits(c.after_date.year as nat, 4)
            &&& t[4] == '-'
            &&& t.subrange(5, 7) == pad_digits(c.after_date.month as nat, 2)
            &&& t[7] == '-'
            &&& t.subrange(8, 10) == pad_digits(c.after_date.day as nat, 2)
            &&& t[10] == '/'
            &&& t.subrange(11, t.len() as int) == tail
        }),
{
    let t = spec_cursor_text(c);
    assert(pow10(0) == 1);
    assert(pow10(1) == 10);
    assert(pow10(2) == 100);
    assert(pow10(3) == 1000);
    assert(pow10(4) == 10000);
    lemma_digits_len(c.after_date.year as nat, 4);
    lemma_digits_len(c.after_date.month as nat, 2);
    lemma_digits_len(c.after_date.day as nat, 2);
    lemma_spec_digits_val(c.after_date.year as nat);
    lemma_spec_digits_val(c.after_date.month as nat);
    lemma_spec_digits_val(c.after_date.day as nat);
    assert(pad_digits(c.after_date.year as nat, 4).len() == 4);
    assert(pad_digits(c.after_date.month as nat, 2).len() == 2);
    assert(pad_digits(c.after_date.day as nat, 2).len() == 2);
    assert(t.subrange(0, 4) =~= pad_digits(c.after_date.year as nat, 4));
    assert(t.subrange(5, 7) =~= pad_digits(c.after_date.month as nat, 2));
    assert(t.subrange(8, 10) =~= pad_digits(c.after_date.day as nat, 2));
    let tail = if c.after_created_at < 0 {
        seq!['-'] + spec_digits(cursor_mag(c.after_created_at as int))
    } else {
        spec_digits(cursor_mag(c.after_created_at as int))
    };
    assert(t.subrange(11, t.len() as int) =~= tail);
}

/// A padded digit block reads back as the number it was made from.
proof fn lemma_pad_digits_val(n: nat, k: int)
    ensures
        all_digits(pad_digits(n, k)),
        digits_val(pad_digits(n, k)) == n,
        pad_digits(n, k).len() >= 1,
    decreases k,
{
    lemma_spec_digits_val(n);
    let digits = spec_digits(n);
    let pad = if digits.len() < k {
        (k - digits.len()) as nat
    } else {
        0
    };
    lemma_digits_val_leading_zeros(pad, digits);
    assert(forall|i: int| 0 <= i < pad ==> #[trigger] pad_digits(n, k)[i] == '0');
    assert(forall|i: int|
        pad <= i < pad_digits(n, k).len() ==> #[trigger] pad_digits(n, k)[i] == digits[i - pad]);
}

/// Decode an opaque base64 cursor token. Every token `encode_cursor`
/// produces from a well-formed cursor decodes back to exactly that cursor;
/// anything else is refused or yields a cursor with a well-formed date.
pub fn decode_cursor(s: &str) -> (r: Option<TransactionCursor>)
    ensures
        forall|c: TransactionCursor|
            c.after_date.wf() && s@ == #[trigger] base64_url_text(spec_cursor_text(c)) ==> r
                == Some(c),
        r matches Some(c) ==> c.after_date.wf() && s@ == base64_url_text(spec_cursor_text(c)),
{
    let text = match b64_decode_text(s) {
        Some(t) => t,
        None => {
            return None;
        },
    };
    let cs = string_to_chars(text.as_str());
    let r = parse_cursor_text(&cs);
    proof {
        assert forall|c: TransactionCursor|
            c.after_date.wf() && s@ == #[trigger] base64_url_text(
                spec_cursor_text(c),
            ) implies r == Some(c) by {
            assert(text@ == spec_cursor_text(c));
        }
        if r is Some {
            let c = r->0;
            assert(text@ == spec_cursor_text(c));
            assert(s@ == base64_url_text(text@));
        }
    }
    r
}

/// Read a cursor from its plain text form, accepting exactly the canonical
/// texts: anything else — a malformed layout, an invalid date, a magnitude
/// with leading zeros, or a negative zero — is refused.
#[verifier::rlimit(100)]
fn parse_cursor_text(cs: &Vec<char>) -> (r: Option<TransactionCursor>)
    ensures
        forall|c: TransactionCursor|
            c.after_date.wf() && cs@ == #[trigger] spec_cursor_text(c) ==> r == Some(c),
        r matches Some(c) ==> c.after_date.wf() && cs@ == spec_cursor_text(c),
{
    if cs.len() < 12 {
        proof {
            assert forall|c: TransactionCursor|
                c.after_date.wf() && cs@ == #[trigger] spec_cursor_text(c) implies false by {
                lemma_cursor_text_structure(c);
                lemma_spec_digits_val(cursor_mag(c.after_created_at as int));
            }
        }
        return None;
    }
    if !(cs[4] == '-' && cs[7] == '-' && cs[10] == '/') {
        proof {
            assert forall|c: TransactionCursor|
                c.after_date.wf() && cs@ == #[trigger] spec_cursor_text(c) implies false by {
                lemma_cursor_text_structure(c);
            }
        }
        return None;
    }
    let year = parse_digits_range(cs, 0, 4, 9999);
    let month = parse_digits_range(cs, 5, 7, 99);
    let day = parse_digits_range(cs, 8, 10, 99);
    let (y, m, d) = match (year, month, day) {
        (Some(y), Some(m), Some(d)) => (y, m, d),
        _ => {
            proof {
                assert forall|c: TransactionCursor|
                    c.after_date.wf() && cs@ == #[trigger] spec_cursor_text(c) implies false by {
                    lemma_cursor_text_structure(c);
                    lemma_pad_digits_val(c.after_date.year as nat, 4);
                    lemma_pad_digits_val(c.after_date.month as nat, 2);
                    lemma_pad_digits_val(c.after_date.day as nat, 2);
                }
            }
            return None;
        },
    };
    let date = match Date::new(y as u16, m as u8, d as u8) {
        Some(date) => date,
        None => {
            proof {
                assert forall|c: TransactionCursor|
                    c.after_date.wf() && cs@ == #[trigger] spec_cursor_text(c) implies false by {
                    lemma_cursor_text_structure(c);
                    lemma_pad_digits_val(c.after_date.year as nat, 4);
                    lemma_pad_digits_val(c.after_date.month as nat, 2);
                    lemma_pad_digits_val(c.after_date.day as nat, 2);
                }
            }
            return None;
        },
    };
    let neg = cs[11] == '-';
    let from: usize = if neg {
        12
    } else {
        11
    };
    let max: u64 = if neg {
        0x8000_0000_0000_0000
    } else {
        0x7fff_ffff_ffff_ffff
    };
    let mag = match parse_digits_range(cs, from, cs.len(), max) {
        Some(mag) => mag,
        None => {
            proof {
                assert forall|c: TransactionCursor|
                    c.after_date.wf() && cs@ == #[trigger] spec_cursor_text(c) implies false by {
                    lemma_cursor_text_structure(c);
                    lemma_sign_digits(c, cs@);
                }
            }
            return None;
        },
    };
    // Only the canonical spelling of the magnitude is accepted: no negative
    // zero, no leading zeros.
    if neg && mag == 0 {
        proof {
            assert forall|c: TransactionCursor|
                c.after_date.wf() && cs@ == #[trigger] spec_cursor_text(c) implies false by {
                lemma_cursor_text_structure(c);
                lemma_sign_digits(c, cs@);
            }
        }
        return None;
    }
    if cs.len() - from > 1 && cs[from] == '0' {
        proof {
            assert forall|c: TransactionCursor|
                c.after_date.wf() && cs@ == #[trigger] spec_cursor_text(c) implies false by {
                lemma_cursor_text_structure(c);
                lemma_sign_digits(c, cs@);
                crate::text::lemma_spec_digits_no_leading_zero(
                    cursor_mag(c.after_created_at as int),
                );
            }
        }
        return None;
    }
    let created: i64 = if neg {
        if mag == 0x8000_0000_0000_0000 {
            i64::MIN
        } else {
            -(mag as i64)
        }
    } else {
        mag as i64
    };
    let result = TransactionCursor { after_date: date, after_created_at: created };
    proof {
        assert forall|c: TransactionCursor|
            c.after_date.wf() && cs@ == #[trigger] spec_cursor_text(c) implies result == c by {
            lemma_cursor_text_structure(c);
            lemma_pad_digits_val(c.after_date.year as nat, 4);
            lemma_pad_digits_val(c.after_date.month as nat, 2);
            lemma_pad_digits_val(c.after_date.day as nat, 2);
            lemma_sign_digits(c, cs@);
        }
        // Soundness: the accepted text is the canonical token of the result.
        let sub_y = cs@.subrange(0, 4);
        let sub_m = cs@.subrange(5, 7);
        let sub_d = cs@.subrange(8, 10);
        let sub_t = cs@.subrange(from as int, cs@.len() as int);
        assert(pow10(0) == 1);
        assert(pow10(1) == 10);
        assert(pow10(2) == 100);
        assert(pow10(3) == 1000);
        assert(pow10(4) == 10000);
        lemma_digits_len(y as nat, 4);
        lemma_digits_len(m as nat, 2);
        lemma_digits_len(d as nat, 2);
        lemma_pad_digits_val(y as nat, 4);
        lemma_pad_digits_val(m as nat, 2);
        lemma_pad_digits_val(d as nat, 2);
        lemma_spec_digits_val(y as nat);
        lemma_spec_digits_val(m as nat);
        lemma_spec_digits_val(d as nat);
        assert(pad_digits(y as nat, 4).len() == 4);
        assert(pad_digits(m as nat, 2).len() == 2);
        assert(pad_digits(d as nat, 2).len() == 2);
        lemma_digits_val_injective(sub_y, pad_digits(y as nat, 4));
        lemma_digits_val_injective(sub_m, pad_digits(m as nat, 2));
        lemma_digits_val_injective(sub_d, pad_digits(d as nat, 2));
        assert(sub_t.len() >= 1);
        crate::text::lemma_canonical_digits(sub_t);
        assert(spec_digits(mag as nat) == sub_t);
        assert(cursor_mag(created as int) == mag as nat);
        assert(result.after_date.year as nat == y as nat);
        assert(result.after_date.month as nat == m as nat);
        assert(result.after_date.day as nat == d as nat);
        if neg {
            assert(cs@ =~= sub_y + seq!['-'] + sub_m + seq!['-'] + sub_d + seq!['/']
                + seq!['-'] + sub_t);
            assert(spec_cursor_text(result) == sub_y + seq!['-'] + sub_m + seq!['-'] + sub_d
                + seq!['/'] + seq!['-'] + sub_t);
        } else {
            assert(cs@ =~= sub_y + seq!['-'] + sub_m + seq!['-'] + sub_d + seq!['/'] + sub_t);
            assert(spec_cursor_text(result) == sub_y + seq!['-'] + sub_m + seq!['-'] + sub_d
                + seq!['/'] + Seq::<char>::empty() + sub_t);
            assert(sub_y + seq!['-'] + sub_m + seq!['-'] + sub_d + seq!['/']
                + Seq::<char>::empty() + sub_t =~= sub_y + seq!['-'] + sub_m + seq!['-'] + sub_d
                + seq!['/'] + sub_t);
        }
    }
    Some(result)
}

/// The tail of a cursor's text: its sign marker and the magnitude's digits.
proof fn lemma_sign_digits(c: TransactionCursor, t: Seq<char>)
    requires
        c.after_date.wf(),
        t == spec_cursor_text(c),
    ensures
        ({
            let mag = cursor_mag(c.after_created_at as int);
            &&& (c.after_created_at < 0 ==> t.len() >= 13 && t[11] == '-' && t.subrange(
                12,
                t.len() as int,
            ) == spec_digits(mag))
            &&& (c.after_created_at >= 0 ==> t.len() >= 12 && t[11] != '-' && t.subrange(
                11,
                t.len() as int,
            ) == spec_digits(mag))
            &&& all_digits(spec_digits(mag))
            &&& digits_val(spec_digits(mag)) == mag
            &&& mag <= 0x8000_0000_0000_0000
            &&& (c.after_created_at >= 0 ==> mag <= 0x7fff_ffff_ffff_ffff)
        }),
{
    lemma_cursor_text_structure(c);
    let mag = cursor_mag(c.after_created_at as int);
    lemma_spec_digits_val(mag);
    if c.after_created_at < 0 {
        assert(t.subrange(12, t.len() as int) =~= spec_digits(mag));
        assert(t[11] == '-');
    } else {
        assert(t.subrange(11, t.len() as int) =~= spec_digits(mag));
        assert(is_digit_char(t[11]));
        assert(t[11] != '-') by {
            assert('-' as u32 == 45);
            assert(48 <= t[11] as u32);
        }
    }
}

} // verus!
