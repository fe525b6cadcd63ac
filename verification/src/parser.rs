//! The tolerant record parser: one settings blob or one JSONL line in, one
//! typed value or "not applicable" out.
//!
//! The JSON is read through `crate::jsonval`; everything above those
//! accessors — the ordered key fallbacks, the defaults, and the decimal
//! cost parsing — is verified. The accepted key paths per logical field are
//! part of the wire contract and appear in the `spec_*` functions below.
use vstd::prelude::*;
use vstd::string::*;

use crate::clock;
use crate::jsonval::{
    json_as_int, json_as_str, json_get, json_int, json_member, json_num_text, json_number_text,
    json_parse, json_str,
};
use crate::models::{MessageRecord, MessageUsage, RecordV, UsageV};
use crate::seqs::{first_where, lemma_first_where};

verus! {

/// Why an input unit could not be read at all.
#[derive(Clone, Copy, Debug, PartialEq, Eq, Structural)]
pub enum ParserError {
    /// The text is not valid JSON.
    InvalidJson,
    /// No recognized auth-token key path holds a string.
    MissingApiKey,
}

/// The credential and optional endpoint read from a settings blob.
#[derive(Clone, Debug)]
pub struct Settings {
    /// The raw credential.
    pub api_key: String,
    /// Optional override base URL.
    pub base_url: Option<String>,
}

// ---------------------------------------------------------------------------
// Decimal cost text, parsed to micro-dollars.
/// Whether `c` is a decimal digit.
pub open spec fn is_digit(c: char) -> bool {
    48 <= (c as u32) <= 57
}

/// The numeric value of a digit character.
pub open spec fn digit_val(c: char) -> int {
    (c as u32) - 48
}

/// Whether every character is a decimal digit.
pub open spec fn all_digits(s: Seq<char>) -> bool {
    forall|i: int| 0 <= i < s.len() ==> is_digit(#[trigger] s[i])
}

/// The value of a digit string.
pub open spec fn digits_val(s: Seq<char>) -> int
    decreases s.len(),
{
    if s.len() == 0 {
        0
    } else {
        digits_val(s.drop_last()) * 10 + digit_val(s.last())
    }
}

/// Ten to the `n`.
pub open spec fn pow10(n: nat) -> int
    decreases n,
{
    if n == 0 {
        1
    } else {
        10 * pow10((n - 1) as nat)
    }
}

/// A digit string's value is bounded by ten to its length.
pub proof fn lemma_digits_val_bounds(s: Seq<char>)
    requires
        all_digits(s),
    ensures
        0 <= digits_val(s) < pow10(s.len()),
    decreases s.len(),
{
    if s.len() > 0 {
        assert(forall|i: int| 0 <= i < s.len() - 1 ==> #[trigger] s.drop_last()[i] == s[i]);
        lemma_digits_val_bounds(s.drop_last());
        assert(s.last() == s[s.len() - 1]);
    }
}

/// `pow10` never decreases.
pub proof fn lemma_pow10_mono(a: nat, b: nat)
    requires
        a <= b,
    ensures
        pow10(a) <= pow10(b),
    decreases b,
{
    if a < b {
        lemma_pow10_mono(a, (b - 1) as nat);
        assert(pow10((b - 1) as nat) >= 1) by {
            lemma_pow10_pos((b - 1) as nat);
        }
    }
}

/// `pow10` is positive.
pub proof fn lemma_pow10_pos(n: nat)
    ensures
        pow10(n) >= 1,
    decreases n,
{
    if n > 0 {
        lemma_pow10_pos((n - 1) as nat);
    }
}

/// Selects the decimal point.
pub open spec fn dot_sel() -> spec_fn(char) -> bool {
    |c: char| c == '.'
}

/// The fraction digits scaled to exactly six places: truncated past six,
/// padded with zeros below six.
pub open spec fn frac6(s: Seq<char>) -> Seq<char> {
    if s.len() >= 6 {
        s.take(6)
    } else {
        s + Seq::new((6 - s.len()) as nat, |i: int| '0')
    }
}

/// A cost in micro-dollars read from plain decimal text: an integer part of
/// one to twelve digits, optionally a decimal point and fraction digits, of
/// which the first six count (the value's floor at six places). Signs,
/// further points, or a longer integer part read as `None`.
pub open spec fn spec_micros_plain(s: Seq<char>) -> Option<int> {
    let dot = first_where(s, dot_sel());
    if dot == -1 {
        if 1 <= s.len() <= 12 && all_digits(s) {
            Some(digits_val(s) * 1_000_000)
        } else {
            None
        }
    } else {
        let ip = s.take(dot);
        let fp = s.skip(dot + 1);
        if 1 <= ip.len() <= 12 && all_digits(ip) && all_digits(fp) {
            Some(digits_val(ip) * 1_000_000 + digits_val(frac6(fp)))
        } else {
            None
        }
    }
}

/// Selects an exponent marker.
pub open spec fn exp_sel() -> spec_fn(char) -> bool {
    |c: char| c == 'e' || c == 'E'
}

/// The signed value of exponent text: an optional sign, then one to four
/// digits.
pub open spec fn spec_exp_val(s: Seq<char>) -> Option<int> {
    if s.len() > 0 && (s[0] == '+' || s[0] == '-') {
        let d = s.skip(1);
        if 1 <= d.len() <= 4 && all_digits(d) {
            Some(
                if s[0] == '-' {
                    -digits_val(d)
                } else {
                    digits_val(d)
                },
            )
        } else {
            None
        }
    } else {
        if 1 <= s.len() <= 4 && all_digits(s) {
            Some(digits_val(s))
        } else {
            None
        }
    }
}

/// The mantissa's digit string value and its count of fraction digits: an
/// integer part of one to twelve digits, optionally a point and at most
/// seventeen fraction digits.
pub open spec fn spec_mantissa(s: Seq<char>) -> Option<(int, int)> {
    let dot = first_where(s, dot_sel());
    if dot == -1 {
        if 1 <= s.len() <= 12 && all_digits(s) {
            Some((digits_val(s), 0))
        } else {
            None
        }
    } else {
        let ip = s.take(dot);
        let fp = s.skip(dot + 1);
        if 1 <= ip.len() <= 12 && all_digits(ip) && all_digits(fp) && fp.len() <= 17 {
            Some((digits_val(ip + fp), fp.len() as int))
        } else {
            None
        }
    }
}

/// A cost in micro-dollars read from decimal text, plain or exponent
/// rendered: the number's value scaled to six decimal places and truncated.
/// A signed mantissa, a malformed shape, or a value past the 64-bit range
/// reads as `None`.
pub open spec fn spec_micros(s: Seq<char>) -> Option<int> {
    let e = first_where(s, exp_sel());
    if e == -1 {
        spec_micros_plain(s)
    } else {
        match (spec_mantissa(s.take(e)), spec_exp_val(s.skip(e + 1))) {
            (Some(dm), Some(ex)) => {
                let p = ex + 6 - dm.1;
                if p >= 0 {
                    if dm.0 * pow10(p as nat) <= i64::MAX {
                        Some(dm.0 * pow10(p as nat))
                    } else {
                        None
                    }
                } else {
                    if dm.0 / pow10((-p) as nat) <= i64::MAX {
                        Some(dm.0 / pow10((-p) as nat))
                    } else {
                        None
                    }
                }
            },
            _ => None,
        }
    }
}

/// Parses plain decimal cost text to micro-dollars.
#[verifier::rlimit(100)]
#[verifier::spinoff_prover]
fn micros_of_plain(s: &str) -> (r: Option<i64>)
    ensures
        (match r {
            Some(m) => spec_micros_plain(s@) == Some(m as int) && m >= 0,
            None => spec_micros_plain(s@) is None,
        }),
{
    let len = s.unicode_len();
    proof {
        lemma_first_where(s@, dot_sel());
    }

    // Find the decimal point, if any.
    let mut dot: usize = len;
    let mut has_dot = false;
    let mut i: usize = 0;
    while i < len && !has_dot
        invariant
            i <= len,
            len == s@.len(),
            !has_dot ==> (dot == len && forall|k: int| 0 <= k < i ==> !(dot_sel()(#[trigger] s@[k]))),
            has_dot ==> (dot < len && dot as int == first_where(s@, dot_sel())),
        decreases len - i + (if has_dot {
            0int
        } else {
            1
        }),
    {
        let c = s.get_char(i);
        if c == '.' {
            proof {
                assert(dot_sel()(s@[i as int]));
                let fw = first_where(s@, dot_sel());
                assert(fw != -1);
                if fw < i as int {
                    assert(!dot_sel()(s@[fw]));
                }
                if fw > i as int {
                    assert(!dot_sel()(s@[i as int]));
                }
            }
            dot = i;
            has_dot = true;
        } else {
            i = i + 1;
        }
    }
    proof {
        if has_dot {
            assert(dot as int == first_where(s@, dot_sel()));
        }
    }
    proof {
        if !has_dot {
            assert(first_where(s@, dot_sel()) == -1);
        }
    }
    let ghost ip = if has_dot {
        s@.take(dot as int)
    } else {
        s@
    };
    proof {
        if !has_dot {
            assert(s@.take(len as int) =~= s@);
        }
    }

    // Integer part: one to twelve digits.
    if dot == 0 || dot > 12 {
        return None;
    }
    let mut val: i64 = 0;
    let mut j: usize = 0;
    proof {
        assert(ip.take(0) =~= Seq::<char>::empty());
        reveal_with_fuel(pow10, 13);
    }
    while j < dot
        invariant
            j <= dot,
            dot <= 12,
            dot <= len,
            len == s@.len(),
            ip.len() == dot,
            forall|k: int| 0 <= k < ip.len() ==> ip[k] == s@[k],
            all_digits(ip.take(j as int)),
            val == digits_val(ip.take(j as int)),
            0 <= val,
        decreases dot - j,
    {
        let c = s.get_char(j);
        let cu = c as u32;
        if cu < 48 || cu > 57 {
            proof {
                assert(!is_digit(ip[j as int]));
            }
            return None;
        }
        proof {
            assert(ip.take(j + 1 as int).drop_last() =~= ip.take(j as int));
            assert(ip.take(j + 1 as int).last() == ip[j as int]);
            lemma_digits_val_bounds(ip.take(j as int));
            lemma_pow10_mono((j as nat), 12nat);
            reveal_with_fuel(pow10, 13);
            assert(pow10(12) == 1_000_000_000_000);
        }
        let d = (cu - 48) as i64;
        val = val * 10 + d;
        j = j + 1;
    }
    proof {
        assert(ip.take(dot as int) =~= ip);
        lemma_digits_val_bounds(ip);
        lemma_pow10_mono((ip.len() as nat), 12nat);
        reveal_with_fuel(pow10, 13);
        assert(pow10(12) == 1_000_000_000_000);
    }

    // Fraction part: any digits; the first six carry value.
    let mut fval: i64 = 0;
    let mut fcount: usize = 0;
    if has_dot {
        let ghost fp = s@.skip(dot + 1 as int);
        let mut k: usize = dot + 1;
        proof {
            assert(fp.take(0) =~= Seq::<char>::empty());
        }
        while k < len
            invariant
                dot + 1 <= k <= len,
                len == s@.len(),
                fp == s@.skip(dot + 1 as int),
                fp.len() == len - dot - 1,
                forall|q: int| 0 <= q < fp.len() ==> fp[q] == s@[dot + 1 + q],
                all_digits(fp.take(k - dot - 1 as int)),
                fcount == (if k - dot - 1 <= 6 {
                    k - dot - 1
                } else {
                    6
                }),
                fval == digits_val(fp.take(fcount as int)),
                0 <= fval < 1_000_000,
            decreases len - k,
        {
            let c = s.get_char(k);
            let cu = c as u32;
            if cu < 48 || cu > 57 {
                proof {
                    assert(!is_digit(fp[k - dot - 1 as int]));
                }
                return None;
            }
            proof {
                assert(fp.take(k - dot as int).drop_last() =~= fp.take(k - dot - 1 as int));
                assert(fp.take(k - dot as int).last() == fp[k - dot - 1 as int]);
                if fcount < 6 {
                    assert(fp.take(fcount + 1 as int).drop_last() =~= fp.take(fcount as int));
                    assert(fp.take(fcount + 1 as int).last() == fp[fcount as int]);
                    lemma_digits_val_bounds(fp.take(fcount as int));
                    lemma_pow10_mono((fcount as nat), 5nat);
                    reveal_with_fuel(pow10, 7);
                }
            }
            if fcount < 6 {
                let d = (cu - 48) as i64;
                fval = fval * 10 + d;
                fcount = fcount + 1;
            }
            k = k + 1;
        }
        // Pad short fractions to six places.
        proof {
            assert(fp.take(fp.len() as int) =~= fp);
        }
        if fcount < 6 {
            proof {
                assert(frac6(fp).take(fcount as int) =~= fp.take(fcount as int));
            }
            while fcount < 6
            invariant
                fcount <= 6,
                fp == s@.skip(dot + 1 as int),
                all_digits(fp),
                fp.len() <= fcount,
                fval == digits_val(frac6(fp).take(fcount as int)),
                0 <= fval < 1_000_000,
                frac6(fp).len() == 6,
            decreases 6 - fcount,
        {
            proof {
                assert(frac6(fp).take(fcount + 1 as int).drop_last() =~= frac6(fp).take(
                    fcount as int,
                ));
                assert(frac6(fp).take(fcount + 1 as int).last() == frac6(fp)[fcount as int]);
                assert(frac6(fp)[fcount as int] == '0');
                assert forall|q: int| 0 <= q < fcount implies is_digit(
                    #[trigger] frac6(fp).take(fcount as int)[q],
                ) by {
                    if q < fp.len() {
                        assert(frac6(fp)[q] == fp[q]);
                    } else {
                        assert(frac6(fp)[q] == '0');
                    }
                }
                lemma_digits_val_bounds(frac6(fp).take(fcount as int));
                lemma_pow10_mono((fcount as nat), 5nat);
                reveal_with_fuel(pow10, 7);
            }
                fval = fval * 10;
                fcount = fcount + 1;
            }
        }
        proof {
            if fp.len() >= 6 {
                assert(frac6(fp) =~= fp.take(6));
                assert(fval == digits_val(frac6(fp)));
            } else {
                assert(frac6(fp).take(6) =~= frac6(fp));
                assert(fval == digits_val(frac6(fp)));
            }
        }
    }
    Some(val * 1_000_000 + fval)
}

/// Computes a small power of ten.
fn pow10_exec(p: u64) -> (r: i128)
    requires
        p <= 29,
    ensures
        r == pow10(p as nat),
        1 <= r,
{
    let mut acc: i128 = 1;
    let mut j: u64 = 0;
    proof {
        reveal_with_fuel(pow10, 31);
        assert(pow10(29) == 100_000_000_000_000_000_000_000_000_000);
    }
    while j < p
        invariant
            j <= p <= 29,
            acc == pow10(j as nat),
            1 <= acc,
        decreases p - j,
    {
        proof {
            lemma_pow10_mono((j + 1) as nat, 29nat);
            reveal_with_fuel(pow10, 31);
            assert(pow10(29) == 100_000_000_000_000_000_000_000_000_000);
        }
        acc = acc * 10;
        j = j + 1;
    }
    acc
}

/// Parses exponent text: an optional sign, then one to four digits.
fn parse_exp(s: &str) -> (r: Option<i64>)
    ensures
        (match r {
            Some(ev) => spec_exp_val(s@) == Some(ev as int) && -9999 <= ev <= 9999,
            None => spec_exp_val(s@) is None,
        }),
{
    let len = s.unicode_len();
    let mut start: usize = 0;
    let mut neg = false;
    if len > 0 {
        let c0 = s.get_char(0);
        if c0 == '+' || c0 == '-' {
            neg = c0 == '-';
            start = 1;
        }
    }
    let ghost d = s@.skip(start as int);
    proof {
        if start == 0 {
            assert(s@.skip(0) =~= s@);
        }
    }
    let dlen = len - start;
    if dlen < 1 || dlen > 4 {
        return None;
    }
    let mut ev: i64 = 0;
    let mut j: usize = 0;
    proof {
        assert(d.take(0) =~= Seq::<char>::empty());
        reveal_with_fuel(pow10, 5);
    }
    while j < dlen
        invariant
            j <= dlen,
            1 <= dlen <= 4,
            start + dlen == len,
            len == s@.len(),
            d == s@.skip(start as int),
            all_digits(d.take(j as int)),
            ev == digits_val(d.take(j as int)),
            0 <= ev,
        decreases dlen - j,
    {
        let c = s.get_char(start + j);
        let cu = c as u32;
        proof {
            assert(d[j as int] == s@[start + j]);
        }
        if cu < 48 || cu > 57 {
            proof {
                assert(!is_digit(d[j as int]));
            }
            return None;
        }
        proof {
            assert(d.take(j + 1 as int).drop_last() =~= d.take(j as int));
            assert(d.take(j + 1 as int).last() == d[j as int]);
            lemma_digits_val_bounds(d.take(j as int));
            lemma_pow10_mono((j as nat), 4nat);
            reveal_with_fuel(pow10, 5);
        }
        ev = ev * 10 + ((cu - 48) as i64);
        j = j + 1;
    }
    proof {
        assert(d.take(dlen as int) =~= d);
        lemma_digits_val_bounds(d);
        lemma_pow10_mono((d.len() as nat), 4nat);
        reveal_with_fuel(pow10, 5);
    }
    if neg {
        Some(-ev)
    } else {
        Some(ev)
    }
}

/// Parses mantissa text to its digit-string value and fraction length.
#[verifier::rlimit(100)]
#[verifier::spinoff_prover]
fn parse_mantissa(s: &str) -> (r: Option<(i128, u64)>)
    ensures
        (match r {
            Some(dm) => spec_mantissa(s@) == Some((dm.0 as int, dm.1 as int)) && 0 <= dm.0
                < pow10(29) && dm.1 <= 17,
            None => spec_mantissa(s@) is None,
        }),
{
    let len = s.unicode_len();
    proof {
        lemma_first_where(s@, dot_sel());
    }

    // Find the decimal point, if any.
    let mut dot: usize = len;
    let mut has_dot = false;
    let mut i: usize = 0;
    while i < len && !has_dot
        invariant
            i <= len,
            len == s@.len(),
            !has_dot ==> (dot == len && forall|k: int| 0 <= k < i ==> !(dot_sel()(#[trigger] s@[k]))),
            has_dot ==> (dot < len && dot as int == first_where(s@, dot_sel())),
        decreases len - i + (if has_dot {
            0int
        } else {
            1
        }),
    {
        let c = s.get_char(i);
        if c == '.' {
            proof {
                assert(dot_sel()(s@[i as int]));
                let fw = first_where(s@, dot_sel());
                assert(fw != -1);
                if fw < i as int {
                    assert(!dot_sel()(s@[fw]));
                }
                if fw > i as int {
                    assert(!dot_sel()(s@[i as int]));
                }
            }
            dot = i;
            has_dot = true;
        } else {
            i = i + 1;
        }
    }
    proof {
        if !has_dot {
            assert(first_where(s@, dot_sel()) == -1);
        }
    }
    if dot == 0 || dot > 12 {
        return None;
    }
    let flen = if has_dot {
        len - dot - 1
    } else {
        0
    };
    if flen > 17 {
        proof {
            assert(s@.skip(dot + 1 as int).len() > 17);
        }
        return None;
    }
    let ghost ip = s@.take(dot as int);
    let ghost fp = if has_dot {
        s@.skip(dot + 1 as int)
    } else {
        Seq::<char>::empty()
    };
    let ghost dseq = ip + fp;
    proof {
        if !has_dot {
            assert(s@.take(len as int) =~= s@);
            assert(ip + fp =~= s@);
        }
        assert(dseq.take(dot as int) =~= ip);
        assert(dseq.len() == dot + flen <= 29);
    }

    // Accumulate every digit: the integer part, then the fraction.
    let mut d: i128 = 0;
    let mut j: usize = 0;
    let total = dot + flen;
    proof {
        assert(dseq.take(0) =~= Seq::<char>::empty());
        reveal_with_fuel(pow10, 31);
        assert(pow10(29) == 100_000_000_000_000_000_000_000_000_000);
    }
    while j < total
        invariant
            j <= total,
            total == dot + flen,
            0 < dot <= 12,
            flen <= 17,
            has_dot ==> dot < len && dot + 1 + flen == len,
            !has_dot ==> (dot == len && flen == 0),
            len == s@.len(),
            ip == s@.take(dot as int),
            fp == (if has_dot {
                s@.skip(dot + 1 as int)
            } else {
                Seq::<char>::empty()
            }),
            dseq == ip + fp,
            dseq.len() == total,
            all_digits(dseq.take(j as int)),
            d == digits_val(dseq.take(j as int)),
            0 <= d,
        decreases total - j,
    {
        let pos = if j < dot {
            j
        } else {
            j + 1
        };
        let c = s.get_char(pos);
        let cu = c as u32;
        proof {
            if j < dot {
                assert(dseq[j as int] == ip[j as int]);
                assert(ip[j as int] == s@[j as int]);
            } else {
                assert(dseq[j as int] == fp[j - dot]);
                assert(fp[j - dot] == s@[j + 1]);
            }
        }
        if cu < 48 || cu > 57 {
            proof {
                assert(!is_digit(dseq[j as int]));
                if j < dot {
                    assert(!is_digit(ip[j as int]));
                } else {
                    assert(!is_digit(fp[j - dot]));
                }
            }
            return None;
        }
        proof {
            assert(dseq.take(j + 1 as int).drop_last() =~= dseq.take(j as int));
            assert(dseq.take(j + 1 as int).last() == dseq[j as int]);
            lemma_digits_val_bounds(dseq.take(j as int));
            lemma_pow10_mono((j as nat), 29nat);
            reveal_with_fuel(pow10, 31);
            assert(pow10(29) == 100_000_000_000_000_000_000_000_000_000);
        }
        d = d * 10 + ((cu - 48) as i128);
        j = j + 1;
    }
    proof {
        assert(dseq.take(total as int) =~= dseq);
        lemma_digits_val_bounds(dseq);
        lemma_pow10_mono((dseq.len() as nat), 29nat);
        reveal_with_fuel(pow10, 31);
        assert(pow10(29) == 100_000_000_000_000_000_000_000_000_000);
        assert forall|q: int| 0 <= q < ip.len() implies is_digit(#[trigger] ip[q]) by {
            assert(dseq[q] == ip[q]);
        }
        assert forall|q: int| 0 <= q < fp.len() implies is_digit(#[trigger] fp[q]) by {
            assert(dseq[ip.len() + q] == fp[q]);
        }
        if !has_dot {
            assert(dseq =~= s@);
        }
    }
    Some((d, flen as u64))
}

/// Parses decimal cost text, plain or exponent rendered, to micro-dollars.
pub fn micros_of_decimal(s: &str) -> (r: Option<i64>)
    ensures
        (match r {
            Some(m) => spec_micros(s@) == Some(m as int) && m >= 0,
            None => spec_micros(s@) is None,
        }),
{
    let len = s.unicode_len();

    // Find an exponent marker, if any.
    proof {
        lemma_first_where(s@, exp_sel());
    }
    let mut epos: usize = len;
    let mut has_exp = false;
    let mut i: usize = 0;
    while i < len && !has_exp
        invariant
            i <= len,
            len == s@.len(),
            !has_exp ==> forall|k: int| 0 <= k < i ==> !(exp_sel()(#[trigger] s@[k])),
            has_exp ==> (epos < len && epos as int == first_where(s@, exp_sel())),
        decreases len - i + (if has_exp {
            0int
        } else {
            1
        }),
    {
        let c = s.get_char(i);
        if c == 'e' || c == 'E' {
            proof {
                assert(exp_sel()(s@[i as int]));
                let fw = first_where(s@, exp_sel());
                assert(fw != -1);
                if fw < i as int {
                    assert(!exp_sel()(s@[fw]));
                }
                if fw > i as int {
                    assert(!exp_sel()(s@[i as int]));
                }
            }
            epos = i;
            has_exp = true;
        } else {
            i = i + 1;
        }
    }
    if !has_exp {
        proof {
            assert(first_where(s@, exp_sel()) == -1);
        }
        return micros_of_plain(s);
    }

    let mant = s.substring_char(0, epos);
    let expo = s.substring_char(epos + 1, len);
    proof {
        assert(mant@ =~= s@.take(epos as int));
        assert(expo@ =~= s@.skip(epos + 1 as int));
    }
    let dm = match parse_mantissa(mant) {
        Some(dm) => dm,
        None => {
            return None;
        },
    };
    let ex = match parse_exp(expo) {
        Some(ex) => ex,
        None => {
            return None;
        },
    };
    let d = dm.0;
    let flen = dm.1;
    let p: i64 = ex + 6 - (flen as i64);
    proof {
        reveal_with_fuel(pow10, 31);
        assert(pow10(19) == 10_000_000_000_000_000_000);
        assert(pow10(29) == 100_000_000_000_000_000_000_000_000_000);
    }
    if p >= 0 {
        if p > 18 {
            if d == 0 {
                proof {
                    lemma_pow10_pos((p as nat));
                }
                Some(0)
            } else {
                proof {
                    lemma_pow10_mono(19nat, (p as nat));
                    assert(d * pow10(p as nat) >= pow10(p as nat)) by (nonlinear_arith)
                        requires
                            d >= 1,
                            pow10(p as nat) >= 1,
                    ;
                }
                None
            }
        } else {
            let pw = pow10_exec(p as u64);
            proof {
                lemma_pow10_mono((p as nat), 18nat);
                assert(pow10(18) == 1_000_000_000_000_000_000);
            }
            if d > (i64::MAX as i128) / pw {
                proof {
                    assert(d * pw > i64::MAX) by (nonlinear_arith)
                        requires
                            d > (i64::MAX as i128) / pw,
                            pw >= 1,
                            d >= 0,
                    ;
                }
                None
            } else {
                proof {
                    assert(d * pw <= i64::MAX && d * pw >= 0) by (nonlinear_arith)
                        requires
                            d <= (i64::MAX as i128) / pw,
                            pw >= 1,
                            d >= 0,
                    ;
                }
                Some((d * pw) as i64)
            }
        }
    } else {
        let q: i64 = -p;
        if q > 29 {
            proof {
                lemma_pow10_mono(29nat, (q as nat));
                assert((d as int) / pow10(q as nat) == 0) by (nonlinear_arith)
                    requires
                        0 <= d,
                        (d as int) < pow10(q as nat),
                ;
            }
            Some(0)
        } else {
            let pw = pow10_exec(q as u64);
            let m = d / pw;
            proof {
                assert(m >= 0 && m <= d) by (nonlinear_arith)
                    requires
                        d >= 0,
                        pw >= 1,
                        m == d / pw,
                ;
            }
            if m > i64::MAX as i128 {
                None
            } else {
                Some(m as i64)
            }
        }
    }
}

// ---------------------------------------------------------------------------
// Key-path lookups over a parsed document.
/// The string under a top-level key.
pub open spec fn str_at(v: serde_json::Value, key: Seq<char>) -> Option<Seq<char>> {
    match json_member(v, key) {
        Some(m) => json_as_str(m),
        None => None,
    }
}

/// The string under a nested key.
pub open spec fn str_at2(v: serde_json::Value, outer: Seq<char>, key: Seq<char>) -> Option<
    Seq<char>,
> {
    match json_member(v, outer) {
        Some(m) => str_at(m, key),
        None => None,
    }
}

/// The integer under a top-level key.
pub open spec fn int_at(v: serde_json::Value, key: Seq<char>) -> Option<i64> {
    match json_member(v, key) {
        Some(m) => json_as_int(m),
        None => None,
    }
}

/// The cost in micro-dollars under a top-level key, `None` when absent, not
/// a number, or not plain decimal text.
pub open spec fn micros_at(v: serde_json::Value, key: Seq<char>) -> Option<int> {
    match json_member(v, key) {
        Some(m) => match json_number_text(m) {
            Some(t) => spec_micros(t),
            None => None,
        },
        None => None,
    }
}

/// The auth token of a settings blob: the first string among
/// `ANTHROPIC_AUTH_TOKEN`, `anthropic_auth_token`, and the same two keys
/// nested under `env`.
pub open spec fn spec_auth_token_of(v: serde_json::Value) -> Option<Seq<char>> {
    if str_at(v, "ANTHROPIC_AUTH_TOKEN"@) is Some {
        str_at(v, "ANTHROPIC_AUTH_TOKEN"@)
    } else if str_at(v, "anthropic_auth_token"@) is Some {
        str_at(v, "anthropic_auth_token"@)
    } else if str_at2(v, "env"@, "ANTHROPIC_AUTH_TOKEN"@) is Some {
        str_at2(v, "env"@, "ANTHROPIC_AUTH_TOKEN"@)
    } else {
        str_at2(v, "env"@, "anthropic_auth_token"@)
    }
}

/// The endpoint override of a settings blob: the first string among
/// `ANTHROPIC_BASE_URL`, `anthropic_base_url`, and the same two keys nested
/// under `env`.
pub open spec fn spec_base_url_of(v: serde_json::Value) -> Option<Seq<char>> {
    if str_at(v, "ANTHROPIC_BASE_URL"@) is Some {
        str_at(v, "ANTHROPIC_BASE_URL"@)
    } else if str_at(v, "anthropic_base_url"@) is Some {
        str_at(v, "anthropic_base_url"@)
    } else if str_at2(v, "env"@, "ANTHROPIC_BASE_URL"@) is Some {
        str_at2(v, "env"@, "ANTHROPIC_BASE_URL"@)
    } else {
        str_at2(v, "env"@, "anthropic_base_url"@)
    }
}

/// Reads a string at a top-level key.
fn get_str(v: &serde_json::Value, key: &str) -> (r: Option<String>)
    ensures
        (match r {
            Some(s) => str_at(*v, key@) == Some(s@),
            None => str_at(*v, key@) is None,
        }),
{
    match json_get(v, key) {
        Some(m) => json_str(m),
        None => None,
    }
}

/// Reads a string at a nested key.
fn get_str2(v: &serde_json::Value, outer: &str, key: &str) -> (r: Option<String>)
    ensures
        (match r {
            Some(s) => str_at2(*v, outer@, key@) == Some(s@),
            None => str_at2(*v, outer@, key@) is None,
        }),
{
    match json_get(v, outer) {
        Some(m) => get_str(m, key),
        None => None,
    }
}

/// Reads an integer at a top-level key.
fn get_int(v: &serde_json::Value, key: &str) -> (r: Option<i64>)
    ensures
        r == int_at(*v, key@),
{
    match json_get(v, key) {
        Some(m) => json_int(m),
        None => None,
    }
}

/// Reads a micro-dollar cost at a top-level key.
fn get_micros(v: &serde_json::Value, key: &str) -> (r: Option<i64>)
    ensures
        (match r {
            Some(m) => micros_at(*v, key@) == Some(m as int) && m >= 0,
            None => micros_at(*v, key@) is None,
        }),
{
    match json_get(v, key) {
        Some(m) => match json_num_text(m) {
            Some(t) => micros_of_decimal(t.as_str()),
            None => None,
        },
        None => None,
    }
}

/// Extracts credential settings from a parsed settings document; exact over
/// the documented key paths.
pub fn settings_of_value(v: &serde_json::Value) -> (r: Result<Settings, ParserError>)
    ensures
        (match r {
            Ok(s) => spec_auth_token_of(*v) == Some(s.api_key@) && spec_base_url_of(*v)
                == crate::models::view_opt(s.base_url),
            Err(e) => e == ParserError::MissingApiKey && spec_auth_token_of(*v) is None,
        }),
{
    let api_key = match get_str(v, "ANTHROPIC_AUTH_TOKEN") {
        Some(s) => s,
        None => match get_str(v, "anthropic_auth_token") {
            Some(s) => s,
            None => match get_str2(v, "env", "ANTHROPIC_AUTH_TOKEN") {
                Some(s) => s,
                None => match get_str2(v, "env", "anthropic_auth_token") {
                    Some(s) => s,
                    None => {
                        return Err(ParserError::MissingApiKey);
                    },
                },
            },
        },
    };
    let base_url = match get_str(v, "ANTHROPIC_BASE_URL") {
        Some(s) => Some(s),
        None => match get_str(v, "anthropic_base_url") {
            Some(s) => Some(s),
            None => match get_str2(v, "env", "ANTHROPIC_BASE_URL") {
                Some(s) => Some(s),
                None => match get_str2(v, "env", "anthropic_base_url") {
                    Some(s) => Some(s),
                    None => None,
                },
            },
        },
    };
    Ok(Settings { api_key, base_url })
}

/// Parses a settings blob: `InvalidJson` when the text is not JSON, else the
/// first recognized auth-token key path wins and `MissingApiKey` reports
/// that none holds a string.
pub fn parse_settings(content: &str) -> (r: Result<Settings, ParserError>)
    ensures
        (match crate::jsonval::json_doc_of(content@) {
            Some(v) => (match spec_auth_token_of(v) {
                Some(token) => (match r {
                    Ok(s) => s.api_key@ == token && crate::models::view_opt(s.base_url)
                        == spec_base_url_of(v),
                    Err(_) => false,
                }),
                None => r == Err::<Settings, ParserError>(ParserError::MissingApiKey),
            }),
            None => r == Err::<Settings, ParserError>(ParserError::InvalidJson),
        }),
{
    match json_parse(content) {
        Some(v) => settings_of_value(&v),
        None => Err(ParserError::InvalidJson),
    }
}

/// A token count, absent read as zero and a negative reading clamped to
/// zero, so counts meet the data model's bound.
pub open spec fn clamp0(o: Option<i64>) -> int {
    match o {
        Some(n) => if n < 0 {
            0
        } else {
            n as int
        },
        None => 0,
    }
}

/// A token field of the usage object: the first of the two keys that reads
/// as an integer, clamped at zero.
pub open spec fn spec_tokens_at(u: serde_json::Value, k1: Seq<char>, k2: Seq<char>) -> int {
    if int_at(u, k1) is Some {
        clamp0(int_at(u, k1))
    } else {
        clamp0(int_at(u, k2))
    }
}

/// The usage object of a record: top-level `usage`, else `message.usage`.
pub open spec fn spec_usage_member(v: serde_json::Value) -> Option<serde_json::Value> {
    if json_member(v, "usage"@) is Some {
        json_member(v, "usage"@)
    } else {
        match json_member(v, "message"@) {
            Some(m) => json_member(m, "usage"@),
            None => None,
        }
    }
}

/// The token counts and cost of a record's usage object; all zero when the
/// record has none.
pub open spec fn spec_usage_of(v: serde_json::Value) -> UsageV {
    match spec_usage_member(v) {
        Some(u) => UsageV {
            input: spec_tokens_at(u, "input_tokens"@, "prompt_tokens"@),
            output: spec_tokens_at(u, "output_tokens"@, "completion_tokens"@),
            cache_read: spec_tokens_at(u, "cache_read_tokens"@, "cache_read_input_tokens"@),
            cache_creation: spec_tokens_at(
                u,
                "cache_creation_tokens"@,
                "cache_creation_input_tokens"@,
            ),
            cost: if micros_at(u, "cost_usd"@) is Some {
                micros_at(u, "cost_usd"@)->Some_0
            } else if micros_at(u, "total_cost_usd"@) is Some {
                micros_at(u, "total_cost_usd"@)->Some_0
            } else {
                0
            },
        },
        None => UsageV { input: 0, output: 0, cache_read: 0, cache_creation: 0, cost: 0 },
    }
}

/// The model name of a record: `model`, else `message.model`.
pub open spec fn spec_model_of(v: serde_json::Value) -> Option<Seq<char>> {
    if str_at(v, "model"@) is Some {
        str_at(v, "model"@)
    } else {
        str_at2(v, "message"@, "model"@)
    }
}

/// The message id of a record: `id`, else `message.id`.
pub open spec fn spec_message_id_of(v: serde_json::Value) -> Option<Seq<char>> {
    if str_at(v, "id"@) is Some {
        str_at(v, "id"@)
    } else {
        str_at2(v, "message"@, "id"@)
    }
}

/// The session id of a record: the first string among `session_id`,
/// `sessionId`, `conversation_id` and `chat_id`.
pub open spec fn spec_session_of(v: serde_json::Value) -> Option<Seq<char>> {
    if str_at(v, "session_id"@) is Some {
        str_at(v, "session_id"@)
    } else if str_at(v, "sessionId"@) is Some {
        str_at(v, "sessionId"@)
    } else if str_at(v, "conversation_id"@) is Some {
        str_at(v, "conversation_id"@)
    } else {
        str_at(v, "chat_id"@)
    }
}

/// The timestamp of a record: the first string among `created_at`,
/// `timestamp` and `message.created_at`.
pub open spec fn spec_created_of(v: serde_json::Value) -> Option<Seq<char>> {
    if str_at(v, "created_at"@) is Some {
        str_at(v, "created_at"@)
    } else if str_at(v, "timestamp"@) is Some {
        str_at(v, "timestamp"@)
    } else {
        str_at2(v, "message"@, "created_at"@)
    }
}

/// The record a parsed line denotes: `None` — a non-usage line — when model
/// or message id is missing; the session defaults to `unknown`, the
/// timestamp to `now`, counts and cost to zero.
pub open spec fn spec_record_of(v: serde_json::Value, now: Seq<char>) -> Option<RecordV> {
    if spec_model_of(v) is None || spec_message_id_of(v) is None {
        None
    } else {
        Some(
            RecordV {
                session_id: match spec_session_of(v) {
                    Some(s) => s,
                    None => "unknown"@,
                },
                message_id: spec_message_id_of(v)->Some_0,
                model: spec_model_of(v)->Some_0,
                created_at: match spec_created_of(v) {
                    Some(t) => t,
                    None => now,
                },
                usage: spec_usage_of(v),
            },
        )
    }
}

/// Reads one token field of the usage object.
fn get_tokens(u: &serde_json::Value, k1: &str, k2: &str) -> (r: i64)
    ensures
        r == spec_tokens_at(*u, k1@, k2@),
        r >= 0,
{
    let a = match get_int(u, k1) {
        Some(n) => Some(n),
        None => get_int(u, k2),
    };
    match a {
        Some(n) => if n < 0 {
            0
        } else {
            n
        },
        None => 0,
    }
}

/// Classifies one parsed document as a usage record or a non-usage line;
/// exact over the documented key paths, with `now_fallback` standing in for
/// a missing timestamp.
pub fn record_of_value(v: &serde_json::Value, now_fallback: &str) -> (r: Option<MessageRecord>)
    ensures
        (match r {
            Some(rec) => spec_record_of(*v, now_fallback@) == Some(rec@) && rec@.usage.wf(),
            None => spec_record_of(*v, now_fallback@) is None,
        }),
{
    let model = match get_str(v, "model") {
        Some(s) => Some(s),
        None => get_str2(v, "message", "model"),
    };
    let message_id = match get_str(v, "id") {
        Some(s) => Some(s),
        None => get_str2(v, "message", "id"),
    };
    let model = match model {
        Some(m) => m,
        None => {
            return None;
        },
    };
    let message_id = match message_id {
        Some(m) => m,
        None => {
            return None;
        },
    };
    let session_id = match get_str(v, "session_id") {
        Some(s) => s,
        None => match get_str(v, "sessionId") {
            Some(s) => s,
            None => match get_str(v, "conversation_id") {
                Some(s) => s,
                None => match get_str(v, "chat_id") {
                    Some(s) => s,
                    None => "unknown".to_owned(),
                },
            },
        },
    };
    let created_at = match get_str(v, "created_at") {
        Some(s) => s,
        None => match get_str(v, "timestamp") {
            Some(s) => s,
            None => match get_str2(v, "message", "created_at") {
                Some(s) => s,
                None => now_fallback.to_owned(),
            },
        },
    };
    let usage_member = match json_get(v, "usage") {
        Some(u) => Some(u),
        None => match json_get(v, "message") {
            Some(m) => json_get(m, "usage"),
            None => None,
        },
    };
    let usage = match usage_member {
        Some(u) => {
            let cost = match get_micros(u, "cost_usd") {
                Some(c) => c,
                None => match get_micros(u, "total_cost_usd") {
                    Some(c) => c,
                    None => 0,
                },
            };
            MessageUsage {
                input_tokens: get_tokens(u, "input_tokens", "prompt_tokens"),
                output_tokens: get_tokens(u, "output_tokens", "completion_tokens"),
                cache_read_tokens: get_tokens(u, "cache_read_tokens", "cache_read_input_tokens"),
                cache_creation_tokens: get_tokens(
                    u,
                    "cache_creation_tokens",
                    "cache_creation_input_tokens",
                ),
                cost_micros: cost,
            }
        },
        None => MessageUsage {
            input_tokens: 0,
            output_tokens: 0,
            cache_read_tokens: 0,
            cache_creation_tokens: 0,
            cost_micros: 0,
        },
    };
    proof {
        assert(spec_model_of(*v) == Some(model@));
        assert(spec_message_id_of(*v) == Some(message_id@));
        assert(session_id@ == (match spec_session_of(*v) {
            Some(s) => s,
            None => "unknown"@,
        }));
        assert(created_at@ == (match spec_created_of(*v) {
            Some(t) => t,
            None => now_fallback@,
        }));
        assert(usage@ == spec_usage_of(*v));
    }
    Some(MessageRecord { session_id, message_id, model, created_at, usage })
}

/// Parses one JSONL line: `InvalidJson` when the text is not JSON;
/// `Ok(None)` classifies a non-usage line — one whose document lacks a model
/// or message id — which is skipped rather than an error. A missing
/// timestamp defaults to the current instant, so the record is bound up to
/// that one clock reading.
pub fn parse_jsonl_line(line: &str) -> (r: Result<Option<MessageRecord>, ParserError>)
    ensures
        (match crate::jsonval::json_doc_of(line@) {
            Some(v) => {
                &&& r is Ok
                &&& (r == Ok::<Option<MessageRecord>, ParserError>(None) <==> (spec_model_of(v)
                    is None || spec_message_id_of(v) is None))
                &&& (match r {
                    Ok(opt) => match opt {
                        Some(rec) => rec@.usage.wf() && (exists|now: Seq<char>|
                            #![trigger spec_record_of(v, now)]
                            spec_record_of(v, now) == Some(rec@)),
                        None => true,
                    },
                    Err(_) => true,
                })
            },
            None => r == Err::<Option<MessageRecord>, ParserError>(ParserError::InvalidJson),
        }),
{
    match json_parse(line) {
        Some(v) => {
            let now = clock::now_rfc3339();
            let r = record_of_value(&v, now.as_str());
            proof {
                if r is Some {
                    assert(spec_record_of(v, now@) == Some(r->Some_0@));
                }
            }
            Ok(r)
        },
        None => Err(ParserError::InvalidJson),
    }
}

} // verus!
