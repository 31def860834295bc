//! The record file format: one JSON object per insight, and one for the
//! clock metadata.
//!
//! The grammar is defined by spec-level parsers over byte sequences; the
//! encoder proves that the parser maps its output back to the record it was
//! given, so encoding and parsing round-trip.

use vstd::prelude::*;
use vstd::string::StringSliceAdditionalSpecFns;

use crate::constants::{SCALE, MAX_DAILY_ACCESS_ENTRIES};
use crate::dates::CivilDate;
use crate::models::{Insight, InsightView, view_wf, HippoMetadata, counts_positive, days_strictly_increasing};

verus! {

pub open spec fn is_digit(b: u8) -> bool {
    48 <= b <= 57
}

pub open spec fn digit_val(b: u8) -> int {
    b - 48
}

/// Decimal digits of `n`, most significant first, no leading zeros.
pub open spec fn dec_digits(n: nat) -> Seq<u8>
    decreases n,
{
    if n < 10 {
        seq![(48 + n) as u8]
    } else {
        dec_digits(n / 10).push((48 + n % 10) as u8)
    }
}

/// Position of the first non-digit at or after `pos`.
pub open spec fn dec_end(s: Seq<u8>, pos: int) -> int
    decreases s.len() - pos,
{
    if 0 <= pos < s.len() && is_digit(s[pos]) {
        dec_end(s, pos + 1)
    } else {
        pos
    }
}

/// Value of the digit run `s[from..to]`.
pub open spec fn dec_value_upto(s: Seq<u8>, from: int, to: int) -> int
    decreases to - from,
{
    if to <= from {
        0
    } else {
        dec_value_upto(s, from, to - 1) * 10 + digit_val(s[to - 1])
    }
}

/// Reads a decimal number: one or more digits.
pub open spec fn parse_dec(s: Seq<u8>, pos: int) -> Option<(int, int)> {
    let end = dec_end(s, pos);
    if 0 <= pos < end {
        Option::Some((dec_value_upto(s, pos, end), end))
    } else {
        Option::None
    }
}

pub open spec fn pow10(k: nat) -> int
    decreases k,
{
    if k == 0 {
        1
    } else {
        10 * pow10((k - 1) as nat)
    }
}

/// Exactly `k` decimal digits of `v`, zero-padded, most significant first.
pub open spec fn padded_digits(v: nat, k: nat) -> Seq<u8>
    decreases k,
{
    if k == 0 {
        Seq::empty()
    } else {
        padded_digits(v / 10, (k - 1) as nat).push((48 + v % 10) as u8)
    }
}

/// All of `s[pos..pos+k]` are digits.
pub open spec fn digits_ok(s: Seq<u8>, pos: int, k: int) -> bool {
    &&& 0 <= pos
    &&& pos + k <= s.len()
    &&& forall|j: int| pos <= j < pos + k ==> is_digit(#[trigger] s[j])
}

pub open spec fn hex_digit(n: int) -> u8 {
    if n < 10 {
        (48 + n) as u8
    } else {
        (87 + n) as u8
    }
}

pub open spec fn is_hex(b: u8) -> bool {
    (48 <= b <= 57) || (97 <= b <= 102)
}

pub open spec fn hex_val(b: u8) -> int {
    if b <= 57 {
        b - 48
    } else {
        b - 87
    }
}

pub open spec fn pow16(k: nat) -> int
    decreases k,
{
    if k == 0 {
        1
    } else {
        16 * pow16((k - 1) as nat)
    }
}

/// Exactly `k` lowercase hex digits of `v`, most significant first.
pub open spec fn hex_digits(v: nat, k: nat) -> Seq<u8>
    decreases k,
{
    if k == 0 {
        Seq::empty()
    } else {
        hex_digits(v / 16, (k - 1) as nat).push(hex_digit((v % 16) as int))
    }
}

pub open spec fn hex_ok(s: Seq<u8>, pos: int, k: int) -> bool {
    &&& 0 <= pos
    &&& pos + k <= s.len()
    &&& forall|j: int| pos <= j < pos + k ==> is_hex(#[trigger] s[j])
}

/// Value of the hex run `s[from..to]`.
pub open spec fn hex_value_upto(s: Seq<u8>, from: int, to: int) -> int
    decreases to - from,
{
    if to <= from {
        0
    } else {
        hex_value_upto(s, from, to - 1) * 16 + hex_val(s[to - 1])
    }
}

// --- round-trip lemmas for the numeric primitives ---

pub proof fn lemma_dec_digits_are_digits(n: nat)
    ensures
        dec_digits(n).len() >= 1,
        forall|j: int| 0 <= j < dec_digits(n).len() ==> is_digit(#[trigger] dec_digits(n)[j]),
    decreases n,
{
    if n >= 10 {
        lemma_dec_digits_are_digits(n / 10);
        assert forall|j: int| 0 <= j < dec_digits(n).len() implies is_digit(
            #[trigger] dec_digits(n)[j],
        ) by {
            if j < dec_digits(n).len() - 1 {
                assert(dec_digits(n)[j] == dec_digits(n / 10)[j]);
            }
        }
    }
}

/// A digit run bounded by a non-digit scans to its end.
pub proof fn lemma_dec_end_range(s: Seq<u8>, pos: int, end: int)
    requires
        0 <= pos <= end <= s.len(),
        forall|j: int| pos <= j < end ==> is_digit(#[trigger] s[j]),
        end == s.len() || !is_digit(s[end]),
    ensures
        dec_end(s, pos) == end,
    decreases end - pos,
{
    if pos < end {
        lemma_dec_end_range(s, pos + 1, end);
    }
}

/// The value of an embedded digit string is the number it was made from.
pub proof fn lemma_dec_value_of_digits(s: Seq<u8>, pos: int, n: nat)
    requires
        0 <= pos,
        pos + dec_digits(n).len() <= s.len(),
        s.subrange(pos, pos + dec_digits(n).len() as int) == dec_digits(n),
    ensures
        dec_value_upto(s, pos, pos + dec_digits(n).len() as int) == n,
    decreases n,
{
    let l = dec_digits(n).len() as int;
    if n < 10 {
        assert(l == 1);
        assert(s.subrange(pos, pos + 1)[0] == dec_digits(n)[0]);
        assert(s[pos] == (48 + n) as u8);
        assert(dec_value_upto(s, pos, pos) == 0);
        assert(dec_value_upto(s, pos, pos + 1) == digit_val(s[pos]));
    } else {
        let l0 = dec_digits(n / 10).len() as int;
        assert(dec_digits(n) == dec_digits(n / 10).push((48 + n % 10) as u8));
        assert(l0 == l - 1);
        assert(s.subrange(pos, pos + l0) =~= dec_digits(n / 10)) by {
            assert forall|j: int| 0 <= j < l0 implies #[trigger] s.subrange(pos, pos + l0)[j]
                == dec_digits(n / 10)[j] by {
                assert(s.subrange(pos, pos + l)[j] == dec_digits(n)[j]);
            }
        }
        lemma_dec_value_of_digits(s, pos, n / 10);
        assert(s[pos + l - 1] == dec_digits(n)[l - 1]);
        assert(dec_value_upto(s, pos, pos + l) == dec_value_upto(s, pos, pos + l - 1) * 10
            + digit_val(s[pos + l - 1]));
        assert(n / 10 * 10 + n % 10 == n) by {
            vstd::arithmetic::div_mod::lemma_fundamental_div_mod(n as int, 10);
        }
    }
}

/// An embedded canonical decimal bounded by a non-digit parses back to its
/// value.
pub proof fn lemma_parse_dec_at(s: Seq<u8>, pos: int, n: nat)
    requires
        0 <= pos,
        pos + dec_digits(n).len() <= s.len(),
        s.subrange(pos, pos + dec_digits(n).len() as int) == dec_digits(n),
        pos + dec_digits(n).len() == s.len() || !is_digit(s[pos + dec_digits(n).len()]),
    ensures
        parse_dec(s, pos) == Option::Some((n as int, pos + dec_digits(n).len())),
{
    let l = dec_digits(n).len() as int;
    lemma_dec_digits_are_digits(n);
    assert forall|j: int| pos <= j < pos + l implies is_digit(#[trigger] s[j]) by {
        assert(s[j] == s.subrange(pos, pos + l)[j - pos]);
    }
    lemma_dec_end_range(s, pos, pos + l);
    lemma_dec_value_of_digits(s, pos, n);
}

/// An embedded fixed-width decimal parses back to its value.
pub proof fn lemma_padded_value(s: Seq<u8>, pos: int, v: nat, k: nat)
    requires
        0 <= pos,
        v < pow10(k),
        pos + k <= s.len(),
        s.subrange(pos, pos + k as int) == padded_digits(v, k),
    ensures
        digits_ok(s, pos, k as int),
        dec_value_upto(s, pos, pos + k as int) == v,
    decreases k,
{
    if k == 0 {
    } else {
        let l = k as int;
        assert(padded_digits(v, k) == padded_digits(v / 10, (k - 1) as nat).push(
            (48 + v % 10) as u8,
        ));
        assert(padded_digits(v / 10, (k - 1) as nat).len() == l - 1);
        assert(s.subrange(pos, pos + l - 1) =~= padded_digits(v / 10, (k - 1) as nat)) by {
            assert forall|j: int| 0 <= j < l - 1 implies #[trigger] s.subrange(pos, pos + l - 1)[j]
                == padded_digits(v / 10, (k - 1) as nat)[j] by {
                assert(s.subrange(pos, pos + l)[j] == padded_digits(v, k)[j]);
            }
        }
        assert(v / 10 < pow10((k - 1) as nat)) by {
            assert(pow10(k) == 10 * pow10((k - 1) as nat));
            vstd::arithmetic::div_mod::lemma_fundamental_div_mod(v as int, 10);
        }
        lemma_padded_value(s, pos, (v / 10) as nat, (k - 1) as nat);
        assert(s[pos + l - 1] == padded_digits(v, k)[l - 1]);
        assert(v / 10 * 10 + v % 10 == v) by {
            vstd::arithmetic::div_mod::lemma_fundamental_div_mod(v as int, 10);
        }
        assert forall|j: int| pos <= j < pos + l implies is_digit(#[trigger] s[j]) by {
            if j < pos + l - 1 {
                assert(digits_ok(s, pos, l - 1));
            }
        }
    }
}

/// An embedded fixed-width hex string parses back to its value.
pub proof fn lemma_hex_value(s: Seq<u8>, pos: int, v: nat, k: nat)
    requires
        0 <= pos,
        v < pow16(k),
        pos + k <= s.len(),
        s.subrange(pos, pos + k as int) == hex_digits(v, k),
    ensures
        hex_ok(s, pos, k as int),
        hex_value_upto(s, pos, pos + k as int) == v,
    decreases k,
{
    if k == 0 {
    } else {
        let l = k as int;
        assert(hex_digits(v, k) == hex_digits(v / 16, (k - 1) as nat).push(
            hex_digit((v % 16) as int),
        ));
        assert(hex_digits(v / 16, (k - 1) as nat).len() == l - 1);
        assert(s.subrange(pos, pos + l - 1) =~= hex_digits(v / 16, (k - 1) as nat)) by {
            assert forall|j: int| 0 <= j < l - 1 implies #[trigger] s.subrange(pos, pos + l - 1)[j]
                == hex_digits(v / 16, (k - 1) as nat)[j] by {
                assert(s.subrange(pos, pos + l)[j] == hex_digits(v, k)[j]);
            }
        }
        assert(v / 16 < pow16((k - 1) as nat)) by {
            assert(pow16(k) == 16 * pow16((k - 1) as nat));
            vstd::arithmetic::div_mod::lemma_fundamental_div_mod(v as int, 16);
        }
        lemma_hex_value(s, pos, (v / 16) as nat, (k - 1) as nat);
        assert(s[pos + l - 1] == hex_digits(v, k)[l - 1]);
        assert(v / 16 * 16 + v % 16 == v) by {
            vstd::arithmetic::div_mod::lemma_fundamental_div_mod(v as int, 16);
        }
        assert forall|j: int| pos <= j < pos + l implies is_hex(#[trigger] s[j]) by {
            if j < pos + l - 1 {
                assert(hex_ok(s, pos, l - 1));
            }
        }
    }
}

/// A padded decimal has exactly its width.
pub proof fn lemma_padded_len(v: nat, k: nat)
    ensures
        padded_digits(v, k).len() == k,
    decreases k,
{
    if k > 0 {
        lemma_padded_len(v / 10, (k - 1) as nat);
    }
}

/// A padded hex string has exactly its width.
pub proof fn lemma_hex_len(v: nat, k: nat)
    ensures
        hex_digits(v, k).len() == k,
    decreases k,
{
    if k > 0 {
        lemma_hex_len(v / 16, (k - 1) as nat);
    }
}

// --- string escaping ---

/// JSON escape of one byte: quote and backslash get a backslash escape,
/// control bytes a four-digit unicode escape, all else passes through.
pub open spec fn esc_byte(b: u8) -> Seq<u8> {
    if b == 34 {
        seq![92u8, 34u8]
    } else if b == 92 {
        seq![92u8, 92u8]
    } else if b < 32 {
        seq![92u8, 117u8, 48u8, 48u8, hex_digit(b as int / 16), hex_digit(b as int % 16)]
    } else {
        seq![b]
    }
}

pub open spec fn esc_bytes(s: Seq<u8>) -> Seq<u8>
    decreases s.len(),
{
    if s.len() == 0 {
        Seq::empty()
    } else {
        esc_bytes(s.drop_last()) + esc_byte(s.last())
    }
}

/// Reads escaped string content up to (excluding) the closing quote;
/// returns the unescaped bytes and the position of the closing quote.
pub open spec fn scan_str(s: Seq<u8>, pos: int) -> Option<(Seq<u8>, int)>
    decreases s.len() - pos,
{
    if pos < 0 || pos >= s.len() {
        Option::None
    } else if s[pos] == 34 {
        Option::Some((Seq::empty(), pos))
    } else if s[pos] == 92 {
        if pos + 1 < s.len() && (s[pos + 1] == 34 || s[pos + 1] == 92) {
            match scan_str(s, pos + 2) {
                Option::Some((c, e)) => Option::Some((seq![s[pos + 1]] + c, e)),
                Option::None => Option::None,
            }
        } else if pos + 5 < s.len() && s[pos + 1] == 117 && s[pos + 2] == 48 && s[pos + 3] == 48
            && is_hex(s[pos + 4]) && is_hex(s[pos + 5]) && 16 * hex_val(s[pos + 4]) + hex_val(
            s[pos + 5],
        ) < 256 {
            match scan_str(s, pos + 6) {
                Option::Some((c, e)) => Option::Some(
                    (seq![(16 * hex_val(s[pos + 4]) + hex_val(s[pos + 5])) as u8] + c, e),
                ),
                Option::None => Option::None,
            }
        } else {
            Option::None
        }
    } else {
        match scan_str(s, pos + 1) {
            Option::Some((c, e)) => Option::Some((seq![s[pos]] + c, e)),
            Option::None => Option::None,
        }
    }
}

/// The escape of a string decomposes at its first byte.
pub proof fn lemma_esc_front(c: Seq<u8>)
    requires
        c.len() > 0,
    ensures
        esc_bytes(c) == esc_byte(c[0]) + esc_bytes(c.drop_first()),
    decreases c.len(),
{
    if c.len() == 1 {
        assert(c.drop_last() =~= Seq::<u8>::empty());
        assert(c.drop_first() =~= Seq::<u8>::empty());
        assert(esc_bytes(c) =~= esc_byte(c[0]) + esc_bytes(c.drop_first()));
    } else {
        let c0 = c.drop_last();
        lemma_esc_front(c0);
        assert(c.drop_first().drop_last() =~= c0.drop_first());
        assert(c.drop_first().last() == c.last());
        assert(esc_bytes(c.drop_first()) == esc_bytes(c0.drop_first()) + esc_byte(c.last()));
        assert(esc_bytes(c) == esc_bytes(c0) + esc_byte(c.last()));
        assert(esc_bytes(c0) + esc_byte(c.last()) =~= esc_byte(c[0]) + (esc_bytes(c0.drop_first())
            + esc_byte(c.last())));
    }
}

/// An embedded escaped string followed by a quote scans back to its content.
pub proof fn lemma_scan_esc(s: Seq<u8>, pos: int, c: Seq<u8>)
    requires
        0 <= pos,
        pos + esc_bytes(c).len() < s.len(),
        s.subrange(pos, pos + esc_bytes(c).len() as int) == esc_bytes(c),
        s[pos + esc_bytes(c).len()] == 34,
    ensures
        scan_str(s, pos) == Option::Some((c, pos + esc_bytes(c).len())),
    decreases c.len(),
{
    let e = esc_bytes(c).len() as int;
    if c.len() == 0 {
        assert(s[pos] == 34);
    } else {
        let b = c[0];
        let rest = c.drop_first();
        lemma_esc_front(c);
        let eb = esc_byte(b).len() as int;
        assert forall|j: int| 0 <= j < eb implies #[trigger] s[pos + j] == esc_byte(b)[j] by {
            assert(s.subrange(pos, pos + e)[j] == esc_bytes(c)[j]);
            assert(esc_bytes(c)[j] == (esc_byte(b) + esc_bytes(rest))[j]);
        }
        assert(s[pos + 0] == esc_byte(b)[0]);
        if eb >= 2 {
            assert(s[pos + 1] == esc_byte(b)[1]);
        }
        if eb == 6 {
            assert(s[pos + 2] == esc_byte(b)[2]);
            assert(s[pos + 3] == esc_byte(b)[3]);
            assert(s[pos + 4] == esc_byte(b)[4]);
            assert(s[pos + 5] == esc_byte(b)[5]);
        }
        assert(s.subrange(pos + eb, pos + e) =~= esc_bytes(rest)) by {
            assert forall|j: int| 0 <= j < e - eb implies #[trigger] s.subrange(pos + eb, pos
                + e)[j] == esc_bytes(rest)[j] by {
                assert(s.subrange(pos, pos + e)[eb + j] == esc_bytes(c)[eb + j]);
                assert(esc_bytes(c)[eb + j] == (esc_byte(b) + esc_bytes(rest))[eb + j]);
            }
        }
        lemma_scan_esc(s, pos + eb, rest);
        if b == 34 {
            assert(s[pos] == 92 && s[pos + 1] == 34);
            assert(seq![s[pos + 1]] + rest =~= c);
        } else if b == 92 {
            assert(s[pos] == 92 && s[pos + 1] == 92);
            assert(seq![s[pos + 1]] + rest =~= c);
        } else if b < 32 {
            assert(s[pos] == 92 && s[pos + 1] == 117 && s[pos + 2] == 48 && s[pos + 3] == 48);
            assert(s[pos + 4] == hex_digit(b as int / 16) && s[pos + 5] == hex_digit(
                b as int % 16,
            ));
            assert(16 * hex_val(s[pos + 4]) + hex_val(s[pos + 5]) == b) by {
                vstd::arithmetic::div_mod::lemma_fundamental_div_mod(b as int, 16);
            }
            assert(seq![(16 * hex_val(s[pos + 4]) + hex_val(s[pos + 5])) as u8] + rest =~= c);
        } else {
            assert(s[pos] == b);
            assert(b != 34 && b != 92);
            assert(seq![s[pos]] + rest =~= c);
        }
    }
}

/// `lit` occurs in `s` at `pos`.
pub open spec fn match_lit(s: Seq<u8>, pos: int, lit: Seq<u8>) -> bool {
    &&& 0 <= pos
    &&& pos + lit.len() <= s.len()
    &&& s.subrange(pos, pos + lit.len() as int) == lit
}

/// Reads a fixed-width ISO-8601 UTC timestamp, shaped
/// `YYYY-MM-DDTHH:MM:SS.mmmZ`, as milliseconds since the epoch.
pub open spec fn parse_ts(s: Seq<u8>, pos: int) -> Option<(i64, int)> {
    if 0 <= pos && pos + 24 <= s.len() && digits_ok(s, pos, 4) && s[pos + 4] == 45 && digits_ok(
        s,
        pos + 5,
        2,
    ) && s[pos + 7] == 45 && digits_ok(s, pos + 8, 2) && s[pos + 10] == 84 && digits_ok(
        s,
        pos + 11,
        2,
    ) && s[pos + 13] == 58 && digits_ok(s, pos + 14, 2) && s[pos + 16] == 58 && digits_ok(
        s,
        pos + 17,
        2,
    ) && s[pos + 19] == 46 && digits_ok(s, pos + 20, 3) && s[pos + 23] == 90 {
        let y = dec_value_upto(s, pos, pos + 4);
        let mo = dec_value_upto(s, pos + 5, pos + 7);
        let d = dec_value_upto(s, pos + 8, pos + 10);
        let h = dec_value_upto(s, pos + 11, pos + 13);
        let mi = dec_value_upto(s, pos + 14, pos + 16);
        let sec = dec_value_upto(s, pos + 17, pos + 19);
        let ms = dec_value_upto(s, pos + 20, pos + 23);
        if crate::dates::valid_date(y, mo, d) && h <= 23 && mi <= 59 && sec <= 59 {
            let t = crate::dates::day_number(y, mo, d) * 86_400_000 + h * 3_600_000 + mi * 60_000
                + sec * 1000 + ms;
            if crate::dates::ts_in_range(t) && t <= i64::MAX {
                Option::Some((t as i64, pos + 24))
            } else {
                Option::None
            }
        } else {
            Option::None
        }
    } else {
        Option::None
    }
}

/// Reads a micro-unit ratio written as a decimal fraction with six
/// fractional digits, at most 1.0.
pub open spec fn parse_micro(s: Seq<u8>, pos: int) -> Option<(u64, int)> {
    match parse_dec(s, pos) {
        Option::None => Option::None,
        Option::Some((ip, p1)) => {
            if p1 + 7 <= s.len() && s[p1] == 46 && digits_ok(s, p1 + 1, 6) {
                let v = ip * 1_000_000 + dec_value_upto(s, p1 + 1, p1 + 7);
                if 0 <= v <= SCALE {
                    Option::Some((v as u64, p1 + 7))
                } else {
                    Option::None
                }
            } else {
                Option::None
            }
        },
    }
}

/// Reads one or more quoted strings separated by commas, up to and
/// including the closing bracket.
pub open spec fn parse_str_items(s: Seq<u8>, pos: int) -> Option<(Seq<Seq<u8>>, int)>
    decreases s.len() - pos
        via check_str_items_dec
{
    if 0 <= pos && pos < s.len() && s[pos] == 34 {
        match scan_str(s, pos + 1) {
            Option::None => Option::None,
            Option::Some((c, e)) => {
                if e + 1 < s.len() && s[e + 1] == 44 {
                    match parse_str_items(s, e + 2) {
                        Option::None => Option::None,
                        Option::Some((rest, p)) => Option::Some((seq![c] + rest, p)),
                    }
                } else if e + 1 < s.len() && s[e + 1] == 93 {
                    Option::Some((seq![c], e + 2))
                } else {
                    Option::None
                }
            },
        }
    } else {
        Option::None
    }
}

#[via_fn]
proof fn check_str_items_dec(s: Seq<u8>, pos: int) {
    if 0 <= pos && pos < s.len() && s[pos] == 34 {
        if scan_str(s, pos + 1) is Some {
            lemma_scan_str_bound(s, pos + 1);
        }
    }
}

/// Reads a bracketed array of quoted strings.
pub open spec fn parse_str_array(s: Seq<u8>, pos: int) -> Option<(Seq<Seq<u8>>, int)> {
    if 0 <= pos && pos < s.len() && s[pos] == 91 {
        if pos + 1 < s.len() && s[pos + 1] == 93 {
            Option::Some((Seq::empty(), pos + 2))
        } else {
            parse_str_items(s, pos + 1)
        }
    } else {
        Option::None
    }
}

/// Reads one `[day,count]` pair with both numbers in `u32` range and a
/// positive count.
pub open spec fn parse_pair(s: Seq<u8>, pos: int) -> Option<((u32, u32), int)> {
    if 0 <= pos && pos < s.len() && s[pos] == 91 {
        match parse_dec(s, pos + 1) {
            Option::None => Option::None,
            Option::Some((d, p1)) => {
                if p1 < s.len() && s[p1] == 44 {
                    match parse_dec(s, p1 + 1) {
                        Option::None => Option::None,
                        Option::Some((cnt, p2)) => {
                            if p2 < s.len() && s[p2] == 93 && d <= u32::MAX && 1 <= cnt
                                <= u32::MAX {
                                Option::Some(((d as u32, cnt as u32), p2 + 1))
                            } else {
                                Option::None
                            }
                        },
                    }
                } else {
                    Option::None
                }
            },
        }
    } else {
        Option::None
    }
}

/// Reads one or more pairs separated by commas, up to and including the
/// closing bracket of the surrounding array.
pub open spec fn parse_pair_items(s: Seq<u8>, pos: int) -> Option<(Seq<(u32, u32)>, int)>
    decreases s.len() - pos
        via check_pair_items_dec
{
    match parse_pair(s, pos) {
        Option::None => Option::None,
        Option::Some((pr, p)) => {
            if p < s.len() && s[p] == 44 {
                match parse_pair_items(s, p + 1) {
                    Option::None => Option::None,
                    Option::Some((rest, q)) => Option::Some((seq![pr] + rest, q)),
                }
            } else if p < s.len() && s[p] == 93 {
                Option::Some((seq![pr], p + 1))
            } else {
                Option::None
            }
        },
    }
}

#[via_fn]
proof fn check_pair_items_dec(s: Seq<u8>, pos: int) {
}

/// Reads a bracketed array of `[day,count]` pairs.
pub open spec fn parse_pairs_array(s: Seq<u8>, pos: int) -> Option<(Seq<(u32, u32)>, int)> {
    if 0 <= pos && pos < s.len() && s[pos] == 91 {
        if pos + 1 < s.len() && s[pos + 1] == 93 {
            Option::Some((Seq::empty(), pos + 2))
        } else {
            parse_pair_items(s, pos + 1)
        }
    } else {
        Option::None
    }
}

/// The literal fragments of the record object, in order.
pub open spec fn lit_uuid() -> Seq<u8> {
    ("{\"uuid\":\"").spec_bytes()
}

pub open spec fn lit_content() -> Seq<u8> {
    ("\",\"content\":\"").spec_bytes()
}

pub open spec fn lit_situation() -> Seq<u8> {
    (",\"situation\":").spec_bytes()
}

pub open spec fn lit_base() -> Seq<u8> {
    (",\"base_importance\":").spec_bytes()
}

pub open spec fn lit_importance() -> Seq<u8> {
    (",\"importance\":").spec_bytes()
}

pub open spec fn lit_created() -> Seq<u8> {
    (",\"created_at\":\"").spec_bytes()
}

pub open spec fn lit_modified() -> Seq<u8> {
    ("\",\"importance_modified_at\":\"").spec_bytes()
}

pub open spec fn lit_daily() -> Seq<u8> {
    ("\",\"daily_access_counts\":").spec_bytes()
}

pub open spec fn lit_close() -> Seq<u8> {
    ("}").spec_bytes()
}

/// The record grammar: one compact JSON object holding every field of an
/// insight, in fixed order. Yields the record's model only when the whole
/// input is consumed and the record invariant holds.
#[verifier::opaque]
pub open spec fn dec_insight(s: Seq<u8>) -> Option<InsightView> {
    let l1 = lit_uuid();
    if match_lit(s, 0, l1) {
        let p1 = l1.len() as int;
        if hex_ok(s, p1, 32) && hex_value_upto(s, p1, p1 + 32) <= u128::MAX {
            let uuid = hex_value_upto(s, p1, p1 + 32);
            let l2 = lit_content();
            let p2 = p1 + 32;
            if match_lit(s, p2, l2) {
                let p3 = p2 + l2.len();
                match scan_str(s, p3) {
                    Option::None => Option::None,
                    Option::Some((content, e3)) => {
                        let l3 = lit_situation();
                        if e3 < s.len() && s[e3] == 34 && match_lit(s, e3 + 1, l3) {
                            let p4 = e3 + 1 + l3.len();
                            match parse_str_array(s, p4) {
                                Option::None => Option::None,
                                Option::Some((situation, p5)) => {
                                    let l4 = lit_base();
                                    if match_lit(s, p5, l4) {
                                        match parse_micro(s, p5 + l4.len()) {
                                            Option::None => Option::None,
                                            Option::Some((base, p6)) => {
                                                dec_insight_tail(
                                                    s,
                                                    p6,
                                                    uuid as u128,
                                                    content,
                                                    situation,
                                                    base,
                                                )
                                            },
                                        }
                                    } else {
                                        Option::None
                                    }
                                },
                            }
                        } else {
                            Option::None
                        }
                    },
                }
            } else {
                Option::None
            }
        } else {
            Option::None
        }
    } else {
        Option::None
    }
}

/// Continues the record grammar after the base importance: current
/// importance, the two timestamps, and the access history.
#[verifier::opaque]
pub open spec fn dec_insight_tail(
    s: Seq<u8>,
    p6: int,
    uuid: u128,
    content: Seq<u8>,
    situation: Seq<Seq<u8>>,
    base: u64,
) -> Option<InsightView> {
    let l5 = lit_importance();
    if match_lit(s, p6, l5) {
        match parse_micro(s, p6 + l5.len()) {
            Option::None => Option::None,
            Option::Some((imp, p7)) => {
                let l6 = lit_created();
                if match_lit(s, p7, l6) {
                    match parse_ts(s, p7 + l6.len()) {
                        Option::None => Option::None,
                        Option::Some((created, p8)) => {
                            let l7 = lit_modified();
                            if match_lit(s, p8, l7) {
                                match parse_ts(s, p8 + l7.len()) {
                                    Option::None => Option::None,
                                    Option::Some((modified, p9)) => {
                                        let l8 = lit_daily();
                                        if match_lit(s, p9, l8) {
                                            match parse_pairs_array(s, p9 + l8.len()) {
                                                Option::None => Option::None,
                                                Option::Some((daily, p10)) => {
                                                    let l9 = lit_close();
                                                    let v = InsightView {
                                                        uuid,
                                                        content,
                                                        situation,
                                                        base_importance: base,
                                                        importance: imp,
                                                        created_at: created,
                                                        importance_modified_at: modified,
                                                        daily_access_counts: daily,
                                                    };
                                                    if match_lit(s, p10, l9) && p10 + l9.len()
                                                        == s.len() && view_wf(v) {
                                                        Option::Some(v)
                                                    } else {
                                                        Option::None
                                                    }
                                                },
                                            }
                                        } else {
                                            Option::None
                                        }
                                    },
                                }
                            } else {
                                Option::None
                            }
                        },
                    }
                } else {
                    Option::None
                }
            },
        }
    } else {
        Option::None
    }
}

/// The metadata grammar: the active-day counter and the date of its last
/// increment, or null before first use.
#[verifier::opaque]
pub open spec fn dec_meta(s: Seq<u8>) -> Option<HippoMetadata> {
    let l1 = ("{\"active_day_counter\":").spec_bytes();
    if match_lit(s, 0, l1) {
        match parse_dec(s, l1.len() as int) {
            Option::None => Option::None,
            Option::Some((counter, p1)) => {
                let l2 = ("\"last_calendar_date_used\":").spec_bytes();
                if counter <= u32::MAX && p1 < s.len() && s[p1] == 44 && match_lit(s, p1 + 1, l2) {
                    let p2 = p1 + 1 + l2.len();
                    if p2 < s.len() && s[p2] == 34 {
                        match parse_date_str(s, p2) {
                            Option::None => Option::None,
                            Option::Some((date, p3)) => {
                                if match_lit(s, p3, ("}").spec_bytes()) && p3 + (
                                ("}").spec_bytes()).len() == s.len() {
                                    Option::Some(
                                        HippoMetadata {
                                            active_day_counter: counter as u32,
                                            last_calendar_date_used: Option::Some(date),
                                        },
                                    )
                                } else {
                                    Option::None
                                }
                            },
                        }
                    } else if p2 < s.len() && s[p2] == 110 && match_lit(
                        s,
                        p2 + 1,
                        ("ull}").spec_bytes(),
                    ) && p2 + 1 + ("ull}").spec_bytes().len() == s.len() {
                        Option::Some(
                            HippoMetadata {
                                active_day_counter: counter as u32,
                                last_calendar_date_used: Option::None,
                            },
                        )
                    } else {
                        Option::None
                    }
                } else {
                    Option::None
                }
            },
        }
    } else {
        Option::None
    }
}

/// Reads a quoted `YYYY-MM-DD` calendar date, twelve bytes in all.
pub open spec fn parse_date_str(s: Seq<u8>, pos: int) -> Option<(CivilDate, int)> {
    if 0 <= pos && pos + 12 <= s.len() && s[pos] == 34 && digits_ok(s, pos + 1, 4) && s[pos + 5]
        == 45 && digits_ok(s, pos + 6, 2) && s[pos + 8] == 45 && digits_ok(s, pos + 9, 2) && s[pos
        + 11] == 34 {
        let y = dec_value_upto(s, pos + 1, pos + 5);
        let m = dec_value_upto(s, pos + 6, pos + 8);
        let d = dec_value_upto(s, pos + 9, pos + 11);
        if crate::dates::valid_date(y, m, d) {
            Option::Some(
                (CivilDate { year: y as u32, month: m as u32, day: d as u32 }, pos + 12),
            )
        } else {
            Option::None
        }
    } else {
        Option::None
    }
}

/// Scanning only moves forward.
pub proof fn lemma_scan_str_bound(s: Seq<u8>, pos: int)
    requires
        scan_str(s, pos) is Some,
    ensures
        pos <= scan_str(s, pos)->Some_0.1 < s.len(),
        s[scan_str(s, pos)->Some_0.1] == 34,
    decreases s.len() - pos,
{
    if 0 <= pos < s.len() && s[pos] != 34 {
        if s[pos] == 92 {
            if pos + 1 < s.len() && (s[pos + 1] == 34 || s[pos + 1] == 92) {
                lemma_scan_str_bound(s, pos + 2);
            } else {
                lemma_scan_str_bound(s, pos + 6);
            }
        } else {
            lemma_scan_str_bound(s, pos + 1);
        }
    }
}

/// Splits knowledge of a concatenation at `pos` into its two halves.
pub proof fn lemma_split_at(s: Seq<u8>, pos: int, a: Seq<u8>, b: Seq<u8>)
    requires
        0 <= pos,
        pos + a.len() + b.len() <= s.len(),
        s.subrange(pos, pos + a.len() + b.len()) == a + b,
    ensures
        s.subrange(pos, pos + a.len() as int) == a,
        s.subrange(pos + a.len() as int, pos + a.len() + b.len()) == b,
{
    let la = a.len() as int;
    let lb = b.len() as int;
    assert(s.subrange(pos, pos + la) =~= a) by {
        assert forall|j: int| 0 <= j < la implies #[trigger] s.subrange(pos, pos + la)[j]
            == a[j] by {
            assert(s.subrange(pos, pos + la + lb)[j] == (a + b)[j]);
        }
    }
    assert(s.subrange(pos + la, pos + la + lb) =~= b) by {
        assert forall|j: int| 0 <= j < lb implies #[trigger] s.subrange(pos + la, pos + la + lb)[j]
            == b[j] by {
            assert(s.subrange(pos, pos + la + lb)[la + j] == (a + b)[la + j]);
        }
    }
}

/// A micro-unit ratio as written: integer part, point, six fraction digits.
pub open spec fn enc_micro(v: nat) -> Seq<u8> {
    dec_digits(v / 1_000_000) + seq![46u8] + padded_digits(v % 1_000_000, 6)
}

/// An embedded encoded micro value parses back to itself.
pub proof fn lemma_parse_micro_at(s: Seq<u8>, pos: int, v: nat)
    requires
        0 <= pos,
        v <= SCALE,
        pos + enc_micro(v).len() <= s.len(),
        s.subrange(pos, pos + enc_micro(v).len() as int) == enc_micro(v),
    ensures
        parse_micro(s, pos) == Option::Some(((v as u64), pos + enc_micro(v).len())),
{
    let ip = (v / 1_000_000) as nat;
    let fr = (v % 1_000_000) as nat;
    lemma_padded_len(fr, 6);
    let d1 = dec_digits(ip);
    let l1 = d1.len() as int;
    let tail = seq![46u8] + padded_digits(fr, 6);
    assert(d1 + tail =~= enc_micro(v));
    lemma_split_at(s, pos, d1, tail);
    lemma_split_at(s, pos + l1, seq![46u8], padded_digits(fr, 6));
    assert(s[pos + l1] == 46) by {
        assert(s.subrange(pos + l1, pos + l1 + 1)[0] == seq![46u8][0]);
    }
    lemma_parse_dec_at(s, pos, ip);
    assert(fr < pow10(6)) by {
        reveal_with_fuel(pow10, 7);
    }
    lemma_padded_value(s, pos + l1 + 1, fr, 6);
    assert(ip * 1_000_000 + fr == v) by {
        vstd::arithmetic::div_mod::lemma_fundamental_div_mod(v as int, 1_000_000);
    }
}

/// The items of a nonempty string array as written, closing bracket
/// included.
pub open spec fn enc_str_items(tags: Seq<Seq<u8>>) -> Seq<u8>
    decreases tags.len(),
{
    if tags.len() == 0 {
        Seq::empty()
    } else {
        let head = seq![34u8] + esc_bytes(tags[0]) + seq![34u8];
        if tags.len() == 1 {
            head + seq![93u8]
        } else {
            head + seq![44u8] + enc_str_items(tags.drop_first())
        }
    }
}

/// A string array as written.
pub open spec fn enc_str_array(tags: Seq<Seq<u8>>) -> Seq<u8> {
    if tags.len() == 0 {
        seq![91u8, 93u8]
    } else {
        seq![91u8] + enc_str_items(tags)
    }
}

/// Embedded encoded string items parse back to the tags.
pub proof fn lemma_parse_str_items_at(s: Seq<u8>, pos: int, tags: Seq<Seq<u8>>)
    requires
        0 <= pos,
        tags.len() >= 1,
        pos + enc_str_items(tags).len() <= s.len(),
        s.subrange(pos, pos + enc_str_items(tags).len() as int) == enc_str_items(tags),
    ensures
        parse_str_items(s, pos) == Option::Some((tags, pos + enc_str_items(tags).len())),
    decreases tags.len(),
{
    let c = tags[0];
    let ec = esc_bytes(c);
    let le = ec.len() as int;
    let head = seq![34u8] + ec + seq![34u8];
    let whole = enc_str_items(tags);
    let lw = whole.len() as int;
    if tags.len() == 1 {
        assert(whole =~= (seq![34u8] + ec) + (seq![34u8] + seq![93u8]));
        assert((seq![34u8] + ec) + (seq![34u8] + seq![93u8]) =~= seq![34u8] + (ec + (seq![34u8]
            + seq![93u8])));
        lemma_split_at(s, pos, seq![34u8] + ec, seq![34u8] + seq![93u8]);
        lemma_split_at(s, pos, seq![34u8], ec + (seq![34u8] + seq![93u8]));
        assert(s[pos] == 34) by {
            assert(s.subrange(pos, pos + 1)[0] == seq![34u8][0]);
        }
        lemma_split_at(s, pos + 1, ec, seq![34u8] + seq![93u8]);
        assert(s[pos + 1 + le] == 34) by {
            assert(s.subrange(pos + 1 + le, pos + 1 + le + 2)[0] == (seq![34u8] + seq![93u8])[0]);
        }
        assert(s[pos + 1 + le + 1] == 93) by {
            assert(s.subrange(pos + 1 + le, pos + 1 + le + 2)[1] == (seq![34u8] + seq![93u8])[1]);
        }
        lemma_scan_esc(s, pos + 1, c);
        assert(seq![c] =~= tags);
    } else {
        let rest = enc_str_items(tags.drop_first());
        assert(whole =~= seq![34u8] + (ec + (seq![34u8] + (seq![44u8] + rest))));
        lemma_split_at(s, pos, seq![34u8], ec + (seq![34u8] + (seq![44u8] + rest)));
        assert(s[pos] == 34) by {
            assert(s.subrange(pos, pos + 1)[0] == seq![34u8][0]);
        }
        lemma_split_at(s, pos + 1, ec, seq![34u8] + (seq![44u8] + rest));
        lemma_split_at(s, pos + 1 + le, seq![34u8], seq![44u8] + rest);
        assert(s[pos + 1 + le] == 34) by {
            assert(s.subrange(pos + 1 + le, pos + 1 + le + 1)[0] == seq![34u8][0]);
        }
        lemma_split_at(s, pos + 1 + le + 1, seq![44u8], rest);
        assert(s[pos + 1 + le + 1] == 44) by {
            assert(s.subrange(pos + 1 + le + 1, pos + 1 + le + 2)[0] == seq![44u8][0]);
        }
        lemma_scan_esc(s, pos + 1, c);
        lemma_parse_str_items_at(s, pos + 1 + le + 2, tags.drop_first());
        assert(seq![c] + tags.drop_first() =~= tags);
    }
}

/// An embedded encoded string array parses back to the tags.
pub proof fn lemma_parse_str_array_at(s: Seq<u8>, pos: int, tags: Seq<Seq<u8>>)
    requires
        0 <= pos,
        pos + enc_str_array(tags).len() <= s.len(),
        s.subrange(pos, pos + enc_str_array(tags).len() as int) == enc_str_array(tags),
    ensures
        parse_str_array(s, pos) == Option::Some((tags, pos + enc_str_array(tags).len())),
{
    if tags.len() == 0 {
        assert(s[pos] == 91) by {
            assert(s.subrange(pos, pos + 2)[0] == seq![91u8, 93u8][0]);
        }
        assert(s[pos + 1] == 93) by {
            assert(s.subrange(pos, pos + 2)[1] == seq![91u8, 93u8][1]);
        }
        assert(tags =~= Seq::<Seq<u8>>::empty());
    } else {
        let items = enc_str_items(tags);
        lemma_split_at(s, pos, seq![91u8], items);
        assert(s[pos] == 91) by {
            assert(s.subrange(pos, pos + 1)[0] == seq![91u8][0]);
        }
        lemma_parse_str_items_at(s, pos + 1, tags);
        assert(items.len() >= 1);
        assert(s[pos + 1] == 34) by {
            assert(enc_str_items(tags)[0] == (seq![34u8] + esc_bytes(tags[0]) + seq![34u8] + (
            if tags.len() == 1 {
                seq![93u8]
            } else {
                seq![44u8] + enc_str_items(tags.drop_first())
            }))[0]);
            assert(s.subrange(pos + 1, pos + 1 + items.len() as int)[0] == items[0]);
        }
    }
}

/// One access pair as written.
pub open spec fn enc_pair(p: (u32, u32)) -> Seq<u8> {
    seq![91u8] + dec_digits(p.0 as nat) + seq![44u8] + dec_digits(p.1 as nat) + seq![93u8]
}

/// The items of a nonempty pairs array as written, closing bracket of the
/// surrounding array included.
pub open spec fn enc_pair_items(ps: Seq<(u32, u32)>) -> Seq<u8>
    decreases ps.len(),
{
    if ps.len() == 0 {
        Seq::empty()
    } else if ps.len() == 1 {
        enc_pair(ps[0]) + seq![93u8]
    } else {
        enc_pair(ps[0]) + seq![44u8] + enc_pair_items(ps.drop_first())
    }
}

/// A pairs array as written.
pub open spec fn enc_pairs_array(ps: Seq<(u32, u32)>) -> Seq<u8> {
    if ps.len() == 0 {
        seq![91u8, 93u8]
    } else {
        seq![91u8] + enc_pair_items(ps)
    }
}

/// An embedded encoded pair parses back to itself.
pub proof fn lemma_parse_pair_at(s: Seq<u8>, pos: int, p: (u32, u32))
    requires
        0 <= pos,
        p.1 >= 1,
        pos + enc_pair(p).len() <= s.len(),
        s.subrange(pos, pos + enc_pair(p).len() as int) == enc_pair(p),
    ensures
        parse_pair(s, pos) == Option::Some((p, pos + enc_pair(p).len())),
{
    let d0 = dec_digits(p.0 as nat);
    let d1 = dec_digits(p.1 as nat);
    let l0 = d0.len() as int;
    let l1 = d1.len() as int;
    assert(enc_pair(p) =~= seq![91u8] + (d0 + (seq![44u8] + (d1 + seq![93u8]))));
    lemma_split_at(s, pos, seq![91u8], d0 + (seq![44u8] + (d1 + seq![93u8])));
    assert(s[pos] == 91) by {
        assert(s.subrange(pos, pos + 1)[0] == seq![91u8][0]);
    }
    lemma_split_at(s, pos + 1, d0, seq![44u8] + (d1 + seq![93u8]));
    lemma_split_at(s, pos + 1 + l0, seq![44u8], d1 + seq![93u8]);
    assert(s[pos + 1 + l0] == 44) by {
        assert(s.subrange(pos + 1 + l0, pos + 1 + l0 + 1)[0] == seq![44u8][0]);
    }
    lemma_split_at(s, pos + 1 + l0 + 1, d1, seq![93u8]);
    assert(s[pos + 1 + l0 + 1 + l1] == 93) by {
        assert(s.subrange(pos + 1 + l0 + 1 + l1, pos + 1 + l0 + 1 + l1 + 1)[0] == seq![93u8][0]);
    }
    lemma_parse_dec_at(s, pos + 1, p.0 as nat);
    lemma_parse_dec_at(s, pos + 1 + l0 + 1, p.1 as nat);
}

/// Embedded encoded pair items parse back to the pairs.
pub proof fn lemma_parse_pair_items_at(s: Seq<u8>, pos: int, ps: Seq<(u32, u32)>)
    requires
        0 <= pos,
        ps.len() >= 1,
        forall|k: int| 0 <= k < ps.len() ==> (#[trigger] ps[k]).1 >= 1,
        pos + enc_pair_items(ps).len() <= s.len(),
        s.subrange(pos, pos + enc_pair_items(ps).len() as int) == enc_pair_items(ps),
    ensures
        parse_pair_items(s, pos) == Option::Some((ps, pos + enc_pair_items(ps).len())),
    decreases ps.len(),
{
    let ep = enc_pair(ps[0]);
    let lp = ep.len() as int;
    if ps.len() == 1 {
        lemma_split_at(s, pos, ep, seq![93u8]);
        assert(s[pos + lp] == 93) by {
            assert(s.subrange(pos + lp, pos + lp + 1)[0] == seq![93u8][0]);
        }
        lemma_parse_pair_at(s, pos, ps[0]);
        assert(seq![ps[0]] =~= ps);
    } else {
        let rest = enc_pair_items(ps.drop_first());
        assert(enc_pair_items(ps) =~= ep + (seq![44u8] + rest));
        lemma_split_at(s, pos, ep, seq![44u8] + rest);
        lemma_split_at(s, pos + lp, seq![44u8], rest);
        assert(s[pos + lp] == 44) by {
            assert(s.subrange(pos + lp, pos + lp + 1)[0] == seq![44u8][0]);
        }
        lemma_parse_pair_at(s, pos, ps[0]);
        assert forall|k: int| 0 <= k < ps.drop_first().len() implies (#[trigger] ps.drop_first()[k]).1
            >= 1 by {
            assert(ps.drop_first()[k] == ps[k + 1]);
        }
        lemma_parse_pair_items_at(s, pos + lp + 1, ps.drop_first());
        assert(seq![ps[0]] + ps.drop_first() =~= ps);
    }
}

/// An embedded encoded pairs array parses back to the pairs.
pub proof fn lemma_parse_pairs_array_at(s: Seq<u8>, pos: int, ps: Seq<(u32, u32)>)
    requires
        0 <= pos,
        forall|k: int| 0 <= k < ps.len() ==> (#[trigger] ps[k]).1 >= 1,
        pos + enc_pairs_array(ps).len() <= s.len(),
        s.subrange(pos, pos + enc_pairs_array(ps).len() as int) == enc_pairs_array(ps),
    ensures
        parse_pairs_array(s, pos) == Option::Some((ps, pos + enc_pairs_array(ps).len())),
{
    if ps.len() == 0 {
        assert(s[pos] == 91) by {
            assert(s.subrange(pos, pos + 2)[0] == seq![91u8, 93u8][0]);
        }
        assert(s[pos + 1] == 93) by {
            assert(s.subrange(pos, pos + 2)[1] == seq![91u8, 93u8][1]);
        }
        assert(ps =~= Seq::<(u32, u32)>::empty());
    } else {
        let items = enc_pair_items(ps);
        lemma_split_at(s, pos, seq![91u8], items);
        assert(s[pos] == 91) by {
            assert(s.subrange(pos, pos + 1)[0] == seq![91u8][0]);
        }
        lemma_parse_pair_items_at(s, pos + 1, ps);
        assert(s[pos + 1] == 91) by {
            if ps.len() == 1 {
                assert(items[0] == (enc_pair(ps[0]) + seq![93u8])[0]);
            } else {
                assert(items[0] == (enc_pair(ps[0]) + seq![44u8] + enc_pair_items(
                    ps.drop_first(),
                ))[0]);
            }
            assert(enc_pair(ps[0])[0] == 91);
            assert(s.subrange(pos + 1, pos + 1 + items.len() as int)[0] == items[0]);
        }
    }
}

/// A timestamp as written, from its calendar components.
#[verifier::opaque]
pub open spec fn enc_ts_parts(
    y: nat,
    mo: nat,
    d: nat,
    h: nat,
    mi: nat,
    sec: nat,
    ms: nat,
) -> Seq<u8> {
    padded_digits(y, 4) + seq![45u8] + padded_digits(mo, 2) + seq![45u8] + padded_digits(d, 2)
        + seq![84u8] + padded_digits(h, 2) + seq![58u8] + padded_digits(mi, 2) + seq![58u8]
        + padded_digits(sec, 2) + seq![46u8] + padded_digits(ms, 3) + seq![90u8]
}

/// An embedded encoded timestamp parses back to its millisecond value.
pub proof fn lemma_parse_ts_at(
    s: Seq<u8>,
    pos: int,
    y: nat,
    mo: nat,
    d: nat,
    h: nat,
    mi: nat,
    sec: nat,
    ms: nat,
)
    requires
        0 <= pos,
        pos + 24 <= s.len(),
        s.subrange(pos, pos + 24) == enc_ts_parts(y, mo, d, h, mi, sec, ms),
        crate::dates::valid_date(y as int, mo as int, d as int),
        h <= 23,
        mi <= 59,
        sec <= 59,
        ms <= 999,
        crate::dates::ts_in_range(
            crate::dates::day_number(y as int, mo as int, d as int) * 86_400_000 + h * 3_600_000
                + mi * 60_000 + sec * 1000 + ms,
        ),
        crate::dates::day_number(y as int, mo as int, d as int) * 86_400_000 + h * 3_600_000 + mi
            * 60_000 + sec * 1000 + ms <= i64::MAX,
    ensures
        parse_ts(s, pos) == Option::Some(
            (
                (crate::dates::day_number(y as int, mo as int, d as int) * 86_400_000 + h
                    * 3_600_000 + mi * 60_000 + sec * 1000 + ms) as i64,
                pos + 24,
            ),
        ),
{
    reveal(enc_ts_parts);
    reveal_with_fuel(pow10, 7);
    lemma_padded_len(y, 4);
    lemma_padded_len(mo, 2);
    lemma_padded_len(d, 2);
    lemma_padded_len(h, 2);
    lemma_padded_len(mi, 2);
    lemma_padded_len(sec, 2);
    lemma_padded_len(ms, 3);
    let py = padded_digits(y, 4);
    let pmo = padded_digits(mo, 2);
    let pd = padded_digits(d, 2);
    let ph = padded_digits(h, 2);
    let pmi = padded_digits(mi, 2);
    let psec = padded_digits(sec, 2);
    let pms = padded_digits(ms, 3);
    let t1 = seq![45u8] + (pmo + (seq![45u8] + (pd + (seq![84u8] + (ph + (seq![58u8] + (pmi + (
    seq![58u8] + (psec + (seq![46u8] + (pms + seq![90u8])))))))))));
    assert(enc_ts_parts(y, mo, d, h, mi, sec, ms) =~= py + t1);
    lemma_split_at(s, pos, py, t1);
    lemma_split_at(s, pos + 4, seq![45u8], pmo + (seq![45u8] + (pd + (seq![84u8] + (ph + (
    seq![58u8] + (pmi + (seq![58u8] + (psec + (seq![46u8] + (pms + seq![90u8])))))))))));
    lemma_split_at(s, pos + 5, pmo, seq![45u8] + (pd + (seq![84u8] + (ph + (seq![58u8] + (pmi + (
    seq![58u8] + (psec + (seq![46u8] + (pms + seq![90u8]))))))))));
    lemma_split_at(s, pos + 7, seq![45u8], pd + (seq![84u8] + (ph + (seq![58u8] + (pmi + (
    seq![58u8] + (psec + (seq![46u8] + (pms + seq![90u8])))))))));
    lemma_split_at(s, pos + 8, pd, seq![84u8] + (ph + (seq![58u8] + (pmi + (seq![58u8] + (psec + (
    seq![46u8] + (pms + seq![90u8]))))))));
    lemma_split_at(s, pos + 10, seq![84u8], ph + (seq![58u8] + (pmi + (seq![58u8] + (psec + (
    seq![46u8] + (pms + seq![90u8])))))));
    lemma_split_at(s, pos + 11, ph, seq![58u8] + (pmi + (seq![58u8] + (psec + (seq![46u8] + (pms
        + seq![90u8]))))));
    lemma_split_at(s, pos + 13, seq![58u8], pmi + (seq![58u8] + (psec + (seq![46u8] + (pms
        + seq![90u8])))));
    lemma_split_at(s, pos + 14, pmi, seq![58u8] + (psec + (seq![46u8] + (pms + seq![90u8]))));
    lemma_split_at(s, pos + 16, seq![58u8], psec + (seq![46u8] + (pms + seq![90u8])));
    lemma_split_at(s, pos + 17, psec, seq![46u8] + (pms + seq![90u8]));
    lemma_split_at(s, pos + 19, seq![46u8], pms + seq![90u8]);
    lemma_split_at(s, pos + 20, pms, seq![90u8]);
    assert(s[pos + 4] == 45) by {
        assert(s.subrange(pos + 4, pos + 5)[0] == seq![45u8][0]);
    }
    assert(s[pos + 7] == 45) by {
        assert(s.subrange(pos + 7, pos + 8)[0] == seq![45u8][0]);
    }
    assert(s[pos + 10] == 84) by {
        assert(s.subrange(pos + 10, pos + 11)[0] == seq![84u8][0]);
    }
    assert(s[pos + 13] == 58) by {
        assert(s.subrange(pos + 13, pos + 14)[0] == seq![58u8][0]);
    }
    assert(s[pos + 16] == 58) by {
        assert(s.subrange(pos + 16, pos + 17)[0] == seq![58u8][0]);
    }
    assert(s[pos + 19] == 46) by {
        assert(s.subrange(pos + 19, pos + 20)[0] == seq![46u8][0]);
    }
    assert(s[pos + 23] == 90) by {
        assert(s.subrange(pos + 23, pos + 24)[0] == seq![90u8][0]);
    }
    lemma_padded_value(s, pos, y, 4);
    lemma_padded_value(s, pos + 5, mo, 2);
    lemma_padded_value(s, pos + 8, d, 2);
    lemma_padded_value(s, pos + 11, h, 2);
    lemma_padded_value(s, pos + 14, mi, 2);
    lemma_padded_value(s, pos + 17, sec, 2);
    lemma_padded_value(s, pos + 20, ms, 3);
}

// --- executable writers ---

/// Appends the bytes of an ASCII literal.
fn append_lit(out: &mut Vec<u8>, lit: &str)
    ensures
        final(out)@ == old(out)@ + lit.spec_bytes(),
{
    let bs = lit.as_bytes();
    let n = bs.len();
    let mut j: usize = 0;
    while j < n
        invariant
            j <= n,
            n == bs@.len(),
            bs@ == lit.spec_bytes(),
            out@ == old(out)@ + bs@.subrange(0, j as int),
        decreases n - j,
    {
        out.push(bs[j]);
        proof {
            assert(old(out)@ + bs@.subrange(0, j as int + 1) =~= (old(out)@ + bs@.subrange(
                0,
                j as int,
            )).push(bs@[j as int]));
        }
        j = j + 1;
    }
    proof {
        assert(bs@.subrange(0, n as int) =~= bs@);
    }
}

/// Appends the decimal digits of `n`.
fn append_dec(out: &mut Vec<u8>, n: u64)
    ensures
        final(out)@ == old(out)@ + dec_digits(n as nat),
    decreases n,
{
    if n >= 10 {
        append_dec(out, n / 10);
    }
    out.push(48 + (n % 10) as u8);
    proof {
        if n < 10 {
            assert(old(out)@ + dec_digits(n as nat) =~= old(out)@.push(
                (48 + n as nat % 10) as u8,
            ));
        } else {
            assert(old(out)@ + dec_digits(n as nat) =~= (old(out)@ + dec_digits(
                (n / 10) as nat,
            )).push((48 + n as nat % 10) as u8));
        }
    }
}

/// Appends exactly `k` zero-padded decimal digits of `v`.
fn append_padded(out: &mut Vec<u8>, v: u64, k: usize)
    ensures
        final(out)@ == old(out)@ + padded_digits(v as nat, k as nat),
    decreases k,
{
    if k == 0 {
        proof {
            assert(old(out)@ + padded_digits(v as nat, 0) =~= old(out)@);
        }
        return ;
    }
    append_padded(out, v / 10, k - 1);
    out.push(48 + (v % 10) as u8);
    proof {
        assert(old(out)@ + padded_digits(v as nat, k as nat) =~= (old(out)@ + padded_digits(
            (v / 10) as nat,
            (k - 1) as nat,
        )).push((48 + v as nat % 10) as u8));
    }
}

/// Appends exactly `k` lowercase hex digits of `v`.
fn append_hex(out: &mut Vec<u8>, v: u128, k: usize)
    ensures
        final(out)@ == old(out)@ + hex_digits(v as nat, k as nat),
    decreases k,
{
    if k == 0 {
        proof {
            assert(old(out)@ + hex_digits(v as nat, 0) =~= old(out)@);
        }
        return ;
    }
    append_hex(out, v / 16, k - 1);
    let d: u8 = (v % 16) as u8;
    let b: u8 = if d < 10 {
        48 + d
    } else {
        87 + d
    };
    out.push(b);
    proof {
        assert(b == hex_digit((v as nat % 16) as int));
        assert(old(out)@ + hex_digits(v as nat, k as nat) =~= (old(out)@ + hex_digits(
            (v / 16) as nat,
            (k - 1) as nat,
        )).push(hex_digit((v as nat % 16) as int)));
    }
}

/// Appends the escaped form of `s`.
fn append_escaped(out: &mut Vec<u8>, s: &Vec<u8>)
    ensures
        final(out)@ == old(out)@ + esc_bytes(s@),
{
    let n = s.len();
    let mut i: usize = 0;
    while i < n
        invariant
            i <= n,
            n == s@.len(),
            out@ == old(out)@ + esc_bytes(s@.subrange(0, i as int)),
        decreases n - i,
    {
        let b = s[i];
        if b == 34 {
            out.push(92);
            out.push(34);
        } else if b == 92 {
            out.push(92);
            out.push(92);
        } else if b < 32 {
            out.push(92);
            out.push(117);
            out.push(48);
            out.push(48);
            let hi: u8 = b / 16;
            let lo: u8 = b % 16;
            out.push(if hi < 10 {
                48 + hi
            } else {
                87 + hi
            });
            out.push(if lo < 10 {
                48 + lo
            } else {
                87 + lo
            });
        } else {
            out.push(b);
        }
        proof {
            let pre = s@.subrange(0, i as int);
            let cur = s@.subrange(0, i as int + 1);
            assert(cur.drop_last() =~= pre);
            assert(cur.last() == b);
            assert(esc_bytes(cur) == esc_bytes(pre) + esc_byte(b));
            if b < 32 && b != 34 && b != 92 {
                assert(hex_digit(b as int / 16) == (if b / 16 < 10 {
                    (48 + b / 16) as u8
                } else {
                    (87 + b / 16) as u8
                }));
                assert(hex_digit(b as int % 16) == (if b % 16 < 10 {
                    (48 + b % 16) as u8
                } else {
                    (87 + b % 16) as u8
                }));
            }
            assert(out@ =~= old(out)@ + esc_bytes(cur));
        }
        i = i + 1;
    }
    proof {
        assert(s@.subrange(0, n as int) =~= s@);
    }
}

/// Appends a micro-unit ratio as a decimal fraction.
fn append_micro(out: &mut Vec<u8>, v: u64)
    requires
        v <= SCALE,
    ensures
        final(out)@ == old(out)@ + enc_micro(v as nat),
{
    append_dec(out, v / 1_000_000);
    out.push(46);
    append_padded(out, v % 1_000_000, 6);
    proof {
        assert(old(out)@ + enc_micro(v as nat) =~= ((old(out)@ + dec_digits(
            (v / 1_000_000) as nat,
        )).push(46u8)) + padded_digits((v % 1_000_000) as nat, 6));
    }
}

/// Appends a string array.
fn append_str_array(out: &mut Vec<u8>, tags: &Vec<Vec<u8>>)
    ensures
        final(out)@ == old(out)@ + enc_str_array(tags.deep_view()),
{
    let ghost tv = tags.deep_view();
    let n = tags.len();
    proof {
        assert(tv.len() == tags@.len());
    }
    out.push(91);
    if n == 0 {
        out.push(93);
        proof {
            assert(old(out)@ + enc_str_array(tv) =~= old(out)@.push(91u8).push(93u8));
        }
        return ;
    }
    let mut idx: usize = 0;
    while idx < n
        invariant
            idx <= n,
            n == tags@.len(),
            n == tv.len(),
            n >= 1,
            tv == tags.deep_view(),
            out@ == old(out)@ + seq![91u8] + enc_items_prefix(tv, idx as int),
        decreases n - idx,
    {
        let ghost pre = out@;
        out.push(34);
        append_escaped(out, &tags[idx]);
        out.push(34);
        if idx + 1 == n {
            out.push(93);
        } else {
            out.push(44);
        }
        proof {
            assert(tags[idx as int]@ == tv[idx as int]);
            let head = seq![34u8] + esc_bytes(tv[idx as int]) + seq![34u8];
            if idx + 1 == n {
                assert(out@ =~= pre + (head + seq![93u8]));
                assert(enc_items_prefix(tv, idx as int) + (head + seq![93u8])
                    =~= enc_items_prefix(tv, idx as int + 1));
            } else {
                assert(out@ =~= pre + (head + seq![44u8]));
                assert(enc_items_prefix(tv, idx as int) + (head + seq![44u8])
                    =~= enc_items_prefix(tv, idx as int + 1));
            }
            assert(out@ =~= old(out)@ + seq![91u8] + enc_items_prefix(tv, idx as int + 1));
        }
        idx = idx + 1;
    }
    proof {
        lemma_items_prefix_full(tv);
        assert(old(out)@ + seq![91u8] + enc_str_items(tv) =~= old(out)@ + enc_str_array(tv));
    }
}

/// The first `upto` items of a string array as written, separators
/// included, with the closing bracket after the last item.
pub open spec fn enc_items_prefix(tags: Seq<Seq<u8>>, upto: int) -> Seq<u8>
    decreases upto,
{
    if upto <= 0 {
        Seq::empty()
    } else {
        let head = seq![34u8] + esc_bytes(tags[upto - 1]) + seq![34u8];
        let sep: Seq<u8> = if upto == tags.len() {
            seq![93u8]
        } else {
            seq![44u8]
        };
        enc_items_prefix(tags, upto - 1) + (head + sep)
    }
}

/// A full prefix spells the whole item list.
pub proof fn lemma_items_prefix_full(tags: Seq<Seq<u8>>)
    requires
        tags.len() >= 1,
    ensures
        enc_items_prefix(tags, tags.len() as int) == enc_str_items(tags),
{
    lemma_items_prefix_from(tags, 0);
    assert(enc_items_prefix(tags, 0) + enc_str_items(tags.skip(0)) =~= enc_str_items(tags)) by {
        assert(tags.skip(0) =~= tags);
    }
}

/// Splitting the items at `idx`: prefix plus remainder.
pub proof fn lemma_items_prefix_from(tags: Seq<Seq<u8>>, idx: int)
    requires
        0 <= idx < tags.len(),
    ensures
        enc_items_prefix(tags, tags.len() as int) == enc_items_prefix(tags, idx)
            + enc_str_items(tags.skip(idx)),
    decreases tags.len() - idx,
{
    let n = tags.len() as int;
    if idx == n - 1 {
        assert(tags.skip(idx)[0] == tags[idx]);
        assert(tags.skip(idx).len() == 1);
        assert(enc_str_items(tags.skip(idx)) =~= (seq![34u8] + esc_bytes(tags[idx]) + seq![34u8])
            + seq![93u8]);
        assert(enc_items_prefix(tags, n) =~= enc_items_prefix(tags, idx) + ((seq![34u8]
            + esc_bytes(tags[idx]) + seq![34u8]) + seq![93u8]));
    } else {
        lemma_items_prefix_from(tags, idx + 1);
        assert(tags.skip(idx)[0] == tags[idx]);
        assert(tags.skip(idx).drop_first() =~= tags.skip(idx + 1));
        assert(tags.skip(idx).len() == n - idx);
        assert(enc_str_items(tags.skip(idx)) == (seq![34u8] + esc_bytes(tags[idx]) + seq![34u8])
            + seq![44u8] + enc_str_items(tags.skip(idx + 1)));
        assert(enc_items_prefix(tags, idx + 1) =~= enc_items_prefix(tags, idx) + ((seq![34u8]
            + esc_bytes(tags[idx]) + seq![34u8]) + seq![44u8]));
        assert(enc_items_prefix(tags, idx) + enc_str_items(tags.skip(idx)) =~= enc_items_prefix(
            tags,
            idx + 1,
        ) + enc_str_items(tags.skip(idx + 1)));
    }
}

/// The first `upto` pairs as written, separators included, with the
/// closing bracket after the last pair.
pub open spec fn enc_pairs_prefix(ps: Seq<(u32, u32)>, upto: int) -> Seq<u8>
    decreases upto,
{
    if upto <= 0 {
        Seq::empty()
    } else {
        let sep: Seq<u8> = if upto == ps.len() {
            seq![93u8]
        } else {
            seq![44u8]
        };
        enc_pairs_prefix(ps, upto - 1) + (enc_pair(ps[upto - 1]) + sep)
    }
}

/// Splitting the pair items at `idx`: prefix plus remainder.
pub proof fn lemma_pairs_prefix_from(ps: Seq<(u32, u32)>, idx: int)
    requires
        0 <= idx < ps.len(),
    ensures
        enc_pairs_prefix(ps, ps.len() as int) == enc_pairs_prefix(ps, idx) + enc_pair_items(
            ps.skip(idx),
        ),
    decreases ps.len() - idx,
{
    let n = ps.len() as int;
    if idx == n - 1 {
        assert(ps.skip(idx)[0] == ps[idx]);
        assert(ps.skip(idx).len() == 1);
        assert(enc_pair_items(ps.skip(idx)) =~= enc_pair(ps[idx]) + seq![93u8]);
        assert(enc_pairs_prefix(ps, n) =~= enc_pairs_prefix(ps, idx) + (enc_pair(ps[idx])
            + seq![93u8]));
    } else {
        lemma_pairs_prefix_from(ps, idx + 1);
        assert(ps.skip(idx)[0] == ps[idx]);
        assert(ps.skip(idx).drop_first() =~= ps.skip(idx + 1));
        assert(ps.skip(idx).len() == n - idx);
        assert(enc_pair_items(ps.skip(idx)) == enc_pair(ps[idx]) + seq![44u8] + enc_pair_items(
            ps.skip(idx + 1),
        ));
        assert(enc_pairs_prefix(ps, idx + 1) =~= enc_pairs_prefix(ps, idx) + (enc_pair(ps[idx])
            + seq![44u8]));
        assert(enc_pairs_prefix(ps, idx) + enc_pair_items(ps.skip(idx)) =~= enc_pairs_prefix(
            ps,
            idx + 1,
        ) + enc_pair_items(ps.skip(idx + 1)));
    }
}

/// A full prefix spells the whole pair list.
pub proof fn lemma_pairs_prefix_full(ps: Seq<(u32, u32)>)
    requires
        ps.len() >= 1,
    ensures
        enc_pairs_prefix(ps, ps.len() as int) == enc_pair_items(ps),
{
    lemma_pairs_prefix_from(ps, 0);
    assert(enc_pairs_prefix(ps, 0) + enc_pair_items(ps.skip(0)) =~= enc_pair_items(ps)) by {
        assert(ps.skip(0) =~= ps);
    }
}

/// Appends an access history array.
fn append_pairs_array(out: &mut Vec<u8>, ps: &Vec<(u32, u32)>)
    ensures
        final(out)@ == old(out)@ + enc_pairs_array(ps@),
{
    let n = ps.len();
    out.push(91);
    if n == 0 {
        out.push(93);
        proof {
            assert(old(out)@ + enc_pairs_array(ps@) =~= old(out)@.push(91u8).push(93u8));
        }
        return ;
    }
    let mut idx: usize = 0;
    while idx < n
        invariant
            idx <= n,
            n == ps@.len(),
            n >= 1,
            out@ == old(out)@ + seq![91u8] + enc_pairs_prefix(ps@, idx as int),
        decreases n - idx,
    {
        let ghost pre = out@;
        let p = ps[idx];
        out.push(91);
        append_dec(out, p.0 as u64);
        out.push(44);
        append_dec(out, p.1 as u64);
        out.push(93);
        if idx + 1 == n {
            out.push(93);
        } else {
            out.push(44);
        }
        proof {
            assert(p == ps@[idx as int]);
            let ep = enc_pair(p);
            if idx + 1 == n {
                assert(out@ =~= pre + (ep + seq![93u8]));
                assert(enc_pairs_prefix(ps@, idx as int) + (ep + seq![93u8]) =~= enc_pairs_prefix(
                    ps@,
                    idx as int + 1,
                ));
            } else {
                assert(out@ =~= pre + (ep + seq![44u8]));
                assert(enc_pairs_prefix(ps@, idx as int) + (ep + seq![44u8]) =~= enc_pairs_prefix(
                    ps@,
                    idx as int + 1,
                ));
            }
            assert(out@ =~= old(out)@ + seq![91u8] + enc_pairs_prefix(ps@, idx as int + 1));
        }
        idx = idx + 1;
    }
    proof {
        lemma_pairs_prefix_full(ps@);
        assert(old(out)@ + seq![91u8] + enc_pair_items(ps@) =~= old(out)@ + enc_pairs_array(ps@));
    }
}

/// Appends a timestamp in its fixed 24-byte form, returning its calendar
/// components.
fn append_ts(out: &mut Vec<u8>, t: i64) -> (r: (CivilDate, u32, u32, u32, u32))
    requires
        crate::dates::ts_in_range(t as int),
    ensures
        final(out)@ == old(out)@ + enc_ts_parts(
            r.0.year as nat,
            r.0.month as nat,
            r.0.day as nat,
            r.1 as nat,
            r.2 as nat,
            r.3 as nat,
            r.4 as nat,
        ),
        crate::dates::date_valid(r.0),
        r.1 <= 23,
        r.2 <= 59,
        r.3 <= 59,
        r.4 <= 999,
        crate::dates::day_number(r.0.year as int, r.0.month as int, r.0.day as int) * 86_400_000
            + r.1 * 3_600_000 + r.2 * 60_000 + r.3 * 1000 + r.4 == t,
{
    let (day, msod) = crate::dates::split_millis(t);
    let date = crate::dates::civil_from_day(day);
    let h = msod / 3_600_000;
    let rem = msod % 3_600_000;
    let mi = rem / 60_000;
    let rem2 = rem % 60_000;
    let sec = rem2 / 1000;
    let ms = rem2 % 1000;
    proof {
        vstd::arithmetic::div_mod::lemma_fundamental_div_mod(msod as int, 3_600_000);
        vstd::arithmetic::div_mod::lemma_fundamental_div_mod(rem as int, 60_000);
        vstd::arithmetic::div_mod::lemma_fundamental_div_mod(rem2 as int, 1000);
    }
    append_padded(out, date.year as u64, 4);
    out.push(45);
    append_padded(out, date.month as u64, 2);
    out.push(45);
    append_padded(out, date.day as u64, 2);
    out.push(84);
    append_padded(out, h as u64, 2);
    out.push(58);
    append_padded(out, mi as u64, 2);
    out.push(58);
    append_padded(out, sec as u64, 2);
    out.push(46);
    append_padded(out, ms as u64, 3);
    out.push(90);
    proof {
        reveal(enc_ts_parts);
        assert(old(out)@ + enc_ts_parts(
            date.year as nat,
            date.month as nat,
            date.day as nat,
            h as nat,
            mi as nat,
            sec as nat,
            ms as nat,
        ) =~= out@);
    }
    (date, h, mi, sec, ms)
}

/// Prefix snapshots of the record bytes, one per written segment.
pub struct EncMarks {
    pub s1: Seq<u8>,
    pub s2: Seq<u8>,
    pub s3: Seq<u8>,
    pub s4: Seq<u8>,
    pub s5: Seq<u8>,
    pub s6: Seq<u8>,
    pub s7: Seq<u8>,
    pub s8: Seq<u8>,
    pub s9: Seq<u8>,
    pub s10: Seq<u8>,
    pub s11: Seq<u8>,
    pub s12: Seq<u8>,
    pub s13: Seq<u8>,
    pub s14: Seq<u8>,
    pub s15: Seq<u8>,
    pub s16: Seq<u8>,
    pub s17: Seq<u8>,
}

/// The structural equations of the record bytes: each snapshot extends the
/// previous one by the next segment.
pub open spec fn enc_marks_ok(
    m: EncMarks,
    v: InsightView,
    cp: (CivilDate, u32, u32, u32, u32),
    mp: (CivilDate, u32, u32, u32, u32),
    s: Seq<u8>,
) -> bool {
    &&& m.s1 == lit_uuid()
    &&& m.s2 == m.s1 + hex_digits(v.uuid as nat, 32)
    &&& m.s3 == m.s2 + lit_content()
    &&& m.s4 == m.s3 + esc_bytes(v.content)
    &&& m.s5 == m.s4 + seq![34u8]
    &&& m.s6 == m.s5 + lit_situation()
    &&& m.s7 == m.s6 + enc_str_array(v.situation)
    &&& m.s8 == m.s7 + lit_base()
    &&& m.s9 == m.s8 + enc_micro(v.base_importance as nat)
    &&& m.s10 == m.s9 + lit_importance()
    &&& m.s11 == m.s10 + enc_micro(v.importance as nat)
    &&& m.s12 == m.s11 + lit_created()
    &&& m.s13 == m.s12 + enc_ts_parts(
        cp.0.year as nat,
        cp.0.month as nat,
        cp.0.day as nat,
        cp.1 as nat,
        cp.2 as nat,
        cp.3 as nat,
        cp.4 as nat,
    )
    &&& m.s14 == m.s13 + lit_modified()
    &&& m.s15 == m.s14 + enc_ts_parts(
        mp.0.year as nat,
        mp.0.month as nat,
        mp.0.day as nat,
        mp.1 as nat,
        mp.2 as nat,
        mp.3 as nat,
        mp.4 as nat,
    )
    &&& m.s16 == m.s15 + lit_daily()
    &&& m.s17 == m.s16 + enc_pairs_array(v.daily_access_counts)
    &&& s == m.s17 + lit_close()
}

/// The side conditions that `append_ts` guarantees of timestamp parts.
pub open spec fn ts_parts_ok(p: (CivilDate, u32, u32, u32, u32), t: i64) -> bool {
    &&& crate::dates::date_valid(p.0)
    &&& p.1 <= 23
    &&& p.2 <= 59
    &&& p.3 <= 59
    &&& p.4 <= 999
    &&& crate::dates::day_number(p.0.year as int, p.0.month as int, p.0.day as int) * 86_400_000
        + p.1 * 3_600_000 + p.2 * 60_000 + p.3 * 1000 + p.4 == t
}

/// Writes the record bytes segment by segment.
#[verifier::rlimit(100)]
fn build_insight_bytes(i: &Insight) -> (r: (
    Vec<u8>,
    Ghost<EncMarks>,
    Ghost<(CivilDate, u32, u32, u32, u32)>,
    Ghost<(CivilDate, u32, u32, u32, u32)>,
))
    requires
        i.wf(),
    ensures
        enc_marks_ok(r.1@, i@, r.2@, r.3@, r.0@),
        ts_parts_ok(r.2@, i.created_at),
        ts_parts_ok(r.3@, i.importance_modified_at),
{
    let mut out: Vec<u8> = Vec::new();
    append_lit(&mut out, "{\"uuid\":\"");
    let ghost s1 = out@;
    append_hex(&mut out, i.uuid, 32);
    let ghost s2 = out@;
    append_lit(&mut out, "\",\"content\":\"");
    let ghost s3 = out@;
    append_escaped(&mut out, &i.content);
    let ghost s4 = out@;
    out.push(34);
    let ghost s5 = out@;
    append_lit(&mut out, ",\"situation\":");
    let ghost s6 = out@;
    append_str_array(&mut out, &i.situation);
    let ghost s7 = out@;
    append_lit(&mut out, ",\"base_importance\":");
    let ghost s8 = out@;
    append_micro(&mut out, i.base_importance);
    let ghost s9 = out@;
    append_lit(&mut out, ",\"importance\":");
    let ghost s10 = out@;
    append_micro(&mut out, i.importance);
    let ghost s11 = out@;
    append_lit(&mut out, ",\"created_at\":\"");
    let ghost s12 = out@;
    let cp = append_ts(&mut out, i.created_at);
    let ghost s13 = out@;
    append_lit(&mut out, "\",\"importance_modified_at\":\"");
    let ghost s14 = out@;
    let mp = append_ts(&mut out, i.importance_modified_at);
    let ghost s15 = out@;
    append_lit(&mut out, "\",\"daily_access_counts\":");
    let ghost s16 = out@;
    append_pairs_array(&mut out, &i.daily_access_counts);
    let ghost s17 = out@;
    append_lit(&mut out, "}");
    proof {
        assert(s1 =~= lit_uuid());
        assert(s5 =~= s4 + seq![34u8]);
    }
    let ghost marks = EncMarks {
        s1,
        s2,
        s3,
        s4,
        s5,
        s6,
        s7,
        s8,
        s9,
        s10,
        s11,
        s12,
        s13,
        s14,
        s15,
        s16,
        s17,
    };
    (out, Ghost(marks), Ghost((cp.0, cp.1, cp.2, cp.3, cp.4)), Ghost((mp.0, mp.1, mp.2, mp.3,
    mp.4)))
}

/// Writes an insight in the record format. The grammar maps the output
/// back to exactly this record: encoding and parsing round-trip.
pub fn encode_insight(i: &Insight) -> (r: Vec<u8>)
    requires
        i.wf(),
    ensures
        dec_insight(r@) == Option::Some(i@),
{
    let built = build_insight_bytes(i);
    proof {
        crate::models::lemma_wf_is_view_wf(*i);
        lemma_enc_segments(built.0@, i@, built.1@, built.2@, built.3@);
        lemma_encode_correct(built.0@, i@, built.1@, built.2@, built.3@);
    }
    built.0
}

/// Where each segment of the record bytes lies, and what it holds.
pub open spec fn seg_facts(
    m: EncMarks,
    v: InsightView,
    cp: (CivilDate, u32, u32, u32, u32),
    mp: (CivilDate, u32, u32, u32, u32),
    s: Seq<u8>,
) -> bool {
    &&& m.s1.len() == lit_uuid().len()
    &&& m.s2.len() == m.s1.len() + 32
    &&& m.s3.len() == m.s2.len() + lit_content().len()
    &&& m.s4.len() == m.s3.len() + esc_bytes(v.content).len()
    &&& m.s5.len() == m.s4.len() + 1
    &&& m.s6.len() == m.s5.len() + lit_situation().len()
    &&& m.s7.len() == m.s6.len() + enc_str_array(v.situation).len()
    &&& m.s8.len() == m.s7.len() + lit_base().len()
    &&& m.s9.len() == m.s8.len() + enc_micro(v.base_importance as nat).len()
    &&& m.s10.len() == m.s9.len() + lit_importance().len()
    &&& m.s11.len() == m.s10.len() + enc_micro(v.importance as nat).len()
    &&& m.s12.len() == m.s11.len() + lit_created().len()
    &&& m.s13.len() == m.s12.len() + 24
    &&& m.s14.len() == m.s13.len() + lit_modified().len()
    &&& m.s15.len() == m.s14.len() + 24
    &&& m.s16.len() == m.s15.len() + lit_daily().len()
    &&& m.s17.len() == m.s16.len() + enc_pairs_array(v.daily_access_counts).len()
    &&& s.len() == m.s17.len() + lit_close().len()
    &&& s.subrange(0, m.s1.len() as int) == lit_uuid()
    &&& s.subrange(m.s1.len() as int, m.s2.len() as int) == hex_digits(v.uuid as nat, 32)
    &&& s.subrange(m.s2.len() as int, m.s3.len() as int) == lit_content()
    &&& s.subrange(m.s3.len() as int, m.s4.len() as int) == esc_bytes(v.content)
    &&& s[m.s4.len() as int] == 34
    &&& s.subrange(m.s5.len() as int, m.s6.len() as int) == lit_situation()
    &&& s.subrange(m.s6.len() as int, m.s7.len() as int) == enc_str_array(v.situation)
    &&& s.subrange(m.s7.len() as int, m.s8.len() as int) == lit_base()
    &&& s.subrange(m.s8.len() as int, m.s9.len() as int) == enc_micro(v.base_importance as nat)
    &&& s.subrange(m.s9.len() as int, m.s10.len() as int) == lit_importance()
    &&& s.subrange(m.s10.len() as int, m.s11.len() as int) == enc_micro(v.importance as nat)
    &&& s.subrange(m.s11.len() as int, m.s12.len() as int) == lit_created()
    &&& s.subrange(m.s12.len() as int, m.s13.len() as int) == enc_ts_parts(
        cp.0.year as nat,
        cp.0.month as nat,
        cp.0.day as nat,
        cp.1 as nat,
        cp.2 as nat,
        cp.3 as nat,
        cp.4 as nat,
    )
    &&& s.subrange(m.s13.len() as int, m.s14.len() as int) == lit_modified()
    &&& s.subrange(m.s14.len() as int, m.s15.len() as int) == enc_ts_parts(
        mp.0.year as nat,
        mp.0.month as nat,
        mp.0.day as nat,
        mp.1 as nat,
        mp.2 as nat,
        mp.3 as nat,
        mp.4 as nat,
    )
    &&& s.subrange(m.s15.len() as int, m.s16.len() as int) == lit_daily()
    &&& s.subrange(m.s16.len() as int, m.s17.len() as int) == enc_pairs_array(
        v.daily_access_counts,
    )
    &&& s.subrange(m.s17.len() as int, s.len() as int) == lit_close()
}

/// The structural equations pin each segment of the written bytes.
#[verifier::rlimit(100)]
proof fn lemma_enc_segments(
    s: Seq<u8>,
    v: InsightView,
    m: EncMarks,
    cp: (CivilDate, u32, u32, u32, u32),
    mp: (CivilDate, u32, u32, u32, u32),
)
    requires
        enc_marks_ok(m, v, cp, mp, s),
    ensures
        seg_facts(m, v, cp, mp, s),
{
    lemma_hex_len(v.uuid as nat, 32);
    lemma_padded_len(cp.0.year as nat, 4);
    assert(enc_ts_parts(
        cp.0.year as nat,
        cp.0.month as nat,
        cp.0.day as nat,
        cp.1 as nat,
        cp.2 as nat,
        cp.3 as nat,
        cp.4 as nat,
    ).len() == 24) by {
        reveal(enc_ts_parts);
        lemma_padded_len(cp.0.year as nat, 4);
        lemma_padded_len(cp.0.month as nat, 2);
        lemma_padded_len(cp.0.day as nat, 2);
        lemma_padded_len(cp.1 as nat, 2);
        lemma_padded_len(cp.2 as nat, 2);
        lemma_padded_len(cp.3 as nat, 2);
        lemma_padded_len(cp.4 as nat, 3);
    }
    assert(enc_ts_parts(
        mp.0.year as nat,
        mp.0.month as nat,
        mp.0.day as nat,
        mp.1 as nat,
        mp.2 as nat,
        mp.3 as nat,
        mp.4 as nat,
    ).len() == 24) by {
        reveal(enc_ts_parts);
        lemma_padded_len(mp.0.year as nat, 4);
        lemma_padded_len(mp.0.month as nat, 2);
        lemma_padded_len(mp.0.day as nat, 2);
        lemma_padded_len(mp.1 as nat, 2);
        lemma_padded_len(mp.2 as nat, 2);
        lemma_padded_len(mp.3 as nat, 2);
        lemma_padded_len(mp.4 as nat, 3);
    }
    lemma_chop_full(s, m.s17, lit_close());
    lemma_chop(s, m.s16, enc_pairs_array(v.daily_access_counts), m.s17);
    lemma_chop(s, m.s15, lit_daily(), m.s16);
    lemma_chop(
        s,
        m.s14,
        enc_ts_parts(
            mp.0.year as nat,
            mp.0.month as nat,
            mp.0.day as nat,
            mp.1 as nat,
            mp.2 as nat,
            mp.3 as nat,
            mp.4 as nat,
        ),
        m.s15,
    );
    lemma_chop(s, m.s13, lit_modified(), m.s14);
    lemma_chop(
        s,
        m.s12,
        enc_ts_parts(
            cp.0.year as nat,
            cp.0.month as nat,
            cp.0.day as nat,
            cp.1 as nat,
            cp.2 as nat,
            cp.3 as nat,
            cp.4 as nat,
        ),
        m.s13,
    );
    lemma_chop(s, m.s11, lit_created(), m.s12);
    lemma_chop(s, m.s10, enc_micro(v.importance as nat), m.s11);
    lemma_chop(s, m.s9, lit_importance(), m.s10);
    lemma_chop(s, m.s8, enc_micro(v.base_importance as nat), m.s9);
    lemma_chop(s, m.s7, lit_base(), m.s8);
    lemma_chop(s, m.s6, enc_str_array(v.situation), m.s7);
    lemma_chop(s, m.s5, lit_situation(), m.s6);
    lemma_chop(s, m.s4, seq![34u8], m.s5);
    assert(s[m.s4.len() as int] == 34) by {
        assert(s.subrange(m.s4.len() as int, m.s5.len() as int)[0] == seq![34u8][0]);
    }
    lemma_chop(s, m.s3, esc_bytes(v.content), m.s4);
    lemma_chop(s, m.s2, lit_content(), m.s3);
    lemma_chop(s, m.s1, hex_digits(v.uuid as nat, 32), m.s2);
}

/// Bytes laid out by the structural equations parse back to the record.
#[verifier::rlimit(100)]
proof fn lemma_encode_correct(
    s: Seq<u8>,
    v: InsightView,
    m: EncMarks,
    cp: (CivilDate, u32, u32, u32, u32),
    mp: (CivilDate, u32, u32, u32, u32),
)
    requires
        seg_facts(m, v, cp, mp, s),
        ts_parts_ok(cp, v.created_at),
        ts_parts_ok(mp, v.importance_modified_at),
        view_wf(v),
    ensures
        dec_insight(s) == Option::Some(v),
{
    assert(u128::MAX < pow16(32)) by {
        reveal_with_fuel(pow16, 33);
    }
    lemma_hex_value(s, m.s1.len() as int, v.uuid as nat, 32);
    lemma_scan_esc(s, m.s3.len() as int, v.content);
    lemma_parse_str_array_at(s, m.s6.len() as int, v.situation);
    lemma_parse_micro_at(s, m.s8.len() as int, v.base_importance as nat);
    lemma_parse_micro_at(s, m.s10.len() as int, v.importance as nat);
    lemma_parse_ts_at(
        s,
        m.s12.len() as int,
        cp.0.year as nat,
        cp.0.month as nat,
        cp.0.day as nat,
        cp.1 as nat,
        cp.2 as nat,
        cp.3 as nat,
        cp.4 as nat,
    );
    lemma_parse_ts_at(
        s,
        m.s14.len() as int,
        mp.0.year as nat,
        mp.0.month as nat,
        mp.0.day as nat,
        mp.1 as nat,
        mp.2 as nat,
        mp.3 as nat,
        mp.4 as nat,
    );
    lemma_parse_pairs_array_at(s, m.s16.len() as int, v.daily_access_counts);
    lemma_dec_insight_eval(
        s,
        v,
        m.s1.len() as int,
        m.s3.len() as int,
        m.s4.len() as int,
        m.s6.len() as int,
        m.s7.len() as int,
        m.s8.len() as int,
        m.s9.len() as int,
        m.s10.len() as int,
        m.s11.len() as int,
        m.s12.len() as int,
        m.s13.len() as int,
        m.s14.len() as int,
        m.s15.len() as int,
        m.s16.len() as int,
        m.s17.len() as int,
    );
}

/// Splits `s` itself into a prefix and a final segment.
proof fn lemma_chop_full(s: Seq<u8>, q: Seq<u8>, seg: Seq<u8>)
    requires
        s == q + seg,
    ensures
        s.subrange(0, q.len() as int) == q,
        s.subrange(q.len() as int, s.len() as int) == seg,
{
    assert(s.subrange(0, s.len() as int) =~= s);
    lemma_chop(s, q, seg, s);
}

/// Splits a known prefix `p == q + seg` of `s` into its two parts.
proof fn lemma_chop(s: Seq<u8>, q: Seq<u8>, seg: Seq<u8>, p: Seq<u8>)
    requires
        p == q + seg,
        p.len() <= s.len(),
        s.subrange(0, p.len() as int) == p,
    ensures
        s.subrange(0, q.len() as int) == q,
        s.subrange(q.len() as int, p.len() as int) == seg,
{
    assert(s.subrange(0, q.len() as int) =~= q) by {
        assert forall|j: int| 0 <= j < q.len() implies #[trigger] s.subrange(
            0,
            q.len() as int,
        )[j] == q[j] by {
            assert(s.subrange(0, p.len() as int)[j] == p[j]);
        }
    }
    assert(s.subrange(q.len() as int, p.len() as int) =~= seg) by {
        assert forall|j: int| 0 <= j < seg.len() implies #[trigger] s.subrange(
            q.len() as int,
            p.len() as int,
        )[j] == seg[j] by {
            assert(s.subrange(0, p.len() as int)[q.len() + j] == p[q.len() + j]);
        }
    }
}

/// With every field parsed at its position and the invariant holding, the
/// grammar yields the record's model.
proof fn lemma_dec_insight_eval(
    s: Seq<u8>,
    v: InsightView,
    p1: int,
    p3: int,
    e3: int,
    p4: int,
    p5: int,
    pb: int,
    p6: int,
    pi: int,
    p7: int,
    pc: int,
    p8: int,
    pm: int,
    p9: int,
    pd: int,
    p10: int,
)
    requires
        match_lit(s, 0, lit_uuid()),
        p1 == lit_uuid().len(),
        hex_ok(s, p1, 32),
        hex_value_upto(s, p1, p1 + 32) == v.uuid,
        match_lit(s, p1 + 32, lit_content()),
        p3 == p1 + 32 + lit_content().len(),
        scan_str(s, p3) == Option::Some((v.content, e3)),
        e3 < s.len(),
        s[e3] == 34,
        match_lit(s, e3 + 1, lit_situation()),
        p4 == e3 + 1 + lit_situation().len(),
        parse_str_array(s, p4) == Option::Some((v.situation, p5)),
        match_lit(s, p5, lit_base()),
        pb == p5 + lit_base().len(),
        parse_micro(s, pb) == Option::Some((v.base_importance, p6)),
        match_lit(s, p6, lit_importance()),
        pi == p6 + lit_importance().len(),
        parse_micro(s, pi) == Option::Some((v.importance, p7)),
        match_lit(s, p7, lit_created()),
        pc == p7 + lit_created().len(),
        parse_ts(s, pc) == Option::Some((v.created_at, p8)),
        match_lit(s, p8, lit_modified()),
        pm == p8 + lit_modified().len(),
        parse_ts(s, pm) == Option::Some((v.importance_modified_at, p9)),
        match_lit(s, p9, lit_daily()),
        pd == p9 + lit_daily().len(),
        parse_pairs_array(s, pd) == Option::Some((v.daily_access_counts, p10)),
        match_lit(s, p10, lit_close()),
        p10 + lit_close().len() == s.len(),
        view_wf(v),
        v.uuid <= u128::MAX,
    ensures
        dec_insight(s) == Option::Some(v),
{
    reveal(dec_insight);
    reveal(dec_insight_tail);
    assert(dec_insight_tail(s, p6, v.uuid, v.content, v.situation, v.base_importance)
        == Option::Some(v));
}

/// Writes the clock metadata in its file format; the grammar maps the
/// output back to exactly this state.
pub fn encode_metadata(m: &HippoMetadata) -> (r: Vec<u8>)
    requires
        match m.last_calendar_date_used {
            Option::Some(d) => crate::dates::date_valid(d),
            Option::None => true,
        },
    ensures
        dec_meta(r@) == Option::Some(*m),
{
    let mut out: Vec<u8> = Vec::new();
    append_lit(&mut out, "{\"active_day_counter\":");
    let ghost s1 = out@;
    append_dec(&mut out, m.active_day_counter as u64);
    let ghost s2 = out@;
    out.push(44);
    let ghost s3 = out@;
    append_lit(&mut out, "\"last_calendar_date_used\":");
    let ghost s4 = out@;
    match &m.last_calendar_date_used {
        Option::None => {
            out.push(110);
            append_lit(&mut out, "ull}");
        },
        Option::Some(d) => {
            out.push(34);
            append_padded(&mut out, d.year as u64, 4);
            out.push(45);
            append_padded(&mut out, d.month as u64, 2);
            out.push(45);
            append_padded(&mut out, d.day as u64, 2);
            out.push(34);
            append_lit(&mut out, "}");
        },
    }
    proof {
        reveal(dec_meta);
        let s = out@;
        let l1 = ("{\"active_day_counter\":").spec_bytes();
        let l2 = ("\"last_calendar_date_used\":").spec_bytes();
        let cd = dec_digits(m.active_day_counter as nat);
        assert(s.subrange(0, s1.len() as int) =~= l1);
        assert(s.subrange(s1.len() as int, s2.len() as int) =~= cd);
        assert(s[s2.len() as int] == 44);
        assert(s.subrange(s3.len() as int, s4.len() as int) =~= l2);
        lemma_parse_dec_at(s, s1.len() as int, m.active_day_counter as nat);
        let p2 = s4.len() as int;
        match m.last_calendar_date_used {
            Option::None => {
                assert(s[p2] == 110);
                assert(s.subrange(p2 + 1, s.len() as int) =~= ("ull}").spec_bytes());
            },
            Option::Some(d) => {
                reveal_with_fuel(pow10, 7);
                lemma_padded_len(d.year as nat, 4);
                lemma_padded_len(d.month as nat, 2);
                lemma_padded_len(d.day as nat, 2);
                assert(s[p2] == 34);
                assert(s.subrange(p2 + 1, p2 + 5) =~= padded_digits(d.year as nat, 4));
                assert(s[p2 + 5] == 45);
                assert(s.subrange(p2 + 6, p2 + 8) =~= padded_digits(d.month as nat, 2));
                assert(s[p2 + 8] == 45);
                assert(s.subrange(p2 + 9, p2 + 11) =~= padded_digits(d.day as nat, 2));
                assert(s[p2 + 11] == 34);
                assert(s.subrange(p2 + 12, s.len() as int) =~= ("}").spec_bytes());
                lemma_padded_value(s, p2 + 1, d.year as nat, 4);
                lemma_padded_value(s, p2 + 6, d.month as nat, 2);
                lemma_padded_value(s, p2 + 9, d.day as nat, 2);
                assert(parse_date_str(s, p2) == Option::Some((d, p2 + 12)));
            },
        }
        assert(dec_meta(s) == Option::Some(*m));
    }
    out
}

// --- executable readers ---

/// Consumes an expected literal.
fn eat_lit(s: &Vec<u8>, pos: usize, lit: &str) -> (r: Option<usize>)
    ensures
        match r {
            Option::Some(p) => match_lit(s@, pos as int, lit.spec_bytes()) && p == pos
                + lit.spec_bytes().len(),
            Option::None => !match_lit(s@, pos as int, lit.spec_bytes()),
        },
{
    let bs = lit.as_bytes();
    let k = bs.len();
    let n = s.len();
    if n < k || pos > n - k {
        return Option::None;
    }
    let mut j: usize = 0;
    while j < k
        invariant
            j <= k,
            k == bs@.len(),
            bs@ == lit.spec_bytes(),
            n == s@.len(),
            pos + k <= n,
            forall|q: int| 0 <= q < j ==> s@[pos + q] == #[trigger] bs@[q],
        decreases k - j,
    {
        if s[pos + j] != bs[j] {
            proof {
                assert(s@.subrange(pos as int, pos + k as int)[j as int] != bs@[j as int]);
            }
            return Option::None;
        }
        j = j + 1;
    }
    proof {
        assert(s@.subrange(pos as int, pos + k as int) =~= bs@);
    }
    Option::Some(pos + k)
}

/// Reads a decimal number; reports only values that fit a `u64`. Larger
/// values are useless to every caller, which all bound them lower still.
fn parse_dec_exec(s: &Vec<u8>, pos: usize) -> (r: Option<(u64, usize)>)
    ensures
        match parse_dec(s@, pos as int) {
            Option::Some(vp) => {
                &&& pos < vp.1 <= s@.len()
                &&& 0 <= vp.0
                &&& if vp.0 <= u64::MAX {
                    r == Option::Some((vp.0 as u64, vp.1 as usize))
                } else {
                    r is None
                }
            },
            Option::None => r is None,
        },
{
    let n = s.len();
    if pos >= n || s[pos] < 48 || s[pos] > 57 {
        return Option::None;
    }
    let mut j: usize = pos;
    let mut acc: u64 = 0;
    let mut over = false;
    while j < n && 48 <= s[j] && s[j] <= 57
        invariant
            pos <= j <= n,
            n == s@.len(),
            dec_end(s@, pos as int) == dec_end(s@, j as int),
            !over ==> acc == dec_value_upto(s@, pos as int, j as int),
            over ==> dec_value_upto(s@, pos as int, j as int) > u64::MAX,
        decreases n - j,
    {
        let d = (s[j] - 48) as u64;
        proof {
            assert(dec_end(s@, j as int) == dec_end(s@, j as int + 1));
            assert(dec_value_upto(s@, pos as int, j as int + 1) == dec_value_upto(
                s@,
                pos as int,
                j as int,
            ) * 10 + digit_val(s@[j as int]));
        }
        if over {
            proof {
                let v = dec_value_upto(s@, pos as int, j as int);
                assert(v * 10 + digit_val(s@[j as int]) > u64::MAX) by (nonlinear_arith)
                    requires
                        v > u64::MAX,
                        digit_val(s@[j as int]) >= 0,
                ;
            }
        } else {
            let na: u128 = (acc as u128) * 10 + (d as u128);
            if na > u64::MAX as u128 {
                over = true;
            } else {
                acc = na as u64;
            }
        }
        j = j + 1;
    }
    proof {
        assert(dec_end(s@, j as int) == j as int);
    }
    if over {
        Option::None
    } else {
        Option::Some((acc, j))
    }
}

/// Reads exactly `k` decimal digits.
fn read_fixed(s: &Vec<u8>, pos: usize, k: usize) -> (r: Option<u64>)
    requires
        k <= 10,
    ensures
        match r {
            Option::Some(v) => digits_ok(s@, pos as int, k as int) && v == dec_value_upto(
                s@,
                pos as int,
                pos as int + k as int,
            ) && v < pow10(k as nat),
            Option::None => !digits_ok(s@, pos as int, k as int),
        },
{
    let n = s.len();
    if n < k || pos > n - k {
        return Option::None;
    }
    let mut j: usize = 0;
    let mut acc: u64 = 0;
    proof {
        reveal_with_fuel(pow10, 11);
    }
    while j < k
        invariant
            j <= k <= 10,
            n == s@.len(),
            pos + k <= n,
            forall|q: int| pos <= q < pos + j ==> is_digit(#[trigger] s@[q]),
            acc == dec_value_upto(s@, pos as int, pos as int + j as int),
            acc < pow10(j as nat),
            pow10(10) == 10_000_000_000,
        decreases k - j,
    {
        let b = s[pos + j];
        if b < 48 || b > 57 {
            return Option::None;
        }
        proof {
            assert(pow10(j as nat + 1) == 10 * pow10(j as nat));
            assert(pow10(j as nat) <= pow10(9)) by {
                lemma_pow10_mono(j as nat, 9);
            }
        }
        acc = acc * 10 + ((b - 48) as u64);
        j = j + 1;
    }
    Option::Some(acc)
}

/// Ten to a higher power is no smaller.
proof fn lemma_pow10_mono(a: nat, b: nat)
    requires
        a <= b,
    ensures
        pow10(a) <= pow10(b),
        pow10(a) >= 1,
    decreases b,
{
    if a < b {
        lemma_pow10_mono(a, (b - 1) as nat);
    } else if b > 0 {
        lemma_pow10_mono((a - 1) as nat, (b - 1) as nat);
    }
}

/// The value of a digit run is never negative.
proof fn lemma_dec_value_nonneg(s: Seq<u8>, from: int, to: int)
    requires
        forall|j: int| from <= j < to ==> is_digit(#[trigger] s[j]),
    ensures
        dec_value_upto(s, from, to) >= 0,
    decreases to - from,
{
    if to > from {
        lemma_dec_value_nonneg(s, from, to - 1);
        assert(dec_value_upto(s, from, to) == dec_value_upto(s, from, to - 1) * 10 + digit_val(
            s[to - 1],
        ));
        assert(dec_value_upto(s, from, to - 1) * 10 >= 0) by (nonlinear_arith)
            requires
                dec_value_upto(s, from, to - 1) >= 0,
        ;
    }
}

/// Reads the 32 hex digits of an identifier.
fn parse_hex32(s: &Vec<u8>, pos: usize) -> (r: Option<u128>)
    ensures
        match r {
            Option::Some(v) => hex_ok(s@, pos as int, 32) && v == hex_value_upto(
                s@,
                pos as int,
                pos as int + 32,
            ),
            Option::None => !hex_ok(s@, pos as int, 32),
        },
{
    let n = s.len();
    if n < 32 || pos > n - 32 {
        return Option::None;
    }
    let mut j: usize = 0;
    let mut acc: u128 = 0;
    proof {
        reveal_with_fuel(pow16, 33);
    }
    while j < 32
        invariant
            j <= 32,
            n == s@.len(),
            pos + 32 <= n,
            forall|q: int| pos <= q < pos + j ==> is_hex(#[trigger] s@[q]),
            acc == hex_value_upto(s@, pos as int, pos as int + j as int),
            acc < pow16(j as nat),
            pow16(32) == 0x1_0000_0000_0000_0000_0000_0000_0000_0000,
        decreases 32 - j,
    {
        let b = s[pos + j];
        let hv: u8 = if 48 <= b && b <= 57 {
            b - 48
        } else if 97 <= b && b <= 102 {
            b - 87
        } else {
            return Option::None;
        };
        proof {
            assert(pow16(j as nat + 1) == 16 * pow16(j as nat));
            assert(pow16(j as nat) <= pow16(31)) by {
                lemma_pow16_mono(j as nat, 31);
            }
        }
        acc = acc * 16 + (hv as u128);
        j = j + 1;
    }
    Option::Some(acc)
}

/// Sixteen to a higher power is no smaller.
proof fn lemma_pow16_mono(a: nat, b: nat)
    requires
        a <= b,
    ensures
        pow16(a) <= pow16(b),
        pow16(a) >= 1,
    decreases b,
{
    if a < b {
        lemma_pow16_mono(a, (b - 1) as nat);
    } else if b > 0 {
        lemma_pow16_mono((a - 1) as nat, (b - 1) as nat);
    }
}

/// Reads escaped string content up to the closing quote.
fn scan_str_exec(s: &Vec<u8>, pos: usize) -> (r: Option<(Vec<u8>, usize)>)
    ensures
        match scan_str(s@, pos as int) {
            Option::Some(ce) => match r {
                Option::Some(rv) => rv.0@ == ce.0 && rv.1 == ce.1,
                Option::None => false,
            },
            Option::None => r is None,
        },
{
    let n = s.len();
    if pos >= n {
        return Option::None;
    }
    let mut acc: Vec<u8> = Vec::new();
    let mut cur = pos;
    while cur < n && s[cur] != 34
        invariant
            cur <= n,
            n == s@.len(),
            forall|c: Seq<u8>, e: int|
                scan_str(s@, cur as int) == Option::Some((c, e)) ==> scan_str(s@, pos as int)
                    == Option::Some((acc@ + c, e)),
            scan_str(s@, cur as int) is None ==> scan_str(s@, pos as int) is None,
        decreases n - cur,
    {
        let b = s[cur];
        let ghost oldacc = acc@;
        let ghost oldcur = cur as int;
        if b == 92 {
            if n - cur > 1 && (s[cur + 1] == 34 || s[cur + 1] == 92) {
                acc.push(s[cur + 1]);
                cur = cur + 2;
            } else if n - cur > 5 && s[cur + 1] == 117 && s[cur + 2] == 48 && s[cur + 3] == 48 && (
            (48 <= s[cur + 4] && s[cur + 4] <= 57) || (97 <= s[cur + 4] && s[cur + 4] <= 102)) && (
            (48 <= s[cur + 5] && s[cur + 5] <= 57) || (97 <= s[cur + 5] && s[cur + 5] <= 102)) {
                let h1: u8 = if s[cur + 4] <= 57 {
                    s[cur + 4] - 48
                } else {
                    s[cur + 4] - 87
                };
                let h2: u8 = if s[cur + 5] <= 57 {
                    s[cur + 5] - 48
                } else {
                    s[cur + 5] - 87
                };
                acc.push(16 * h1 + h2);
                cur = cur + 6;
            } else {
                return Option::None;
            }
        } else {
            acc.push(b);
            cur = cur + 1;
        }
        proof {
            let x = acc@.last();
            assert(acc@ =~= oldacc.push(x));
            assert forall|c: Seq<u8>, e: int|
                scan_str(s@, cur as int) == Option::Some((c, e)) implies scan_str(
                s@,
                pos as int,
            ) == Option::Some((acc@ + c, e)) by {
                assert(scan_str(s@, oldcur) == Option::Some((seq![x] + c, e)));
                assert(oldacc + (seq![x] + c) =~= acc@ + c);
            }
        }
    }
    if cur < n {
        proof {
            assert(scan_str(s@, cur as int) == Option::Some((Seq::<u8>::empty(), cur as int)));
            assert(acc@ + Seq::<u8>::empty() =~= acc@);
            assert(scan_str(s@, pos as int) == Option::Some((acc@, cur as int)));
        }
        Option::Some((acc, cur))
    } else {
        proof {
            assert(scan_str(s@, cur as int) is None);
        }
        Option::None
    }
}

/// The deep view of a byte vector is its view.
pub proof fn lemma_u8vec_deep_view(v: Vec<u8>)
    ensures
        v.deep_view() == v@,
{
    assert(v.deep_view() =~= v@);
}

/// Reads a quoted-string array item list up to its closing bracket.
fn parse_str_items_exec(s: &Vec<u8>, pos: usize) -> (r: Option<(Vec<Vec<u8>>, usize)>)
    ensures
        match parse_str_items(s@, pos as int) {
            Option::Some(t) => match r {
                Option::Some(rv) => rv.0.deep_view() == t.0 && rv.1 == t.1,
                Option::None => false,
            },
            Option::None => r is None,
        },
{
    let n = s.len();
    let mut acc: Vec<Vec<u8>> = Vec::new();
    let mut cur = pos;
    proof {
        assert forall|t: Seq<Seq<u8>>, e: int|
            parse_str_items(s@, cur as int) == Option::Some((t, e)) implies parse_str_items(
            s@,
            pos as int,
        ) == Option::Some((acc.deep_view() + t, e)) by {
            assert(acc.deep_view() =~= Seq::<Seq<u8>>::empty());
            assert(acc.deep_view() + t =~= t);
        }
    }
    loop
        invariant
            n == s@.len(),
            forall|t: Seq<Seq<u8>>, e: int|
                parse_str_items(s@, cur as int) == Option::Some((t, e)) ==> parse_str_items(
                    s@,
                    pos as int,
                ) == Option::Some((acc.deep_view() + t, e)),
            parse_str_items(s@, cur as int) is None ==> parse_str_items(s@, pos as int) is None,
        decreases n - cur,
    {
        if cur >= n || s[cur] != 34 {
            proof {
                assert(parse_str_items(s@, cur as int) is None);
                assert(parse_str_items(s@, pos as int) is None);
            }
            return Option::None;
        }
        let scanned = scan_str_exec(s, cur + 1);
        match scanned {
            Option::None => {
                return Option::None;
            },
            Option::Some((c, e)) => {
                proof {
                    lemma_scan_str_bound(s@, cur as int + 1);
                }
                let ghost oldacc = acc.deep_view();
                let ghost oldcur = cur as int;
                let ghost cv = c@;
                proof {
                    lemma_u8vec_deep_view(c);
                }
                if e + 1 < n && s[e + 1] == 44 {
                    acc.push(c);
                    cur = e + 2;
                    proof {
                        assert(acc.deep_view() =~= oldacc.push(cv)) by {
                            assert forall|q: int| 0 <= q < acc.deep_view().len() implies
                                #[trigger] acc.deep_view()[q] == oldacc.push(cv)[q] by {
                                assert(acc.deep_view()[q] == acc@[q].deep_view());
                            }
                        }
                        assert forall|t: Seq<Seq<u8>>, p: int|
                            parse_str_items(s@, cur as int) == Option::Some((t, p)) implies
                            parse_str_items(s@, pos as int) == Option::Some(
                            (acc.deep_view() + t, p),
                        ) by {
                            assert(parse_str_items(s@, oldcur) == Option::Some(
                                (seq![cv] + t, p),
                            ));
                            assert(oldacc + (seq![cv] + t) =~= acc.deep_view() + t);
                        }
                    }
                } else if e + 1 < n && s[e + 1] == 93 {
                    acc.push(c);
                    proof {
                        assert(acc.deep_view() =~= oldacc.push(cv)) by {
                            assert forall|q: int| 0 <= q < acc.deep_view().len() implies
                                #[trigger] acc.deep_view()[q] == oldacc.push(cv)[q] by {
                                assert(acc.deep_view()[q] == acc@[q].deep_view());
                            }
                        }
                        assert(parse_str_items(s@, oldcur) == Option::Some(
                            (seq![cv], e as int + 2),
                        ));
                        assert(oldacc + seq![cv] =~= acc.deep_view());
                        assert(parse_str_items(s@, pos as int) == Option::Some(
                            (acc.deep_view(), e as int + 2),
                        ));
                    }
                    return Option::Some((acc, e + 2));
                } else {
                    return Option::None;
                }
            },
        }
    }
}

/// Reads a string array.
fn parse_str_array_exec(s: &Vec<u8>, pos: usize) -> (r: Option<(Vec<Vec<u8>>, usize)>)
    ensures
        match parse_str_array(s@, pos as int) {
            Option::Some(t) => match r {
                Option::Some(rv) => rv.0.deep_view() == t.0 && rv.1 == t.1,
                Option::None => false,
            },
            Option::None => r is None,
        },
{
    let n = s.len();
    if pos >= n || s[pos] != 91 {
        return Option::None;
    }
    if pos + 1 < n && s[pos + 1] == 93 {
        let empty: Vec<Vec<u8>> = Vec::new();
        proof {
            assert(empty.deep_view() =~= Seq::<Seq<u8>>::empty());
        }
        return Option::Some((empty, pos + 2));
    }
    parse_str_items_exec(s, pos + 1)
}

/// Reads one `[day,count]` pair.
fn parse_pair_exec(s: &Vec<u8>, pos: usize) -> (r: Option<((u32, u32), usize)>)
    ensures
        match parse_pair(s@, pos as int) {
            Option::Some(t) => r == Option::Some((t.0, t.1 as usize)),
            Option::None => r is None,
        },
        r is Some ==> pos < s@.len(),
{
    let n = s.len();
    if pos >= n || s[pos] != 91 {
        return Option::None;
    }
    let d0 = parse_dec_exec(s, pos + 1);
    match d0 {
        Option::None => {
            proof {
                if parse_dec(s@, pos as int + 1) is Some {
                    let vp = parse_dec(s@, pos as int + 1)->Some_0;
                    assert(vp.0 > u64::MAX);
                }
                assert(parse_pair(s@, pos as int) is None);
            }
            Option::None
        },
        Option::Some((d, p1)) => {
            if p1 >= n || s[p1] != 44 {
                proof {
                    assert(parse_pair(s@, pos as int) is None);
                }
                return Option::None;
            }
            let c0 = parse_dec_exec(s, p1 + 1);
            match c0 {
                Option::None => {
                    proof {
                        if parse_dec(s@, p1 as int + 1) is Some {
                            let vp = parse_dec(s@, p1 as int + 1)->Some_0;
                            assert(vp.0 > u64::MAX);
                        }
                        assert(parse_pair(s@, pos as int) is None);
                    }
                    Option::None
                },
                Option::Some((cnt, p2)) => {
                    if p2 < n && s[p2] == 93 && d <= 0xffff_ffffu64 && 1 <= cnt && cnt
                        <= 0xffff_ffffu64 {
                        proof {
                            assert(parse_dec(s@, pos as int + 1) == Option::Some(
                                (d as int, p1 as int),
                            ));
                            assert(parse_dec(s@, p1 as int + 1) == Option::Some(
                                (cnt as int, p2 as int),
                            ));
                            assert(parse_pair(s@, pos as int) == Option::Some(
                                ((d as u32, cnt as u32), p2 as int + 1),
                            ));
                        }
                        Option::Some(((d as u32, cnt as u32), p2 + 1))
                    } else {
                        proof {
                            assert(parse_pair(s@, pos as int) is None);
                        }
                        Option::None
                    }
                },
            }
        },
    }
}

/// Reads a pair item list up to the closing bracket of its array.
fn parse_pair_items_exec(s: &Vec<u8>, pos: usize) -> (r: Option<(Vec<(u32, u32)>, usize)>)
    ensures
        match parse_pair_items(s@, pos as int) {
            Option::Some(t) => match r {
                Option::Some(rv) => rv.0@ == t.0 && rv.1 == t.1,
                Option::None => false,
            },
            Option::None => r is None,
        },
{
    let n = s.len();
    let mut acc: Vec<(u32, u32)> = Vec::new();
    let mut cur = pos;
    proof {
        assert forall|t: Seq<(u32, u32)>, e: int|
            parse_pair_items(s@, cur as int) == Option::Some((t, e)) implies parse_pair_items(
            s@,
            pos as int,
        ) == Option::Some((acc@ + t, e)) by {
            assert(acc@ + t =~= t);
        }
    }
    loop
        invariant
            n == s@.len(),
            forall|t: Seq<(u32, u32)>, e: int|
                parse_pair_items(s@, cur as int) == Option::Some((t, e)) ==> parse_pair_items(
                    s@,
                    pos as int,
                ) == Option::Some((acc@ + t, e)),
            parse_pair_items(s@, cur as int) is None ==> parse_pair_items(s@, pos as int)
                is None,
        decreases n - cur,
    {
        let pr = parse_pair_exec(s, cur);
        match pr {
            Option::None => {
                proof {
                    assert(parse_pair_items(s@, cur as int) is None);
                    assert(parse_pair_items(s@, pos as int) is None);
                }
                return Option::None;
            },
            Option::Some((p, e)) => {
                proof {
                    lemma_parse_pair_advances(s@, cur as int);
                }
                let ghost oldacc = acc@;
                let ghost oldcur = cur as int;
                if e < n && s[e] == 44 {
                    acc.push(p);
                    cur = e + 1;
                    proof {
                        assert forall|t: Seq<(u32, u32)>, q: int|
                            parse_pair_items(s@, cur as int) == Option::Some((t, q)) implies
                            parse_pair_items(s@, pos as int) == Option::Some((acc@ + t, q)) by {
                            assert(parse_pair_items(s@, oldcur) == Option::Some(
                                (seq![p] + t, q),
                            ));
                            assert(oldacc + (seq![p] + t) =~= acc@ + t);
                        }
                    }
                } else if e < n && s[e] == 93 {
                    acc.push(p);
                    proof {
                        assert(parse_pair_items(s@, oldcur) == Option::Some(
                            (seq![p], e as int + 1),
                        ));
                        assert(oldacc + seq![p] =~= acc@);
                        assert(parse_pair_items(s@, pos as int) == Option::Some(
                            (acc@, e as int + 1),
                        ));
                    }
                    return Option::Some((acc, e + 1));
                } else {
                    proof {
                        assert(parse_pair_items(s@, cur as int) is None);
                        assert(parse_pair_items(s@, pos as int) is None);
                    }
                    return Option::None;
                }
            },
        }
    }
}

/// A parsed pair ends after its starting position.
proof fn lemma_parse_pair_advances(s: Seq<u8>, pos: int)
    requires
        parse_pair(s, pos) is Some,
    ensures
        pos < parse_pair(s, pos)->Some_0.1 <= s.len(),
{
}

/// Reads a pairs array.
fn parse_pairs_array_exec(s: &Vec<u8>, pos: usize) -> (r: Option<(Vec<(u32, u32)>, usize)>)
    ensures
        match parse_pairs_array(s@, pos as int) {
            Option::Some(t) => match r {
                Option::Some(rv) => rv.0@ == t.0 && rv.1 == t.1,
                Option::None => false,
            },
            Option::None => r is None,
        },
{
    let n = s.len();
    if pos >= n || s[pos] != 91 {
        return Option::None;
    }
    if pos + 1 < n && s[pos + 1] == 93 {
        let empty: Vec<(u32, u32)> = Vec::new();
        proof {
            assert(empty@ =~= Seq::<(u32, u32)>::empty());
        }
        return Option::Some((empty, pos + 2));
    }
    parse_pair_items_exec(s, pos + 1)
}

/// Reads a fixed-width timestamp.
fn parse_ts_exec(s: &Vec<u8>, pos: usize) -> (r: Option<(i64, usize)>)
    ensures
        match parse_ts(s@, pos as int) {
            Option::Some(t) => r == Option::Some((t.0, t.1 as usize)),
            Option::None => r is None,
        },
{
    let n = s.len();
    if n < 24 || pos > n - 24 {
        return Option::None;
    }
    let sep_ok = s[pos + 4] == 45 && s[pos + 7] == 45 && s[pos + 10] == 84 && s[pos + 13] == 58
        && s[pos + 16] == 58 && s[pos + 19] == 46 && s[pos + 23] == 90;
    if !sep_ok {
        return Option::None;
    }
    let ry = read_fixed(s, pos, 4);
    let rmo = read_fixed(s, pos + 5, 2);
    let rd = read_fixed(s, pos + 8, 2);
    let rh = read_fixed(s, pos + 11, 2);
    let rmi = read_fixed(s, pos + 14, 2);
    let rsec = read_fixed(s, pos + 17, 2);
    let rms = read_fixed(s, pos + 20, 3);
    match (ry, rmo, rd, rh, rmi, rsec, rms) {
        (
            Option::Some(y),
            Option::Some(mo),
            Option::Some(d),
            Option::Some(h),
            Option::Some(mi),
            Option::Some(sec),
            Option::Some(ms),
        ) => {
            let date_ok = 1970 <= y && y <= 9999 && 1 <= mo && mo <= 12 && 1 <= d && d
                <= (crate::dates::days_in_month_exec(y as u32, mo as u32) as u64) && h <= 23 && mi
                <= 59 && sec <= 59;
            if !date_ok {
                return Option::None;
            }
            let date = crate::dates::CivilDate { year: y as u32, month: mo as u32, day: d as u32 };
            let day = crate::dates::day_from_civil(date);
            proof {
                reveal_with_fuel(pow10, 4);
                crate::dates::lemma_days_before_year_bounds(1970, 10000);
                assert((day as int + 1) * 86_400_000 <= crate::dates::days_before_year(10000)
                    * 86_400_000) by (nonlinear_arith)
                    requires
                        day as int + 1 <= crate::dates::days_before_year(10000),
                ;
            }
            let t: i64 = (day as i64) * 86_400_000 + (h as i64) * 3_600_000 + (mi as i64) * 60_000
                + (sec as i64) * 1000 + (ms as i64);
            Option::Some((t, pos + 24))
        },
        _ => Option::None,
    }
}

/// Reads a micro-unit ratio.
fn parse_micro_exec(s: &Vec<u8>, pos: usize) -> (r: Option<(u64, usize)>)
    ensures
        match parse_micro(s@, pos as int) {
            Option::Some(t) => r == Option::Some((t.0, t.1 as usize)),
            Option::None => r is None,
        },
{
    let n = s.len();
    let d0 = parse_dec_exec(s, pos);
    match d0 {
        Option::None => {
            proof {
                if parse_dec(s@, pos as int) is Some {
                    let vp = parse_dec(s@, pos as int)->Some_0;
                    assert(vp.0 > u64::MAX);
                    assert(vp.0 * 1_000_000 >= vp.0) by (nonlinear_arith)
                        requires
                            vp.0 >= 0,
                    ;
                    if digits_ok(s@, vp.1 + 1, 6) {
                        lemma_dec_value_nonneg(s@, vp.1 + 1, vp.1 + 7);
                    }
                }
            }
            Option::None
        },
        Option::Some((ip, p1)) => {
            if ip > SCALE {
                proof {
                    assert(ip * 1_000_000 >= ip) by (nonlinear_arith)
                        requires
                            ip >= 0,
                    ;
                    if digits_ok(s@, p1 as int + 1, 6) {
                        lemma_dec_value_nonneg(s@, p1 as int + 1, p1 as int + 7);
                    }
                }
                return Option::None;
            }
            if p1 > n || n - p1 < 7 || s[p1] != 46 {
                return Option::None;
            }
            let fr = read_fixed(s, p1 + 1, 6);
            match fr {
                Option::None => Option::None,
                Option::Some(f) => {
                    proof {
                        reveal_with_fuel(pow10, 7);
                    }
                    let v = ip * 1_000_000 + f;
                    if v > SCALE {
                        Option::None
                    } else {
                        Option::Some((v, p1 + 7))
                    }
                },
            }
        },
    }
}

/// Checks that an access history is strictly increasing in its days with
/// positive counts.
fn history_ok(daily: &Vec<(u32, u32)>) -> (r: bool)
    ensures
        r == (days_strictly_increasing(daily@) && counts_positive(daily@)),
{
    let dn = daily.len();
    let mut q: usize = 0;
    while q < dn
        invariant
            q <= dn,
            dn == daily@.len(),
            forall|w: int|
                0 <= w < q && w < dn - 1 ==> (#[trigger] daily@[w]).0 < daily@[w + 1].0,
            forall|w: int| 0 <= w < q ==> (#[trigger] daily@[w]).1 >= 1,
        decreases dn - q,
    {
        let pair = daily[q];
        if pair.1 < 1 {
            proof {
                assert(!counts_positive(daily@));
            }
            return false;
        }
        if q + 1 < dn {
            if daily[q + 1].0 <= pair.0 {
                proof {
                    assert(!(daily@[q as int].0 < daily@[q as int + 1].0));
                    assert(!days_strictly_increasing(daily@));
                }
                return false;
            }
        }
        q = q + 1;
    }
    proof {
        assert forall|k: int, l: int| 0 <= k < l < daily@.len() implies (#[trigger] daily@[k]).0
            < (#[trigger] daily@[l]).0 by {
            lemma_adjacent_increasing(daily@, k, l);
        }
    }
    true
}

/// Within the daily access history, days run strictly upward when every
/// adjacent pair does.
proof fn lemma_adjacent_increasing(s: Seq<(u32, u32)>, k: int, l: int)
    requires
        forall|q: int| 0 <= q < s.len() - 1 ==> (#[trigger] s[q]).0 < s[q + 1].0,
        0 <= k < l < s.len(),
    ensures
        s[k].0 < s[l].0,
    decreases l - k,
{
    if k + 1 < l {
        lemma_adjacent_increasing(s, k + 1, l);
    }
}

/// Reads a record file. Yields the record only when the bytes spell the
/// grammar exactly and the record invariant holds; anything else is
/// rejected as corrupt.
pub fn parse_insight(s: &Vec<u8>) -> (r: Option<Insight>)
    ensures
        match r {
            Option::Some(j) => j.wf() && dec_insight(s@) == Option::Some(j@),
            Option::None => dec_insight(s@) is None,
        },
{
    proof {
        reveal(dec_insight);
    }
    let n = s.len();
    let p1 = match eat_lit(s, 0, "{\"uuid\":\"") {
        Option::Some(p) => p,
        Option::None => {
            return Option::None;
        },
    };
    let uuid = match parse_hex32(s, p1) {
        Option::Some(v) => v,
        Option::None => {
            return Option::None;
        },
    };
    let p3 = match eat_lit(s, p1 + 32, "\",\"content\":\"") {
        Option::Some(p) => p,
        Option::None => {
            return Option::None;
        },
    };
    let (content, e3) = match scan_str_exec(s, p3) {
        Option::Some(ce) => ce,
        Option::None => {
            return Option::None;
        },
    };
    proof {
        lemma_scan_str_bound(s@, p3 as int);
    }
    let p4 = match eat_lit(s, e3 + 1, ",\"situation\":") {
        Option::Some(p) => p,
        Option::None => {
            return Option::None;
        },
    };
    let (situation, p5) = match parse_str_array_exec(s, p4) {
        Option::Some(sa) => sa,
        Option::None => {
            return Option::None;
        },
    };
    let pb = match eat_lit(s, p5, ",\"base_importance\":") {
        Option::Some(p) => p,
        Option::None => {
            return Option::None;
        },
    };
    let (base, p6) = match parse_micro_exec(s, pb) {
        Option::Some(m) => m,
        Option::None => {
            return Option::None;
        },
    };
    parse_insight_tail(s, p6, uuid, content, situation, base)
}

/// Continues reading a record after the base importance.
#[verifier::rlimit(100)]
fn parse_insight_tail(
    s: &Vec<u8>,
    p6: usize,
    uuid: u128,
    content: Vec<u8>,
    situation: Vec<Vec<u8>>,
    base: u64,
) -> (r: Option<Insight>)
    ensures
        match r {
            Option::Some(j) => j.wf() && dec_insight_tail(
                s@,
                p6 as int,
                uuid,
                content@,
                situation.deep_view(),
                base,
            ) == Option::Some(j@),
            Option::None => dec_insight_tail(
                s@,
                p6 as int,
                uuid,
                content@,
                situation.deep_view(),
                base,
            ) is None,
        },
{
    proof {
        reveal(dec_insight_tail);
    }
    let n = s.len();
    let pi = match eat_lit(s, p6, ",\"importance\":") {
        Option::Some(p) => p,
        Option::None => {
            return Option::None;
        },
    };
    let (imp, p7) = match parse_micro_exec(s, pi) {
        Option::Some(m) => m,
        Option::None => {
            return Option::None;
        },
    };
    let pc = match eat_lit(s, p7, ",\"created_at\":\"") {
        Option::Some(p) => p,
        Option::None => {
            return Option::None;
        },
    };
    let (created, p8) = match parse_ts_exec(s, pc) {
        Option::Some(t) => t,
        Option::None => {
            return Option::None;
        },
    };
    let pm = match eat_lit(s, p8, "\",\"importance_modified_at\":\"") {
        Option::Some(p) => p,
        Option::None => {
            return Option::None;
        },
    };
    let (modified, p9) = match parse_ts_exec(s, pm) {
        Option::Some(t) => t,
        Option::None => {
            return Option::None;
        },
    };
    let pd = match eat_lit(s, p9, "\",\"daily_access_counts\":") {
        Option::Some(p) => p,
        Option::None => {
            return Option::None;
        },
    };
    let (daily, p10) = match parse_pairs_array_exec(s, pd) {
        Option::Some(d) => d,
        Option::None => {
            return Option::None;
        },
    };
    let p11 = match eat_lit(s, p10, "}") {
        Option::Some(p) => p,
        Option::None => {
            return Option::None;
        },
    };
    if p11 != n {
        return Option::None;
    }
    // the record invariant, checked on the parsed values
    let ghost vv = InsightView {
        uuid,
        content: content@,
        situation: situation.deep_view(),
        base_importance: base,
        importance: imp,
        created_at: created,
        importance_modified_at: modified,
        daily_access_counts: daily@,
    };
    if base > SCALE {
        proof {
            assert(!view_wf(vv));
        }
        return Option::None;
    }
    if created > modified {
        proof {
            assert(!view_wf(vv));
        }
        return Option::None;
    }
    let dn = daily.len();
    if dn > 90 {
        proof {
            assert(!view_wf(vv));
        }
        return Option::None;
    }
    if !history_ok(&daily) {
        proof {
            assert(!view_wf(vv));
        }
        return Option::None;
    }
    let j = Insight {
        uuid,
        content,
        situation,
        base_importance: base,
        importance: imp,
        created_at: created,
        importance_modified_at: modified,
        daily_access_counts: daily,
    };
    proof {
        assert(j@.base_importance <= SCALE);
        assert(j@.importance <= SCALE);
        assert(crate::dates::ts_in_range(j@.created_at as int));
        assert(crate::dates::ts_in_range(j@.importance_modified_at as int));
        assert(j@.created_at <= j@.importance_modified_at);
        assert(j@.daily_access_counts.len() <= MAX_DAILY_ACCESS_ENTRIES);
        assert(days_strictly_increasing(j@.daily_access_counts));
        assert(counts_positive(j@.daily_access_counts));
        assert(view_wf(j@));
        crate::models::lemma_wf_is_view_wf(j);
        assert(j@ == vv);
    }
    Option::Some(j)
}

/// Reads the metadata file; yields the clock state only when the bytes
/// spell the grammar exactly.
pub fn parse_metadata(s: &Vec<u8>) -> (r: Option<HippoMetadata>)
    ensures
        match r {
            Option::Some(m) => dec_meta(s@) == Option::Some(m) && (match m
                .last_calendar_date_used {
                Option::Some(d) => crate::dates::date_valid(d),
                Option::None => true,
            }),
            Option::None => dec_meta(s@) is None,
        },
{
    proof {
        reveal(dec_meta);
    }
    let n = s.len();
    let p0 = match eat_lit(s, 0, "{\"active_day_counter\":") {
        Option::Some(p) => p,
        Option::None => {
            return Option::None;
        },
    };
    let (counter, p1) = match parse_dec_exec(s, p0) {
        Option::Some(c) => c,
        Option::None => {
            proof {
                if parse_dec(s@, p0 as int) is Some {
                    let vp = parse_dec(s@, p0 as int)->Some_0;
                    assert(vp.0 > u64::MAX);
                }
            }
            return Option::None;
        },
    };
    if counter > 0xffff_ffffu64 {
        return Option::None;
    }
    if p1 >= n || s[p1] != 44 {
        return Option::None;
    }
    let p2 = match eat_lit(s, p1 + 1, "\"last_calendar_date_used\":") {
        Option::Some(p) => p,
        Option::None => {
            return Option::None;
        },
    };
    if p2 < n && s[p2] == 34 {
        let (date, p3) = match parse_date_str_exec(s, p2) {
            Option::Some(d) => d,
            Option::None => {
                return Option::None;
            },
        };
        let p4 = match eat_lit(s, p3, "}") {
            Option::Some(p) => p,
            Option::None => {
                return Option::None;
            },
        };
        if p4 != n {
            return Option::None;
        }
        Option::Some(
            HippoMetadata {
                active_day_counter: counter as u32,
                last_calendar_date_used: Option::Some(date),
            },
        )
    } else if p2 < n && s[p2] == 110 {
        let p3 = match eat_lit(s, p2 + 1, "ull}") {
            Option::Some(p) => p,
            Option::None => {
                return Option::None;
            },
        };
        if p3 != n {
            return Option::None;
        }
        Option::Some(
            HippoMetadata {
                active_day_counter: counter as u32,
                last_calendar_date_used: Option::None,
            },
        )
    } else {
        Option::None
    }
}

/// Reads a quoted calendar date.
fn parse_date_str_exec(s: &Vec<u8>, pos: usize) -> (r: Option<(CivilDate, usize)>)
    ensures
        match parse_date_str(s@, pos as int) {
            Option::Some(t) => r == Option::Some((t.0, t.1 as usize)),
            Option::None => r is None,
        },
{
    let n = s.len();
    if n < 12 || pos > n - 12 {
        return Option::None;
    }
    if !(s[pos] == 34 && s[pos + 5] == 45 && s[pos + 8] == 45 && s[pos + 11] == 34) {
        return Option::None;
    }
    let ry = read_fixed(s, pos + 1, 4);
    let rm = read_fixed(s, pos + 6, 2);
    let rd = read_fixed(s, pos + 9, 2);
    match (ry, rm, rd) {
        (Option::Some(y), Option::Some(m), Option::Some(d)) => {
            if 1970 <= y && y <= 9999 && 1 <= m && m <= 12 && 1 <= d && d
                <= (crate::dates::days_in_month_exec(y as u32, m as u32) as u64) {
                Option::Some(
                    (CivilDate { year: y as u32, month: m as u32, day: d as u32 }, pos + 12),
                )
            } else {
                Option::None
            }
        },
        _ => Option::None,
    }
}

} // verus!
