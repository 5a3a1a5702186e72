//! The telemetry payload codec.
//!
//! The canonical document is the library's wire format: an object whose
//! fields come in a fixed order, without insignificant whitespace,
//! numbers as plain decimal numerals with at most three fraction digits,
//! strings as unescaped printable ASCII. Required fields: `current`,
//! `device.friendlyName` (non-empty), `energy`, `power`, `voltage`;
//! optional: `child_lock`, `state`, and the remaining device metadata.
//! `encode` emits exactly this form, and `decode` accepts exactly this
//! form: anything else — a missing or mistyped field, another field
//! order, stray whitespace, an unknown key — is `DecodeError`. Decoding
//! is pure and total: every malformed input yields the error, never a
//! crash. A process that ingests foreign JSON (order-insensitive,
//! whitespace-tolerant, with extra fields) canonicalizes each payload at
//! its I/O edge before handing it to the library.
//!
//! The grammar lives in the spec functions; `decode` and `encode` are
//! proved to implement them exactly, and the round-trip law is proved on
//! top in the companion proofs module.

use vstd::prelude::*;
use crate::errors::DecodeError;
use crate::reading::{opt_view, valid_text_byte, Device, DeviceView, Milli, Response, ResponseView};

verus! {

// ---------------------------------------------------------------------
// The grammar, as spec functions over byte sequences.
// ---------------------------------------------------------------------

pub open spec fn is_digit(b: u8) -> bool {
    48u8 <= b && b <= 57u8
}

/// Index of the first non-digit byte at or after `i`.
pub open spec fn digit_run_end(s: Seq<u8>, i: int) -> int
    decreases s.len() - i when 0 <= i <= s.len()
{
    if i < s.len() && is_digit(s[i]) {
        digit_run_end(s, i + 1)
    } else {
        i
    }
}

/// The number a digit string denotes, most significant digit first.
pub open spec fn digits_value(ds: Seq<u8>) -> int
    decreases ds.len(),
{
    if ds.len() == 0 {
        0
    } else {
        digits_value(ds.drop_last()) * 10 + (ds.last() - 48u8)
    }
}

/// A maximal, non-empty digit run starting at `i`, as a `u64`.
pub open spec fn parse_u64(s: Seq<u8>, i: int) -> Option<(u64, int)> {
    let j = digit_run_end(s, i);
    if j == i {
        None
    } else {
        let v = digits_value(s.subrange(i, j));
        if v <= u64::MAX {
            Some((v as u64, j))
        } else {
            None
        }
    }
}

/// A digit run that must fit a `u16`.
pub open spec fn parse_u16(s: Seq<u8>, i: int) -> Option<(u16, int)> {
    match parse_u64(s, i) {
        Some((v, j)) => if v <= u16::MAX as u64 {
            Some((v as u16, j))
        } else {
            None
        },
        None => None,
    }
}

/// Weight of the first fraction digit when `fl` fraction digits follow
/// the point.
pub open spec fn frac_scale(fl: int) -> int {
    if fl == 1 {
        100
    } else if fl == 2 {
        10
    } else {
        1
    }
}

/// A decimal numeral in thousandths: an integer part, optionally a point
/// and one to three fraction digits.
pub open spec fn parse_milli(s: Seq<u8>, i: int) -> Option<(u64, int)> {
    match parse_u64(s, i) {
        None => None,
        Some((units, j)) => if j < s.len() && s[j] == 46u8 {
            let k = digit_run_end(s, j + 1);
            let fl = k - (j + 1);
            if 1 <= fl <= 3 {
                let m = units * 1000 + digits_value(s.subrange(j + 1, k)) * frac_scale(fl);
                if m <= u64::MAX {
                    Some((m as u64, k))
                } else {
                    None
                }
            } else {
                None
            }
        } else {
            if units * 1000 <= u64::MAX {
                Some(((units * 1000) as u64, j))
            } else {
                None
            }
        },
    }
}

/// Index of the first byte at or after `i` that cannot stand in a string
/// body.
pub open spec fn text_end(s: Seq<u8>, i: int) -> int
    decreases s.len() - i when 0 <= i <= s.len()
{
    if i < s.len() && valid_text_byte(s[i]) {
        text_end(s, i + 1)
    } else {
        i
    }
}

/// A quoted run of string-body bytes.
pub open spec fn parse_text(s: Seq<u8>, i: int) -> Option<(Seq<u8>, int)> {
    if 0 <= i && i < s.len() && s[i] == 34u8 {
        let j = text_end(s, i + 1);
        if j < s.len() && s[j] == 34u8 {
            Some((s.subrange(i + 1, j), j + 1))
        } else {
            None
        }
    } else {
        None
    }
}

/// The exact bytes of `lit` at position `i`.
pub open spec fn parse_lit(s: Seq<u8>, i: int, lit: Seq<u8>) -> Option<int> {
    if 0 <= i && i + lit.len() <= s.len() && s.subrange(i, i + lit.len()) == lit {
        Some(i + lit.len())
    } else {
        None
    }
}

pub open spec fn key_child_lock() -> Seq<u8> {
    seq![34u8, 99u8, 104u8, 105u8, 108u8, 100u8, 95u8, 108u8, 111u8, 99u8, 107u8, 34u8, 58u8]
}

pub open spec fn key_current() -> Seq<u8> {
    seq![34u8, 99u8, 117u8, 114u8, 114u8, 101u8, 110u8, 116u8, 34u8, 58u8]
}

pub open spec fn key_device() -> Seq<u8> {
    seq![44u8, 34u8, 100u8, 101u8, 118u8, 105u8, 99u8, 101u8, 34u8, 58u8]
}

pub open spec fn key_energy() -> Seq<u8> {
    seq![44u8, 34u8, 101u8, 110u8, 101u8, 114u8, 103u8, 121u8, 34u8, 58u8]
}

pub open spec fn key_power() -> Seq<u8> {
    seq![44u8, 34u8, 112u8, 111u8, 119u8, 101u8, 114u8, 34u8, 58u8]
}

pub open spec fn key_state() -> Seq<u8> {
    seq![44u8, 34u8, 115u8, 116u8, 97u8, 116u8, 101u8, 34u8, 58u8]
}

pub open spec fn key_voltage() -> Seq<u8> {
    seq![44u8, 34u8, 118u8, 111u8, 108u8, 116u8, 97u8, 103u8, 101u8, 34u8, 58u8]
}

pub open spec fn key_friendly_name() -> Seq<u8> {
    seq![
        123u8, 34u8, 102u8, 114u8, 105u8, 101u8, 110u8, 100u8, 108u8, 121u8, 78u8, 97u8, 109u8, 101u8, 34u8,
        58u8,
    ]
}

pub open spec fn key_ieee_addr() -> Seq<u8> {
    seq![44u8, 34u8, 105u8, 101u8, 101u8, 101u8, 65u8, 100u8, 100u8, 114u8, 34u8, 58u8]
}

pub open spec fn key_manufacturer_id() -> Seq<u8> {
    seq![
        44u8, 34u8, 109u8, 97u8, 110u8, 117u8, 102u8, 97u8, 99u8, 116u8, 117u8, 114u8, 101u8, 114u8, 73u8,
        68u8, 34u8, 58u8,
    ]
}

pub open spec fn key_manufacturer_name() -> Seq<u8> {
    seq![
        44u8, 34u8, 109u8, 97u8, 110u8, 117u8, 102u8, 97u8, 99u8, 116u8, 117u8, 114u8, 101u8, 114u8, 78u8,
        97u8, 109u8, 101u8, 34u8, 58u8,
    ]
}

pub open spec fn key_model() -> Seq<u8> {
    seq![44u8, 34u8, 109u8, 111u8, 100u8, 101u8, 108u8, 34u8, 58u8]
}

/// An optional `key:"text"` group: absent when the key does not match.
pub open spec fn parse_opt_text(s: Seq<u8>, i: int, key: Seq<u8>) -> Option<
    (Option<Seq<u8>>, int),
> {
    match parse_lit(s, i, key) {
        Some(j) => match parse_text(s, j) {
            Some((t, j2)) => Some((Some(t), j2)),
            None => None,
        },
        None => Some((None, i)),
    }
}

/// An optional `key:number` group with a `u16` value.
pub open spec fn parse_opt_u16(s: Seq<u8>, i: int, key: Seq<u8>) -> Option<(Option<u16>, int)> {
    match parse_lit(s, i, key) {
        Some(j) => match parse_u16(s, j) {
            Some((v, j2)) => Some((Some(v), j2)),
            None => None,
        },
        None => Some((None, i)),
    }
}

/// The leading optional `"child_lock":"text",` group of the document.
pub open spec fn parse_child_lock(s: Seq<u8>, i: int) -> Option<(Option<Seq<u8>>, int)> {
    match parse_lit(s, i, key_child_lock()) {
        Some(j) => match parse_text(s, j) {
            Some((t, j2)) => if j2 < s.len() && s[j2] == 44u8 {
                Some((Some(t), j2 + 1))
            } else {
                None
            },
            None => None,
        },
        None => Some((None, i)),
    }
}

/// The nested device object: a required non-empty `friendlyName`, then
/// the optional metadata fields, in order.
pub open spec fn parse_device(s: Seq<u8>, i: int) -> Option<(DeviceView, int)> {
    match parse_lit(s, i, key_friendly_name()) {
        None => None,
        Some(j0) => match parse_text(s, j0) {
            None => None,
            Some((name, j1)) => if name.len() == 0 {
                None
            } else {
                match parse_opt_text(s, j1, key_ieee_addr()) {
                    None => None,
                    Some((ieee_addr, j2)) => match parse_opt_u16(s, j2, key_manufacturer_id()) {
                        None => None,
                        Some((manufacturer_id, j3)) => match parse_opt_text(
                            s,
                            j3,
                            key_manufacturer_name(),
                        ) {
                            None => None,
                            Some((manufacturer_name, j4)) => match parse_opt_text(
                                s,
                                j4,
                                key_model(),
                            ) {
                                None => None,
                                Some((model, j5)) => if j5 < s.len() && s[j5] == 125u8 {
                                    Some(
                                        (
                                            DeviceView {
                                                friendly_name: name,
                                                ieee_addr,
                                                manufacturer_id,
                                                manufacturer_name,
                                                model,
                                            },
                                            j5 + 1,
                                        ),
                                    )
                                } else {
                                    None
                                },
                            },
                        },
                    },
                }
            },
        },
    }
}

/// The whole document. `None` exactly on the malformed payloads.
pub open spec fn decode_spec(s: Seq<u8>) -> Option<ResponseView> {
    if s.len() > 0 && s[0] == 123u8 {
        match parse_child_lock(s, 1) {
            None => None,
            Some((child_lock, i1)) => match parse_lit(s, i1, key_current()) {
                None => None,
                Some(i2) => match parse_milli(s, i2) {
                    None => None,
                    Some((current, i3)) => match parse_lit(s, i3, key_device()) {
                        None => None,
                        Some(i4) => match parse_device(s, i4) {
                            None => None,
                            Some((device, i5)) => match parse_lit(s, i5, key_energy()) {
                                None => None,
                                Some(i6) => match parse_milli(s, i6) {
                                    None => None,
                                    Some((energy, i7)) => match parse_lit(s, i7, key_power()) {
                                        None => None,
                                        Some(i8) => match parse_u16(s, i8) {
                                            None => None,
                                            Some((power, i9)) => match parse_opt_text(
                                                s,
                                                i9,
                                                key_state(),
                                            ) {
                                                None => None,
                                                Some((state, i10)) => match parse_lit(
                                                    s,
                                                    i10,
                                                    key_voltage(),
                                                ) {
                                                    None => None,
                                                    Some(i11) => match parse_u16(s, i11) {
                                                        None => None,
                                                        Some((voltage, i12)) => if i12 + 1
                                                            == s.len() && s[i12] == 125u8 {
                                                            Some(
                                                                ResponseView {
                                                                    child_lock,
                                                                    current,
                                                                    device,
                                                                    energy,
                                                                    power,
                                                                    state,
                                                                    voltage,
                                                                },
                                                            )
                                                        } else {
                                                            None
                                                        },
                                                    },
                                                },
                                            },
                                        },
                                    },
                                },
                            },
                        },
                    },
                },
            },
        }
    } else {
        None
    }
}

// ---------------------------------------------------------------------
// Canonical encoding, as spec functions.
// ---------------------------------------------------------------------

pub open spec fn digit_of(x: int) -> u8 {
    (48u8 + (x % 10)) as u8
}

/// The decimal numeral of `n`, most significant digit first, no sign, no
/// leading zeros (a single `0` for zero).
pub open spec fn u64_digits(n: u64) -> Seq<u8>
    decreases n,
{
    if n < 10 {
        seq![digit_of(n as int)]
    } else {
        u64_digits((n / 10) as u64).push(digit_of(n as int))
    }
}

/// One to three fraction digits for `f` thousandths (`1 <= f <= 999`),
/// trailing zeros dropped, leading zeros kept.
pub open spec fn frac_digits(f: u64) -> Seq<u8> {
    if f % 100 == 0 {
        seq![digit_of(f as int / 100)]
    } else if f % 10 == 0 {
        seq![digit_of(f as int / 100), digit_of(f as int / 10)]
    } else {
        seq![digit_of(f as int / 100), digit_of(f as int / 10), digit_of(f as int)]
    }
}

/// The canonical numeral of a thousandths value: the integer part, then a
/// point and the fraction digits when the fraction is non-zero.
pub open spec fn milli_digits(m: u64) -> Seq<u8> {
    if m % 1000 == 0 {
        u64_digits((m / 1000) as u64)
    } else {
        u64_digits((m / 1000) as u64) + seq![46u8] + frac_digits((m % 1000) as u64)
    }
}

pub open spec fn text_enc(t: Seq<u8>) -> Seq<u8> {
    seq![34u8] + t + seq![34u8]
}

pub open spec fn opt_text_enc(o: Option<Seq<u8>>, key: Seq<u8>) -> Seq<u8> {
    match o {
        Some(t) => key + text_enc(t),
        None => Seq::empty(),
    }
}

pub open spec fn opt_u16_enc(o: Option<u16>, key: Seq<u8>) -> Seq<u8> {
    match o {
        Some(v) => key + u64_digits(v as u64),
        None => Seq::empty(),
    }
}

pub open spec fn encode_device_spec(d: DeviceView) -> Seq<u8> {
    key_friendly_name() + text_enc(d.friendly_name) + opt_text_enc(d.ieee_addr, key_ieee_addr())
        + opt_u16_enc(d.manufacturer_id, key_manufacturer_id()) + opt_text_enc(
        d.manufacturer_name,
        key_manufacturer_name(),
    ) + opt_text_enc(d.model, key_model()) + seq![125u8]
}

pub open spec fn child_lock_enc(o: Option<Seq<u8>>) -> Seq<u8> {
    match o {
        Some(t) => key_child_lock() + text_enc(t) + seq![44u8],
        None => Seq::empty(),
    }
}

/// The canonical document for a reading.
pub open spec fn encode_spec(r: ResponseView) -> Seq<u8> {
    seq![123u8] + child_lock_enc(r.child_lock) + key_current() + milli_digits(r.current)
        + key_device() + encode_device_spec(r.device) + key_energy() + milli_digits(r.energy)
        + key_power() + u64_digits(r.power as u64) + opt_text_enc(r.state, key_state())
        + key_voltage() + u64_digits(r.voltage as u64) + seq![125u8]
}

// ---------------------------------------------------------------------
// Facts about digit runs and their values.
// ---------------------------------------------------------------------

/// Bounds of a digit run: it spans only digits and stops at the first
/// non-digit.
pub proof fn lemma_digit_run_end_props(s: Seq<u8>, i: int)
    requires
        0 <= i <= s.len(),
    ensures
        i <= digit_run_end(s, i) <= s.len(),
        forall|p: int| i <= p < digit_run_end(s, i) ==> is_digit(#[trigger] s[p]),
        digit_run_end(s, i) < s.len() ==> !is_digit(s[digit_run_end(s, i)]),
    decreases s.len() - i,
{
    if i < s.len() && is_digit(s[i]) {
        lemma_digit_run_end_props(s, i + 1);
    }
}

/// A digit string denotes a non-negative number.
pub proof fn lemma_digits_value_nonneg(ds: Seq<u8>)
    requires
        forall|p: int| 0 <= p < ds.len() ==> is_digit(#[trigger] ds[p]),
    ensures
        digits_value(ds) >= 0,
    decreases ds.len(),
{
    if ds.len() > 0 {
        assert(forall|p: int|
            0 <= p < ds.drop_last().len() ==> is_digit(#[trigger] ds.drop_last()[p]));
        lemma_digits_value_nonneg(ds.drop_last());
    }
}

/// Extending a digit run never shrinks its value.
proof fn lemma_digits_value_grow(s: Seq<u8>, i: int, a: int, b: int)
    requires
        0 <= i <= a <= b <= s.len(),
        forall|p: int| i <= p < b ==> is_digit(#[trigger] s[p]),
    ensures
        digits_value(s.subrange(i, a)) <= digits_value(s.subrange(i, b)),
    decreases b - a,
{
    if a < b {
        lemma_digits_value_grow(s, i, a, b - 1);
        let shorter = s.subrange(i, b - 1);
        let longer = s.subrange(i, b);
        assert(longer.drop_last() =~= shorter);
        assert(forall|p: int| 0 <= p < shorter.len() ==> is_digit(#[trigger] shorter[p]));
        lemma_digits_value_nonneg(shorter);
        assert(longer.last() == s[b - 1]);
        assert(digits_value(longer) == digits_value(shorter) * 10 + (s[b - 1] - 48u8));
    }
}

// ---------------------------------------------------------------------
// The executable decoder, proved to implement the grammar exactly.
// ---------------------------------------------------------------------

/// First position at or after `i` that holds no digit.
fn run_end_digits(s: &Vec<u8>, i: usize) -> (j: usize)
    requires
        i <= s@.len(),
    ensures
        j as int == digit_run_end(s@, i as int),
        i <= j <= s@.len(),
{
    let mut j: usize = i;
    loop
        invariant
            i <= j <= s@.len(),
            digit_run_end(s@, i as int) == digit_run_end(s@, j as int),
        ensures
            i <= j <= s@.len(),
            j as int == digit_run_end(s@, i as int),
        decreases s@.len() - j,
    {
        if j == s.len() {
            break;
        }
        let b = s[j];
        if b < 48 || 57 < b {
            break;
        }
        j = j + 1;
    }
    j
}

/// Reads the maximal digit run at `i` as a `u64`, exactly as
/// `parse_u64` does.
fn scan_u64(s: &Vec<u8>, i: usize) -> (r: Option<(u64, usize)>)
    requires
        i <= s@.len(),
    ensures
        match r {
            Some(p) => parse_u64(s@, i as int) == Some((p.0, p.1 as int)) && i < p.1 <= s@.len(),
            None => parse_u64(s@, i as int) is None,
        },
{
    let j = run_end_digits(s, i);
    proof {
        lemma_digit_run_end_props(s@, i as int);
    }
    if j == i {
        return None;
    }
    let mut acc: u64 = 0;
    let mut k: usize = i;
    proof {
        assert(s@.subrange(i as int, i as int) =~= Seq::<u8>::empty());
    }
    while k < j
        invariant
            i <= k <= j <= s@.len(),
            j as int == digit_run_end(s@, i as int),
            forall|p: int| i <= p < j ==> is_digit(#[trigger] s@[p]),
            acc as int == digits_value(s@.subrange(i as int, k as int)),
        decreases j - k,
    {
        let d = s[k] - 48;
        let ghost shorter = s@.subrange(i as int, k as int);
        let ghost longer = s@.subrange(i as int, k as int + 1);
        proof {
            assert(longer.drop_last() =~= shorter);
            assert(longer.last() == s@[k as int]);
            assert(digits_value(longer) == acc * 10 + d);
        }
        let acc10 = match acc.checked_mul(10) {
            Some(x) => x,
            None => {
                proof {
                    lemma_digits_value_grow(s@, i as int, k as int + 1, j as int);
                    assert(digits_value(s@.subrange(i as int, j as int)) > u64::MAX);
                }
                return None;
            },
        };
        let acc2 = match acc10.checked_add(d as u64) {
            Some(x) => x,
            None => {
                proof {
                    lemma_digits_value_grow(s@, i as int, k as int + 1, j as int);
                    assert(digits_value(s@.subrange(i as int, j as int)) > u64::MAX);
                }
                return None;
            },
        };
        acc = acc2;
        k = k + 1;
    }
    Some((acc, j))
}

/// Reads a digit run that must fit a `u16`, exactly as `parse_u16` does.
fn scan_u16(s: &Vec<u8>, i: usize) -> (r: Option<(u16, usize)>)
    requires
        i <= s@.len(),
    ensures
        match r {
            Some(p) => parse_u16(s@, i as int) == Some((p.0, p.1 as int)) && i < p.1 <= s@.len(),
            None => parse_u16(s@, i as int) is None,
        },
{
    match scan_u64(s, i) {
        Some((v, j)) => if v <= 65535 {
            Some((v as u16, j))
        } else {
            None
        },
        None => None,
    }
}

/// Reads a decimal numeral in thousandths, exactly as `parse_milli` does.
fn scan_milli(s: &Vec<u8>, i: usize) -> (r: Option<(u64, usize)>)
    requires
        i <= s@.len(),
    ensures
        match r {
            Some(p) => parse_milli(s@, i as int) == Some((p.0, p.1 as int)) && i < p.1 <= s@.len(),
            None => parse_milli(s@, i as int) is None,
        },
{
    let (units, j) = match scan_u64(s, i) {
        Some(p) => p,
        None => {
            return None;
        },
    };
    if j < s.len() && s[j] == 46 {
        let k = run_end_digits(s, j + 1);
        proof {
            lemma_digit_run_end_props(s@, j as int + 1);
        }
        let fl = k - (j + 1);
        if fl < 1 || 3 < fl {
            return None;
        }
        let ghost ds = s@.subrange(j as int + 1, k as int);
        let d1 = (s[j + 1] - 48) as u64;
        let frac: u64;
        if fl == 1 {
            proof {
                assert(ds.drop_last() =~= Seq::<u8>::empty());
                assert(digits_value(Seq::<u8>::empty()) == 0);
                assert(ds.last() == s@[j as int + 1]);
                assert(digits_value(ds) == d1);
            }
            frac = d1 * 100;
        } else if fl == 2 {
            let d2 = (s[j + 2] - 48) as u64;
            proof {
                let ds1 = ds.drop_last();
                assert(ds1 =~= s@.subrange(j as int + 1, j as int + 2));
                assert(ds1.drop_last() =~= Seq::<u8>::empty());
                assert(digits_value(Seq::<u8>::empty()) == 0);
                assert(ds1.last() == s@[j as int + 1]);
                assert(digits_value(ds1) == d1);
                assert(ds.last() == s@[j as int + 2]);
                assert(digits_value(ds) == d1 * 10 + d2);
            }
            frac = d1 * 100 + d2 * 10;
        } else {
            let d2 = (s[j + 2] - 48) as u64;
            let d3 = (s[j + 3] - 48) as u64;
            proof {
                let ds2 = ds.drop_last();
                let ds1 = ds2.drop_last();
                assert(ds2 =~= s@.subrange(j as int + 1, j as int + 3));
                assert(ds1 =~= s@.subrange(j as int + 1, j as int + 2));
                assert(ds1.drop_last() =~= Seq::<u8>::empty());
                assert(digits_value(Seq::<u8>::empty()) == 0);
                assert(ds1.last() == s@[j as int + 1]);
                assert(digits_value(ds1) == d1);
                assert(ds2.last() == s@[j as int + 2]);
                assert(digits_value(ds2) == d1 * 10 + d2);
                assert(ds.last() == s@[j as int + 3]);
                assert(digits_value(ds) == (d1 * 10 + d2) * 10 + d3);
            }
            frac = d1 * 100 + d2 * 10 + d3;
        }
        proof {
            assert(frac as int == digits_value(ds) * frac_scale(fl as int));
        }
        let m = match units.checked_mul(1000) {
            Some(x) => x,
            None => {
                proof {
                    lemma_digits_value_nonneg(ds);
                }
                return None;
            },
        };
        match m.checked_add(frac) {
            Some(m2) => Some((m2, k)),
            None => None,
        }
    } else {
        match units.checked_mul(1000) {
            Some(m) => Some((m, j)),
            None => None,
        }
    }
}

/// First position at or after `i` that cannot stand in a string body.
fn run_end_text(s: &Vec<u8>, i: usize) -> (j: usize)
    requires
        i <= s@.len(),
    ensures
        j as int == text_end(s@, i as int),
        i <= j <= s@.len(),
{
    let mut j: usize = i;
    loop
        invariant
            i <= j <= s@.len(),
            text_end(s@, i as int) == text_end(s@, j as int),
        ensures
            i <= j <= s@.len(),
            j as int == text_end(s@, i as int),
        decreases s@.len() - j,
    {
        if j == s.len() {
            break;
        }
        let b = s[j];
        if b < 32 || 126 < b || b == 34 || b == 92 {
            break;
        }
        j = j + 1;
    }
    j
}

/// Reads a quoted string, exactly as `parse_text` does; the returned
/// bytes are a copy of the string body.
fn scan_text(s: &Vec<u8>, i: usize) -> (r: Option<(Vec<u8>, usize)>)
    requires
        i <= s@.len(),
    ensures
        match r {
            Some(p) => parse_text(s@, i as int) == Some((p.0@, p.1 as int)) && i < p.1 <= s@.len(),
            None => parse_text(s@, i as int) is None,
        },
{
    if i == s.len() || s[i] != 34 {
        return None;
    }
    let j = run_end_text(s, i + 1);
    if j == s.len() || s[j] != 34 {
        return None;
    }
    let mut t: Vec<u8> = Vec::new();
    let mut k: usize = i + 1;
    proof {
        assert(t@ =~= s@.subrange(i as int + 1, i as int + 1));
    }
    while k < j
        invariant
            i + 1 <= k <= j <= s@.len(),
            t@ == s@.subrange(i as int + 1, k as int),
        decreases j - k,
    {
        t.push(s[k]);
        proof {
            assert(t@ =~= s@.subrange(i as int + 1, k as int + 1));
        }
        k = k + 1;
    }
    Some((t, j + 1))
}

/// Matches the exact bytes of `lit`, exactly as `parse_lit` does.
fn scan_lit(s: &Vec<u8>, i: usize, lit: &Vec<u8>) -> (r: Option<usize>)
    requires
        i <= s@.len(),
    ensures
        match r {
            Some(j) => parse_lit(s@, i as int, lit@) == Some(j as int) && j as int == i + lit@.len()
                && j <= s@.len(),
            None => parse_lit(s@, i as int, lit@) is None,
        },
{
    if s.len() - i < lit.len() {
        return None;
    }
    let mut k: usize = 0;
    while k < lit.len()
        invariant
            0 <= k <= lit@.len(),
            i + lit@.len() <= s@.len(),
            s@.len() <= usize::MAX,
            forall|p: int| 0 <= p < k ==> s@[i + p] == lit@[p],
        decreases lit@.len() - k,
    {
        if s[i + k] != lit[k] {
            proof {
                if s@.subrange(i as int, i + lit@.len()) == lit@ {
                    assert(s@.subrange(i as int, i + lit@.len())[k as int] == s@[i + k]);
                }
            }
            return None;
        }
        k = k + 1;
    }
    proof {
        assert(s@.subrange(i as int, i + lit@.len()) =~= lit@);
    }
    Some(i + lit.len())
}

// ---------------------------------------------------------------------
// The key literals as runtime byte strings.
// ---------------------------------------------------------------------

fn key_child_lock_vec() -> (k: Vec<u8>)
    ensures
        k@ == key_child_lock(),
{
    let mut k: Vec<u8> = Vec::new();
    k.push(34); k.push(99); k.push(104); k.push(105); k.push(108); k.push(100); k.push(95); k.push(108); k.push(111); k.push(99); k.push(107); k.push(34); k.push(58);
    proof {
        assert(k@ =~= key_child_lock());
    }
    k
}

fn key_current_vec() -> (k: Vec<u8>)
    ensures
        k@ == key_current(),
{
    let mut k: Vec<u8> = Vec::new();
    k.push(34); k.push(99); k.push(117); k.push(114); k.push(114); k.push(101); k.push(110); k.push(116); k.push(34); k.push(58);
    proof {
        assert(k@ =~= key_current());
    }
    k
}

fn key_device_vec() -> (k: Vec<u8>)
    ensures
        k@ == key_device(),
{
    let mut k: Vec<u8> = Vec::new();
    k.push(44); k.push(34); k.push(100); k.push(101); k.push(118); k.push(105); k.push(99); k.push(101); k.push(34); k.push(58);
    proof {
        assert(k@ =~= key_device());
    }
    k
}

fn key_energy_vec() -> (k: Vec<u8>)
    ensures
        k@ == key_energy(),
{
    let mut k: Vec<u8> = Vec::new();
    k.push(44); k.push(34); k.push(101); k.push(110); k.push(101); k.push(114); k.push(103); k.push(121); k.push(34); k.push(58);
    proof {
        assert(k@ =~= key_energy());
    }
    k
}

fn key_power_vec() -> (k: Vec<u8>)
    ensures
        k@ == key_power(),
{
    let mut k: Vec<u8> = Vec::new();
    k.push(44); k.push(34); k.push(112); k.push(111); k.push(119); k.push(101); k.push(114); k.push(34); k.push(58);
    proof {
        assert(k@ =~= key_power());
    }
    k
}

fn key_state_vec() -> (k: Vec<u8>)
    ensures
        k@ == key_state(),
{
    let mut k: Vec<u8> = Vec::new();
    k.push(44); k.push(34); k.push(115); k.push(116); k.push(97); k.push(116); k.push(101); k.push(34); k.push(58);
    proof {
        assert(k@ =~= key_state());
    }
    k
}

fn key_voltage_vec() -> (k: Vec<u8>)
    ensures
        k@ == key_voltage(),
{
    let mut k: Vec<u8> = Vec::new();
    k.push(44); k.push(34); k.push(118); k.push(111); k.push(108); k.push(116); k.push(97); k.push(103); k.push(101); k.push(34); k.push(58);
    proof {
        assert(k@ =~= key_voltage());
    }
    k
}

fn key_friendly_name_vec() -> (k: Vec<u8>)
    ensures
        k@ == key_friendly_name(),
{
    let mut k: Vec<u8> = Vec::new();
    k.push(123); k.push(34); k.push(102); k.push(114); k.push(105); k.push(101); k.push(110); k.push(100); k.push(108); k.push(121); k.push(78); k.push(97); k.push(109); k.push(101); k.push(34); k.push(58);
    proof {
        assert(k@ =~= key_friendly_name());
    }
    k
}

fn key_ieee_addr_vec() -> (k: Vec<u8>)
    ensures
        k@ == key_ieee_addr(),
{
    let mut k: Vec<u8> = Vec::new();
    k.push(44); k.push(34); k.push(105); k.push(101); k.push(101); k.push(101); k.push(65); k.push(100); k.push(100); k.push(114); k.push(34); k.push(58);
    proof {
        assert(k@ =~= key_ieee_addr());
    }
    k
}

fn key_manufacturer_id_vec() -> (k: Vec<u8>)
    ensures
        k@ == key_manufacturer_id(),
{
    let mut k: Vec<u8> = Vec::new();
    k.push(44); k.push(34); k.push(109); k.push(97); k.push(110); k.push(117); k.push(102); k.push(97); k.push(99); k.push(116); k.push(117); k.push(114); k.push(101); k.push(114); k.push(73); k.push(68); k.push(34); k.push(58);
    proof {
        assert(k@ =~= key_manufacturer_id());
    }
    k
}

fn key_manufacturer_name_vec() -> (k: Vec<u8>)
    ensures
        k@ == key_manufacturer_name(),
{
    let mut k: Vec<u8> = Vec::new();
    k.push(44); k.push(34); k.push(109); k.push(97); k.push(110); k.push(117); k.push(102); k.push(97); k.push(99); k.push(116); k.push(117); k.push(114); k.push(101); k.push(114); k.push(78); k.push(97); k.push(109); k.push(101); k.push(34); k.push(58);
    proof {
        assert(k@ =~= key_manufacturer_name());
    }
    k
}

fn key_model_vec() -> (k: Vec<u8>)
    ensures
        k@ == key_model(),
{
    let mut k: Vec<u8> = Vec::new();
    k.push(44); k.push(34); k.push(109); k.push(111); k.push(100); k.push(101); k.push(108); k.push(34); k.push(58);
    proof {
        assert(k@ =~= key_model());
    }
    k
}


/// Reads an optional `key:"text"` group, exactly as `parse_opt_text`
/// does.
fn scan_opt_text(s: &Vec<u8>, i: usize, key: &Vec<u8>) -> (r: Option<(Option<Vec<u8>>, usize)>)
    requires
        i <= s@.len(),
    ensures
        match r {
            Some(p) => parse_opt_text(s@, i as int, key@) == Some((opt_view(p.0), p.1 as int))
                && i <= p.1 <= s@.len(),
            None => parse_opt_text(s@, i as int, key@) is None,
        },
{
    match scan_lit(s, i, key) {
        Some(j) => match scan_text(s, j) {
            Some((t, j2)) => Some((Some(t), j2)),
            None => None,
        },
        None => Some((None, i)),
    }
}

/// Reads an optional `key:number` group, exactly as `parse_opt_u16`
/// does.
fn scan_opt_u16(s: &Vec<u8>, i: usize, key: &Vec<u8>) -> (r: Option<(Option<u16>, usize)>)
    requires
        i <= s@.len(),
    ensures
        match r {
            Some(p) => parse_opt_u16(s@, i as int, key@) == Some((p.0, p.1 as int)) && i <= p.1
                <= s@.len(),
            None => parse_opt_u16(s@, i as int, key@) is None,
        },
{
    match scan_lit(s, i, key) {
        Some(j) => match scan_u16(s, j) {
            Some((v, j2)) => Some((Some(v), j2)),
            None => None,
        },
        None => Some((None, i)),
    }
}

/// Reads the nested device object, exactly as `parse_device` does.
fn scan_device(s: &Vec<u8>, i: usize) -> (r: Option<(Device, usize)>)
    requires
        i <= s@.len(),
    ensures
        match r {
            Some(p) => parse_device(s@, i as int) == Some((p.0@, p.1 as int)) && i <= p.1
                <= s@.len(),
            None => parse_device(s@, i as int) is None,
        },
{
    let kfn = key_friendly_name_vec();
    let j0 = match scan_lit(s, i, &kfn) {
        Some(j) => j,
        None => {
            return None;
        },
    };
    let (name, j1) = match scan_text(s, j0) {
        Some(p) => p,
        None => {
            return None;
        },
    };
    if name.len() == 0 {
        return None;
    }
    let kie = key_ieee_addr_vec();
    let (ieee_addr, j2) = match scan_opt_text(s, j1, &kie) {
        Some(p) => p,
        None => {
            return None;
        },
    };
    let kmi = key_manufacturer_id_vec();
    let (manufacturer_id, j3) = match scan_opt_u16(s, j2, &kmi) {
        Some(p) => p,
        None => {
            return None;
        },
    };
    let kmn = key_manufacturer_name_vec();
    let (manufacturer_name, j4) = match scan_opt_text(s, j3, &kmn) {
        Some(p) => p,
        None => {
            return None;
        },
    };
    let kmo = key_model_vec();
    let (model, j5) = match scan_opt_text(s, j4, &kmo) {
        Some(p) => p,
        None => {
            return None;
        },
    };
    if j5 < s.len() && s[j5] == 125 {
        let d = Device { friendly_name: name, ieee_addr, manufacturer_id, manufacturer_name, model };
        Some((d, j5 + 1))
    } else {
        None
    }
}

/// Decodes a payload into a reading. Succeeds with exactly the reading
/// the grammar assigns to the bytes; fails with `DecodeError` on exactly
/// the malformed payloads, and never panics.
pub fn decode(payload: &Vec<u8>) -> (r: Result<Response, DecodeError>)
    ensures
        match r {
            Ok(resp) => decode_spec(payload@) == Some(resp@),
            Err(e) => e == DecodeError && decode_spec(payload@) is None,
        },
{
    let s = payload;
    if s.len() == 0 || s[0] != 123 {
        return Err(DecodeError);
    }
    let kcl = key_child_lock_vec();
    let (child_lock, i1): (Option<Vec<u8>>, usize) = match scan_lit(s, 1, &kcl) {
        Some(j) => match scan_text(s, j) {
            Some((t, j2)) => {
                if j2 < s.len() && s[j2] == 44 {
                    (Some(t), j2 + 1)
                } else {
                    return Err(DecodeError);
                }
            },
            None => {
                return Err(DecodeError);
            },
        },
        None => (None, 1),
    };
    assert(parse_child_lock(s@, 1) == Some((opt_view(child_lock), i1 as int)));
    let kcur = key_current_vec();
    let i2 = match scan_lit(s, i1, &kcur) {
        Some(j) => j,
        None => {
            return Err(DecodeError);
        },
    };
    let (current, i3) = match scan_milli(s, i2) {
        Some(p) => p,
        None => {
            return Err(DecodeError);
        },
    };
    let kdev = key_device_vec();
    let i4 = match scan_lit(s, i3, &kdev) {
        Some(j) => j,
        None => {
            return Err(DecodeError);
        },
    };
    let (device, i5) = match scan_device(s, i4) {
        Some(p) => p,
        None => {
            return Err(DecodeError);
        },
    };
    let ken = key_energy_vec();
    let i6 = match scan_lit(s, i5, &ken) {
        Some(j) => j,
        None => {
            return Err(DecodeError);
        },
    };
    let (energy, i7) = match scan_milli(s, i6) {
        Some(p) => p,
        None => {
            return Err(DecodeError);
        },
    };
    let kpow = key_power_vec();
    let i8 = match scan_lit(s, i7, &kpow) {
        Some(j) => j,
        None => {
            return Err(DecodeError);
        },
    };
    let (power, i9) = match scan_u16(s, i8) {
        Some(p) => p,
        None => {
            return Err(DecodeError);
        },
    };
    let kst = key_state_vec();
    let (state, i10) = match scan_opt_text(s, i9, &kst) {
        Some(p) => p,
        None => {
            return Err(DecodeError);
        },
    };
    let kvol = key_voltage_vec();
    let i11 = match scan_lit(s, i10, &kvol) {
        Some(j) => j,
        None => {
            return Err(DecodeError);
        },
    };
    let (voltage, i12) = match scan_u16(s, i11) {
        Some(p) => p,
        None => {
            return Err(DecodeError);
        },
    };
    if i12 < s.len() && s[i12] == 125 && i12 + 1 == s.len() {
        let resp = Response {
            child_lock,
            current: Milli(current),
            device,
            energy: Milli(energy),
            power,
            state,
            voltage,
        };
        Ok(resp)
    } else {
        Err(DecodeError)
    }
}

// ---------------------------------------------------------------------
// The executable encoder, proved to emit the canonical form exactly.
// ---------------------------------------------------------------------

/// Appends a copy of `bytes`.
fn push_bytes(out: &mut Vec<u8>, bytes: &Vec<u8>)
    ensures
        final(out)@ == old(out)@ + bytes@,
{
    let mut k: usize = 0;
    proof {
        assert(out@ =~= old(out)@ + bytes@.subrange(0, 0));
    }
    while k < bytes.len()
        invariant
            0 <= k <= bytes@.len(),
            out@ == old(out)@ + bytes@.subrange(0, k as int),
        decreases bytes@.len() - k,
    {
        out.push(bytes[k]);
        proof {
            assert(out@ =~= old(out)@ + bytes@.subrange(0, k as int + 1));
        }
        k = k + 1;
    }
    proof {
        assert(bytes@.subrange(0, bytes@.len() as int) =~= bytes@);
    }
}

/// Appends the decimal numeral of `n`.
fn push_u64_digits(out: &mut Vec<u8>, n: u64)
    ensures
        final(out)@ == old(out)@ + u64_digits(n),
    decreases n,
{
    if n < 10 {
        out.push(48 + n as u8);
        proof {
            assert(out@ =~= old(out)@ + u64_digits(n));
        }
    } else {
        push_u64_digits(out, n / 10);
        out.push(48 + (n % 10) as u8);
        proof {
            assert(out@ =~= old(out)@ + u64_digits(n));
        }
    }
}

/// Appends the canonical numeral of a thousandths value.
fn push_milli(out: &mut Vec<u8>, m: u64)
    ensures
        final(out)@ == old(out)@ + milli_digits(m),
{
    push_u64_digits(out, m / 1000);
    let f = m % 1000;
    if f != 0 {
        out.push(46);
        if f % 100 == 0 {
            out.push(48 + (f / 100) as u8);
        } else if f % 10 == 0 {
            out.push(48 + (f / 100) as u8);
            out.push(48 + ((f / 10) % 10) as u8);
        } else {
            out.push(48 + (f / 100) as u8);
            out.push(48 + ((f / 10) % 10) as u8);
            out.push(48 + (f % 10) as u8);
        }
        proof {
            assert(out@ =~= old(out)@ + milli_digits(m));
        }
    } else {
        proof {
            assert(out@ =~= old(out)@ + milli_digits(m));
        }
    }
}

/// Appends a quoted string.
fn push_text(out: &mut Vec<u8>, t: &Vec<u8>)
    ensures
        final(out)@ == old(out)@ + text_enc(t@),
{
    out.push(34);
    push_bytes(out, t);
    out.push(34);
    proof {
        assert(out@ =~= old(out)@ + text_enc(t@));
    }
}

/// Appends an optional `key:"text"` group.
fn push_opt_text(out: &mut Vec<u8>, o: &Option<Vec<u8>>, key: &Vec<u8>)
    ensures
        final(out)@ == old(out)@ + opt_text_enc(opt_view(*o), key@),
{
    match o {
        Some(t) => {
            push_bytes(out, key);
            push_text(out, t);
            proof {
                assert(out@ =~= old(out)@ + opt_text_enc(opt_view(*o), key@));
            }
        },
        None => {
            proof {
                assert(out@ =~= old(out)@ + opt_text_enc(opt_view(*o), key@));
            }
        },
    }
}

/// Appends an optional `key:number` group.
fn push_opt_u16(out: &mut Vec<u8>, o: &Option<u16>, key: &Vec<u8>)
    ensures
        final(out)@ == old(out)@ + opt_u16_enc(*o, key@),
{
    match o {
        Some(v) => {
            push_bytes(out, key);
            push_u64_digits(out, *v as u64);
            proof {
                assert(out@ =~= old(out)@ + opt_u16_enc(*o, key@));
            }
        },
        None => {
            proof {
                assert(out@ =~= old(out)@ + opt_u16_enc(*o, key@));
            }
        },
    }
}

/// Appends the canonical device object.
fn push_device(out: &mut Vec<u8>, d: &Device)
    ensures
        final(out)@ == old(out)@ + encode_device_spec(d@),
{
    let kfn = key_friendly_name_vec();
    push_bytes(out, &kfn);
    push_text(out, &d.friendly_name);
    let kie = key_ieee_addr_vec();
    push_opt_text(out, &d.ieee_addr, &kie);
    let kmi = key_manufacturer_id_vec();
    push_opt_u16(out, &d.manufacturer_id, &kmi);
    let kmn = key_manufacturer_name_vec();
    push_opt_text(out, &d.manufacturer_name, &kmn);
    let kmo = key_model_vec();
    push_opt_text(out, &d.model, &kmo);
    out.push(125);
    proof {
        assert(out@ =~= old(out)@ + encode_device_spec(d@));
    }
}

/// Encodes a reading into its canonical document.
pub fn encode(r: &Response) -> (out: Vec<u8>)
    ensures
        out@ == encode_spec(r@),
{
    let mut out: Vec<u8> = Vec::new();
    out.push(123);
    match &r.child_lock {
        Some(t) => {
            let kcl = key_child_lock_vec();
            push_bytes(&mut out, &kcl);
            push_text(&mut out, t);
            out.push(44);
        },
        None => {},
    }
    let ghost g1 = seq![123u8] + child_lock_enc(opt_view(r.child_lock));
    proof {
        assert(out@ =~= g1);
    }
    let kcur = key_current_vec();
    push_bytes(&mut out, &kcur);
    push_milli(&mut out, r.current.0);
    let kdev = key_device_vec();
    push_bytes(&mut out, &kdev);
    push_device(&mut out, &r.device);
    let ken = key_energy_vec();
    push_bytes(&mut out, &ken);
    push_milli(&mut out, r.energy.0);
    let kpow = key_power_vec();
    push_bytes(&mut out, &kpow);
    push_u64_digits(&mut out, r.power as u64);
    let kst = key_state_vec();
    push_opt_text(&mut out, &r.state, &kst);
    let kvol = key_voltage_vec();
    push_bytes(&mut out, &kvol);
    push_u64_digits(&mut out, r.voltage as u64);
    out.push(125);
    proof {
        assert(out@ =~= encode_spec(r@));
    }
    out
}

} // verus!
