//! The codec round-trip law: decoding a canonically encoded reading
//! gives back exactly that reading.

use vstd::prelude::*;
use crate::codec::{
    child_lock_enc, decode_spec, digit_of, digit_run_end, digits_value, encode_device_spec,
    encode_spec, frac_digits, frac_scale, is_digit, key_child_lock, key_current, key_device,
    key_energy, key_friendly_name, key_ieee_addr, key_manufacturer_id, key_manufacturer_name,
    key_model, key_power, key_state, key_voltage, milli_digits, opt_text_enc, opt_u16_enc,
    parse_child_lock, parse_device, parse_lit, parse_milli, parse_opt_text, parse_opt_u16,
    parse_text, parse_u16, parse_u64, text_enc, text_end, u64_digits,
};
use crate::reading::{valid_text, valid_text_byte, wf_device, wf_response, DeviceView, ResponseView};

verus! {

proof fn lemma_parse_lit_mismatch(s: Seq<u8>, i: int, lit: Seq<u8>, k: int)
    requires
        0 <= i <= s.len(),
        0 <= k < lit.len(),
        i + k >= s.len() || s[i + k] != lit[k],
    ensures
        parse_lit(s, i, lit) is None,
{
    if i + lit.len() <= s.len() {
        if s.subrange(i, i + lit.len()) == lit {
            assert(s.subrange(i, i + lit.len())[k] == s[i + k]);
        }
    }
}

proof fn lemma_digit_run_over(s: Seq<u8>, i: int, j: int)
    requires
        0 <= i <= j <= s.len(),
        forall|p: int| i <= p < j ==> is_digit(#[trigger] s[p]),
        j == s.len() || !is_digit(s[j]),
    ensures
        digit_run_end(s, i) == j,
    decreases j - i,
{
    if i < j {
        lemma_digit_run_over(s, i + 1, j);
    }
}

proof fn lemma_text_run_over(s: Seq<u8>, i: int, j: int)
    requires
        0 <= i <= j <= s.len(),
        forall|p: int| i <= p < j ==> valid_text_byte(#[trigger] s[p]),
        j == s.len() || !valid_text_byte(s[j]),
    ensures
        text_end(s, i) == j,
    decreases j - i,
{
    if i < j {
        lemma_text_run_over(s, i + 1, j);
    }
}

/// The numeral of `n` holds only digits and at least one of them.
proof fn lemma_u64_digits_props(n: u64)
    ensures
        u64_digits(n).len() >= 1,
        forall|p: int| 0 <= p < u64_digits(n).len() ==> is_digit(#[trigger] u64_digits(n)[p]),
    decreases n,
{
    if n >= 10 {
        lemma_u64_digits_props(n / 10);
        let d = u64_digits(n);
        let shorter = u64_digits(n / 10);
        assert forall|p: int| 0 <= p < d.len() implies is_digit(d[p]) by {
            if p < shorter.len() {
                assert(d[p] == shorter[p]);
            } else {
                assert(d[p] == digit_of(n as int));
            }
        }
    }
}

/// Reading the numeral of `n` back gives `n`.
proof fn lemma_digits_value_of(n: u64)
    ensures
        digits_value(u64_digits(n)) == n,
    decreases n,
{
    if n < 10 {
        let d = u64_digits(n);
        assert(d.drop_last() =~= Seq::<u8>::empty());
        assert(digits_value(Seq::<u8>::empty()) == 0);
        assert(d.last() == digit_of(n as int));
    } else {
        lemma_digits_value_of(n / 10);
        let d = u64_digits(n);
        let shorter = u64_digits(n / 10);
        assert(d.drop_last() =~= shorter);
        assert(d.last() == digit_of(n as int));
        assert(digits_value(d) == digits_value(shorter) * 10 + (digit_of(n as int) - 48u8));
        assert(digit_of(n as int) - 48u8 == n % 10);
        assert(n / 10 * 10 + n % 10 == n);
    }
}

/// Parsing at a position that holds the numeral of `n`, followed by a
/// non-digit, yields `n`.
proof fn lemma_parse_u64_at(s: Seq<u8>, i: int, n: u64)
    requires
        0 <= i,
        i + u64_digits(n).len() <= s.len(),
        s.subrange(i, i + u64_digits(n).len()) == u64_digits(n),
        i + u64_digits(n).len() == s.len() || !is_digit(s[i + u64_digits(n).len()]),
    ensures
        parse_u64(s, i) == Some((n, i + u64_digits(n).len())),
{
    let d = u64_digits(n);
    let j = i + d.len();
    lemma_u64_digits_props(n);
    assert forall|p: int| i <= p < j implies is_digit(s[p]) by {
        assert(s.subrange(i, j)[p - i] == s[p]);
        assert(is_digit(d[p - i]));
    }
    lemma_digit_run_over(s, i, j);
    lemma_digits_value_of(n);
    assert(digits_value(s.subrange(i, j)) == n);
}

proof fn lemma_parse_u16_at(s: Seq<u8>, i: int, n: u16)
    requires
        0 <= i,
        i + u64_digits(n as u64).len() <= s.len(),
        s.subrange(i, i + u64_digits(n as u64).len()) == u64_digits(n as u64),
        i + u64_digits(n as u64).len() == s.len() || !is_digit(s[i + u64_digits(n as u64).len()]),
    ensures
        parse_u16(s, i) == Some((n, i + u64_digits(n as u64).len())),
{
    lemma_parse_u64_at(s, i, n as u64);
}

/// The fraction digits of `f` thousandths denote `f` again once scaled.
proof fn lemma_frac_digits_value(f: u64)
    requires
        1 <= f <= 999,
    ensures
        1 <= frac_digits(f).len() <= 3,
        forall|p: int| 0 <= p < frac_digits(f).len() ==> is_digit(#[trigger] frac_digits(f)[p]),
        digits_value(frac_digits(f)) * frac_scale(frac_digits(f).len() as int) == f,
{
    let ds = frac_digits(f);
    assert(digits_value(Seq::<u8>::empty()) == 0);
    if f % 100 == 0 {
        assert(ds =~= seq![digit_of(f as int / 100)]);
        assert(ds.drop_last() =~= Seq::<u8>::empty());
        assert(f / 100 <= 9);
        assert(digit_of(f as int / 100) == 48 + f / 100);
        assert(digits_value(ds) == f / 100);
        assert(f / 100 * 100 == f);
    } else if f % 10 == 0 {
        let d1 = seq![digit_of(f as int / 100)];
        assert(ds.drop_last() =~= d1);
        assert(d1.drop_last() =~= Seq::<u8>::empty());
        assert(f / 100 <= 9);
        assert((f as int / 10) % 10 == f as int / 10 - (f as int / 100) * 10);
        assert(digits_value(d1) == f / 100);
        assert(digits_value(ds) == (f as int / 100) * 10 + ((f as int / 10) % 10));
        assert(digits_value(ds) == f as int / 10);
        assert(f / 10 * 10 == f);
    } else {
        let d2 = ds.drop_last();
        let d1 = d2.drop_last();
        assert(d2 =~= seq![digit_of(f as int / 100), digit_of(f as int / 10)]);
        assert(d1 =~= seq![digit_of(f as int / 100)]);
        assert(d1.drop_last() =~= Seq::<u8>::empty());
        assert(f / 100 <= 9);
        assert((f as int / 10) % 10 == f as int / 10 - (f as int / 100) * 10);
        assert(digits_value(d1) == f / 100);
        assert(digits_value(d2) == (f as int / 100) * 10 + ((f as int / 10) % 10));
        assert(digits_value(d2) == f as int / 10);
        assert(digits_value(ds) == (f as int / 10) * 10 + (f as int % 10));
        assert(f / 10 * 10 + f % 10 == f);
    }
}

/// Parsing at a position that holds the canonical numeral of `m`
/// thousandths, followed by a byte that is neither digit nor point,
/// yields `m`.
proof fn lemma_parse_milli_at(s: Seq<u8>, i: int, m: u64)
    requires
        0 <= i,
        i + milli_digits(m).len() <= s.len(),
        s.subrange(i, i + milli_digits(m).len()) == milli_digits(m),
        ({
            let j = i + milli_digits(m).len();
            j == s.len() || (!is_digit(s[j]) && s[j] != 46u8)
        }),
    ensures
        parse_milli(s, i) == Some((m, i + milli_digits(m).len())),
{
    let units = m / 1000;
    let du = u64_digits(units);
    let whole = milli_digits(m);
    let endpos = i + whole.len();
    if m % 1000 == 0 {
        assert(whole == du);
        lemma_parse_u64_at(s, i, units);
        assert(endpos == s.len() || s[endpos] != 46u8);
        assert(units * 1000 == m);
    } else {
        let f = m % 1000;
        let df = frac_digits(f);
        lemma_frac_digits_value(f);
        assert(whole =~= du + seq![46u8] + df);
        let ju = i + du.len();
        assert(s.subrange(i, ju) =~= du) by {
            assert forall|p: int| 0 <= p < du.len() implies s.subrange(i, ju)[p] == du[p] by {
                assert(s.subrange(i, endpos)[p] == s[i + p]);
                assert(whole[p] == du[p]);
                assert(s.subrange(i, ju)[p] == s[i + p]);
            }
        }
        assert(s[ju] == whole[du.len() as int]) by {
            assert(s.subrange(i, endpos)[du.len() as int] == s[ju]);
        }
        assert(whole[du.len() as int] == 46u8);
        lemma_parse_u64_at(s, i, units);
        assert forall|p: int| ju + 1 <= p < endpos implies is_digit(s[p]) by {
            assert(s.subrange(i, endpos)[p - i] == s[p]);
            assert(whole[p - i] == df[p - i - du.len() - 1]);
            assert(is_digit(df[p - i - du.len() - 1]));
        }
        lemma_digit_run_over(s, ju + 1, endpos);
        let fl = endpos - (ju + 1);
        assert(fl == df.len());
        assert(s.subrange(ju + 1, endpos) =~= df) by {
            assert forall|p: int| 0 <= p < df.len() implies s.subrange(ju + 1, endpos)[p] == df[p]
                by {
                assert(s.subrange(i, endpos)[p + du.len() + 1] == s[ju + 1 + p]);
                assert(whole[p + du.len() + 1] == df[p]);
            }
        }
        assert(digits_value(s.subrange(ju + 1, endpos)) * frac_scale(fl) == f);
        assert(units * 1000 + f == m);
    }
}

/// Parsing at a position that holds a quoted wire text yields that text.
proof fn lemma_parse_text_at(s: Seq<u8>, i: int, t: Seq<u8>)
    requires
        0 <= i,
        i + t.len() + 2 <= s.len(),
        s.subrange(i, i + t.len() + 2) == text_enc(t),
        valid_text(t),
    ensures
        parse_text(s, i) == Some((t, i + t.len() + 2)),
{
    let endq = i + t.len() + 1;
    assert(s.subrange(i, i + t.len() + 2)[0] == s[i]);
    assert(text_enc(t)[0] == 34u8);
    assert(s.subrange(i, i + t.len() + 2)[t.len() as int + 1] == s[endq]);
    assert(text_enc(t)[t.len() as int + 1] == 34u8);
    assert forall|p: int| i + 1 <= p < endq implies valid_text_byte(s[p]) by {
        assert(s.subrange(i, i + t.len() + 2)[p - i] == s[p]);
        assert(text_enc(t)[p - i] == t[p - i - 1]);
        assert(valid_text_byte(t[p - i - 1]));
    }
    assert(!valid_text_byte(34u8));
    lemma_text_run_over(s, i + 1, endq);
    assert(s.subrange(i + 1, endq) =~= t) by {
        assert forall|p: int| 0 <= p < t.len() implies s.subrange(i + 1, endq)[p] == t[p] by {
            assert(s.subrange(i, i + t.len() + 2)[p + 1] == s[i + 1 + p]);
            assert(text_enc(t)[p + 1] == t[p]);
        }
    }
}

/// Splits knowledge of a concatenation at `i` into its two halves.
proof fn lemma_concat_frame(s: Seq<u8>, i: int, x: Seq<u8>, y: Seq<u8>)
    requires
        0 <= i,
        i + x.len() + y.len() <= s.len(),
        s.subrange(i, i + x.len() + y.len()) == x + y,
    ensures
        s.subrange(i, i + x.len()) == x,
        s.subrange(i + x.len(), i + x.len() + y.len()) == y,
{
    let whole = s.subrange(i, i + x.len() + y.len());
    assert(s.subrange(i, i + x.len()) =~= x) by {
        assert forall|q: int| 0 <= q < x.len() implies s.subrange(i, i + x.len())[q] == x[q] by {
            assert(whole[q] == s[i + q]);
            assert((x + y)[q] == x[q]);
            assert(s.subrange(i, i + x.len())[q] == s[i + q]);
        }
    }
    assert(s.subrange(i + x.len(), i + x.len() + y.len()) =~= y) by {
        assert forall|q: int|
            0 <= q < y.len() implies s.subrange(i + x.len(), i + x.len() + y.len())[q] == y[q] by {
            assert(whole[x.len() + q] == s[i + x.len() + q]);
            assert((x + y)[x.len() + q] == y[q]);
            assert(s.subrange(i + x.len(), i + x.len() + y.len())[q] == s[i + x.len() + q]);
        }
    }
}


/// A present optional text group parses to its value.
proof fn lemma_opt_text_present(s: Seq<u8>, i: int, key: Seq<u8>, t: Seq<u8>)
    requires
        0 <= i,
        i + key.len() + t.len() + 2 <= s.len(),
        s.subrange(i, i + key.len() + t.len() + 2) == key + text_enc(t),
        valid_text(t),
    ensures
        parse_opt_text(s, i, key) == Some((Some(t), i + key.len() + t.len() + 2)),
{
    lemma_concat_frame(s, i, key, text_enc(t));
    lemma_parse_text_at(s, i + key.len() as int, t);
}

/// An optional text group whose key does not match parses to absence.
proof fn lemma_opt_text_absent(s: Seq<u8>, i: int, key: Seq<u8>, k: int)
    requires
        0 <= i <= s.len(),
        0 <= k < key.len(),
        i + k >= s.len() || s[i + k] != key[k],
    ensures
        parse_opt_text(s, i, key) == Some((None::<Seq<u8>>, i)),
{
    lemma_parse_lit_mismatch(s, i, key, k);
}

/// A present optional number group parses to its value.
proof fn lemma_opt_u16_present(s: Seq<u8>, i: int, key: Seq<u8>, v: u16)
    requires
        0 <= i,
        i + key.len() + u64_digits(v as u64).len() <= s.len(),
        s.subrange(i, i + key.len() + u64_digits(v as u64).len()) == key + u64_digits(v as u64),
        i + key.len() + u64_digits(v as u64).len() == s.len() || !is_digit(
            s[i + key.len() + u64_digits(v as u64).len()],
        ),
    ensures
        parse_opt_u16(s, i, key) == Some(
            (Some(v), i + key.len() + u64_digits(v as u64).len()),
        ),
{
    lemma_concat_frame(s, i, key, u64_digits(v as u64));
    lemma_parse_u16_at(s, i + key.len() as int, v);
}

/// An optional number group whose key does not match parses to absence.
proof fn lemma_opt_u16_absent(s: Seq<u8>, i: int, key: Seq<u8>, k: int)
    requires
        0 <= i <= s.len(),
        0 <= k < key.len(),
        i + k >= s.len() || s[i + k] != key[k],
    ensures
        parse_opt_u16(s, i, key) == Some((None::<u16>, i)),
{
    lemma_parse_lit_mismatch(s, i, key, k);
}

/// The ieeeAddr group parses to `o` when its bytes are there (present)
/// or when what follows rules its key out (absent).
proof fn lemma_ieee_group(s: Seq<u8>, p2: int, p3: int, o: Option<Seq<u8>>)
    requires
        0 <= p2 <= p3 <= s.len(),
        p3 == p2 + opt_text_enc(o, key_ieee_addr()).len(),
        o matches Some(t) ==> valid_text(t) && s.subrange(p2, p3) == key_ieee_addr() + text_enc(t),
        o is None ==> p2 < s.len() && (s[p2] == 125u8 || (p2 + 2 < s.len() && s[p2 + 2]
            == 109u8)),
    ensures
        parse_opt_text(s, p2, key_ieee_addr()) == Some((o, p3)),
{
    if o is Some {
        lemma_opt_text_present(s, p2, key_ieee_addr(), o->0);
    } else {
        if s[p2] == 125u8 {
            lemma_opt_text_absent(s, p2, key_ieee_addr(), 0);
        } else {
            lemma_opt_text_absent(s, p2, key_ieee_addr(), 2);
        }
    }
}

/// The manufacturerID group parses to `o`, by its bytes or by what rules
/// its key out.
proof fn lemma_manufacturer_id_group(s: Seq<u8>, p3: int, p4: int, o: Option<u16>)
    requires
        0 <= p3 <= p4 <= s.len(),
        p4 == p3 + opt_u16_enc(o, key_manufacturer_id()).len(),
        o matches Some(v) ==> s.subrange(p3, p4) == key_manufacturer_id() + u64_digits(v as u64)
            && (p4 == s.len() || !is_digit(s[p4])),
        o is None ==> p3 < s.len() && (s[p3] == 125u8 || (p3 + 3 < s.len() && s[p3 + 3] == 111u8)
            || (p3 + 14 < s.len() && s[p3 + 14] == 78u8)),
    ensures
        parse_opt_u16(s, p3, key_manufacturer_id()) == Some((o, p4)),
{
    if o is Some {
        lemma_opt_u16_present(s, p3, key_manufacturer_id(), o->0);
    } else {
        if s[p3] == 125u8 {
            lemma_opt_u16_absent(s, p3, key_manufacturer_id(), 0);
        } else if p3 + 3 < s.len() && s[p3 + 3] == 111u8 {
            lemma_opt_u16_absent(s, p3, key_manufacturer_id(), 3);
        } else {
            lemma_opt_u16_absent(s, p3, key_manufacturer_id(), 14);
        }
    }
}

/// The manufacturerName group parses to `o`, by its bytes or by what
/// rules its key out.
proof fn lemma_manufacturer_name_group(s: Seq<u8>, p4: int, p5: int, o: Option<Seq<u8>>)
    requires
        0 <= p4 <= p5 <= s.len(),
        p5 == p4 + opt_text_enc(o, key_manufacturer_name()).len(),
        o matches Some(t) ==> valid_text(t) && s.subrange(p4, p5) == key_manufacturer_name()
            + text_enc(t),
        o is None ==> p4 < s.len() && (s[p4] == 125u8 || (p4 + 3 < s.len() && s[p4 + 3]
            == 111u8)),
    ensures
        parse_opt_text(s, p4, key_manufacturer_name()) == Some((o, p5)),
{
    if o is Some {
        lemma_opt_text_present(s, p4, key_manufacturer_name(), o->0);
    } else {
        if s[p4] == 125u8 {
            lemma_opt_text_absent(s, p4, key_manufacturer_name(), 0);
        } else {
            lemma_opt_text_absent(s, p4, key_manufacturer_name(), 3);
        }
    }
}

/// The model group parses to `o`, by its bytes or by the closing brace.
proof fn lemma_model_group(s: Seq<u8>, p5: int, p6: int, o: Option<Seq<u8>>)
    requires
        0 <= p5 <= p6 <= s.len(),
        p6 == p5 + opt_text_enc(o, key_model()).len(),
        o matches Some(t) ==> valid_text(t) && s.subrange(p5, p6) == key_model() + text_enc(t),
        o is None ==> p5 < s.len() && s[p5] == 125u8,
    ensures
        parse_opt_text(s, p5, key_model()) == Some((o, p6)),
{
    if o is Some {
        lemma_opt_text_present(s, p5, key_model(), o->0);
    } else {
        lemma_opt_text_absent(s, p5, key_model(), 0);
    }
}

/// Parsing at a position that holds the canonical encoding of a
/// well-formed device block yields that block.
#[verifier::rlimit(100)]
#[verifier::spinoff_prover]
proof fn lemma_parse_device_at(s: Seq<u8>, i: int, d: DeviceView)
    requires
        0 <= i,
        i + encode_device_spec(d).len() <= s.len(),
        s.subrange(i, i + encode_device_spec(d).len()) == encode_device_spec(d),
        wf_device(d),
    ensures
        parse_device(s, i) == Some((d, i + encode_device_spec(d).len())),
{
    let e = encode_device_spec(d);
    let kf = key_friendly_name();
    let te = text_enc(d.friendly_name);
    let a = opt_text_enc(d.ieee_addr, key_ieee_addr());
    let b = opt_u16_enc(d.manufacturer_id, key_manufacturer_id());
    let c = opt_text_enc(d.manufacturer_name, key_manufacturer_name());
    let dd = opt_text_enc(d.model, key_model());
    let close = seq![125u8];
    let pre2 = kf + te;
    let pre3 = pre2 + a;
    let pre4 = pre3 + b;
    let pre5 = pre4 + c;
    let pre6 = pre5 + dd;
    assert(e == pre6 + close);
    let p1: int = i + kf.len();
    let p2: int = p1 + te.len();
    let p3: int = p2 + a.len();
    let p4: int = p3 + b.len();
    let p5: int = p4 + c.len();
    let p6: int = p5 + dd.len();
    lemma_concat_frame(s, i, pre6, close);
    lemma_concat_frame(s, i, pre5, dd);
    lemma_concat_frame(s, i, pre4, c);
    lemma_concat_frame(s, i, pre3, b);
    lemma_concat_frame(s, i, pre2, a);
    lemma_concat_frame(s, i, kf, te);
    assert(s.subrange(p6, p6 + 1)[0] == s[p6]);
    assert(s[p6] == 125u8);
    assert(parse_lit(s, i, kf) == Some(p1));
    lemma_parse_text_at(s, p1, d.friendly_name);
    // what each absent key check would meet
    if d.ieee_addr is None {
        if b.len() > 0 {
            assert(s.subrange(p3, p4)[2] == s[p2 + 2] && b[2] == 109u8);
        } else if c.len() > 0 {
            assert(s.subrange(p4, p5)[2] == s[p2 + 2] && c[2] == 109u8);
        } else if dd.len() > 0 {
            assert(s.subrange(p5, p6)[2] == s[p2 + 2] && dd[2] == 109u8);
        }
    }
    lemma_ieee_group(s, p2, p3, d.ieee_addr);
    if d.manufacturer_id is None {
        if c.len() > 0 {
            assert(s.subrange(p4, p5)[14] == s[p3 + 14] && c[14] == 78u8);
        } else if dd.len() > 0 {
            assert(s.subrange(p5, p6)[3] == s[p3 + 3] && dd[3] == 111u8);
        }
    } else {
        if c.len() > 0 {
            assert(s.subrange(p4, p5)[0] == s[p4] && c[0] == 44u8);
        } else if dd.len() > 0 {
            assert(s.subrange(p5, p6)[0] == s[p4] && dd[0] == 44u8);
        }
    }
    lemma_manufacturer_id_group(s, p3, p4, d.manufacturer_id);
    if d.manufacturer_name is None {
        if dd.len() > 0 {
            assert(s.subrange(p5, p6)[3] == s[p4 + 3] && dd[3] == 111u8);
        }
    }
    lemma_manufacturer_name_group(s, p4, p5, d.manufacturer_name);
    lemma_model_group(s, p5, p6, d.model);
    assert(parse_device(s, i) == Some((d, p6 + 1)));
}

/// The child_lock group parses to `o`, by its bytes or by the key of the
/// required field after it.
proof fn lemma_child_lock_group(s: Seq<u8>, q1: int, o: Option<Seq<u8>>)
    requires
        1 <= q1 <= s.len(),
        q1 == 1 + child_lock_enc(o).len(),
        o matches Some(t) ==> valid_text(t) && s.subrange(1, q1) == key_child_lock() + text_enc(t)
            + seq![44u8],
        o is None ==> 3 < s.len() && s[3] == 117u8,
    ensures
        parse_child_lock(s, 1) == Some((o, q1)),
{
    if o is Some {
        let t = o->0;
        let cl1 = key_child_lock() + text_enc(t);
        assert(s.subrange(1, q1) == cl1 + seq![44u8]);
        lemma_concat_frame(s, 1, cl1, seq![44u8]);
        lemma_concat_frame(s, 1, key_child_lock(), text_enc(t));
        assert(parse_lit(s, 1, key_child_lock()) == Some(1 + key_child_lock().len() as int));
        lemma_parse_text_at(s, 1 + key_child_lock().len() as int, t);
        assert(s.subrange(q1 - 1, q1)[0] == s[q1 - 1]);
        assert(s[q1 - 1] == 44u8);
    } else {
        lemma_parse_lit_mismatch(s, 1, key_child_lock(), 2);
    }
}

// Positions of the document's pieces, as functions of the reading.
spec fn rt_q1(r: ResponseView) -> int {
    1 + child_lock_enc(r.child_lock).len() as int
}

spec fn rt_q2(r: ResponseView) -> int {
    rt_q1(r) + key_current().len()
}

spec fn rt_q3(r: ResponseView) -> int {
    rt_q2(r) + milli_digits(r.current).len()
}

spec fn rt_q4(r: ResponseView) -> int {
    rt_q3(r) + key_device().len()
}

spec fn rt_q5(r: ResponseView) -> int {
    rt_q4(r) + encode_device_spec(r.device).len()
}

spec fn rt_q6(r: ResponseView) -> int {
    rt_q5(r) + key_energy().len()
}

spec fn rt_q7(r: ResponseView) -> int {
    rt_q6(r) + milli_digits(r.energy).len()
}

spec fn rt_q8(r: ResponseView) -> int {
    rt_q7(r) + key_power().len()
}

spec fn rt_q9(r: ResponseView) -> int {
    rt_q8(r) + u64_digits(r.power as u64).len()
}

spec fn rt_q10(r: ResponseView) -> int {
    rt_q9(r) + opt_text_enc(r.state, key_state()).len()
}

spec fn rt_q11(r: ResponseView) -> int {
    rt_q10(r) + key_voltage().len()
}

spec fn rt_q12(r: ResponseView) -> int {
    rt_q11(r) + u64_digits(r.voltage as u64).len()
}

/// Where each piece of the canonical document lies.
#[verifier::rlimit(100)]
#[verifier::spinoff_prover]
proof fn lemma_top_frames(r: ResponseView)
    ensures
        encode_spec(r).len() == rt_q12(r) + 1,
        encode_spec(r).subrange(0, 1) == seq![123u8],
        encode_spec(r).subrange(1, rt_q1(r)) == child_lock_enc(r.child_lock),
        encode_spec(r).subrange(rt_q1(r), rt_q2(r)) == key_current(),
        encode_spec(r).subrange(rt_q2(r), rt_q3(r)) == milli_digits(r.current),
        encode_spec(r).subrange(rt_q3(r), rt_q4(r)) == key_device(),
        encode_spec(r).subrange(rt_q4(r), rt_q5(r)) == encode_device_spec(r.device),
        encode_spec(r).subrange(rt_q5(r), rt_q6(r)) == key_energy(),
        encode_spec(r).subrange(rt_q6(r), rt_q7(r)) == milli_digits(r.energy),
        encode_spec(r).subrange(rt_q7(r), rt_q8(r)) == key_power(),
        encode_spec(r).subrange(rt_q8(r), rt_q9(r)) == u64_digits(r.power as u64),
        encode_spec(r).subrange(rt_q9(r), rt_q10(r)) == opt_text_enc(r.state, key_state()),
        encode_spec(r).subrange(rt_q10(r), rt_q11(r)) == key_voltage(),
        encode_spec(r).subrange(rt_q11(r), rt_q12(r)) == u64_digits(r.voltage as u64),
        encode_spec(r).subrange(rt_q12(r), rt_q12(r) + 1) == seq![125u8],
{
    let s = encode_spec(r);
    let open = seq![123u8];
    let cl = child_lock_enc(r.child_lock);
    let kc = key_current();
    let mc = milli_digits(r.current);
    let kd = key_device();
    let de = encode_device_spec(r.device);
    let ke = key_energy();
    let me = milli_digits(r.energy);
    let kp = key_power();
    let dp = u64_digits(r.power as u64);
    let st = opt_text_enc(r.state, key_state());
    let kv = key_voltage();
    let dv = u64_digits(r.voltage as u64);
    let close = seq![125u8];
    let e1 = open + cl;
    let e2 = e1 + kc;
    let e3 = e2 + mc;
    let e4 = e3 + kd;
    let e5 = e4 + de;
    let e6 = e5 + ke;
    let e7 = e6 + me;
    let e8 = e7 + kp;
    let e9 = e8 + dp;
    let e10 = e9 + st;
    let e11 = e10 + kv;
    let e12 = e11 + dv;
    assert(s == e12 + close);
    assert(s.subrange(0, s.len() as int) =~= s);
    lemma_concat_frame(s, 0, e12, close);
    lemma_concat_frame(s, 0, e11, dv);
    lemma_concat_frame(s, 0, e10, kv);
    lemma_concat_frame(s, 0, e9, st);
    lemma_concat_frame(s, 0, e8, dp);
    lemma_concat_frame(s, 0, e7, kp);
    lemma_concat_frame(s, 0, e6, me);
    lemma_concat_frame(s, 0, e5, ke);
    lemma_concat_frame(s, 0, e4, de);
    lemma_concat_frame(s, 0, e3, kd);
    lemma_concat_frame(s, 0, e2, mc);
    lemma_concat_frame(s, 0, e1, kc);
    lemma_concat_frame(s, 0, open, cl);
}

/// The document's leading pieces parse to the reading's values.
#[verifier::rlimit(100)]
#[verifier::spinoff_prover]
proof fn lemma_top_parse_head(r: ResponseView)
    requires
        wf_response(r),
    ensures
        parse_child_lock(encode_spec(r), 1) == Some((r.child_lock, rt_q1(r))),
        parse_lit(encode_spec(r), rt_q1(r), key_current()) == Some(rt_q2(r)),
        parse_milli(encode_spec(r), rt_q2(r)) == Some((r.current, rt_q3(r))),
        parse_lit(encode_spec(r), rt_q3(r), key_device()) == Some(rt_q4(r)),
        parse_device(encode_spec(r), rt_q4(r)) == Some((r.device, rt_q5(r))),
{
    let s = encode_spec(r);
    lemma_top_frames(r);
    if r.child_lock is None {
        assert(s.subrange(rt_q1(r), rt_q2(r))[2] == s[rt_q1(r) + 2] && key_current()[2]
            == 117u8);
        assert(rt_q1(r) == 1);
    }
    lemma_child_lock_group(s, rt_q1(r), r.child_lock);
    assert(s.subrange(rt_q3(r), rt_q4(r))[0] == s[rt_q3(r)] && key_device()[0] == 44u8);
    lemma_parse_milli_at(s, rt_q2(r), r.current);
    lemma_parse_device_at(s, rt_q4(r), r.device);
}

/// The document's trailing pieces parse to the reading's values.
#[verifier::rlimit(100)]
#[verifier::spinoff_prover]
proof fn lemma_top_parse_tail(r: ResponseView)
    requires
        wf_response(r),
    ensures
        parse_lit(encode_spec(r), rt_q5(r), key_energy()) == Some(rt_q6(r)),
        parse_milli(encode_spec(r), rt_q6(r)) == Some((r.energy, rt_q7(r))),
        parse_lit(encode_spec(r), rt_q7(r), key_power()) == Some(rt_q8(r)),
        parse_u16(encode_spec(r), rt_q8(r)) == Some((r.power, rt_q9(r))),
        parse_opt_text(encode_spec(r), rt_q9(r), key_state()) == Some((r.state, rt_q10(r))),
        parse_lit(encode_spec(r), rt_q10(r), key_voltage()) == Some(rt_q11(r)),
        parse_u16(encode_spec(r), rt_q11(r)) == Some((r.voltage, rt_q12(r))),
        rt_q12(r) + 1 == encode_spec(r).len(),
        encode_spec(r)[rt_q12(r)] == 125u8,
{
    let s = encode_spec(r);
    let st = opt_text_enc(r.state, key_state());
    lemma_top_frames(r);
    assert(s.subrange(rt_q7(r), rt_q8(r))[0] == s[rt_q7(r)] && key_power()[0] == 44u8);
    lemma_parse_milli_at(s, rt_q6(r), r.energy);
    if st.len() > 0 {
        assert(s.subrange(rt_q9(r), rt_q10(r))[0] == s[rt_q9(r)] && st[0] == 44u8);
    } else {
        assert(s.subrange(rt_q10(r), rt_q11(r))[0] == s[rt_q9(r)] && key_voltage()[0] == 44u8);
    }
    lemma_parse_u16_at(s, rt_q8(r), r.power);
    if r.state is Some {
        lemma_opt_text_present(s, rt_q9(r), key_state(), r.state->0);
    } else {
        assert(s.subrange(rt_q10(r), rt_q11(r))[2] == s[rt_q9(r) + 2] && key_voltage()[2]
            == 118u8);
        lemma_opt_text_absent(s, rt_q9(r), key_state(), 2);
    }
    assert(s.subrange(rt_q12(r), rt_q12(r) + 1)[0] == s[rt_q12(r)]);
    lemma_parse_u16_at(s, rt_q11(r), r.voltage);
}

/// The round-trip law of the codec: decoding the canonical document of
/// any well-formed reading yields exactly that reading.
#[verifier::rlimit(100)]
#[verifier::spinoff_prover]
pub proof fn lemma_codec_round_trip(r: ResponseView)
    requires
        wf_response(r),
    ensures
        decode_spec(encode_spec(r)) == Some(r),
{
    let s = encode_spec(r);
    lemma_top_frames(r);
    lemma_top_parse_head(r);
    lemma_top_parse_tail(r);
    assert(s.subrange(0, 1)[0] == s[0]);
    assert(s[0] == 123u8);
    assert(decode_spec(s) == Some(r));
}

} // verus!
