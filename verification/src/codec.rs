//! Compact JSON text for the wire: a fully specified writer and a tolerant
//! reader.
//!
//! The writer is proved to produce exactly [`jser`] of its argument: literals
//! for null and booleans, decimal integers, strings with every quote,
//! backslash and control byte escaped as `\u00..`, and arrays and objects
//! with comma-separated members. The reader accepts that output and the usual
//! liberties of other writers (whitespace, the short escapes, `\u` escapes of
//! any basic-plane scalar).

use vstd::prelude::*;
use crate::json::{Json, JsonV, jv, jv_seq, jv_fields, lemma_jv_seq, lemma_jv_fields};

verus! {

pub open spec fn lit_null() -> Seq<u8> {
    seq!['n' as u8, 'u' as u8, 'l' as u8, 'l' as u8]
}

pub open spec fn lit_true() -> Seq<u8> {
    seq!['t' as u8, 'r' as u8, 'u' as u8, 'e' as u8]
}

pub open spec fn lit_false() -> Seq<u8> {
    seq!['f' as u8, 'a' as u8, 'l' as u8, 's' as u8, 'e' as u8]
}

/// Decimal digits of a natural number, most significant first.
pub open spec fn dec_digits(n: nat) -> Seq<u8>
    decreases n,
{
    if n < 10 {
        seq![(48 + n) as u8]
    } else {
        dec_digits(n / 10) + seq![(48 + n % 10) as u8]
    }
}

/// An integer in decimal, with a leading minus sign when negative.
pub open spec fn ser_int(i: int) -> Seq<u8> {
    if i < 0 {
        seq!['-' as u8] + dec_digits((-i) as nat)
    } else {
        dec_digits(i as nat)
    }
}

/// The lower-case hex digit for a value below sixteen.
pub open spec fn hex_digit(n: u8) -> u8 {
    if n < 10 {
        (48 + n) as u8
    } else {
        (87 + n) as u8
    }
}

/// How one byte of string content is written: quotes, backslashes and
/// control bytes as `\u00..`, everything else as itself.
pub open spec fn esc_byte(b: u8) -> Seq<u8> {
    if b == 34 || b == 92 || b < 32 {
        seq![92u8, 'u' as u8, '0' as u8, '0' as u8, hex_digit(b / 16), hex_digit(b % 16)]
    } else {
        seq![b]
    }
}

pub open spec fn ser_str_body(s: Seq<u8>) -> Seq<u8>
    decreases s.len(),
{
    if s.len() == 0 {
        Seq::empty()
    } else {
        esc_byte(s[0]) + ser_str_body(s.skip(1))
    }
}

pub open spec fn ser_str(s: Seq<u8>) -> Seq<u8> {
    seq![34u8] + ser_str_body(s) + seq![34u8]
}

/// The bytes a JSON value is written as.
pub open spec fn jser(v: JsonV) -> Seq<u8>
    decreases v, 1int,
{
    match v {
        JsonV::Null => lit_null(),
        JsonV::Bool(b) => if b {
            lit_true()
        } else {
            lit_false()
        },
        JsonV::Int(i) => ser_int(i),
        JsonV::Str(s) => ser_str(s),
        JsonV::Arr(items) => seq!['[' as u8] + ser_items(items) + seq![']' as u8],
        JsonV::Obj(fields) => seq!['{' as u8] + ser_fields(fields) + seq!['}' as u8],
    }
}

pub open spec fn ser_items(items: Seq<JsonV>) -> Seq<u8>
    decreases items, 0int,
{
    if items.len() == 0 {
        Seq::empty()
    } else if items.len() == 1 {
        jser(items[0])
    } else {
        jser(items[0]) + seq![',' as u8] + ser_items(items.skip(1))
    }
}

pub open spec fn ser_fields(fields: Seq<(Seq<u8>, JsonV)>) -> Seq<u8>
    decreases fields, 0int,
{
    if fields.len() == 0 {
        Seq::empty()
    } else if fields.len() == 1 {
        ser_str(fields[0].0) + seq![':' as u8] + jser(fields[0].1)
    } else {
        ser_str(fields[0].0) + seq![':' as u8] + jser(fields[0].1) + seq![',' as u8]
            + ser_fields(fields.skip(1))
    }
}

/// Appending an element extends the comma-separated list at its end.
proof fn lemma_ser_items_snoc(items: Seq<JsonV>, x: JsonV)
    ensures
        ser_items(items.push(x)) == if items.len() == 0 {
            jser(x)
        } else {
            ser_items(items) + seq![',' as u8] + jser(x)
        },
    decreases items.len(),
{
    if items.len() == 0 {
        assert(items.push(x) =~= seq![x]);
        assert(ser_items(seq![x]) == jser(x));
    } else {
        let p = items.push(x);
        assert(p[0] == items[0]);
        assert(p.skip(1) =~= items.skip(1).push(x));
        lemma_ser_items_snoc(items.skip(1), x);
        if items.len() == 1 {
            assert(items.skip(1).len() == 0);
            assert(ser_items(p) == jser(items[0]) + seq![',' as u8] + jser(x));
            assert(ser_items(items) == jser(items[0]));
        } else {
            assert(ser_items(p) == jser(items[0]) + seq![',' as u8] + (ser_items(items.skip(1))
                + seq![',' as u8] + jser(x)));
            assert(ser_items(items) == jser(items[0]) + seq![',' as u8] + ser_items(
                items.skip(1),
            ));
            assert(jser(items[0]) + seq![',' as u8] + (ser_items(items.skip(1)) + seq![',' as u8]
                + jser(x)) =~= (jser(items[0]) + seq![',' as u8] + ser_items(items.skip(1)))
                + seq![',' as u8] + jser(x));
        }
    }
}

proof fn lemma_ser_fields_snoc(fields: Seq<(Seq<u8>, JsonV)>, x: (Seq<u8>, JsonV))
    ensures
        ser_fields(fields.push(x)) == if fields.len() == 0 {
            ser_str(x.0) + seq![':' as u8] + jser(x.1)
        } else {
            ser_fields(fields) + seq![',' as u8] + (ser_str(x.0) + seq![':' as u8] + jser(x.1))
        },
    decreases fields.len(),
{
    let ex = ser_str(x.0) + seq![':' as u8] + jser(x.1);
    if fields.len() == 0 {
        assert(fields.push(x) =~= seq![x]);
        assert(ser_fields(seq![x]) == ex);
    } else {
        let p = fields.push(x);
        let e0 = ser_str(fields[0].0) + seq![':' as u8] + jser(fields[0].1);
        assert(p[0] == fields[0]);
        assert(p.skip(1) =~= fields.skip(1).push(x));
        lemma_ser_fields_snoc(fields.skip(1), x);
        if fields.len() == 1 {
            assert(fields.skip(1).len() == 0);
            assert(ser_fields(p) == e0 + seq![',' as u8] + ex);
            assert(ser_fields(fields) == e0);
        } else {
            assert(ser_fields(p) == e0 + seq![',' as u8] + (ser_fields(fields.skip(1))
                + seq![',' as u8] + ex));
            assert(ser_fields(fields) == e0 + seq![',' as u8] + ser_fields(fields.skip(1)));
            assert(e0 + seq![',' as u8] + (ser_fields(fields.skip(1)) + seq![',' as u8] + ex)
                =~= (e0 + seq![',' as u8] + ser_fields(fields.skip(1))) + seq![',' as u8] + ex);
        }
    }
}

fn hexd(n: u8) -> (r: u8)
    requires
        n < 16,
    ensures
        r == hex_digit(n),
{
    if n < 10 {
        48 + n
    } else {
        87 + n
    }
}

/// Appends the decimal digits of `n`.
pub fn append_dec(n: u64, out: &mut Vec<u8>)
    ensures
        final(out)@ == old(out)@ + dec_digits(n as nat),
    decreases n,
{
    if n < 10 {
        out.push(48 + n as u8);
        proof {
            assert(old(out)@.push((48 + n as nat) as u8) =~= old(out)@ + dec_digits(n as nat));
        }
    } else {
        append_dec(n / 10, out);
        out.push(48 + (n % 10) as u8);
        proof {
            assert((old(out)@ + dec_digits((n / 10) as nat)).push((48 + (n as nat) % 10) as u8)
                =~= old(out)@ + dec_digits(n as nat));
        }
    }
}

/// Appends an integer in decimal.
fn enc_int(i: i64, out: &mut Vec<u8>)
    ensures
        final(out)@ == old(out)@ + ser_int(i as int),
{
    if i < 0 {
        out.push('-' as u8);
        let mag: u64 = ((-(i + 1)) as u64) + 1;
        proof {
            assert(mag as int == -(i as int));
        }
        append_dec(mag, out);
        proof {
            assert(old(out)@.push('-' as u8) + dec_digits(mag as nat) =~= old(out)@ + ser_int(
                i as int,
            ));
        }
    } else {
        append_dec(i as u64, out);
    }
}

/// Appends one string, quoted and escaped.
fn enc_str(s: &Vec<u8>, out: &mut Vec<u8>)
    ensures
        final(out)@ == old(out)@ + ser_str(s@),
{
    out.push(34);
    let ghost start = out@;
    let mut i: usize = 0;
    while i < s.len()
        invariant
            0 <= i <= s@.len(),
            out@ == start + ser_str_body(s@.take(i as int)),
        decreases s@.len() - i,
    {
        let b = s[i];
        if b == 34 || b == 92 || b < 32 {
            out.push(92);
            out.push('u' as u8);
            out.push('0' as u8);
            out.push('0' as u8);
            out.push(hexd(b / 16));
            out.push(hexd(b % 16));
        } else {
            out.push(b);
        }
        proof {
            lemma_ser_str_body_snoc(s@.take(i as int), s@[i as int]);
            assert(s@.take(i as int).push(s@[i as int]) =~= s@.take(i as int + 1));
            assert(out@ =~= start + ser_str_body(s@.take(i as int + 1)));
        }
        i = i + 1;
    }
    out.push(34);
    proof {
        assert(s@.take(s@.len() as int) =~= s@);
        assert((old(out)@.push(34u8) + ser_str_body(s@)).push(34u8) =~= old(out)@ + ser_str(s@));
    }
}

proof fn lemma_ser_str_body_snoc(s: Seq<u8>, b: u8)
    ensures
        ser_str_body(s.push(b)) == ser_str_body(s) + esc_byte(b),
    decreases s.len(),
{
    if s.len() == 0 {
        assert(s.push(b) =~= seq![b]);
        assert(seq![b].skip(1) =~= Seq::<u8>::empty());
        assert(ser_str_body(seq![b]) == esc_byte(seq![b][0]) + ser_str_body(seq![b].skip(1)));
        assert(ser_str_body(Seq::<u8>::empty()) == Seq::<u8>::empty());
        assert(esc_byte(b) + Seq::<u8>::empty() =~= esc_byte(b));
        assert(ser_str_body(s) + esc_byte(b) =~= esc_byte(b));
    } else {
        let p = s.push(b);
        assert(p[0] == s[0]);
        assert(p.skip(1) =~= s.skip(1).push(b));
        lemma_ser_str_body_snoc(s.skip(1), b);
        assert(esc_byte(s[0]) + (ser_str_body(s.skip(1)) + esc_byte(b)) =~= (esc_byte(s[0])
            + ser_str_body(s.skip(1))) + esc_byte(b));
    }
}

/// Appends the bytes a value is written as.
fn enc_val(j: &Json, out: &mut Vec<u8>)
    ensures
        final(out)@ == old(out)@ + jser(jv(*j)),
    decreases *j,
{
    match j {
        Json::Null => {
            out.push('n' as u8);
            out.push('u' as u8);
            out.push('l' as u8);
            out.push('l' as u8);
            proof {
                assert(out@ =~= old(out)@ + lit_null());
            }
        },
        Json::Bool(b) => {
            if *b {
                out.push('t' as u8);
                out.push('r' as u8);
                out.push('u' as u8);
                out.push('e' as u8);
                proof {
                    assert(out@ =~= old(out)@ + lit_true());
                }
            } else {
                out.push('f' as u8);
                out.push('a' as u8);
                out.push('l' as u8);
                out.push('s' as u8);
                out.push('e' as u8);
                proof {
                    assert(out@ =~= old(out)@ + lit_false());
                }
            }
        },
        Json::Int(i) => {
            enc_int(*i, out);
        },
        Json::Str(s) => {
            enc_str(s, out);
        },
        Json::Arr(items) => {
            out.push('[' as u8);
            enc_items(items, out);
            out.push(']' as u8);
            proof {
                assert(out@ =~= old(out)@ + jser(jv(*j)));
            }
        },
        Json::Obj(fields) => {
            out.push('{' as u8);
            enc_fields(fields, out);
            out.push('}' as u8);
            proof {
                assert(out@ =~= old(out)@ + jser(jv(*j)));
            }
        },
    }
}

/// Appends the comma-separated renderings of a value sequence.
fn enc_items(items: &Vec<Json>, out: &mut Vec<u8>)
    ensures
        final(out)@ == old(out)@ + ser_items(jv_seq(items@)),
    decreases items,
{
    let ghost start = out@;
    let ghost gitems = jv_seq(items@);
    proof {
        lemma_jv_seq(items@);
        assert(start + ser_items(gitems.take(0)) =~= start);
    }
    let mut i: usize = 0;
    while i < items.len()
        invariant
            0 <= i <= items@.len(),
            gitems == jv_seq(items@),
            gitems.len() == items@.len(),
            forall|k: int| 0 <= k < items@.len() ==> gitems[k] == jv(items@[k]),
            out@ == start + ser_items(gitems.take(i as int)),
        decreases items@.len() - i,
    {
        if i > 0 {
            out.push(',' as u8);
        }
        enc_val(&items[i], out);
        proof {
            lemma_ser_items_snoc(gitems.take(i as int), gitems[i as int]);
            assert(gitems.take(i as int).push(gitems[i as int]) =~= gitems.take(i as int + 1));
            assert(out@ =~= start + ser_items(gitems.take(i as int + 1)));
        }
        i = i + 1;
    }
    proof {
        assert(gitems.take(gitems.len() as int) =~= gitems);
    }
}

/// Appends the comma-separated renderings of an object's fields.
fn enc_fields(fields: &Vec<(Vec<u8>, Json)>, out: &mut Vec<u8>)
    ensures
        final(out)@ == old(out)@ + ser_fields(jv_fields(fields@)),
    decreases fields,
{
    let ghost start = out@;
    let ghost gfields = jv_fields(fields@);
    proof {
        lemma_jv_fields(fields@);
        assert(start + ser_fields(gfields.take(0)) =~= start);
    }
    let mut i: usize = 0;
    while i < fields.len()
        invariant
            0 <= i <= fields@.len(),
            gfields == jv_fields(fields@),
            gfields.len() == fields@.len(),
            forall|k: int| 0 <= k < fields@.len()
                ==> gfields[k] == (fields@[k].0@, jv(fields@[k].1)),
            out@ == start + ser_fields(gfields.take(i as int)),
        decreases fields@.len() - i,
    {
        if i > 0 {
            out.push(',' as u8);
        }
        enc_str(&fields[i].0, out);
        out.push(':' as u8);
        enc_val(&fields[i].1, out);
        proof {
            lemma_ser_fields_snoc(gfields.take(i as int), gfields[i as int]);
            assert(gfields.take(i as int).push(gfields[i as int]) =~= gfields.take(i as int + 1));
            assert(out@ =~= start + ser_fields(gfields.take(i as int + 1)));
        }
        i = i + 1;
    }
    proof {
        assert(gfields.take(gfields.len() as int) =~= gfields);
    }
}

/// The compact JSON text of a value, exactly [`jser`] of its abstraction.
pub fn json_encode(j: &Json) -> (r: Vec<u8>)
    ensures
        r@ == jser(jv(*j)),
{
    let mut out: Vec<u8> = Vec::new();
    enc_val(j, &mut out);
    proof {
        assert(Seq::<u8>::empty() + jser(jv(*j)) =~= jser(jv(*j)));
    }
    out
}

/// Equal concatenations with equally long heads have equal parts.
pub proof fn lemma_concat_cancel(a: Seq<u8>, b: Seq<u8>, c: Seq<u8>, d: Seq<u8>)
    requires
        a + b == c + d,
        a.len() == c.len(),
    ensures
        a == c,
        b == d,
{
    assert forall|i: int| 0 <= i < a.len() implies a[i] == c[i] by {
        assert((a + b)[i] == a[i]);
        assert((c + d)[i] == c[i]);
    }
    assert(a =~= c);
    assert((a + b).len() == a.len() + b.len());
    assert((c + d).len() == c.len() + d.len());
    assert(b.len() == d.len());
    assert forall|j: int| 0 <= j < b.len() implies b[j] == d[j] by {
        assert((a + b)[a.len() + j] == b[j]);
        assert((c + d)[c.len() + j] == d[j]);
    }
    assert(b =~= d);
}

/// A decimal rendering is never empty and holds digits alone.
pub proof fn lemma_dec_digits_shape(n: nat)
    ensures
        dec_digits(n).len() >= 1,
        forall|i: int| 0 <= i < dec_digits(n).len() ==> 48 <= #[trigger] dec_digits(n)[i] <= 57,
    decreases n,
{
    if n >= 10 {
        lemma_dec_digits_shape(n / 10);
        assert forall|i: int| 0 <= i < dec_digits(n).len() implies 48 <= #[trigger] dec_digits(
            n,
        )[i] <= 57 by {
            if i < dec_digits(n / 10).len() {
                assert(dec_digits(n)[i] == dec_digits(n / 10)[i]);
            }
        }
    }
}

/// Two numbers with the same decimal rendering are the same number.
pub proof fn lemma_dec_digits_inj(n1: nat, n2: nat)
    requires
        dec_digits(n1) == dec_digits(n2),
    ensures
        n1 == n2,
    decreases n1,
{
    lemma_dec_digits_shape(n1);
    lemma_dec_digits_shape(n2);
    if n1 < 10 && n2 < 10 {
        assert(dec_digits(n1) == seq![(48 + n1) as u8]);
        assert(dec_digits(n2) == seq![(48 + n2) as u8]);
        assert(seq![(48 + n1) as u8][0] == seq![(48 + n2) as u8][0]);
        assert((48 + n1) as u8 == (48 + n2) as u8);
    } else if n1 < 10 {
        assert(dec_digits(n1) == seq![(48 + n1) as u8]);
        assert(dec_digits(n2) == dec_digits(n2 / 10) + seq![(48 + n2 % 10) as u8]);
        assert(dec_digits(n2).len() == dec_digits(n2 / 10).len() + 1);
        assert(dec_digits(n1).len() == 1);
        assert(false);
    } else if n2 < 10 {
        assert(dec_digits(n2) == seq![(48 + n2) as u8]);
        assert(dec_digits(n1) == dec_digits(n1 / 10) + seq![(48 + n1 % 10) as u8]);
        assert(dec_digits(n1).len() == dec_digits(n1 / 10).len() + 1);
        assert(false);
    } else {
        let a = dec_digits(n1 / 10);
        let b = dec_digits(n2 / 10);
        assert(dec_digits(n1) == a + seq![(48 + n1 % 10) as u8]);
        assert(dec_digits(n2) == b + seq![(48 + n2 % 10) as u8]);
        assert(a.len() == b.len()) by {
            assert(dec_digits(n1).len() == a.len() + 1);
            assert(dec_digits(n2).len() == b.len() + 1);
        }
        lemma_concat_cancel(
            a,
            seq![(48 + n1 % 10) as u8],
            b,
            seq![(48 + n2 % 10) as u8],
        );
        lemma_dec_digits_inj(n1 / 10, n2 / 10);
        assert(seq![(48 + n1 % 10) as u8][0] == seq![(48 + n2 % 10) as u8][0]);
        assert((48 + n1 % 10) as u8 == (48 + n2 % 10) as u8);
        assert(n1 % 10 == n2 % 10);
        assert(n1 == 10 * (n1 / 10) + n1 % 10);
        assert(n2 == 10 * (n2 / 10) + n2 % 10);
    }
}

/// Where what follows cannot be a digit, a digit run reads as exactly one
/// number: the same bytes cannot spell two.
pub proof fn lemma_dec_digits_unique(n1: nat, n2: nat, r1: Seq<u8>, r2: Seq<u8>)
    requires
        dec_digits(n1) + r1 == dec_digits(n2) + r2,
        r1.len() == 0 || !(48 <= r1[0] <= 57),
        r2.len() == 0 || !(48 <= r2[0] <= 57),
    ensures
        n1 == n2,
        r1 == r2,
{
    lemma_dec_digits_shape(n1);
    lemma_dec_digits_shape(n2);
    let d1 = dec_digits(n1);
    let d2 = dec_digits(n2);
    if d1.len() < d2.len() {
        assert((d1 + r1)[d1.len() as int] == r1[0]);
        assert((d2 + r2)[d1.len() as int] == d2[d1.len() as int]);
        assert(false);
    }
    if d2.len() < d1.len() {
        assert((d2 + r2)[d2.len() as int] == r2[0]);
        assert((d1 + r1)[d2.len() as int] == d1[d2.len() as int]);
        assert(false);
    }
    lemma_concat_cancel(d1, r1, d2, r2);
    lemma_dec_digits_inj(n1, n2);
}

/// Escaped string content reads back as exactly one string: up to the
/// closing quote the bytes determine the content.
proof fn lemma_str_body_unique(s1: Seq<u8>, s2: Seq<u8>, t1: Seq<u8>, t2: Seq<u8>)
    requires
        ser_str_body(s1) + seq![34u8] + t1 == ser_str_body(s2) + seq![34u8] + t2,
    ensures
        s1 == s2,
        t1 == t2,
    decreases s1.len(),
{
    if s1.len() == 0 && s2.len() == 0 {
        assert(ser_str_body(s1) + seq![34u8] + t1 =~= seq![34u8] + t1);
        assert(ser_str_body(s2) + seq![34u8] + t2 =~= seq![34u8] + t2);
        lemma_concat_cancel(seq![34u8], t1, seq![34u8], t2);
    } else if s1.len() == 0 {
        let e2 = esc_byte(s2[0]);
        assert((ser_str_body(s1) + seq![34u8] + t1)[0] == 34);
        assert(ser_str_body(s2) + seq![34u8] + t2 =~= e2 + (ser_str_body(s2.skip(1))
            + seq![34u8] + t2));
        assert((e2 + (ser_str_body(s2.skip(1)) + seq![34u8] + t2))[0] == e2[0]);
        assert(e2[0] != 34);
        assert(false);
    } else if s2.len() == 0 {
        let e1 = esc_byte(s1[0]);
        assert((ser_str_body(s2) + seq![34u8] + t2)[0] == 34);
        assert(ser_str_body(s1) + seq![34u8] + t1 =~= e1 + (ser_str_body(s1.skip(1))
            + seq![34u8] + t1));
        assert((e1 + (ser_str_body(s1.skip(1)) + seq![34u8] + t1))[0] == e1[0]);
        assert(e1[0] != 34);
        assert(false);
    } else {
        let e1 = esc_byte(s1[0]);
        let e2 = esc_byte(s2[0]);
        let rest1 = ser_str_body(s1.skip(1)) + seq![34u8] + t1;
        let rest2 = ser_str_body(s2.skip(1)) + seq![34u8] + t2;
        assert(ser_str_body(s1) + seq![34u8] + t1 =~= e1 + rest1);
        assert(ser_str_body(s2) + seq![34u8] + t2 =~= e2 + rest2);
        assert((e1 + rest1)[0] == e1[0]);
        assert((e2 + rest2)[0] == e2[0]);
        let esc1 = s1[0] == 34 || s1[0] == 92 || s1[0] < 32;
        let esc2 = s2[0] == 34 || s2[0] == 92 || s2[0] < 32;
        if esc1 && !esc2 {
            assert(e1[0] == 92 && e2[0] == s2[0] && s2[0] != 92);
            assert(false);
        }
        if !esc1 && esc2 {
            assert(e2[0] == 92 && e1[0] == s1[0] && s1[0] != 92);
            assert(false);
        }
        if esc1 && esc2 {
            lemma_concat_cancel(e1, rest1, e2, rest2);
            assert(e1[4] == e2[4] && e1[5] == e2[5]);
            assert(hex_digit(s1[0] / 16) == hex_digit(s2[0] / 16));
            assert(hex_digit(s1[0] % 16) == hex_digit(s2[0] % 16));
            assert(s1[0] / 16 == s2[0] / 16);
            assert(s1[0] % 16 == s2[0] % 16);
            assert(s1[0] == s2[0]);
        } else {
            lemma_concat_cancel(e1, rest1, e2, rest2);
            assert(s1[0] == s2[0]);
        }
        lemma_str_body_unique(s1.skip(1), s2.skip(1), t1, t2);
        assert(s1 =~= s2) by {
            assert(s1.len() == s2.len()) by {
                assert(s1.skip(1).len() == s2.skip(1).len());
            }
            assert(forall|i: int| 1 <= i < s1.len() ==> s1[i] == s1.skip(1)[i - 1]
                && s2[i] == s2.skip(1)[i - 1]);
        }
    }
}

/// The first byte of a rendering names the kind of its value.
pub proof fn lemma_jser_first_byte(v: JsonV)
    ensures
        jser(v).len() >= 1,
        match v {
            JsonV::Null => jser(v)[0] == 'n' as u8,
            JsonV::Bool(b) => jser(v)[0] == (if b { 't' as u8 } else { 'f' as u8 }),
            JsonV::Int(i) => jser(v)[0] == '-' as u8 || 48 <= jser(v)[0] <= 57,
            JsonV::Str(_) => jser(v)[0] == 34,
            JsonV::Arr(_) => jser(v)[0] == '[' as u8,
            JsonV::Obj(_) => jser(v)[0] == '{' as u8,
        },
{
    match v {
        JsonV::Int(i) => {
            if i < 0 {
                assert(jser(v)[0] == (seq!['-' as u8] + dec_digits((-i) as nat))[0]);
            } else {
                lemma_dec_digits_shape(i as nat);
                assert(jser(v)[0] == dec_digits(i as nat)[0]);
            }
        },
        _ => {},
    }
}

/// Bytes that may follow a complete value inside a frame body: nothing, or
/// a separator or closing bracket.
pub open spec fn closer(r: Seq<u8>) -> bool {
    r.len() == 0 || r[0] == ',' as u8 || r[0] == ']' as u8 || r[0] == '}' as u8
}

/// Followed by closers, equal byte runs spell equal values: the rendering
/// of a value is readable in exactly one way.
pub proof fn lemma_val_unique(v1: JsonV, v2: JsonV, r1: Seq<u8>, r2: Seq<u8>)
    requires
        jser(v1) + r1 == jser(v2) + r2,
        closer(r1),
        closer(r2),
    ensures
        v1 == v2,
        r1 == r2,
    decreases v1, 1int,
{
    lemma_jser_first_byte(v1);
    lemma_jser_first_byte(v2);
    assert((jser(v1) + r1)[0] == jser(v1)[0]);
    assert((jser(v2) + r2)[0] == jser(v2)[0]);
    match (v1, v2) {
        (JsonV::Null, JsonV::Null) => {
            lemma_concat_cancel(jser(v1), r1, jser(v2), r2);
        },
        (JsonV::Bool(b1), JsonV::Bool(b2)) => {
            if b1 != b2 {
                assert(false);
            }
            lemma_concat_cancel(jser(v1), r1, jser(v2), r2);
        },
        (JsonV::Int(i1), JsonV::Int(i2)) => {
            if i1 < 0 && i2 >= 0 {
                lemma_dec_digits_shape(i2 as nat);
                assert(jser(v2)[0] == dec_digits(i2 as nat)[0]);
                assert(false);
            }
            if i1 >= 0 && i2 < 0 {
                lemma_dec_digits_shape(i1 as nat);
                assert(jser(v1)[0] == dec_digits(i1 as nat)[0]);
                assert(false);
            }
            if i1 < 0 {
                let n1 = (-i1) as nat;
                let n2 = (-i2) as nat;
                assert(jser(v1) + r1 =~= seq!['-' as u8] + (dec_digits(n1) + r1));
                assert(jser(v2) + r2 =~= seq!['-' as u8] + (dec_digits(n2) + r2));
                lemma_concat_cancel(
                    seq!['-' as u8],
                    dec_digits(n1) + r1,
                    seq!['-' as u8],
                    dec_digits(n2) + r2,
                );
                lemma_dec_digits_unique(n1, n2, r1, r2);
            } else {
                lemma_dec_digits_unique(i1 as nat, i2 as nat, r1, r2);
            }
        },
        (JsonV::Str(s1), JsonV::Str(s2)) => {
            assert(jser(v1) + r1 =~= seq![34u8] + (ser_str_body(s1) + seq![34u8] + r1));
            assert(jser(v2) + r2 =~= seq![34u8] + (ser_str_body(s2) + seq![34u8] + r2));
            lemma_concat_cancel(
                seq![34u8],
                ser_str_body(s1) + seq![34u8] + r1,
                seq![34u8],
                ser_str_body(s2) + seq![34u8] + r2,
            );
            lemma_str_body_unique(s1, s2, r1, r2);
        },
        (JsonV::Arr(items1), JsonV::Arr(items2)) => {
            let u1 = seq![']' as u8] + r1;
            let u2 = seq![']' as u8] + r2;
            assert(jser(v1) + r1 =~= seq!['[' as u8] + (ser_items(items1) + u1));
            assert(jser(v2) + r2 =~= seq!['[' as u8] + (ser_items(items2) + u2));
            lemma_concat_cancel(
                seq!['[' as u8],
                ser_items(items1) + u1,
                seq!['[' as u8],
                ser_items(items2) + u2,
            );
            assert(u1[0] == ']' as u8 && u2[0] == ']' as u8);
            lemma_items_unique(items1, items2, u1, u2);
            lemma_concat_cancel(seq![']' as u8], r1, seq![']' as u8], r2);
        },
        (JsonV::Obj(fields1), JsonV::Obj(fields2)) => {
            let u1 = seq!['}' as u8] + r1;
            let u2 = seq!['}' as u8] + r2;
            assert(jser(v1) + r1 =~= seq!['{' as u8] + (ser_fields(fields1) + u1));
            assert(jser(v2) + r2 =~= seq!['{' as u8] + (ser_fields(fields2) + u2));
            lemma_concat_cancel(
                seq!['{' as u8],
                ser_fields(fields1) + u1,
                seq!['{' as u8],
                ser_fields(fields2) + u2,
            );
            assert(u1[0] == '}' as u8 && u2[0] == '}' as u8);
            lemma_fields_unique(fields1, fields2, u1, u2);
            lemma_concat_cancel(seq!['}' as u8], r1, seq!['}' as u8], r2);
        },
        _ => {
            assert(false);
        },
    }
}

/// The same, for a comma-separated element run up to its closing bracket.
proof fn lemma_items_unique(items1: Seq<JsonV>, items2: Seq<JsonV>, u1: Seq<u8>, u2: Seq<u8>)
    requires
        ser_items(items1) + u1 == ser_items(items2) + u2,
        u1.len() > 0,
        u1[0] == ']' as u8,
        u2.len() > 0,
        u2[0] == ']' as u8,
    ensures
        items1 == items2,
        u1 == u2,
    decreases items1, 0int,
{
    if items1.len() == 0 && items2.len() == 0 {
        assert(ser_items(items1) + u1 =~= u1);
        assert(ser_items(items2) + u2 =~= u2);
    } else if items1.len() == 0 {
        lemma_jser_first_byte(items2[0]);
        assert((ser_items(items1) + u1)[0] == u1[0]);
        assert(ser_items(items2)[0] == jser(items2[0])[0]) by {
            if items2.len() == 1 {
            } else {
                assert(ser_items(items2) == jser(items2[0]) + seq![',' as u8] + ser_items(
                    items2.skip(1),
                ));
            }
        }
        assert((ser_items(items2) + u2)[0] == ser_items(items2)[0]) by {
            lemma_jser_first_byte(items2[0]);
            assert(ser_items(items2).len() > 0);
        }
        assert(false);
    } else if items2.len() == 0 {
        lemma_jser_first_byte(items1[0]);
        assert((ser_items(items2) + u2)[0] == u2[0]);
        assert(ser_items(items1)[0] == jser(items1[0])[0]) by {
            if items1.len() == 1 {
            } else {
                assert(ser_items(items1) == jser(items1[0]) + seq![',' as u8] + ser_items(
                    items1.skip(1),
                ));
            }
        }
        assert((ser_items(items1) + u1)[0] == ser_items(items1)[0]) by {
            assert(ser_items(items1).len() > 0);
        }
        assert(false);
    } else {
        let e1 = items1[0];
        let e2 = items2[0];
        let tail1: Seq<u8> = if items1.len() == 1 {
            u1
        } else {
            seq![',' as u8] + (ser_items(items1.skip(1)) + u1)
        };
        let tail2: Seq<u8> = if items2.len() == 1 {
            u2
        } else {
            seq![',' as u8] + (ser_items(items2.skip(1)) + u2)
        };
        assert(ser_items(items1) + u1 =~= jser(e1) + tail1);
        assert(ser_items(items2) + u2 =~= jser(e2) + tail2);
        assert(closer(tail1) && closer(tail2));
        lemma_val_unique(e1, e2, tail1, tail2);
        if items1.len() == 1 && items2.len() == 1 {
            assert(items1 =~= items2);
        } else if items1.len() == 1 {
            assert(tail1[0] == ']' as u8);
            assert(tail2[0] == ',' as u8);
            assert(false);
        } else if items2.len() == 1 {
            assert(tail1[0] == ',' as u8);
            assert(tail2[0] == ']' as u8);
            assert(false);
        } else {
            lemma_concat_cancel(
                seq![',' as u8],
                ser_items(items1.skip(1)) + u1,
                seq![',' as u8],
                ser_items(items2.skip(1)) + u2,
            );
            lemma_items_unique(items1.skip(1), items2.skip(1), u1, u2);
            assert(items1 =~= items2) by {
                assert(items1.skip(1) =~= items2.skip(1));
                assert(forall|i: int| 1 <= i < items1.len() ==> items1[i] == items1.skip(1)[i - 1]
                    && items2[i] == items2.skip(1)[i - 1]);
            }
        }
    }
}

/// The same, for an object's key–value run up to its closing brace.
#[verifier::rlimit(100)]
proof fn lemma_fields_unique(
    fields1: Seq<(Seq<u8>, JsonV)>,
    fields2: Seq<(Seq<u8>, JsonV)>,
    u1: Seq<u8>,
    u2: Seq<u8>,
)
    requires
        ser_fields(fields1) + u1 == ser_fields(fields2) + u2,
        u1.len() > 0,
        u1[0] == '}' as u8,
        u2.len() > 0,
        u2[0] == '}' as u8,
    ensures
        fields1 == fields2,
        u1 == u2,
    decreases fields1, 0int,
{
    if fields1.len() == 0 && fields2.len() == 0 {
        assert(ser_fields(fields1) + u1 =~= u1);
        assert(ser_fields(fields2) + u2 =~= u2);
    } else if fields1.len() == 0 {
        assert((ser_fields(fields1) + u1)[0] == u1[0]);
        assert(ser_fields(fields2) + u2 =~= seq![34u8] + (ser_str_body(fields2[0].0)
            + seq![34u8] + (seq![':' as u8] + (jser(fields2[0].1) + tail_of(fields2, u2)))));
        assert(false);
    } else if fields2.len() == 0 {
        assert((ser_fields(fields2) + u2)[0] == u2[0]);
        assert(ser_fields(fields1) + u1 =~= seq![34u8] + (ser_str_body(fields1[0].0)
            + seq![34u8] + (seq![':' as u8] + (jser(fields1[0].1) + tail_of(fields1, u1)))));
        assert(false);
    } else {
        let k1 = fields1[0].0;
        let k2 = fields2[0].0;
        let w1 = seq![':' as u8] + (jser(fields1[0].1) + tail_of(fields1, u1));
        let w2 = seq![':' as u8] + (jser(fields2[0].1) + tail_of(fields2, u2));
        assert(ser_fields(fields1) + u1 =~= seq![34u8] + (ser_str_body(k1) + seq![34u8] + w1));
        assert(ser_fields(fields2) + u2 =~= seq![34u8] + (ser_str_body(k2) + seq![34u8] + w2));
        lemma_concat_cancel(
            seq![34u8],
            ser_str_body(k1) + seq![34u8] + w1,
            seq![34u8],
            ser_str_body(k2) + seq![34u8] + w2,
        );
        lemma_str_body_unique(k1, k2, w1, w2);
        lemma_concat_cancel(
            seq![':' as u8],
            jser(fields1[0].1) + tail_of(fields1, u1),
            seq![':' as u8],
            jser(fields2[0].1) + tail_of(fields2, u2),
        );
        assert(closer(tail_of(fields1, u1)) && closer(tail_of(fields2, u2)));
        lemma_val_unique(fields1[0].1, fields2[0].1, tail_of(fields1, u1), tail_of(fields2, u2));
        if fields1.len() == 1 && fields2.len() == 1 {
            assert(fields1 =~= fields2);
        } else if fields1.len() == 1 {
            assert(tail_of(fields1, u1)[0] == '}' as u8);
            assert(tail_of(fields2, u2)[0] == ',' as u8);
            assert(false);
        } else if fields2.len() == 1 {
            assert(false);
        } else {
            lemma_concat_cancel(
                seq![',' as u8],
                ser_fields(fields1.skip(1)) + u1,
                seq![',' as u8],
                ser_fields(fields2.skip(1)) + u2,
            );
            lemma_fields_unique(fields1.skip(1), fields2.skip(1), u1, u2);
            assert(fields1 =~= fields2) by {
                assert(fields1.skip(1) =~= fields2.skip(1));
                assert(forall|i: int| 1 <= i < fields1.len() ==> fields1[i] == fields1.skip(
                    1,
                )[i - 1] && fields2[i] == fields2.skip(1)[i - 1]);
            }
        }
    }
}

/// What follows an object's first rendered field: the closer itself for a
/// one-field object, else a comma and the remaining fields.
pub open spec fn tail_of(fields: Seq<(Seq<u8>, JsonV)>, u: Seq<u8>) -> Seq<u8> {
    if fields.len() == 1 {
        u
    } else {
        seq![',' as u8] + (ser_fields(fields.skip(1)) + u)
    }
}

/// Two values with the same rendering are the same value.
pub proof fn lemma_jser_injective(v1: JsonV, v2: JsonV)
    requires
        jser(v1) == jser(v2),
    ensures
        v1 == v2,
{
    assert(jser(v1) + Seq::<u8>::empty() =~= jser(v1));
    assert(jser(v2) + Seq::<u8>::empty() =~= jser(v2));
    lemma_val_unique(v1, v2, Seq::empty(), Seq::empty());
}

/// The whitespace bytes the reader steps over.
pub open spec fn ws_b(b: u8) -> bool {
    b == 32 || b == 9 || b == 10 || b == 13
}

/// Values every message of this wire can hold: integers within the signed
/// 64-bit space, throughout.
pub open spec fn wf_jv(v: JsonV) -> bool
    decreases v, 1int,
{
    match v {
        JsonV::Int(i) => i64::MIN <= i <= i64::MAX,
        JsonV::Arr(items) => wf_jv_seq(items),
        JsonV::Obj(fields) => wf_jv_fields(fields),
        _ => true,
    }
}

pub open spec fn wf_jv_seq(items: Seq<JsonV>) -> bool
    decreases items, 0int,
{
    items.len() == 0 || (wf_jv(items[0]) && wf_jv_seq(items.skip(1)))
}

pub open spec fn wf_jv_fields(fields: Seq<(Seq<u8>, JsonV)>) -> bool
    decreases fields, 0int,
{
    fields.len() == 0 || (wf_jv(fields[0].1) && wf_jv_fields(fields.skip(1)))
}

proof fn lemma_wf_jv_seq_index(items: Seq<JsonV>, c: int)
    requires
        wf_jv_seq(items),
        0 <= c < items.len(),
    ensures
        wf_jv(items[c]),
    decreases c,
{
    if c > 0 {
        assert(items.skip(1)[c - 1] == items[c]);
        lemma_wf_jv_seq_index(items.skip(1), c - 1);
    }
}

proof fn lemma_wf_jv_fields_index(fields: Seq<(Seq<u8>, JsonV)>, c: int)
    requires
        wf_jv_fields(fields),
        0 <= c < fields.len(),
    ensures
        wf_jv(fields[c].1),
    decreases c,
{
    if c > 0 {
        assert(fields.skip(1)[c - 1] == fields[c]);
        lemma_wf_jv_fields_index(fields.skip(1), c - 1);
    }
}

/// The bytes at position `i` begin the rendering of `v`, then `rest` — and
/// `rest` opens with a separator or closing bracket, so the value ends
/// where its rendering does.
pub open spec fn canon_at(s: Seq<u8>, i: int, v: JsonV, rest: Seq<u8>) -> bool {
    &&& 0 <= i <= s.len()
    &&& s.skip(i) == jser(v) + rest
    &&& closer(rest)
    &&& wf_jv(v)
}

/// The number a digit run spells, most significant digit first.
pub open spec fn num_of(d: Seq<u8>) -> nat
    decreases d.len(),
{
    if d.len() == 0 {
        0
    } else {
        num_of(d.take(d.len() - 1)) * 10 + (d[d.len() - 1] - 48) as nat
    }
}

proof fn lemma_num_of_dec(n: nat)
    ensures
        num_of(dec_digits(n)) == n,
    decreases n,
{
    if n < 10 {
        let d = seq![(48 + n) as u8];
        assert(dec_digits(n) == d);
        assert(d.take(0) =~= Seq::<u8>::empty());
        assert(num_of(Seq::<u8>::empty()) == 0);
        assert(num_of(d) == num_of(d.take(0)) * 10 + (d[0] - 48) as nat);
        assert((d[0] - 48) as nat == n);
    } else {
        let a = dec_digits(n / 10);
        let d = a + seq![(48 + n % 10) as u8];
        assert(dec_digits(n) == d);
        assert(d.len() == a.len() + 1);
        assert(d.take(a.len() as int) =~= a);
        assert(d[d.len() - 1] == (48 + n % 10) as u8);
        assert(num_of(d) == num_of(a) * 10 + ((48 + n % 10) as u8 - 48) as nat);
        lemma_num_of_dec(n / 10);
        assert(((48 + n % 10) as u8 - 48) as nat == n % 10);
        assert((n / 10) * 10 + n % 10 == n);
    }
}

proof fn lemma_num_of_snoc(d: Seq<u8>, b: u8)
    ensures
        num_of(d.push(b)) == num_of(d) * 10 + (b - 48) as nat,
{
    assert(d.push(b).take(d.len() as int) =~= d);
    assert(d.push(b)[d.push(b).len() - 1] == b);
}

proof fn lemma_num_of_take_le(d: Seq<u8>, c: int)
    requires
        0 <= c <= d.len(),
        forall|k: int| 0 <= k < d.len() ==> 48 <= #[trigger] d[k] <= 57,
    ensures
        num_of(d.take(c)) <= num_of(d),
    decreases d.len() - c,
{
    if c < d.len() {
        assert(d.take(c + 1) =~= d.take(c).push(d[c]));
        lemma_num_of_snoc(d.take(c), d[c]);
        assert(num_of(d.take(c)) <= num_of(d.take(c)) * 10) by (nonlinear_arith);
        lemma_num_of_take_le(d, c + 1);
    } else {
        assert(d.take(c) =~= d);
    }
}

fn is_ws(b: u8) -> (r: bool)
    ensures
        r == ws_b(b),
{
    b == 32 || b == 9 || b == 10 || b == 13
}

fn skip_ws(s: &[u8], i: usize) -> (j: usize)
    requires
        i <= s@.len(),
    ensures
        i <= j <= s@.len(),
        forall|k: int| i <= k < j ==> ws_b(#[trigger] s@[k]),
        j < s@.len() ==> !ws_b(s@[j as int]),
{
    let mut j = i;
    while j < s.len() && is_ws(s[j])
        invariant
            i <= j <= s@.len(),
            forall|k: int| i <= k < j ==> ws_b(#[trigger] s@[k]),
        decreases s@.len() - j,
    {
        j = j + 1;
    }
    j
}

fn hex_val(b: u8) -> (r: Option<u8>)
    ensures
        r matches Option::Some(v) ==> v < 16,
        48 <= b <= 57 ==> r == Option::Some((b - 48) as u8),
        97 <= b <= 102 ==> r == Option::Some((b - 87) as u8),
        65 <= b <= 70 ==> r == Option::Some((b - 55) as u8),
{
    if 48 <= b && b <= 57 {
        Option::Some(b - 48)
    } else if 97 <= b && b <= 102 {
        Option::Some(b - 87)
    } else if 65 <= b && b <= 70 {
        Option::Some(b - 55)
    } else {
        Option::None
    }
}

/// Whether a string-read hypothesis holds, and the content it names.
pub open spec fn str_hyp_ok(hyp: Option<(Seq<u8>, Seq<u8>)>, s: Seq<u8>, i: int) -> bool {
    match hyp {
        Option::Some((sv, rest)) => 0 <= i <= s.len() && s.skip(i) == ser_str(sv) + rest,
        Option::None => false,
    }
}

pub open spec fn hyp_sv(hyp: Option<(Seq<u8>, Seq<u8>)>) -> Seq<u8> {
    match hyp {
        Option::Some((sv, _)) => sv,
        Option::None => Seq::empty(),
    }
}

pub open spec fn hyp_sr(hyp: Option<(Seq<u8>, Seq<u8>)>) -> Seq<u8> {
    match hyp {
        Option::Some((_, rest)) => rest,
        Option::None => Seq::empty(),
    }
}

/// Reads a quoted string starting at the opening quote; yields the content
/// bytes with escapes resolved, and the position after the closing quote.
/// On the writer's own spelling it yields exactly the written content.
#[verifier::rlimit(100)]
fn parse_string(s: &[u8], i: usize, Ghost(hyp): Ghost<Option<(Seq<u8>, Seq<u8>)>>) -> (r: Option<
    (Vec<u8>, usize)>)
    requires
        i < s@.len(),
    ensures
        r matches Option::Some(p) ==> i < p.1 <= s@.len(),
        str_hyp_ok(hyp, s@, i as int) ==> (r matches Option::Some(p) && p.0@ == hyp_sv(hyp)
            && p.1 == i + ser_str(hyp_sv(hyp)).len()),
{
    let ghost hypgood = str_hyp_ok(hyp, s@, i as int);
    let ghost gsv = hyp_sv(hyp);
    let ghost grest = hyp_sr(hyp);
    proof {
        if hypgood {
            assert(s@.skip(i as int) =~= seq![34u8] + (ser_str_body(gsv) + seq![34u8] + grest));
            assert(s@[i as int] == s@.skip(i as int)[0]);
        }
    }
    if s[i] != 34 {
        proof {
            assert(!hypgood);
        }
        return Option::None;
    }
    let mut out: Vec<u8> = Vec::new();
    let mut k = i + 1;
    let ghost mut c: int = 0;
    proof {
        if hypgood {
            assert((seq![34u8] + (ser_str_body(gsv) + seq![34u8] + grest)).skip(1)
                =~= ser_str_body(gsv) + seq![34u8] + grest);
            assert(s@.skip(i as int).skip(1) =~= s@.skip(k as int));
            assert(gsv.skip(0) =~= gsv);
            assert(gsv.take(0) =~= Seq::<u8>::empty());
        }
    }
    loop
        invariant
            i < k <= s@.len(),
            hypgood == str_hyp_ok(hyp, s@, i as int),
            gsv == hyp_sv(hyp),
            grest == hyp_sr(hyp),
            hypgood ==> {
                &&& 0 <= c <= gsv.len()
                &&& out@ == gsv.take(c)
                &&& s@.skip(k as int) == ser_str_body(gsv.skip(c)) + seq![34u8] + grest
            },
        decreases s@.len() - k,
    {
        proof {
            if hypgood {
                assert(s@.skip(k as int).len() >= 1);
                if c < gsv.len() {
                    assert(gsv.skip(c)[0] == gsv[c]);
                    assert(gsv.skip(c).skip(1) =~= gsv.skip(c + 1));
                    assert(ser_str_body(gsv.skip(c)) == esc_byte(gsv[c]) + ser_str_body(
                        gsv.skip(c + 1),
                    ));
                    assert(s@.skip(k as int) =~= esc_byte(gsv[c]) + (ser_str_body(
                        gsv.skip(c + 1),
                    ) + seq![34u8] + grest));
                    if gsv[c] == 34 || gsv[c] == 92 || gsv[c] < 32 {
                        assert(s@.skip(k as int).len() >= 7);
                        assert(s@[k + 0] == s@.skip(k as int)[0] && s@.skip(k as int)[0]
                            == esc_byte(gsv[c])[0]);
                        assert(s@[k + 1] == s@.skip(k as int)[1] && s@.skip(k as int)[1]
                            == esc_byte(gsv[c])[1]);
                        assert(s@[k + 2] == s@.skip(k as int)[2] && s@.skip(k as int)[2]
                            == esc_byte(gsv[c])[2]);
                        assert(s@[k + 3] == s@.skip(k as int)[3] && s@.skip(k as int)[3]
                            == esc_byte(gsv[c])[3]);
                        assert(s@[k + 4] == s@.skip(k as int)[4] && s@.skip(k as int)[4]
                            == esc_byte(gsv[c])[4]);
                        assert(s@[k + 5] == s@.skip(k as int)[5] && s@.skip(k as int)[5]
                            == esc_byte(gsv[c])[5]);
                        assert(s@[k as int] == 92);
                    } else {
                        assert(s@[k as int] == s@.skip(k as int)[0]);
                        assert(s@.skip(k as int)[0] == esc_byte(gsv[c])[0]);
                        assert(s@[k as int] == gsv[c]);
                    }
                } else {
                    assert(gsv.skip(c).len() == 0);
                    assert(s@.skip(k as int) =~= seq![34u8] + grest);
                    assert(s@[k as int] == s@.skip(k as int)[0]);
                    assert(s@[k as int] == 34);
                }
            }
        }
        if k >= s.len() {
            proof {
                assert(!hypgood);
            }
            return Option::None;
        }
        let b = s[k];
        if b == 34 {
            proof {
                if hypgood {
                    assert(c == gsv.len());
                    assert(out@ =~= gsv);
                    assert(s@.skip(k as int).len() == 1 + grest.len());
                    assert(s@.skip(i as int).len() == ser_str(gsv).len() + grest.len());
                }
            }
            return Option::Some((out, k + 1));
        }
        if b == 92 {
            proof {
                if hypgood {
                    assert(c < gsv.len());
                    assert(gsv[c] == 34 || gsv[c] == 92 || gsv[c] < 32);
                }
            }
            if k + 1 >= s.len() {
                proof {
                    assert(!hypgood);
                }
                return Option::None;
            }
            let e = s[k + 1];
            proof {
                if hypgood {
                    assert(e == 'u' as u8);
                }
            }
            if e == 34 || e == 92 || e == 47 {
                out.push(e);
                k = k + 2;
            } else if e == 'n' as u8 {
                out.push(10);
                k = k + 2;
            } else if e == 't' as u8 {
                out.push(9);
                k = k + 2;
            } else if e == 'r' as u8 {
                out.push(13);
                k = k + 2;
            } else if e == 'b' as u8 {
                out.push(8);
                k = k + 2;
            } else if e == 'f' as u8 {
                out.push(12);
                k = k + 2;
            } else if e == 'u' as u8 {
                if s.len() - k < 6 {
                    proof {
                        assert(!hypgood);
                    }
                    return Option::None;
                }
                proof {
                    if hypgood {
                        assert(s[k + 2] == '0' as u8 && s[k + 3] == '0' as u8);
                        assert(s[k + 4] == hex_digit(gsv[c] / 16));
                        assert(s[k + 5] == hex_digit(gsv[c] % 16));
                    }
                }
                let h0 = match hex_val(s[k + 2]) {
                    Option::Some(v) => v,
                    Option::None => {
                        return Option::None;
                    },
                };
                let h1 = match hex_val(s[k + 3]) {
                    Option::Some(v) => v,
                    Option::None => {
                        return Option::None;
                    },
                };
                let h2 = match hex_val(s[k + 4]) {
                    Option::Some(v) => v,
                    Option::None => {
                        return Option::None;
                    },
                };
                let h3 = match hex_val(s[k + 5]) {
                    Option::Some(v) => v,
                    Option::None => {
                        return Option::None;
                    },
                };
                let code: u32 = (h0 as u32) * 4096 + (h1 as u32) * 256 + (h2 as u32) * 16
                    + (h3 as u32);
                proof {
                    if hypgood {
                        assert(h0 == 0 && h1 == 0);
                        assert(h2 == gsv[c] / 16 && h3 == gsv[c] % 16);
                        assert(code == gsv[c]);
                        assert(code < 128);
                    }
                }
                if code < 128 {
                    out.push(code as u8);
                } else if code < 2048 {
                    out.push((192 + code / 64) as u8);
                    out.push((128 + code % 64) as u8);
                } else if 55296 <= code && code < 57344 {
                    // a lone surrogate stands for no scalar
                    return Option::None;
                } else {
                    out.push((224 + code / 4096) as u8);
                    out.push((128 + (code / 64) % 64) as u8);
                    out.push((128 + code % 64) as u8);
                }
                proof {
                    if hypgood {
                        assert(out@ =~= gsv.take(c + 1));
                        assert(s@.skip(k + 6) =~= s@.skip(k as int).skip(6));
                        assert((esc_byte(gsv[c]) + (ser_str_body(gsv.skip(c + 1)) + seq![34u8]
                            + grest)).skip(6) =~= ser_str_body(gsv.skip(c + 1)) + seq![34u8]
                            + grest);
                        c = c + 1;
                    }
                }
                k = k + 6;
            } else {
                proof {
                    assert(!hypgood);
                }
                return Option::None;
            }
        } else if b < 32 {
            // a raw control byte may not stand in string content
            proof {
                assert(!hypgood);
            }
            return Option::None;
        } else {
            proof {
                if hypgood {
                    assert(c < gsv.len());
                    assert(!(gsv[c] == 34 || gsv[c] == 92 || gsv[c] < 32));
                    assert(b == gsv[c]);
                }
            }
            out.push(b);
            proof {
                if hypgood {
                    assert(out@ =~= gsv.take(c + 1));
                    assert(s@.skip(k + 1) =~= s@.skip(k as int).skip(1));
                    assert((esc_byte(gsv[c]) + (ser_str_body(gsv.skip(c + 1)) + seq![34u8]
                        + grest)).skip(1) =~= ser_str_body(gsv.skip(c + 1)) + seq![34u8]
                        + grest);
                    c = c + 1;
                }
            }
            k = k + 1;
        }
    }
}

/// The canonical hypothesis for an integer read: the bytes at `i` spell
/// `n` in decimal, and what follows can neither extend the digit run nor
/// turn it into a fraction or exponent.
pub open spec fn int_at(s: Seq<u8>, i: int, n: int, rest: Seq<u8>) -> bool {
    &&& 0 <= i <= s.len()
    &&& s.skip(i) == ser_int(n) + rest
    &&& i64::MIN <= n <= i64::MAX
    &&& rest.len() > 0 ==> !(48 <= rest[0] <= 57) && rest[0] != '.' as u8 && rest[0] != 'e' as u8
        && rest[0] != 'E' as u8
}

/// Whether an integer-read hypothesis holds, and the number it names.
pub open spec fn int_hyp_ok(hyp: Option<(int, Seq<u8>)>, s: Seq<u8>, i: int) -> bool {
    match hyp {
        Option::Some((n, rest)) => int_at(s, i, n, rest),
        Option::None => false,
    }
}

pub open spec fn hyp_int(hyp: Option<(int, Seq<u8>)>) -> int {
    match hyp {
        Option::Some((n, _)) => n,
        Option::None => 0,
    }
}

/// Reads an integer starting at a sign or digit; rejects fractions and
/// exponents, which no message of this protocol carries. On the writer's
/// own spelling it yields exactly the written number.
#[verifier::rlimit(100)]
fn parse_int(s: &[u8], i: usize, Ghost(hyp): Ghost<Option<(int, Seq<u8>)>>) -> (r: Option<
    (i64, usize)>)
    requires
        i < s@.len(),
    ensures
        r matches Option::Some(p) ==> i < p.1 <= s@.len(),
        int_hyp_ok(hyp, s@, i as int) ==> (r matches Option::Some(p) && p.0 as int == hyp_int(
            hyp,
        ) && p.1 == i + ser_int(hyp_int(hyp)).len()),
{
    let ghost hypgood = int_hyp_ok(hyp, s@, i as int);
    let ghost (gn, grest): (int, Seq<u8>) = match hyp {
        Option::Some(p) => p,
        Option::None => (0int, Seq::empty()),
    };
    let ghost mag: nat = if gn < 0 { (-gn) as nat } else { gn as nat };
    let ghost gd: Seq<u8> = dec_digits(mag);
    proof {
        if hypgood {
            lemma_dec_digits_shape(mag);
            if gn < 0 {
                assert(ser_int(gn) == seq!['-' as u8] + gd);
                assert((s@.skip(i as int))[0] == (seq!['-' as u8] + gd + grest)[0]);
            }
        }
    }
    let neg = s[i] == '-' as u8;
    proof {
        if hypgood {
            if gn >= 0 {
                assert((s@.skip(i as int))[0] == gd[0]);
                assert(!neg);
            } else {
                assert(neg);
            }
        }
    }
    let mut k = if neg {
        i + 1
    } else {
        i
    };
    let ghost dstart = k as int;
    proof {
        if hypgood {
            if gn < 0 {
                assert(s@.skip(i as int) =~= seq!['-' as u8] + (gd + grest));
                assert((seq!['-' as u8] + (gd + grest)).skip(1) =~= gd + grest);
                assert(s@.skip(i as int).skip(1) =~= s@.skip(dstart));
                assert(s@.skip(dstart) == gd + grest);
            } else {
                assert(s@.skip(dstart) == gd + grest);
            }
            assert(mag <= 9223372036854775808);
        }
    }
    let limit: u64 = if neg {
        9223372036854775808
    } else {
        9223372036854775807
    };
    let mut val: u64 = 0;
    let mut digits: bool = false;
    proof {
        if hypgood {
            assert(gd.take(0) =~= Seq::<u8>::empty());
            assert(num_of(Seq::<u8>::empty()) == 0);
        }
    }
    while k < s.len() && 48 <= s[k] && s[k] <= 57
        invariant
            i <= k <= s@.len(),
            val <= limit,
            limit <= 9223372036854775808,
            digits ==> i < k,
            dstart == (if s@[i as int] == '-' as u8 { i + 1 } else { i as int }),
            hypgood == int_hyp_ok(hyp, s@, i as int),
            hypgood == (hyp is Some && int_at(s@, i as int, gn, grest)),
            hyp is Some ==> gn == hyp_int(hyp),
            hypgood ==> {
                &&& int_at(s@, i as int, gn, grest)
                &&& gd == dec_digits(mag)
                &&& mag == (if gn < 0 { (-gn) as nat } else { gn as nat })
                &&& mag <= limit
                &&& s@.skip(dstart) == gd + grest
                &&& dstart <= k
                &&& k - dstart <= gd.len()
                &&& val as nat == num_of(gd.take(k - dstart))
                &&& digits == (k > dstart)
            },
        decreases s@.len() - k,
    {
        let d = (s[k] - 48) as u64;
        proof {
            if hypgood {
                assert(k - dstart < gd.len()) by {
                    if k - dstart == gd.len() {
                        if grest.len() == 0 {
                            assert(s@.skip(dstart).len() == gd.len());
                            assert(k == s@.len());
                        } else {
                            assert(s@[k as int] == s@.skip(dstart)[k - dstart]);
                            assert(s@.skip(dstart)[k - dstart] == grest[0]);
                        }
                    }
                }
                assert(s@[k as int] == s@.skip(dstart)[k - dstart]);
                assert(s@[k as int] == gd[k - dstart]);
                lemma_dec_digits_shape(mag);
                lemma_num_of_take_le(gd, k - dstart + 1);
                assert(gd.take(k - dstart + 1) =~= gd.take(k - dstart).push(gd[k - dstart]));
                lemma_num_of_snoc(gd.take(k - dstart), gd[k - dstart]);
                lemma_num_of_dec(mag);
                assert((val as nat) * 10 + (d as nat) == num_of(gd.take(k - dstart + 1)));
                assert((val as nat) * 10 + (d as nat) <= mag);
                assert(limit == 10 * (limit / 10) + limit % 10 && limit % 10 <= 9);
                assert(val <= limit / 10) by (nonlinear_arith)
                    requires
                        (val as nat) * 10 + (d as nat) <= limit as nat,
                ;
                if val == limit / 10 {
                    assert(d <= limit % 10);
                }
            }
        }
        if val > limit / 10 || (val == limit / 10 && d > limit % 10) {
            proof {
                assert(!hypgood);
            }
            return Option::None;
        }
        assert(val * 10 + d <= limit) by (nonlinear_arith)
            requires
                val <= limit / 10,
                d <= 9,
                val == limit / 10 ==> d <= limit % 10,
                limit <= 9223372036854775808,
        ;
        val = val * 10 + d;
        digits = true;
        k = k + 1;
    }
    proof {
        if hypgood {
            assert(k - dstart == gd.len()) by {
                if k - dstart < gd.len() {
                    assert(s@.skip(dstart)[k - dstart] == gd[k - dstart]);
                    assert(k < s@.len());
                    lemma_dec_digits_shape(mag);
                    assert(48 <= s@[k as int] <= 57);
                }
            }
            assert(gd.take(gd.len() as int) =~= gd);
            lemma_num_of_dec(mag);
            assert(val as nat == mag);
            lemma_dec_digits_shape(mag);
            assert(digits);
            if k < s.len() {
                assert(s@[k as int] == s@.skip(dstart)[k - dstart]);
                assert(s@[k as int] == grest[0]);
            }
        }
    }
    if !digits {
        proof {
            assert(!hypgood);
        }
        return Option::None;
    }
    if k < s.len() && (s[k] == '.' as u8 || s[k] == 'e' as u8 || s[k] == 'E' as u8) {
        proof {
            assert(!hypgood);
        }
        return Option::None;
    }
    let n: i64 = if neg {
        if val == 9223372036854775808 {
            i64::MIN
        } else {
            -(val as i64)
        }
    } else {
        val as i64
    };
    proof {
        if hypgood {
            assert(n as int == gn);
            assert(k == dstart + gd.len());
            assert(k == i + ser_int(gn).len());
        }
    }
    Option::Some((n, k))
}

proof fn lemma_ser_str_first(kk: Seq<u8>)
    ensures
        ser_str(kk).len() >= 2,
        ser_str(kk)[0] == 34,
{
    assert(ser_str(kk)[0] == (seq![34u8] + ser_str_body(kk))[0]);
}

proof fn lemma_ser_items_first(items: Seq<JsonV>)
    requires
        items.len() > 0,
    ensures
        ser_items(items).len() >= 1,
        ser_items(items)[0] == jser(items[0])[0],
{
    lemma_jser_first_byte(items[0]);
    if items.len() == 1 {
        assert(ser_items(items) == jser(items[0]));
    } else {
        assert(ser_items(items) == jser(items[0]) + seq![',' as u8] + ser_items(items.skip(1)));
        assert(ser_items(items)[0] == (jser(items[0]) + seq![',' as u8])[0]);
    }
}

proof fn lemma_ser_fields_first(gf: Seq<(Seq<u8>, JsonV)>)
    requires
        gf.len() > 0,
    ensures
        ser_fields(gf).len() >= 1,
        ser_fields(gf)[0] == 34,
{
    lemma_ser_str_first(gf[0].0);
    if gf.len() == 1 {
        assert(ser_fields(gf) == ser_str(gf[0].0) + seq![':' as u8] + jser(gf[0].1));
        assert(ser_fields(gf)[0] == (ser_str(gf[0].0) + seq![':' as u8])[0]);
        assert((ser_str(gf[0].0) + seq![':' as u8])[0] == ser_str(gf[0].0)[0]);
    } else {
        assert(ser_fields(gf) == ser_str(gf[0].0) + seq![':' as u8] + jser(gf[0].1)
            + seq![',' as u8] + ser_fields(gf.skip(1)));
        assert(ser_fields(gf)[0] == (ser_str(gf[0].0) + seq![':' as u8] + jser(gf[0].1)
            + seq![',' as u8])[0]);
        assert((ser_str(gf[0].0) + seq![':' as u8] + jser(gf[0].1) + seq![',' as u8])[0]
            == (ser_str(gf[0].0) + seq![':' as u8] + jser(gf[0].1))[0]);
        assert((ser_str(gf[0].0) + seq![':' as u8] + jser(gf[0].1))[0] == (ser_str(gf[0].0)
            + seq![':' as u8])[0]);
        assert((ser_str(gf[0].0) + seq![':' as u8])[0] == ser_str(gf[0].0)[0]);
    }
}

/// Whether a value-read hypothesis holds, and the value it names.
pub open spec fn val_hyp_ok(hyp: Option<(JsonV, Seq<u8>)>, s: Seq<u8>, i: int) -> bool {
    match hyp {
        Option::Some((v, rest)) => canon_at(s, i, v, rest),
        Option::None => false,
    }
}

pub open spec fn hyp_val(hyp: Option<(JsonV, Seq<u8>)>) -> JsonV {
    match hyp {
        Option::Some((v, _)) => v,
        Option::None => JsonV::Null,
    }
}

pub open spec fn hyp_vr(hyp: Option<(JsonV, Seq<u8>)>) -> Seq<u8> {
    match hyp {
        Option::Some((_, rest)) => rest,
        Option::None => Seq::empty(),
    }
}

/// Reads one value starting at position `i`; yields it and the position
/// after it. On the writer's own rendering it yields exactly the written
/// value and stops exactly at its end.
fn parse_value(s: &[u8], i: usize, Ghost(hyp): Ghost<Option<(JsonV, Seq<u8>)>>) -> (r: Option<
    (Json, usize)>)
    requires
        i <= s@.len(),
    ensures
        r matches Option::Some(p) ==> i < p.1 <= s@.len(),
        val_hyp_ok(hyp, s@, i as int) ==> (r matches Option::Some(p) && jv(p.0) == hyp_val(hyp)
            && p.1 == i + jser(hyp_val(hyp)).len()),
    decreases s@.len() - i, 1int,
{
    let ghost hypgood = val_hyp_ok(hyp, s@, i as int);
    let ghost gv = hyp_val(hyp);
    let ghost grest = hyp_vr(hyp);
    proof {
        if hypgood {
            lemma_jser_first_byte(gv);
            assert(s@.skip(i as int).len() == jser(gv).len() + grest.len());
            assert(s@.skip(i as int)[0] == (jser(gv) + grest)[0]);
            assert((jser(gv) + grest)[0] == jser(gv)[0]);
            assert forall|q: int| 0 <= q < jser(gv).len() implies s@[i + q] == (
            #[trigger] jser(gv)[q]) by {
                assert(s@.skip(i as int)[q] == s@[i + q]);
                assert((jser(gv) + grest)[q] == jser(gv)[q]);
            }
        }
    }
    if i >= s.len() {
        proof {
            assert(!hypgood);
        }
        return Option::None;
    }
    let b = s[i];
    proof {
        if hypgood {
            assert(b == jser(gv)[0]);
        }
    }
    if b == 'n' as u8 {
        proof {
            if hypgood {
                assert(gv is Null);
                assert(jser(gv) == lit_null());
            }
        }
        if s.len() - i >= 4 && s[i + 1] == 'u' as u8 && s[i + 2] == 'l' as u8 && s[i + 3]
            == 'l' as u8 {
            Option::Some((Json::Null, i + 4))
        } else {
            proof {
                assert(!hypgood);
            }
            Option::None
        }
    } else if b == 't' as u8 {
        proof {
            if hypgood {
                assert(gv == JsonV::Bool(true));
                assert(jser(gv) == lit_true());
            }
        }
        if s.len() - i >= 4 && s[i + 1] == 'r' as u8 && s[i + 2] == 'u' as u8 && s[i + 3]
            == 'e' as u8 {
            Option::Some((Json::Bool(true), i + 4))
        } else {
            proof {
                assert(!hypgood);
            }
            Option::None
        }
    } else if b == 'f' as u8 {
        proof {
            if hypgood {
                assert(gv == JsonV::Bool(false));
                assert(jser(gv) == lit_false());
            }
        }
        if s.len() - i >= 5 && s[i + 1] == 'a' as u8 && s[i + 2] == 'l' as u8 && s[i + 3]
            == 's' as u8 && s[i + 4] == 'e' as u8 {
            Option::Some((Json::Bool(false), i + 5))
        } else {
            proof {
                assert(!hypgood);
            }
            Option::None
        }
    } else if b == 34 {
        proof {
            if hypgood {
                assert(gv is Str);
            }
        }
        let ghost shyp: Option<(Seq<u8>, Seq<u8>)> = if hypgood {
            Option::Some((gv->Str_0, grest))
        } else {
            Option::None
        };
        proof {
            if hypgood {
                assert(str_hyp_ok(shyp, s@, i as int));
            }
        }
        match parse_string(s, i, Ghost(shyp)) {
            Option::Some((bytes, j)) => {
                proof {
                    if hypgood {
                        assert(jv(Json::Str(bytes)) == gv);
                    }
                }
                Option::Some((Json::Str(bytes), j))
            },
            Option::None => {
                proof {
                    assert(!hypgood);
                }
                Option::None
            },
        }
    } else if b == '-' as u8 || (48 <= b && b <= 57) {
        proof {
            if hypgood {
                assert(gv is Int);
            }
        }
        let ghost ihyp: Option<(int, Seq<u8>)> = if hypgood {
            Option::Some((gv->Int_0, grest))
        } else {
            Option::None
        };
        proof {
            if hypgood {
                assert(closer(grest));
                assert(int_hyp_ok(ihyp, s@, i as int));
            }
        }
        match parse_int(s, i, Ghost(ihyp)) {
            Option::Some((n, j)) => {
                proof {
                    if hypgood {
                        assert(jv(Json::Int(n)) == gv);
                    }
                }
                Option::Some((Json::Int(n), j))
            },
            Option::None => {
                proof {
                    assert(!hypgood);
                }
                Option::None
            },
        }
    } else if b == '[' as u8 {
        parse_array(s, i, Ghost(hyp))
    } else if b == '{' as u8 {
        parse_object(s, i, Ghost(hyp))
    } else {
        proof {
            assert(!hypgood);
        }
        Option::None
    }
}

/// Reads an array starting at its opening bracket.
#[verifier::rlimit(100)]
fn parse_array(s: &[u8], i: usize, Ghost(hyp): Ghost<Option<(JsonV, Seq<u8>)>>) -> (r: Option<
    (Json, usize)>)
    requires
        i < s@.len(),
    ensures
        r matches Option::Some(p) ==> i < p.1 <= s@.len(),
        val_hyp_ok(hyp, s@, i as int) && s@[i as int] == '[' as u8 ==> (r matches Option::Some(p)
            && jv(p.0) == hyp_val(hyp) && p.1 == i + jser(hyp_val(hyp)).len()),
    decreases s@.len() - i, 0int,
{
    let ghost hypgood = val_hyp_ok(hyp, s@, i as int) && s@[i as int] == '[' as u8;
    let ghost gv = hyp_val(hyp);
    let ghost grest = hyp_vr(hyp);
    let ghost gitems: Seq<JsonV> = if gv is Arr {
        gv->Arr_0
    } else {
        Seq::empty()
    };
    proof {
        if hypgood {
            lemma_jser_first_byte(gv);
            assert(s@.skip(i as int)[0] == (jser(gv) + grest)[0]);
            assert(s@[i as int] == jser(gv)[0]);
            assert(gv is Arr);
            assert(s@.skip(i as int) =~= seq!['[' as u8] + (ser_items(gitems) + (seq![']' as u8]
                + grest)));
            assert((seq!['[' as u8] + (ser_items(gitems) + (seq![']' as u8] + grest))).skip(1)
                =~= ser_items(gitems) + (seq![']' as u8] + grest));
            assert(s@.skip(i as int).skip(1) =~= s@.skip(i + 1));
            assert(s@.skip(i + 1) == ser_items(gitems) + (seq![']' as u8] + grest));
            if gitems.len() == 0 {
                assert(ser_items(gitems).len() == 0);
                assert(s@.skip(i + 1) =~= seq![']' as u8] + grest);
                assert(s@.skip(i + 1).len() > 0);
                assert(s@.skip(i + 1)[0] == (seq![']' as u8] + grest)[0]);
                assert(s@[i + 1] == s@.skip(i + 1)[0]);
                assert(s@[i + 1] == ']' as u8);
            } else {
                lemma_jser_first_byte(gitems[0]);
                lemma_ser_items_first(gitems);
                assert(s@.skip(i + 1).len() > 0);
                assert(s@.skip(i + 1)[0] == (ser_items(gitems) + (seq![']' as u8] + grest))[0]);
                assert((ser_items(gitems) + (seq![']' as u8] + grest))[0] == ser_items(
                    gitems,
                )[0]);
                assert(s@[i + 1] == s@.skip(i + 1)[0]);
                assert(!ws_b(s@[i + 1]));
                assert(s@[i + 1] != ']' as u8);
            }
        }
    }
    let mut items: Vec<Json> = Vec::new();
    let n = s.len();
    assert(i + 1 <= n);
    let mut pos = skip_ws(s, i + 1);
    proof {
        if hypgood {
            if pos > i + 1 {
                assert(ws_b(s@[i + 1]));
                assert(gitems.len() == 0);
                assert(false);
            }
            assert(pos == i + 1);
        }
    }
    if pos < s.len() && s[pos] == ']' as u8 {
        proof {
            if hypgood {
                assert(gitems.len() == 0);
                assert(jv_seq(items@) =~= gitems);
                assert(s@.skip(pos as int).len() == 1 + grest.len());
                assert(s@.skip(i as int).len() == jser(gv).len() + grest.len());
            }
        }
        return Option::Some((Json::Arr(items), pos + 1));
    }
    proof {
        if hypgood {
            assert(gitems.len() > 0);
            assert(gitems.skip(0) =~= gitems);
            assert(gitems.take(0) =~= Seq::<JsonV>::empty());
            assert(jv_seq(items@) =~= gitems.take(0));
        }
    }
    let ghost mut c: int = 0;
    loop
        invariant
            i < pos <= s@.len(),
            hypgood == (val_hyp_ok(hyp, s@, i as int) && s@[i as int] == '[' as u8),
            gv == hyp_val(hyp),
            grest == hyp_vr(hyp),
            gv is Arr ==> gitems == gv->Arr_0,
            hypgood ==> {
                &&& gv is Arr
                &&& wf_jv(gv)
                &&& 0 <= c < gitems.len()
                &&& items@.len() == c
                &&& jv_seq(items@) == gitems.take(c)
                &&& s@.skip(pos as int) == ser_items(gitems.skip(c)) + (seq![']' as u8] + grest)
                &&& s@.skip(i as int).len() == jser(gv).len() + grest.len()
            },
        decreases s@.len() - pos,
    {
        let ghost tail: Seq<u8> = if c == gitems.len() - 1 {
            seq![']' as u8] + grest
        } else {
            seq![',' as u8] + (ser_items(gitems.skip(c + 1)) + (seq![']' as u8] + grest))
        };
        let ghost vhyp: Option<(JsonV, Seq<u8>)> = if hypgood {
            Option::Some((gitems[c], tail))
        } else {
            Option::None
        };
        proof {
            if hypgood {
                lemma_wf_jv_seq_index(gitems, c);
                assert(gitems.skip(c)[0] == gitems[c]);
                assert(gitems.skip(c).skip(1) =~= gitems.skip(c + 1));
                if c == gitems.len() - 1 {
                    assert(gitems.skip(c).len() == 1);
                    assert(ser_items(gitems.skip(c)) == jser(gitems[c]));
                    assert(s@.skip(pos as int) =~= jser(gitems[c]) + tail);
                } else {
                    assert(ser_items(gitems.skip(c)) == jser(gitems.skip(c)[0])
                        + seq![',' as u8] + ser_items(gitems.skip(c).skip(1)));
                    assert(s@.skip(pos as int) =~= jser(gitems[c]) + tail);
                }
                assert(closer(tail));
                assert(canon_at(s@, pos as int, gitems[c], tail));
                assert(val_hyp_ok(vhyp, s@, pos as int));
            }
        }
        let (v, p2) = match parse_value(s, pos, Ghost(vhyp)) {
            Option::Some(p) => p,
            Option::None => {
                proof {
                    assert(!hypgood);
                }
                return Option::None;
            },
        };
        proof {
            if hypgood {
                assert(jv(v) == gitems[c]);
                assert(p2 == pos + jser(gitems[c]).len());
                assert(s@.skip(p2 as int) =~= s@.skip(pos as int).skip(jser(gitems[c]).len() as int));
                assert((jser(gitems[c]) + tail).skip(jser(gitems[c]).len() as int) =~= tail);
                assert(s@.skip(p2 as int) == tail);
            }
        }
        let ghost olditems = items@;
        items.push(v);
        proof {
            if hypgood {
                assert(jv_seq(items@) =~= gitems.take(c + 1)) by {
                    lemma_jv_seq(items@);
                    lemma_jv_seq(olditems);
                    assert(items@ == olditems.push(v));
                    assert(forall|q: int| 0 <= q < c ==> items@[q] == olditems[q]);
                    assert(forall|q: int| 0 <= q < c ==> jv(#[trigger] olditems[q])
                        == jv_seq(olditems)[q]);
                    assert(items@[c as int] == v);
                }
            }
        }
        let p3 = skip_ws(s, p2);
        proof {
            if hypgood {
                assert(s@[p2 as int] == s@.skip(p2 as int)[0]);
                assert(!ws_b(tail[0]));
                if p3 > p2 {
                    assert(ws_b(s@[p2 as int]));
                    assert(false);
                }
                assert(p3 == p2);
                assert(s@.skip(p3 as int).len() >= 1);
            }
        }
        if p3 >= s.len() {
            proof {
                assert(!hypgood);
            }
            return Option::None;
        }
        proof {
            if hypgood {
                assert(s@[p3 as int] == tail[0]);
            }
        }
        if s[p3] == ']' as u8 {
            proof {
                if hypgood {
                    if c < gitems.len() - 1 {
                        assert(tail[0] == ',' as u8);
                        assert(false);
                    }
                    assert(c == gitems.len() - 1);
                    assert(gitems.take(c + 1) =~= gitems);
                    assert(jv(Json::Arr(items)) == gv);
                    assert(s@.skip(p3 as int).len() == 1 + grest.len());
                }
            }
            return Option::Some((Json::Arr(items), p3 + 1));
        }
        if s[p3] != ',' as u8 {
            proof {
                assert(!hypgood);
            }
            return Option::None;
        }
        proof {
            if hypgood {
                if c == gitems.len() - 1 {
                    assert(tail[0] == ']' as u8);
                    assert(false);
                }
            }
        }
        pos = skip_ws(s, p3 + 1);
        proof {
            if hypgood {
                assert(s@.skip(p3 + 1) =~= s@.skip(p3 as int).skip(1));
                assert(tail.skip(1) =~= ser_items(gitems.skip(c + 1)) + (seq![']' as u8]
                    + grest));
                assert(s@.skip(p3 + 1) == ser_items(gitems.skip(c + 1)) + (seq![']' as u8]
                    + grest));
                assert(gitems.skip(c + 1).len() > 0);
                assert(gitems.skip(c + 1)[0] == gitems[c + 1]);
                lemma_jser_first_byte(gitems[c + 1]);
                lemma_ser_items_first(gitems.skip(c + 1));
                assert(s@.skip(p3 + 1).len() > 0);
                assert(s@.skip(p3 + 1)[0] == (ser_items(gitems.skip(c + 1)) + (seq![']' as u8]
                    + grest))[0]);
                assert((ser_items(gitems.skip(c + 1)) + (seq![']' as u8] + grest))[0]
                    == ser_items(gitems.skip(c + 1))[0]);
                assert(s@[p3 + 1] == s@.skip(p3 + 1)[0]);
                assert(!ws_b(s@[p3 + 1]));
                if pos > p3 + 1 {
                    assert(ws_b(s@[p3 + 1]));
                    assert(false);
                }
                assert(pos == p3 + 1);
                c = c + 1;
            }
        }
    }
}

/// What one rendered field of an object opens with.
proof fn lemma_field_head(gf: Seq<(Seq<u8>, JsonV)>, c: int)
    requires
        0 <= c < gf.len(),
    ensures
        ser_fields(gf.skip(c)) == ser_str(gf[c].0) + seq![':' as u8] + jser(gf[c].1) + (
        if c == gf.len() - 1 {
            Seq::<u8>::empty()
        } else {
            seq![',' as u8] + ser_fields(gf.skip(c + 1))
        }),
{
    assert(gf.skip(c)[0] == gf[c]);
    assert(gf.skip(c).skip(1) =~= gf.skip(c + 1));
    if c == gf.len() - 1 {
        assert(gf.skip(c).len() == 1);
        assert(ser_fields(gf.skip(c)) == ser_str(gf[c].0) + seq![':' as u8] + jser(gf[c].1));
        assert(ser_str(gf[c].0) + seq![':' as u8] + jser(gf[c].1) + Seq::<u8>::empty()
            =~= ser_str(gf[c].0) + seq![':' as u8] + jser(gf[c].1));
    }
}

/// Reads an object starting at its opening brace.
#[verifier::rlimit(100)]
fn parse_object(s: &[u8], i: usize, Ghost(hyp): Ghost<Option<(JsonV, Seq<u8>)>>) -> (r: Option<
    (Json, usize)>)
    requires
        i < s@.len(),
    ensures
        r matches Option::Some(p) ==> i < p.1 <= s@.len(),
        val_hyp_ok(hyp, s@, i as int) && s@[i as int] == '{' as u8 ==> (r matches Option::Some(p)
            && jv(p.0) == hyp_val(hyp) && p.1 == i + jser(hyp_val(hyp)).len()),
    decreases s@.len() - i, 0int,
{
    let ghost hypgood = val_hyp_ok(hyp, s@, i as int) && s@[i as int] == '{' as u8;
    let ghost gv = hyp_val(hyp);
    let ghost grest = hyp_vr(hyp);
    let ghost gf: Seq<(Seq<u8>, JsonV)> = if gv is Obj {
        gv->Obj_0
    } else {
        Seq::empty()
    };
    proof {
        if hypgood {
            lemma_jser_first_byte(gv);
            assert(s@.skip(i as int)[0] == (jser(gv) + grest)[0]);
            assert(s@[i as int] == jser(gv)[0]);
            assert(gv is Obj);
            assert(s@.skip(i as int) =~= seq!['{' as u8] + (ser_fields(gf) + (seq!['}' as u8]
                + grest)));
            assert((seq!['{' as u8] + (ser_fields(gf) + (seq!['}' as u8] + grest))).skip(1)
                =~= ser_fields(gf) + (seq!['}' as u8] + grest));
            assert(s@.skip(i as int).skip(1) =~= s@.skip(i + 1));
            assert(s@.skip(i + 1) == ser_fields(gf) + (seq!['}' as u8] + grest));
            if gf.len() == 0 {
                assert(ser_fields(gf).len() == 0);
                assert(s@.skip(i + 1) =~= seq!['}' as u8] + grest);
                assert(s@.skip(i + 1).len() > 0);
                assert(s@.skip(i + 1)[0] == (seq!['}' as u8] + grest)[0]);
                assert(s@[i + 1] == s@.skip(i + 1)[0]);
                assert(s@[i + 1] == '}' as u8);
            } else {
                lemma_ser_fields_first(gf);
                assert(s@.skip(i + 1).len() > 0);
                assert(s@.skip(i + 1)[0] == (ser_fields(gf) + (seq!['}' as u8] + grest))[0]);
                assert((ser_fields(gf) + (seq!['}' as u8] + grest))[0] == ser_fields(gf)[0]);
                assert(s@[i + 1] == s@.skip(i + 1)[0]);
                assert(s@[i + 1] == 34);
            }
        }
    }
    let mut fields: Vec<(Vec<u8>, Json)> = Vec::new();
    let n = s.len();
    assert(i + 1 <= n);
    let mut pos = skip_ws(s, i + 1);
    proof {
        if hypgood {
            if pos > i + 1 {
                assert(ws_b(s@[i + 1]));
                assert(false);
            }
            assert(pos == i + 1);
        }
    }
    if pos < s.len() && s[pos] == '}' as u8 {
        proof {
            if hypgood {
                assert(gf.len() == 0);
                assert(jv_fields(fields@) =~= gf);
                assert(s@.skip(pos as int).len() == 1 + grest.len());
                assert(s@.skip(i as int).len() == jser(gv).len() + grest.len());
            }
        }
        return Option::Some((Json::Obj(fields), pos + 1));
    }
    proof {
        if hypgood {
            assert(gf.len() > 0);
            assert(gf.skip(0) =~= gf);
            assert(gf.take(0) =~= Seq::<(Seq<u8>, JsonV)>::empty());
            assert(jv_fields(fields@) =~= gf.take(0));
        }
    }
    let ghost mut c: int = 0;
    loop
        invariant
            i < pos <= s@.len(),
            hypgood == (val_hyp_ok(hyp, s@, i as int) && s@[i as int] == '{' as u8),
            gv == hyp_val(hyp),
            grest == hyp_vr(hyp),
            gv is Obj ==> gf == gv->Obj_0,
            hypgood ==> {
                &&& gv is Obj
                &&& wf_jv(gv)
                &&& 0 <= c < gf.len()
                &&& fields@.len() == c
                &&& jv_fields(fields@) == gf.take(c)
                &&& s@.skip(pos as int) == ser_fields(gf.skip(c)) + (seq!['}' as u8] + grest)
                &&& s@.skip(i as int).len() == jser(gv).len() + grest.len()
            },
        decreases s@.len() - pos,
    {
        let ghost tail: Seq<u8> = if c == gf.len() - 1 {
            seq!['}' as u8] + grest
        } else {
            seq![',' as u8] + (ser_fields(gf.skip(c + 1)) + (seq!['}' as u8] + grest))
        };
        let ghost srest: Seq<u8> = seq![':' as u8] + (jser(gf[c].1) + tail);
        let ghost shyp: Option<(Seq<u8>, Seq<u8>)> = if hypgood {
            Option::Some((gf[c].0, srest))
        } else {
            Option::None
        };
        proof {
            if hypgood {
                lemma_field_head(gf, c);
                assert(s@.skip(pos as int) =~= ser_str(gf[c].0) + srest);
                assert(str_hyp_ok(shyp, s@, pos as int));
                assert(s@.skip(pos as int).len() >= 1);
            }
        }
        if pos >= s.len() {
            proof {
                assert(!hypgood);
            }
            return Option::None;
        }
        let (key, p2) = match parse_string(s, pos, Ghost(shyp)) {
            Option::Some(p) => p,
            Option::None => {
                proof {
                    assert(!hypgood);
                }
                return Option::None;
            },
        };
        proof {
            if hypgood {
                assert(key@ == gf[c].0);
                assert(p2 == pos + ser_str(gf[c].0).len());
                assert(s@.skip(p2 as int) =~= s@.skip(pos as int).skip(
                    ser_str(gf[c].0).len() as int,
                ));
                assert((ser_str(gf[c].0) + srest).skip(ser_str(gf[c].0).len() as int) =~= srest);
                assert(s@.skip(p2 as int) == srest);
                assert(s@[p2 as int] == srest[0]);
                assert(srest[0] == ':' as u8);
            }
        }
        let p3 = skip_ws(s, p2);
        proof {
            if hypgood {
                if p3 > p2 {
                    assert(ws_b(s@[p2 as int]));
                    assert(false);
                }
                assert(p3 == p2);
            }
        }
        if p3 >= s.len() || s[p3] != ':' as u8 {
            proof {
                assert(!hypgood);
            }
            return Option::None;
        }
        let p4 = skip_ws(s, p3 + 1);
        let ghost vhyp: Option<(JsonV, Seq<u8>)> = if hypgood {
            Option::Some((gf[c].1, tail))
        } else {
            Option::None
        };
        proof {
            if hypgood {
                assert(s@.skip(p3 + 1) =~= s@.skip(p3 as int).skip(1));
                assert(srest.skip(1) =~= jser(gf[c].1) + tail);
                assert(s@.skip(p3 + 1) == jser(gf[c].1) + tail);
                lemma_jser_first_byte(gf[c].1);
                assert(s@[p3 + 1] == (jser(gf[c].1) + tail)[0]);
                assert(!ws_b(s@[p3 + 1]));
                if p4 > p3 + 1 {
                    assert(ws_b(s@[p3 + 1]));
                    assert(false);
                }
                assert(p4 == p3 + 1);
                lemma_wf_jv_fields_index(gf, c);
                assert(closer(tail));
                assert(canon_at(s@, p4 as int, gf[c].1, tail));
                assert(val_hyp_ok(vhyp, s@, p4 as int));
            }
        }
        let (v, p5) = match parse_value(s, p4, Ghost(vhyp)) {
            Option::Some(p) => p,
            Option::None => {
                proof {
                    assert(!hypgood);
                }
                return Option::None;
            },
        };
        proof {
            if hypgood {
                assert(jv(v) == gf[c].1);
                assert(p5 == p4 + jser(gf[c].1).len());
                assert(s@.skip(p5 as int) =~= s@.skip(p4 as int).skip(
                    jser(gf[c].1).len() as int,
                ));
                assert((jser(gf[c].1) + tail).skip(jser(gf[c].1).len() as int) =~= tail);
                assert(s@.skip(p5 as int) == tail);
            }
        }
        let ghost oldfields = fields@;
        fields.push((key, v));
        proof {
            if hypgood {
                assert(jv_fields(fields@) =~= gf.take(c + 1)) by {
                    lemma_jv_fields(fields@);
                    lemma_jv_fields(oldfields);
                    assert(fields@ == oldfields.push((key, v)));
                    assert(forall|q: int| 0 <= q < c ==> fields@[q] == oldfields[q]);
                    assert(forall|q: int| 0 <= q < c ==> (#[trigger] jv_fields(oldfields)[q])
                        == (oldfields[q].0@, jv(oldfields[q].1)));
                    assert(fields@[c as int] == (key, v));
                }
            }
        }
        let p6 = skip_ws(s, p5);
        proof {
            if hypgood {
                assert(s@[p5 as int] == s@.skip(p5 as int)[0]);
                assert(!ws_b(tail[0]));
                if p6 > p5 {
                    assert(ws_b(s@[p5 as int]));
                    assert(false);
                }
                assert(p6 == p5);
                assert(s@.skip(p6 as int).len() >= 1);
            }
        }
        if p6 >= s.len() {
            proof {
                assert(!hypgood);
            }
            return Option::None;
        }
        proof {
            if hypgood {
                assert(s@[p6 as int] == tail[0]);
            }
        }
        if s[p6] == '}' as u8 {
            proof {
                if hypgood {
                    if c < gf.len() - 1 {
                        assert(tail[0] == ',' as u8);
                        assert(false);
                    }
                    assert(c == gf.len() - 1);
                    assert(gf.take(c + 1) =~= gf);
                    assert(jv(Json::Obj(fields)) == gv);
                    assert(s@.skip(p6 as int).len() == 1 + grest.len());
                }
            }
            return Option::Some((Json::Obj(fields), p6 + 1));
        }
        if s[p6] != ',' as u8 {
            proof {
                assert(!hypgood);
            }
            return Option::None;
        }
        proof {
            if hypgood {
                if c == gf.len() - 1 {
                    assert(tail[0] == '}' as u8);
                    assert(false);
                }
            }
        }
        pos = skip_ws(s, p6 + 1);
        proof {
            if hypgood {
                assert(s@.skip(p6 + 1) =~= s@.skip(p6 as int).skip(1));
                assert(tail.skip(1) =~= ser_fields(gf.skip(c + 1)) + (seq!['}' as u8] + grest));
                assert(s@.skip(p6 + 1) == ser_fields(gf.skip(c + 1)) + (seq!['}' as u8]
                    + grest));
                assert(gf.skip(c + 1).len() > 0);
                lemma_ser_fields_first(gf.skip(c + 1));
                assert(s@.skip(p6 + 1).len() > 0);
                assert(s@.skip(p6 + 1)[0] == (ser_fields(gf.skip(c + 1)) + (seq!['}' as u8]
                    + grest))[0]);
                assert((ser_fields(gf.skip(c + 1)) + (seq!['}' as u8] + grest))[0]
                    == ser_fields(gf.skip(c + 1))[0]);
                assert(s@[p6 + 1] == s@.skip(p6 + 1)[0]);
                assert(!ws_b(s@[p6 + 1]));
                if pos > p6 + 1 {
                    assert(ws_b(s@[p6 + 1]));
                    assert(false);
                }
                assert(pos == p6 + 1);
                c = c + 1;
            }
        }
    }
}

/// Reads a whole body as one JSON value: leading and trailing whitespace is
/// allowed, anything else after the value is malformed. On the writer's
/// output it yields exactly the written value.
pub fn json_parse(s: &[u8]) -> (r: Option<Json>)
    ensures
        forall|v: JsonV| wf_jv(v) && s@ == #[trigger] jser(v) ==> (r matches Option::Some(j)
            && jv(j) == v),
{
    let ghost canon = exists|v: JsonV| wf_jv(v) && s@ == #[trigger] jser(v);
    let ghost gv: JsonV = if canon {
        choose|v: JsonV| wf_jv(v) && s@ == #[trigger] jser(v)
    } else {
        JsonV::Null
    };
    let ghost vhyp: Option<(JsonV, Seq<u8>)> = if canon {
        Option::Some((gv, Seq::empty()))
    } else {
        Option::None
    };
    proof {
        if canon {
            lemma_jser_first_byte(gv);
            assert(s@.skip(0) =~= jser(gv) + Seq::<u8>::empty());
            assert(s@[0] == jser(gv)[0]);
            assert(!ws_b(s@[0]));
            assert(canon_at(s@, 0, gv, Seq::empty()));
        }
    }
    let i = skip_ws(s, 0);
    proof {
        if canon {
            if i > 0 {
                assert(ws_b(s@[0]));
                assert(false);
            }
            assert(val_hyp_ok(vhyp, s@, 0));
        }
    }
    let (v, j) = match parse_value(s, i, Ghost(vhyp)) {
        Option::Some(p) => p,
        Option::None => {
            proof {
                assert(!canon);
            }
            return Option::None;
        },
    };
    proof {
        if canon {
            assert(jv(v) == gv);
            assert(j == jser(gv).len());
            assert(j == s@.len());
        }
    }
    let j2 = skip_ws(s, j);
    if j2 == s.len() {
        proof {
            if canon {
                assert forall|w: JsonV| wf_jv(w) && s@ == #[trigger] jser(w) implies jv(v)
                    == w by {
                    lemma_jser_injective(w, gv);
                }
            }
        }
        Option::Some(v)
    } else {
        proof {
            assert(!canon);
        }
        Option::None
    }
}

} // verus!
