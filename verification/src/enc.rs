//! The executable encoder, proved to produce exactly the bytes of the
//! specified rendering, and to fail with exactly its error, whenever the
//! rendering does not pass through the user fallback.

use vstd::prelude::*;

use crate::opt::{
    has_flag, INDENT_2, NAIVE_UTC, NON_STR_KEYS, OMIT_MICROSECONDS, PASSTHROUGH_DATACLASS,
    PASSTHROUGH_DATETIME, PASSTHROUGH_SUBCLASS, SERIALIZE_DATACLASS, SERIALIZE_NUMPY,
    SERIALIZE_UUID, SORT_KEYS, STRICT_INTEGER,
};
use crate::ser::{
    close_text, colon_text, enc_buf, enc_elem, enc_elems, enc_float, enc_int, enc_items,
    enc_pairs, enc_rows, enc_scalar, enc_val, esc_byte, esc_str, hex16, hexdig, item_sep,
    key_text, key_texts, lex_le, lit_bool, lit_null, pad2, pad4, pad6, quoted, route_out, sdec,
    sinsert, sint, spaces, ssort, temporal_text, time_text, uuid_text, EncOut, EncodeError,
    MAX_SAFE_INT, RECURSION_LIMIT,
};
use crate::value::{
    model_fields, model_pairs, model_seq, DateV, FloatValue, NumBuf, NumElem, Scalar, Temporal,
    TimeV, UniqueId, VModel, Value,
};

verus! {

broadcast use vstd::std_specs::vec::group_vec_axioms;

/// The user fallback: offers a substitute for a value the classifier did not
/// recognize, or declines. Nothing is assumed of an implementation; whatever
/// it returns is re-encoded under the same rules.
pub trait Fallback {
    /// Offer a substitute for an unclassified value.
    fn substitute(&self, v: &Value) -> Option<Value>;
}

/// A fallback that declines every value.
pub struct NoFallback;

impl Fallback for NoFallback {
    fn substitute(&self, _v: &Value) -> Option<Value> {
        None
    }
}

/// Append a slice of bytes.
fn push_bytes(out: &mut Vec<u8>, s: &[u8])
    ensures
        final(out)@ == old(out)@ + s@,
{
    let mut i: usize = 0;
    while i < s.len()
        invariant
            i <= s@.len(),
            out@ == old(out)@ + s@.take(i as int),
        decreases s@.len() - i,
    {
        out.push(s[i]);
        proof {
            assert(s@.take(i + 1) =~= s@.take(i as int).push(s@[i as int]));
            assert(out@ =~= old(out)@ + s@.take(i + 1));
        }
        i = i + 1;
    }
    proof {
        assert(s@.take(s@.len() as int) =~= s@);
    }
}

/// Append the contents of a byte vector.
fn push_vec(out: &mut Vec<u8>, s: &Vec<u8>)
    ensures
        final(out)@ == old(out)@ + s@,
{
    push_bytes(out, s.as_slice());
}

/// Copy a byte vector.
fn clone_bytes(s: &Vec<u8>) -> (r: Vec<u8>)
    ensures
        r@ == s@,
{
    let mut r: Vec<u8> = Vec::new();
    push_vec(&mut r, s);
    r
}

/// Append the decimal rendering of a non-negative integer.
fn write_dec(n: u64, out: &mut Vec<u8>)
    ensures
        final(out)@ == old(out)@ + sdec(n as int),
    decreases n,
{
    if n < 10 {
        out.push(48 + n as u8);
        proof {
            assert(out@ =~= old(out)@ + sdec(n as int));
        }
    } else {
        write_dec(n / 10, out);
        out.push(48 + (n % 10) as u8);
        proof {
            assert(out@ =~= old(out)@ + sdec(n as int));
        }
    }
}

/// Append the decimal rendering of an integer.
fn write_int(n: i64, out: &mut Vec<u8>)
    ensures
        final(out)@ == old(out)@ + sint(n as int),
{
    if n >= 0 {
        write_dec(n as u64, out);
    } else {
        out.push(45);
        let m: u64 = (-(n as i128)) as u64;
        assert(m as int == -(n as int));
        write_dec(m, out);
        proof {
            assert(out@ =~= old(out)@ + sint(n as int));
        }
    }
}

/// The lower-case hexadecimal digit byte of `v % 16`.
fn hexdig_exec(v: u64) -> (r: u8)
    ensures
        r == hexdig(v as int),
{
    let m = (v % 16) as u8;
    if m < 10 {
        48 + m
    } else {
        87 + m
    }
}

/// Append the 16 hexadecimal digits of a word, most significant first.
fn write_hex16(x: u64, out: &mut Vec<u8>)
    ensures
        final(out)@ == old(out)@ + hex16(x),
{
    let mut k: usize = 0;
    while k < 16
        invariant
            k <= 16,
            out@ == old(out)@ + hex16(x).take(k as int),
        decreases 16 - k,
    {
        let sh: u64 = ((15 - k) * 4) as u64;
        let d = hexdig_exec(x >> sh);
        proof {
            assert(hex16(x)[k as int] == hexdig((x >> (((15 - k as int) * 4) as u64)) as int));
            assert(hex16(x).take(k + 1) =~= hex16(x).take(k as int).push(hex16(x)[k as int]));
        }
        out.push(d);
        k = k + 1;
    }
    proof {
        assert(hex16(x).take(16) =~= hex16(x));
    }
}

/// Append a subrange of a byte vector.
fn push_range(src: &Vec<u8>, from: usize, to: usize, out: &mut Vec<u8>)
    requires
        from <= to <= src@.len(),
    ensures
        final(out)@ == old(out)@ + src@.subrange(from as int, to as int),
{
    let mut i = from;
    while i < to
        invariant
            from <= i <= to <= src@.len(),
            out@ == old(out)@ + src@.subrange(from as int, i as int),
        decreases to - i,
    {
        out.push(src[i]);
        proof {
            assert(src@.subrange(from as int, i + 1) =~= src@.subrange(
                from as int,
                i as int,
            ).push(src@[i as int]));
            assert(out@ =~= old(out)@ + src@.subrange(from as int, i + 1));
        }
        i = i + 1;
    }
}

/// Append the canonical hyphenated text of a 128-bit identifier.
fn write_uuid(u: &UniqueId, out: &mut Vec<u8>)
    ensures
        final(out)@ == old(out)@ + uuid_text(*u),
{
    let mut h: Vec<u8> = Vec::new();
    write_hex16(u.hi, &mut h);
    write_hex16(u.lo, &mut h);
    push_range(&h, 0, 8, out);
    out.push(45);
    push_range(&h, 8, 12, out);
    out.push(45);
    push_range(&h, 12, 16, out);
    out.push(45);
    push_range(&h, 16, 20, out);
    out.push(45);
    push_range(&h, 20, 32, out);
    proof {
        assert(out@ =~= old(out)@ + uuid_text(*u));
    }
}

/// Append two zero-padded decimal digits.
fn write_pad2(n: u32, out: &mut Vec<u8>)
    ensures
        final(out)@ == old(out)@ + pad2(n as int),
{
    out.push(48 + ((n / 10) % 10) as u8);
    out.push(48 + (n % 10) as u8);
    proof {
        assert(out@ =~= old(out)@ + pad2(n as int));
    }
}

/// Append four zero-padded decimal digits.
fn write_pad4(n: u32, out: &mut Vec<u8>)
    ensures
        final(out)@ == old(out)@ + pad4(n as int),
{
    out.push(48 + ((n / 1000) % 10) as u8);
    out.push(48 + ((n / 100) % 10) as u8);
    out.push(48 + ((n / 10) % 10) as u8);
    out.push(48 + (n % 10) as u8);
    proof {
        assert(out@ =~= old(out)@ + pad4(n as int));
    }
}

/// Append six zero-padded decimal digits.
fn write_pad6(n: u32, out: &mut Vec<u8>)
    ensures
        final(out)@ == old(out)@ + pad6(n as int),
{
    out.push(48 + ((n / 100000) % 10) as u8);
    out.push(48 + ((n / 10000) % 10) as u8);
    out.push(48 + ((n / 1000) % 10) as u8);
    out.push(48 + ((n / 100) % 10) as u8);
    out.push(48 + ((n / 10) % 10) as u8);
    out.push(48 + (n % 10) as u8);
    proof {
        assert(out@ =~= old(out)@ + pad6(n as int));
    }
}

/// Append the ISO-8601 text of a date.
fn write_date(d: &DateV, out: &mut Vec<u8>)
    ensures
        final(out)@ == old(out)@ + crate::ser::date_text(d.year as int, d.month as int, d.day as int),
{
    write_pad4(d.year as u32, out);
    out.push(45);
    write_pad2(d.month as u32, out);
    out.push(45);
    write_pad2(d.day as u32, out);
    proof {
        assert(out@ =~= old(out)@ + crate::ser::date_text(
            d.year as int,
            d.month as int,
            d.day as int,
        ));
    }
}

/// Append the ISO-8601 text of a time of day.
fn write_time(t: &TimeV, o: u64, out: &mut Vec<u8>)
    ensures
        final(out)@ == old(out)@ + time_text(
            t.hour as int,
            t.minute as int,
            t.second as int,
            t.microsecond as int,
            o,
        ),
{
    write_pad2(t.hour as u32, out);
    out.push(58);
    write_pad2(t.minute as u32, out);
    out.push(58);
    write_pad2(t.second as u32, out);
    if t.microsecond != 0 && o & OMIT_MICROSECONDS == 0 {
        out.push(46);
        write_pad6(t.microsecond, out);
    }
    proof {
        assert(out@ =~= old(out)@ + time_text(
            t.hour as int,
            t.minute as int,
            t.second as int,
            t.microsecond as int,
            o,
        ));
    }
}

/// Append the rendering of a UTC offset of zero.
fn write_utc_suffix(o: u64, out: &mut Vec<u8>)
    ensures
        final(out)@ == old(out)@ + crate::ser::utc_suffix(o),
{
    if o & crate::opt::UTC_Z != 0 {
        out.push(90);
    } else {
        out.push(43);
        out.push(48);
        out.push(48);
        out.push(58);
        out.push(48);
        out.push(48);
    }
    proof {
        assert(out@ =~= old(out)@ + crate::ser::utc_suffix(o));
    }
}

/// Append the ISO-8601 text of a temporal value.
fn write_temporal(t: &Temporal, o: u64, out: &mut Vec<u8>)
    ensures
        final(out)@ == old(out)@ + temporal_text(*t, o),
{
    match *t {
        Temporal::Date(d) => {
            write_date(&d, out);
        },
        Temporal::Time(tv) => {
            write_time(&tv, o, out);
        },
        Temporal::DateTime { date, time, offset_minutes } => {
            write_date(&date, out);
            out.push(84);
            write_time(&time, o, out);
            match offset_minutes {
                None => {
                    if o & NAIVE_UTC != 0 {
                        write_utc_suffix(o, out);
                    }
                },
                Some(k) => {
                    if k == 0 {
                        write_utc_suffix(o, out);
                    } else {
                        out.push(if k < 0 { 45 } else { 43 });
                        let a: u32 = if k < 0 {
                            (-(k as i64)) as u32
                        } else {
                            k as u32
                        };
                        write_pad2(a / 60, out);
                        out.push(58);
                        write_pad2(a % 60, out);
                    }
                },
            }
            proof {
                assert(out@ =~= old(out)@ + temporal_text(*t, o));
            }
        },
    }
}

/// Append the JSON escape of string content.
fn write_escaped(s: &Vec<u8>, out: &mut Vec<u8>)
    ensures
        final(out)@ == old(out)@ + esc_str(s@),
{
    let mut i: usize = 0;
    while i < s.len()
        invariant
            i <= s@.len(),
            out@ == old(out)@ + esc_str(s@.take(i as int)),
        decreases s@.len() - i,
    {
        let b = s[i];
        if b == 34 {
            out.push(92);
            out.push(34);
        } else if b == 92 {
            out.push(92);
            out.push(92);
        } else if b == 8 {
            out.push(92);
            out.push(98);
        } else if b == 9 {
            out.push(92);
            out.push(116);
        } else if b == 10 {
            out.push(92);
            out.push(110);
        } else if b == 12 {
            out.push(92);
            out.push(102);
        } else if b == 13 {
            out.push(92);
            out.push(114);
        } else if b < 32 {
            out.push(92);
            out.push(117);
            out.push(48);
            out.push(48);
            let hi = hexdig_exec((b / 16) as u64);
            out.push(hi);
            let lo = hexdig_exec(b as u64);
            out.push(lo);
        } else {
            out.push(b);
        }
        proof {
            assert(s@.take(i + 1).drop_last() =~= s@.take(i as int));
            assert(s@.take(i + 1).last() == s@[i as int]);
            assert(out@ =~= old(out)@ + esc_str(s@.take(i + 1)));
        }
        i = i + 1;
    }
    proof {
        assert(s@.take(s@.len() as int) =~= s@);
    }
}

/// Append a quoted, escaped JSON string.
fn write_quoted(s: &Vec<u8>, out: &mut Vec<u8>)
    ensures
        final(out)@ == old(out)@ + quoted(s@),
{
    out.push(34);
    write_escaped(s, out);
    out.push(34);
    proof {
        assert(out@ =~= old(out)@ + quoted(s@));
    }
}

/// Append a run of spaces.
fn write_spaces(n: u32, out: &mut Vec<u8>)
    ensures
        final(out)@ == old(out)@ + spaces(n as int),
{
    let mut j: u32 = 0;
    while j < n
        invariant
            j <= n,
            out@ == old(out)@ + spaces(n as int).take(j as int),
        decreases n - j,
    {
        out.push(32);
        proof {
            assert(spaces(n as int).take(j + 1) =~= spaces(n as int).take(j as int).push(32u8));
            assert(out@ =~= old(out)@ + spaces(n as int).take(j + 1));
        }
        j = j + 1;
    }
    proof {
        assert(spaces(n as int).take(n as int) =~= spaces(n as int));
    }
}

/// Append an item separator.
fn write_sep(first: bool, o: u64, ind: u32, out: &mut Vec<u8>)
    requires
        ind <= 2048,
    ensures
        final(out)@ == old(out)@ + item_sep(first, o, ind as int),
{
    if o & INDENT_2 == 0 {
        if !first {
            out.push(44);
        }
        proof {
            assert(out@ =~= old(out)@ + item_sep(first, o, ind as int));
        }
    } else {
        if first {
            out.push(10);
        } else {
            out.push(44);
            out.push(10);
        }
        write_spaces(2 * ind, out);
        proof {
            assert(out@ =~= old(out)@ + item_sep(first, o, ind as int));
        }
    }
}

/// Append what closes a container.
fn write_close(o: u64, ind: u32, nonempty: bool, cb: u8, out: &mut Vec<u8>)
    requires
        ind <= 2048,
    ensures
        final(out)@ == old(out)@ + close_text(o, ind as int, nonempty, cb),
{
    if o & INDENT_2 != 0 && nonempty {
        out.push(10);
        write_spaces(2 * ind, out);
    }
    out.push(cb);
    proof {
        assert(out@ =~= old(out)@ + close_text(o, ind as int, nonempty, cb));
    }
}

/// Append what stands between a key and a value.
fn write_colon(o: u64, out: &mut Vec<u8>)
    ensures
        final(out)@ == old(out)@ + colon_text(o),
{
    out.push(58);
    if o & INDENT_2 != 0 {
        out.push(32);
    }
    proof {
        assert(out@ =~= old(out)@ + colon_text(o));
    }
}

/// Append the literal `null`.
fn write_null(out: &mut Vec<u8>)
    ensures
        final(out)@ == old(out)@ + lit_null(),
{
    out.push(110);
    out.push(117);
    out.push(108);
    out.push(108);
    proof {
        assert(out@ =~= old(out)@ + lit_null());
    }
}

/// Append the literal `true` or `false`.
fn write_bool(b: bool, out: &mut Vec<u8>)
    ensures
        final(out)@ == old(out)@ + lit_bool(b),
{
    if b {
        out.push(116);
        out.push(114);
        out.push(117);
        out.push(101);
    } else {
        out.push(102);
        out.push(97);
        out.push(108);
        out.push(115);
        out.push(101);
    }
    proof {
        assert(out@ =~= old(out)@ + lit_bool(b));
    }
}

/// Lexicographic byte order, decided by the first differing byte.
fn lex_le_exec(a: &Vec<u8>, b: &Vec<u8>) -> (r: bool)
    ensures
        r == lex_le(a@, b@),
{
    proof {
        assert(a@.skip(0) =~= a@);
        assert(b@.skip(0) =~= b@);
    }
    let mut i: usize = 0;
    loop
        invariant
            i <= a@.len(),
            i <= b@.len(),
            lex_le(a@, b@) == lex_le(a@.skip(i as int), b@.skip(i as int)),
        decreases a@.len() - i,
    {
        if i >= a.len() {
            return true;
        }
        if i >= b.len() {
            return false;
        }
        let x = a[i];
        let y = b[i];
        if x < y {
            return true;
        }
        if x > y {
            return false;
        }
        proof {
            assert(a@.skip(i as int).drop_first() =~= a@.skip(i + 1));
            assert(b@.skip(i as int).drop_first() =~= b@.skip(i + 1));
        }
        i = i + 1;
    }
}

/// The stringified-key abstraction of a keyed index list: each entry's text
/// beside the model of the pair it points into.
pub open spec fn keyed_abs(
    ks: Seq<(Vec<u8>, usize)>,
    pm: Seq<(VModel, VModel)>,
) -> Seq<(Seq<u8>, VModel)> {
    Seq::new(ks.len(), |i: int| (ks[i].0@, pm[ks[i].1 as int].1))
}

/// Stringify the keys of the pairs from index `i` on, left to right,
/// appending text/index entries to `acc`.
fn build_keys(
    pairs: &Vec<(Value, Value)>,
    i: usize,
    o: u64,
    acc: &mut Vec<(Vec<u8>, usize)>,
) -> (r: Result<(), EncodeError>)
    requires
        i <= pairs@.len(),
        forall|q: int| 0 <= q < old(acc)@.len() ==> (#[trigger] old(acc)@[q]).1 < pairs@.len(),
    ensures
        forall|q: int| 0 <= q < final(acc)@.len() ==> (#[trigger] final(acc)@[q]).1 < pairs@.len(),
        match key_texts(model_pairs(pairs@).skip(i as int), o) {
            Ok(ts) => r is Ok && keyed_abs(final(acc)@, model_pairs(pairs@)) == keyed_abs(
                old(acc)@,
                model_pairs(pairs@),
            ) + ts,
            Err(e) => r == Err::<(), EncodeError>(e),
        },
    decreases pairs@.len() - i,
{
    let ghost pm = model_pairs(pairs@);
    proof {
        crate::value::lemma_model_pairs(pairs@);
    }
    if i >= pairs.len() {
        proof {
            assert(pm.skip(i as int) =~= Seq::<(VModel, VModel)>::empty());
            assert(keyed_abs(acc@, pm) =~= keyed_abs(acc@, pm) + Seq::<(Seq<u8>, VModel)>::empty());
        }
        return Ok(());
    }
    match key_string(&pairs[i].0, o) {
        Err(e) => {
            proof {
                assert(pm.skip(i as int)[0] == pm[i as int]);
            }
            Err(e)
        },
        Ok(t) => {
            let ghost before = acc@;
            acc.push((t, i));
            proof {
                assert(pm.skip(i as int)[0] == pm[i as int]);
                assert(keyed_abs(acc@, pm) =~= keyed_abs(before, pm) + seq![
                    (acc@.last().0@, pm[i as int].1),
                ]);
            }
            let ghost mid = acc@;
            let r = build_keys(pairs, i + 1, o, acc);
            proof {
                assert(pm.skip(i as int).drop_first() =~= pm.skip(i + 1));
                if let Ok(ts) = key_texts(pm.skip(i + 1), o) {
                    assert(keyed_abs(acc@, pm) =~= keyed_abs(before, pm) + (seq![
                        (mid.last().0@, pm[i as int].1),
                    ] + ts));
                }
            }
            r
        },
    }
}

/// The stringified form of one object key.
fn key_string(k: &Value, o: u64) -> (r: Result<Vec<u8>, EncodeError>)
    ensures
        match key_text((*k).model(), o) {
            Ok(t) => r matches Ok(v) && v@ == t,
            Err(e) => r == Err::<Vec<u8>, EncodeError>(e),
        },
{
    match k {
        Value::Str(s) => Ok(clone_bytes(s)),
        _ => {
            if o & NON_STR_KEYS == 0 {
                return Err(EncodeError::KeyMustBeString);
            }
            match k {
                Value::Null => {
                    let mut v = Vec::new();
                    write_null(&mut v);
                    Ok(v)
                },
                Value::Bool(b) => {
                    let mut v = Vec::new();
                    write_bool(*b, &mut v);
                    Ok(v)
                },
                Value::Int(n) => {
                    if o & STRICT_INTEGER != 0 && (*n > MAX_SAFE_INT || *n < -MAX_SAFE_INT) {
                        Err(EncodeError::IntegerOutOfRange)
                    } else {
                        let mut v = Vec::new();
                        write_int(*n, &mut v);
                        Ok(v)
                    }
                },
                Value::Float(f) => match f {
                    FloatValue::Finite(t) => Ok(clone_bytes(t)),
                    _ => Err(EncodeError::InvalidFloat),
                },
                Value::UniqueId(u) => {
                    let mut v = Vec::new();
                    write_uuid(u, &mut v);
                    Ok(v)
                },
                Value::Temporal(t) => {
                    let mut v = Vec::new();
                    write_temporal(t, o, &mut v);
                    Ok(v)
                },
                _ => Err(EncodeError::KeyMustBeString),
            }
        },
    }
}

/// Insert a keyed entry after every entry whose key is not greater.
fn vinsert(
    p: (Vec<u8>, usize),
    s: Vec<(Vec<u8>, usize)>,
    Ghost(pm): Ghost<Seq<(VModel, VModel)>>,
) -> (r: Vec<(Vec<u8>, usize)>)
    requires
        p.1 < pm.len(),
        forall|q: int| 0 <= q < s@.len() ==> (#[trigger] s@[q]).1 < pm.len(),
    ensures
        forall|q: int| 0 <= q < r@.len() ==> (#[trigger] r@[q]).1 < pm.len(),
        keyed_abs(r@, pm) == sinsert((p.0@, pm[p.1 as int].1), keyed_abs(s@, pm)),
    decreases s@.len(),
{
    let ghost sq = s@;
    if s.len() == 0 {
        let mut s = s;
        s.push(p);
        proof {
            assert(keyed_abs(sq, pm) =~= Seq::<(Seq<u8>, VModel)>::empty());
            assert(keyed_abs(s@, pm) =~= seq![(s@[0].0@, pm[s@[0].1 as int].1)]);
        }
        s
    } else if lex_le_exec(&s[0].0, &p.0) {
        let mut s = s;
        let h = s.remove(0);
        proof {
            assert(s@ =~= sq.drop_first());
            assert(keyed_abs(sq, pm)[0] == (h.0@, pm[h.1 as int].1));
            assert(keyed_abs(s@, pm) =~= keyed_abs(sq, pm).drop_first());
        }
        let mut r = vinsert(p, s, Ghost(pm));
        let ghost rq = r@;
        r.insert(0, h);
        proof {
            assert(r@ =~= seq![h] + rq);
            assert(keyed_abs(r@, pm) =~= seq![(h.0@, pm[h.1 as int].1)] + keyed_abs(rq, pm));
        }
        r
    } else {
        let mut s = s;
        s.insert(0, p);
        proof {
            assert(s@ =~= seq![p] + sq);
            assert(keyed_abs(s@, pm) =~= seq![(p.0@, pm[p.1 as int].1)] + keyed_abs(sq, pm));
        }
        s
    }
}

/// Stable insertion sort of keyed entries by their stringified key.
fn ssort_exec(
    s: Vec<(Vec<u8>, usize)>,
    Ghost(pm): Ghost<Seq<(VModel, VModel)>>,
) -> (r: Vec<(Vec<u8>, usize)>)
    requires
        forall|q: int| 0 <= q < s@.len() ==> (#[trigger] s@[q]).1 < pm.len(),
    ensures
        forall|q: int| 0 <= q < r@.len() ==> (#[trigger] r@[q]).1 < pm.len(),
        keyed_abs(r@, pm) == ssort(keyed_abs(s@, pm)),
    decreases s@.len(),
{
    let ghost sq = s@;
    if s.len() == 0 {
        proof {
            assert(keyed_abs(s@, pm) =~= Seq::<(Seq<u8>, VModel)>::empty());
        }
        s
    } else {
        let mut s = s;
        let p = match s.pop() {
            Some(p) => p,
            None => {
                proof {
                    assert(false);
                }
                unreached()
            },
        };
        proof {
            assert(s@ =~= sq.drop_last());
            assert(keyed_abs(s@, pm) =~= keyed_abs(sq, pm).drop_last());
            assert(keyed_abs(sq, pm).last() == (p.0@, pm[p.1 as int].1));
        }
        let sorted = ssort_exec(s, Ghost(pm));
        vinsert(p, sorted, Ghost(pm))
    }
}

/// A successful key stringification has one text per pair.
proof fn lemma_key_texts_len(pairs: Seq<(VModel, VModel)>, o: u64)
    ensures
        key_texts(pairs, o) matches Ok(ts) ==> ts.len() == pairs.len(),
    decreases pairs.len(),
{
    if pairs.len() > 0 {
        lemma_key_texts_len(pairs.drop_first(), o);
    }
}

/// Insertion grows a pair sequence by one.
proof fn lemma_sinsert_len(p: (Seq<u8>, VModel), s: Seq<(Seq<u8>, VModel)>)
    ensures
        sinsert(p, s).len() == s.len() + 1,
    decreases s.len(),
{
    if s.len() > 0 && lex_le(s[0].0, p.0) {
        lemma_sinsert_len(p, s.drop_first());
    }
}

/// Sorting keeps the number of pairs.
proof fn lemma_ssort_len(s: Seq<(Seq<u8>, VModel)>)
    ensures
        ssort(s).len() == s.len(),
    decreases s.len(),
{
    if s.len() > 0 {
        lemma_ssort_len(s.drop_last());
        lemma_sinsert_len(s.last(), ssort(s.drop_last()));
    }
}

/// Encode the items of an array from index `i` on, each behind its separator.
fn enc_items_exec<F: Fallback>(
    a: &Vec<Value>,
    i: usize,
    fb: Option<&F>,
    o: u64,
    depth: u32,
    ind: u32,
    out: &mut Vec<u8>,
) -> (r: Result<(), EncodeError>)
    requires
        depth <= RECURSION_LIMIT,
        ind <= depth,
        i <= a@.len(),
    ensures
        enc_items(
            model_seq(a@).skip(i as int),
            o,
            fb.is_some(),
            depth as int,
            ind as int,
            i == 0,
        ) matches EncOut::Bytes(b) ==> r is Ok && final(out)@ == old(out)@ + b,
        enc_items(
            model_seq(a@).skip(i as int),
            o,
            fb.is_some(),
            depth as int,
            ind as int,
            i == 0,
        ) matches EncOut::Fail(e) ==> r == Err::<(), EncodeError>(e),
    decreases RECURSION_LIMIT - depth, a@.len() - i, 1int,
{
    let ghost ms = model_seq(a@);
    let ghost fbb = fb.is_some();
    proof {
        crate::value::lemma_model_seq(a@);
    }
    if i >= a.len() {
        proof {
            assert(ms.skip(i as int) =~= Seq::<VModel>::empty());
            assert(out@ + Seq::<u8>::empty() =~= out@);
        }
        return Ok(());
    }
    write_sep(i == 0, o, ind, out);
    let c = enc_value(&a[i], fb, false, o, depth, ind, out);
    proof {
        assert(ms.skip(i as int)[0] == ms[i as int]);
        assert(ms[i as int] == a@[i as int].model());
    }
    match c {
        Err(e) => {
            return Err(e);
        },
        Ok(()) => {},
    }
    let r2 = enc_items_exec(a, i + 1, fb, o, depth, ind, out);
    proof {
        assert(ms.skip(i as int).drop_first() =~= ms.skip(i + 1));
        let x = enc_val(ms[i as int], o, fbb, depth as int, ind as int);
        let erest = enc_items(ms.skip(i + 1), o, fbb, depth as int, ind as int, false);
        if r2 is Ok {
            if let EncOut::Bytes(b) = x {
                if let EncOut::Bytes(rest) = erest {
                    assert(out@ =~= old(out)@ + (item_sep(i == 0, o, ind as int) + b + rest));
                }
            }
        }
    }
    r2
}

/// Encode the stringified pairs of an object from index `i` on.
#[verifier::rlimit(100)]
fn enc_kpairs_exec<F: Fallback>(
    srt: &Vec<(Vec<u8>, usize)>,
    pairs: &Vec<(Value, Value)>,
    i: usize,
    fb: Option<&F>,
    o: u64,
    depth: u32,
    ind: u32,
    out: &mut Vec<u8>,
) -> (r: Result<(), EncodeError>)
    requires
        depth <= RECURSION_LIMIT,
        ind <= depth,
        i <= srt@.len(),
        forall|q: int| 0 <= q < srt@.len() ==> (#[trigger] srt@[q]).1 < pairs@.len(),
    ensures
        enc_pairs(
            keyed_abs(srt@, model_pairs(pairs@)).skip(i as int),
            o,
            fb.is_some(),
            depth as int,
            ind as int,
            i == 0,
        ) matches EncOut::Bytes(b) ==> r is Ok && final(out)@ == old(out)@ + b,
        enc_pairs(
            keyed_abs(srt@, model_pairs(pairs@)).skip(i as int),
            o,
            fb.is_some(),
            depth as int,
            ind as int,
            i == 0,
        ) matches EncOut::Fail(e) ==> r == Err::<(), EncodeError>(e),
    decreases RECURSION_LIMIT - depth, srt@.len() - i, 1int,
{
    let ghost pm = model_pairs(pairs@);
    let ghost ka = keyed_abs(srt@, pm);
    let ghost fbb = fb.is_some();
    proof {
        crate::value::lemma_model_pairs(pairs@);
    }
    if i >= srt.len() {
        proof {
            assert(ka.skip(i as int) =~= Seq::<(Seq<u8>, VModel)>::empty());
            assert(out@ + Seq::<u8>::empty() =~= out@);
        }
        return Ok(());
    }
    write_sep(i == 0, o, ind, out);
    write_quoted(&srt[i].0, out);
    write_colon(o, out);
    let idx = srt[i].1;
    let c = enc_value(&pairs[idx].1, fb, false, o, depth, ind, out);
    proof {
        assert(ka.skip(i as int)[0] == ka[i as int]);
        assert(ka[i as int] == (srt@[i as int].0@, pm[srt@[i as int].1 as int].1));
        assert(pm[idx as int].1 == pairs@[idx as int].1.model());
    }
    match c {
        Err(e) => {
            return Err(e);
        },
        Ok(()) => {},
    }
    let r2 = enc_kpairs_exec(srt, pairs, i + 1, fb, o, depth, ind, out);
    proof {
        assert(ka.skip(i as int).drop_first() =~= ka.skip(i + 1));
        let x = enc_val(ka[i as int].1, o, fbb, depth as int, ind as int);
        let erest = enc_pairs(ka.skip(i + 1), o, fbb, depth as int, ind as int, false);
        if r2 is Ok {
            if let EncOut::Bytes(vb) = x {
                if let EncOut::Bytes(rest) = erest {
                    assert(out@ =~= old(out)@ + (item_sep(i == 0, o, ind as int) + quoted(
                        ka[i as int].0,
                    ) + colon_text(o) + vb + rest));
                }
            }
        }
    }
    r2
}

/// Encode the fields of a record from index `i` on.
#[verifier::rlimit(60)]
fn enc_fields_exec<F: Fallback>(
    fields: &Vec<(Vec<u8>, Value)>,
    i: usize,
    fb: Option<&F>,
    o: u64,
    depth: u32,
    ind: u32,
    out: &mut Vec<u8>,
) -> (r: Result<(), EncodeError>)
    requires
        depth <= RECURSION_LIMIT,
        ind <= depth,
        i <= fields@.len(),
    ensures
        enc_pairs(
            model_fields(fields@).skip(i as int),
            o,
            fb.is_some(),
            depth as int,
            ind as int,
            i == 0,
        ) matches EncOut::Bytes(b) ==> r is Ok && final(out)@ == old(out)@ + b,
        enc_pairs(
            model_fields(fields@).skip(i as int),
            o,
            fb.is_some(),
            depth as int,
            ind as int,
            i == 0,
        ) matches EncOut::Fail(e) ==> r == Err::<(), EncodeError>(e),
    decreases RECURSION_LIMIT - depth, fields@.len() - i, 1int,
{
    let ghost fm = model_fields(fields@);
    let ghost fbb = fb.is_some();
    proof {
        crate::value::lemma_model_fields(fields@);
    }
    if i >= fields.len() {
        proof {
            assert(fm.skip(i as int) =~= Seq::<(Seq<u8>, VModel)>::empty());
            assert(out@ + Seq::<u8>::empty() =~= out@);
        }
        return Ok(());
    }
    write_sep(i == 0, o, ind, out);
    write_quoted(&fields[i].0, out);
    write_colon(o, out);
    let c = enc_value(&fields[i].1, fb, false, o, depth, ind, out);
    proof {
        assert(fm.skip(i as int)[0] == fm[i as int]);
        assert(fm[i as int] == (fields@[i as int].0@, fields@[i as int].1.model()));
    }
    match c {
        Err(e) => {
            return Err(e);
        },
        Ok(()) => {},
    }
    let r2 = enc_fields_exec(fields, i + 1, fb, o, depth, ind, out);
    proof {
        assert(fm.skip(i as int).drop_first() =~= fm.skip(i + 1));
        let x = enc_val(fm[i as int].1, o, fbb, depth as int, ind as int);
        let erest = enc_pairs(fm.skip(i + 1), o, fbb, depth as int, ind as int, false);
        if r2 is Ok {
            if let EncOut::Bytes(vb) = x {
                if let EncOut::Bytes(rest) = erest {
                    assert(out@ =~= old(out)@ + (item_sep(i == 0, o, ind as int) + quoted(
                        fm[i as int].0,
                    ) + colon_text(o) + vb + rest));
                }
            }
        }
    }
    r2
}

/// Encode the elements of a numeric buffer's innermost dimension from `i` on.
fn enc_elems_exec(
    es: &Vec<NumElem>,
    i: usize,
    o: u64,
    depth: u32,
    ind: u32,
    out: &mut Vec<u8>,
) -> (r: Result<(), EncodeError>)
    requires
        depth <= RECURSION_LIMIT,
        ind <= depth,
        i <= es@.len(),
    ensures
        enc_elems(
            crate::value::model_elems(es@).skip(i as int),
            o,
            depth as int,
            ind as int,
            i == 0,
        ) matches EncOut::Bytes(b) ==> r is Ok && final(out)@ == old(out)@ + b,
        enc_elems(
            crate::value::model_elems(es@).skip(i as int),
            o,
            depth as int,
            ind as int,
            i == 0,
        ) matches EncOut::Fail(e) ==> r == Err::<(), EncodeError>(e),
    decreases RECURSION_LIMIT - depth, es@.len() - i, 1int,
{
    let ghost em = crate::value::model_elems(es@);
    proof {
        crate::value::lemma_model_elems(es@);
    }
    if i >= es.len() {
        proof {
            assert(em.skip(i as int) =~= Seq::<crate::value::NModel>::empty());
            assert(out@ + Seq::<u8>::empty() =~= out@);
        }
        return Ok(());
    }
    write_sep(i == 0, o, ind, out);
    proof {
        assert(em.skip(i as int)[0] == em[i as int]);
        assert(em[i as int] == es@[i as int].model());
    }
    match &es[i] {
        NumElem::I(n) => {
            write_int(*n, out);
        },
        NumElem::F(f) => match f {
            FloatValue::Finite(t) => {
                push_vec(out, t);
            },
            _ => {
                return Err(EncodeError::InvalidFloat);
            },
        },
    }
    let r2 = enc_elems_exec(es, i + 1, o, depth, ind, out);
    proof {
        assert(em.skip(i as int).drop_first() =~= em.skip(i + 1));
        let x = enc_elem(em[i as int]);
        let erest = enc_elems(em.skip(i + 1), o, depth as int, ind as int, false);
        if r2 is Ok {
            if let EncOut::Bytes(b) = x {
                if let EncOut::Bytes(rest) = erest {
                    assert(out@ =~= old(out)@ + (item_sep(i == 0, o, ind as int) + b + rest));
                }
            }
        }
    }
    r2
}

/// Encode the rows of a numeric buffer from index `i` on.
fn enc_rows_exec(
    rs: &Vec<NumBuf>,
    i: usize,
    Ghost(fbb): Ghost<bool>,
    o: u64,
    depth: u32,
    ind: u32,
    out: &mut Vec<u8>,
) -> (r: Result<(), EncodeError>)
    requires
        depth <= RECURSION_LIMIT,
        ind <= depth,
        i <= rs@.len(),
    ensures
        enc_rows(
            crate::value::model_bufs(rs@).skip(i as int),
            o,
            fbb,
            depth as int,
            ind as int,
            i == 0,
        ) matches EncOut::Bytes(b) ==> r is Ok && final(out)@ == old(out)@ + b,
        enc_rows(
            crate::value::model_bufs(rs@).skip(i as int),
            o,
            fbb,
            depth as int,
            ind as int,
            i == 0,
        ) matches EncOut::Fail(e) ==> r == Err::<(), EncodeError>(e),
    decreases RECURSION_LIMIT - depth, rs@.len() - i, 1int,
{
    let ghost bm = crate::value::model_bufs(rs@);
    proof {
        crate::value::lemma_model_bufs(rs@);
    }
    if i >= rs.len() {
        proof {
            assert(bm.skip(i as int) =~= Seq::<crate::value::NBModel>::empty());
            assert(out@ + Seq::<u8>::empty() =~= out@);
        }
        return Ok(());
    }
    write_sep(i == 0, o, ind, out);
    let c = enc_numbuf(&rs[i], Ghost(fbb), o, depth, ind, out);
    proof {
        assert(bm.skip(i as int)[0] == bm[i as int]);
        assert(bm[i as int] == rs@[i as int].model());
    }
    match c {
        Err(e) => {
            return Err(e);
        },
        Ok(()) => {},
    }
    let r2 = enc_rows_exec(rs, i + 1, Ghost(fbb), o, depth, ind, out);
    proof {
        assert(bm.skip(i as int).drop_first() =~= bm.skip(i + 1));
        let x = enc_buf(bm[i as int], o, fbb, depth as int, ind as int);
        let erest = enc_rows(bm.skip(i + 1), o, fbb, depth as int, ind as int, false);
        if r2 is Ok {
            if let EncOut::Bytes(b) = x {
                if let EncOut::Bytes(rest) = erest {
                    assert(out@ =~= old(out)@ + (item_sep(i == 0, o, ind as int) + b + rest));
                }
            }
        }
    }
    r2
}

/// Encode a numeric buffer as nested arrays.
fn enc_numbuf(
    b: &NumBuf,
    Ghost(fbb): Ghost<bool>,
    o: u64,
    depth: u32,
    ind: u32,
    out: &mut Vec<u8>,
) -> (r: Result<(), EncodeError>)
    requires
        depth <= RECURSION_LIMIT,
        ind <= depth,
    ensures
        enc_buf((*b).model(), o, fbb, depth as int, ind as int) matches EncOut::Bytes(bs)
            ==> r is Ok && final(out)@ == old(out)@ + bs,
        enc_buf((*b).model(), o, fbb, depth as int, ind as int) matches EncOut::Fail(e) ==> r
            == Err::<(), EncodeError>(e),
    decreases RECURSION_LIMIT - depth, 0int, 0int,
{
    match b {
        NumBuf::Elems(es) => {
            if depth >= RECURSION_LIMIT {
                return Err(EncodeError::RecursionLimitExceeded);
            }
            out.push(91);
            proof {
                assert(crate::value::model_elems(es@).skip(0) =~= crate::value::model_elems(
                    es@,
                ));
            }
            let c = enc_elems_exec(es, 0, o, depth + 1, ind + 1, out);
            match c {
                Err(e) => {
                    return Err(e);
                },
                Ok(()) => {},
            }
            write_close(o, ind, es.len() > 0, 93, out);
            proof {
                crate::value::lemma_model_elems(es@);
                let body = enc_elems(
                    crate::value::model_elems(es@),
                    o,
                    depth as int + 1,
                    ind as int + 1,
                    true,
                );
                if let EncOut::Bytes(bs) = body {
                    assert(out@ =~= old(out)@ + (seq![91u8] + bs + close_text(
                        o,
                        ind as int,
                        es@.len() > 0,
                        93u8,
                    )));
                }
            }
            Ok(())
        },
        NumBuf::Rows(rs) => {
            if depth >= RECURSION_LIMIT {
                return Err(EncodeError::RecursionLimitExceeded);
            }
            out.push(91);
            proof {
                assert(crate::value::model_bufs(rs@).skip(0) =~= crate::value::model_bufs(rs@));
            }
            let c = enc_rows_exec(rs, 0, Ghost(fbb), o, depth + 1, ind + 1, out);
            match c {
                Err(e) => {
                    return Err(e);
                },
                Ok(()) => {},
            }
            write_close(o, ind, rs.len() > 0, 93, out);
            proof {
                crate::value::lemma_model_bufs(rs@);
                let body = enc_rows(
                    crate::value::model_bufs(rs@),
                    o,
                    fbb,
                    depth as int + 1,
                    ind as int + 1,
                    true,
                );
                if let EncOut::Bytes(bs) = body {
                    assert(out@ =~= old(out)@ + (seq![91u8] + bs + close_text(
                        o,
                        ind as int,
                        rs@.len() > 0,
                        93u8,
                    )));
                }
            }
            Ok(())
        },
    }
}

/// Hand an unclassified value to the fallback, when one exists and this value
/// is not itself a fallback substitute; whatever it offers is encoded at a
/// deeper level. Without a fallback the value is not serializable.
fn route_fb<F: Fallback>(
    v: &Value,
    fb: Option<&F>,
    via_fb: bool,
    o: u64,
    depth: u32,
    ind: u32,
    out: &mut Vec<u8>,
) -> (r: Result<(), EncodeError>)
    requires
        depth <= RECURSION_LIMIT,
        ind <= depth,
    ensures
        route_out(fb.is_some()) matches EncOut::Fail(e) ==> r == Err::<(), EncodeError>(e),
    decreases RECURSION_LIMIT - depth, 0int, 0int,
{
    match fb {
        None => Err(EncodeError::TypeNotSerializable),
        Some(f) => {
            if via_fb {
                return Err(EncodeError::TypeNotSerializable);
            }
            match f.substitute(v) {
                None => Err(EncodeError::TypeNotSerializable),
                Some(v2) => {
                    if depth >= RECURSION_LIMIT {
                        return Err(EncodeError::RecursionLimitExceeded);
                    }
                    enc_value(&v2, fb, true, o, depth + 1, ind, out)
                },
            }
        },
    }
}

/// Encode one value: produce exactly the bytes of the specified rendering,
/// or fail with exactly its error, unless the rendering crosses to the
/// fallback, of which nothing is promised.
#[verifier::rlimit(100)]
#[verifier::spinoff_prover]
pub fn enc_value<F: Fallback>(
    v: &Value,
    fb: Option<&F>,
    via_fb: bool,
    o: u64,
    depth: u32,
    ind: u32,
    out: &mut Vec<u8>,
) -> (r: Result<(), EncodeError>)
    requires
        depth <= RECURSION_LIMIT,
        ind <= depth,
    ensures
        enc_val((*v).model(), o, fb.is_some(), depth as int, ind as int)
            matches EncOut::Bytes(b) ==> r is Ok && final(out)@ == old(out)@ + b,
        enc_val((*v).model(), o, fb.is_some(), depth as int, ind as int)
            matches EncOut::Fail(e) ==> r == Err::<(), EncodeError>(e),
    decreases RECURSION_LIMIT - depth, 0int, 1int,
{
    let ghost m = (*v).model();
    let ghost fbb = fb.is_some();
    match v {
        Value::Null => {
            write_null(out);
            Ok(())
        },
        Value::Bool(b) => {
            write_bool(*b, out);
            Ok(())
        },
        Value::Int(n) => {
            if o & STRICT_INTEGER != 0 && (*n > MAX_SAFE_INT || *n < -MAX_SAFE_INT) {
                Err(EncodeError::IntegerOutOfRange)
            } else {
                write_int(*n, out);
                Ok(())
            }
        },
        Value::Float(f) => match f {
            FloatValue::Finite(t) => {
                push_vec(out, t);
                Ok(())
            },
            _ => Err(EncodeError::InvalidFloat),
        },
        Value::Str(s) => {
            write_quoted(s, out);
            Ok(())
        },
        Value::Array(a) => {
            if depth >= RECURSION_LIMIT {
                return Err(EncodeError::RecursionLimitExceeded);
            }
            out.push(91);
            proof {
                assert(model_seq(a@).skip(0) =~= model_seq(a@));
            }
            let c = enc_items_exec(a, 0, fb, o, depth + 1, ind + 1, out);
            match c {
                Err(e) => {
                    return Err(e);
                },
                Ok(()) => {},
            }
            write_close(o, ind, a.len() > 0, 93, out);
            proof {
                crate::value::lemma_model_seq(a@);
                let body = enc_items(
                    model_seq(a@),
                    o,
                    fbb,
                    depth as int + 1,
                    ind as int + 1,
                    true,
                );
                if let EncOut::Bytes(bs) = body {
                    assert(out@ =~= old(out)@ + (seq![91u8] + bs + close_text(
                        o,
                        ind as int,
                        a@.len() > 0,
                        93u8,
                    )));
                }
            }
            Ok(())
        },
        Value::Object(p) => {
            if depth >= RECURSION_LIMIT {
                return Err(EncodeError::RecursionLimitExceeded);
            }
            let ghost pm = model_pairs(p@);
            proof {
                crate::value::lemma_model_pairs(p@);
                assert(pm.skip(0) =~= pm);
                lemma_key_texts_len(pm, o);
            }
            let mut keyed: Vec<(Vec<u8>, usize)> = Vec::new();
            let ghost keyed0 = keyed@;
            match build_keys(p, 0, o, &mut keyed) {
                Err(e) => {
                    return Err(e);
                },
                Ok(()) => {},
            }
            let ghost kts = match key_texts(pm, o) {
                Ok(ts) => ts,
                Err(_) => Seq::empty(),
            };
            proof {
                assert(keyed_abs(keyed0, pm) =~= Seq::<(Seq<u8>, VModel)>::empty());
                assert(keyed_abs(keyed@, pm) =~= kts);
            }
            let srt = if o & SORT_KEYS != 0 {
                let s2 = ssort_exec(keyed, Ghost(pm));
                proof {
                    lemma_ssort_len(kts);
                }
                s2
            } else {
                keyed
            };
            let ghost sp = if has_flag(o, SORT_KEYS) {
                ssort(kts)
            } else {
                kts
            };
            proof {
                assert(keyed_abs(srt@, pm) == sp);
                assert(sp.len() == pm.len());
                assert(srt@.len() == sp.len());
                assert(sp.skip(0) =~= sp);
            }
            out.push(123);
            let c = enc_kpairs_exec(&srt, p, 0, fb, o, depth + 1, ind + 1, out);
            match c {
                Err(e) => {
                    return Err(e);
                },
                Ok(()) => {},
            }
            write_close(o, ind, srt.len() > 0, 125, out);
            proof {
                let body = enc_pairs(sp, o, fbb, depth as int + 1, ind as int + 1, true);
                if let EncOut::Bytes(bs) = body {
                    assert(out@ =~= old(out)@ + (seq![123u8] + bs + close_text(
                        o,
                        ind as int,
                        pm.len() > 0,
                        125u8,
                    )));
                }
            }
            Ok(())
        },
        Value::Temporal(t) => {
            if o & PASSTHROUGH_DATETIME != 0 {
                route_fb(v, fb, via_fb, o, depth, ind, out)
            } else {
                let mut tmp: Vec<u8> = Vec::new();
                write_temporal(t, o, &mut tmp);
                write_quoted(&tmp, out);
                Ok(())
            }
        },
        Value::UniqueId(u) => {
            if o & SERIALIZE_UUID != 0 {
                let mut tmp: Vec<u8> = Vec::new();
                write_uuid(u, &mut tmp);
                write_quoted(&tmp, out);
                Ok(())
            } else {
                route_fb(v, fb, via_fb, o, depth, ind, out)
            }
        },
        Value::NumericBuffer(b) => {
            if o & SERIALIZE_NUMPY != 0 {
                enc_numbuf(b, Ghost(fbb), o, depth, ind, out)
            } else {
                route_fb(v, fb, via_fb, o, depth, ind, out)
            }
        },
        Value::Record(fields) => {
            if o & PASSTHROUGH_DATACLASS != 0 {
                route_fb(v, fb, via_fb, o, depth, ind, out)
            } else if o & SERIALIZE_DATACLASS != 0 {
                if depth >= RECURSION_LIMIT {
                    return Err(EncodeError::RecursionLimitExceeded);
                }
                out.push(123);
                proof {
                    assert(model_fields(fields@).skip(0) =~= model_fields(fields@));
                }
                let c = enc_fields_exec(fields, 0, fb, o, depth + 1, ind + 1, out);
                match c {
                    Err(e) => {
                        return Err(e);
                    },
                    Ok(()) => {},
                }
                write_close(o, ind, fields.len() > 0, 125, out);
                proof {
                    crate::value::lemma_model_fields(fields@);
                    let body = enc_pairs(
                        model_fields(fields@),
                        o,
                        fbb,
                        depth as int + 1,
                        ind as int + 1,
                        true,
                    );
                    if let EncOut::Bytes(bs) = body {
                        assert(out@ =~= old(out)@ + (seq![123u8] + bs + close_text(
                            o,
                            ind as int,
                            fields@.len() > 0,
                            125u8,
                        )));
                    }
                }
                Ok(())
            } else {
                route_fb(v, fb, via_fb, o, depth, ind, out)
            }
        },
        Value::Enumerated(sc) => match sc {
            Scalar::Bool(b) => {
                write_bool(*b, out);
                Ok(())
            },
            Scalar::Int(n) => {
                if o & STRICT_INTEGER != 0 && (*n > MAX_SAFE_INT || *n < -MAX_SAFE_INT) {
                    Err(EncodeError::IntegerOutOfRange)
                } else {
                    write_int(*n, out);
                    Ok(())
                }
            },
            Scalar::Float(f) => match f {
                FloatValue::Finite(t) => {
                    push_vec(out, t);
                    Ok(())
                },
                _ => Err(EncodeError::InvalidFloat),
            },
            Scalar::Str(s) => {
                write_quoted(s, out);
                Ok(())
            },
        },
        Value::Subclass(inner) => {
            if o & PASSTHROUGH_SUBCLASS != 0 {
                route_fb(v, fb, via_fb, o, depth, ind, out)
            } else if depth >= RECURSION_LIMIT {
                Err(EncodeError::RecursionLimitExceeded)
            } else {
                proof {
                    assert(seq![(**inner).model()][0] == (**inner).model());
                }
                enc_value(&**inner, fb, false, o, depth + 1, ind, out)
            }
        },
        Value::Opaque(_) => route_fb(v, fb, via_fb, o, depth, ind, out),
    }
}

/// A failure of the whole encode entry point: the option integer was
/// invalid, or encoding itself failed.
#[derive(PartialEq, Eq, Structural, Clone, Copy, Debug)]
pub enum DumpsError {
    InvalidOption(crate::opt::OptionError),
    Encode(EncodeError),
}

/// Encode a value into JSON bytes under the given options. The result is
/// exactly the specified rendering (with the optional trailing newline), and
/// the error exactly the specified error, whenever the rendering does not
/// pass through the fallback; output is all-or-nothing.
pub fn encode<F: Fallback>(value: &Value, default: Option<&F>, options: crate::opt::OptionSet) -> (r:
    Result<Vec<u8>, EncodeError>)
    ensures
        crate::ser::spec_encode((*value).model(), options.bits, default.is_some())
            matches EncOut::Bytes(b) ==> r matches Ok(v) && v@ == b,
        crate::ser::spec_encode((*value).model(), options.bits, default.is_some())
            matches EncOut::Fail(e) ==> r == Err::<Vec<u8>, EncodeError>(e),
{
    let mut out: Vec<u8> = Vec::new();
    match enc_value(value, default, false, options.bits, 0, 0, &mut out) {
        Err(e) => Err(e),
        Ok(()) => {
            if options.bits & crate::opt::APPEND_NEWLINE != 0 {
                out.push(10);
            }
            proof {
                if let EncOut::Bytes(b) = enc_val(
                    (*value).model(),
                    options.bits,
                    default.is_some(),
                    0,
                    0,
                ) {
                    assert(Seq::<u8>::empty() + b =~= b);
                }
            }
            Ok(out)
        },
    }
}

/// The encode entry point: validate and unpack the raw option integer (an
/// absent option means no flags), then encode.
pub fn dumps<F: Fallback>(obj: &Value, default: Option<&F>, option: Option<i64>) -> (r: Result<
    Vec<u8>,
    DumpsError,
>)
    ensures
        match option {
            Some(raw) => match crate::opt::spec_decode(raw) {
                Err(oe) => r == Err::<Vec<u8>, DumpsError>(DumpsError::InvalidOption(oe)),
                Ok(os) => match crate::ser::spec_encode(
                    (*obj).model(),
                    os.bits,
                    default.is_some(),
                ) {
                    EncOut::Bytes(b) => r matches Ok(v) && v@ == b,
                    EncOut::Fail(e) => r == Err::<Vec<u8>, DumpsError>(DumpsError::Encode(e)),
                    EncOut::External => true,
                },
            },
            None => match crate::ser::spec_encode((*obj).model(), 0, default.is_some()) {
                EncOut::Bytes(b) => r matches Ok(v) && v@ == b,
                EncOut::Fail(e) => r == Err::<Vec<u8>, DumpsError>(DumpsError::Encode(e)),
                EncOut::External => true,
            },
        },
{
    let opts = match option {
        None => crate::opt::OptionSet { bits: 0 },
        Some(raw) => match crate::opt::OptionSet::decode(raw) {
            Ok(os) => os,
            Err(e) => {
                return Err(DumpsError::InvalidOption(e));
            },
        },
    };
    match encode(obj, default, opts) {
        Ok(v) => Ok(v),
        Err(e) => Err(DumpsError::Encode(e)),
    }
}

} // verus!
