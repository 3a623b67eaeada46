//! The serializer: a flag-driven recursive encoder from a value tree to JSON
//! bytes. The rendering is specified by a total mathematical function over
//! the value model; the executable encoder is proved to produce exactly its
//! bytes, and to fail with exactly its error, whenever no fallback is
//! consulted.

use vstd::prelude::*;

use crate::opt::{
    has_flag, INDENT_2, NAIVE_UTC, NON_STR_KEYS, OMIT_MICROSECONDS, PASSTHROUGH_DATACLASS,
    PASSTHROUGH_DATETIME, PASSTHROUGH_SUBCLASS, SERIALIZE_DATACLASS, SERIALIZE_NUMPY,
    SERIALIZE_UUID, SORT_KEYS, STRICT_INTEGER, UTC_Z,
};
use crate::value::{
    FModel, NBModel, NModel, SModel, Temporal, UniqueId, VModel,
};

verus! {

/// The ceiling on recursion depth: a container, wrapper kind or fallback
/// substitution nested this deep fails instead of exhausting the stack, which
/// also catches self-referential inputs handed in through the fallback.
pub const RECURSION_LIMIT: u32 = 1024;

/// The largest integer exactly representable in a 53-bit mantissa.
pub const MAX_SAFE_INT: i64 = 9007199254740991;

/// An encoding failure.
#[derive(PartialEq, Eq, Structural, Clone, Copy, Debug)]
pub enum EncodeError {
    /// The value (or a fallback substitute) has no serializable classification.
    TypeNotSerializable,
    /// The depth ceiling was exceeded.
    RecursionLimitExceeded,
    /// An object key is not a string and non-string keys are not permitted,
    /// or a non-scalar was used as a key.
    KeyMustBeString,
    /// Strict integer mode rejected an integer outside the 53-bit range.
    IntegerOutOfRange,
    /// A NaN or infinite float is not representable in JSON.
    InvalidFloat,
}

/// The outcome of the specified rendering: the exact bytes, the exact error,
/// or `External` when the result passes through the user fallback, about
/// which nothing is promised.
pub enum EncOut {
    Bytes(Seq<u8>),
    Fail(EncodeError),
    External,
}

/// The decimal digit byte for `n % 10`.
pub open spec fn digit(n: int) -> u8 {
    (48 + (n % 10)) as u8
}

/// The decimal rendering of a non-negative integer.
pub open spec fn sdec(n: int) -> Seq<u8>
    decreases n,
{
    if n < 10 {
        seq![digit(n)]
    } else {
        sdec(n / 10).push(digit(n))
    }
}

/// The decimal rendering of an integer, with a leading minus when negative.
pub open spec fn sint(n: int) -> Seq<u8> {
    if n < 0 {
        seq![45u8] + sdec(-n)
    } else {
        sdec(n)
    }
}

/// The lower-case hexadecimal digit byte for `n % 16`.
pub open spec fn hexdig(n: int) -> u8 {
    if n % 16 < 10 {
        (48 + n % 16) as u8
    } else {
        (87 + n % 16) as u8
    }
}

/// The 16 hexadecimal digits of a 64-bit word, most significant first.
pub open spec fn hex16(x: u64) -> Seq<u8> {
    Seq::new(16, |i: int| hexdig((x >> (((15 - i) * 4) as u64)) as int))
}

/// The canonical hyphenated text of a 128-bit identifier.
pub open spec fn uuid_text(u: UniqueId) -> Seq<u8> {
    let h = hex16(u.hi) + hex16(u.lo);
    h.subrange(0, 8) + seq![45u8] + h.subrange(8, 12) + seq![45u8] + h.subrange(12, 16)
        + seq![45u8] + h.subrange(16, 20) + seq![45u8] + h.subrange(20, 32)
}

/// Two decimal digits, zero padded.
pub open spec fn pad2(n: int) -> Seq<u8> {
    seq![digit(n / 10), digit(n)]
}

/// Four decimal digits, zero padded.
pub open spec fn pad4(n: int) -> Seq<u8> {
    seq![digit(n / 1000), digit(n / 100), digit(n / 10), digit(n)]
}

/// Six decimal digits, zero padded.
pub open spec fn pad6(n: int) -> Seq<u8> {
    seq![digit(n / 100000), digit(n / 10000), digit(n / 1000), digit(n / 100), digit(n / 10),
        digit(n)]
}

/// ISO-8601 text of a date.
pub open spec fn date_text(y: int, m: int, d: int) -> Seq<u8> {
    pad4(y) + seq![45u8] + pad2(m) + seq![45u8] + pad2(d)
}

/// ISO-8601 text of a time of day; sub-second precision is dropped when zero
/// or when the options say to omit it.
pub open spec fn time_text(h: int, mi: int, s: int, us: int, o: u64) -> Seq<u8> {
    pad2(h) + seq![58u8] + pad2(mi) + seq![58u8] + pad2(s) + (
    if us != 0 && !has_flag(o, OMIT_MICROSECONDS) {
        seq![46u8] + pad6(us)
    } else {
        Seq::empty()
    })
}

/// The rendering of a UTC offset of zero: `Z` or `+00:00` by option.
pub open spec fn utc_suffix(o: u64) -> Seq<u8> {
    if has_flag(o, UTC_Z) {
        seq![90u8]
    } else {
        seq![43u8, 48u8, 48u8, 58u8, 48u8, 48u8]
    }
}

/// The rendering of an optional UTC offset in minutes: nothing when absent
/// (unless offset-less values are to be read as UTC), the UTC suffix when
/// zero, and a signed `hh:mm` otherwise.
pub open spec fn offset_text(off: Option<i32>, o: u64) -> Seq<u8> {
    match off {
        Option::None => if has_flag(o, NAIVE_UTC) {
            utc_suffix(o)
        } else {
            Seq::empty()
        },
        Option::Some(k) => if k == 0 {
            utc_suffix(o)
        } else {
            let a = if k < 0 { -(k as int) } else { k as int };
            seq![if k < 0 { 45u8 } else { 43u8 }] + pad2(a / 60) + seq![58u8] + pad2(a % 60)
        },
    }
}

/// ISO-8601 text of a temporal value.
pub open spec fn temporal_text(t: Temporal, o: u64) -> Seq<u8> {
    match t {
        Temporal::Date(d) => date_text(d.year as int, d.month as int, d.day as int),
        Temporal::Time(tv) => time_text(
            tv.hour as int,
            tv.minute as int,
            tv.second as int,
            tv.microsecond as int,
            o,
        ),
        Temporal::DateTime { date, time, offset_minutes } => date_text(
            date.year as int,
            date.month as int,
            date.day as int,
        ) + seq![84u8] + time_text(
            time.hour as int,
            time.minute as int,
            time.second as int,
            time.microsecond as int,
            o,
        ) + offset_text(offset_minutes, o),
    }
}

/// The JSON escape of one byte of string content: quote and backslash are
/// escaped, the common control characters get their short escapes, the rest
/// of the control range is escaped as `\u00XX`, and every other byte stands
/// for itself (non-ASCII UTF-8 is emitted raw).
pub open spec fn esc_byte(b: u8) -> Seq<u8> {
    if b == 34 {
        seq![92u8, 34u8]
    } else if b == 92 {
        seq![92u8, 92u8]
    } else if b == 8 {
        seq![92u8, 98u8]
    } else if b == 9 {
        seq![92u8, 116u8]
    } else if b == 10 {
        seq![92u8, 110u8]
    } else if b == 12 {
        seq![92u8, 102u8]
    } else if b == 13 {
        seq![92u8, 114u8]
    } else if b < 32 {
        seq![92u8, 117u8, 48u8, 48u8, hexdig(b as int / 16), hexdig(b as int)]
    } else {
        seq![b]
    }
}

/// The escaped form of string content.
pub open spec fn esc_str(s: Seq<u8>) -> Seq<u8>
    decreases s.len(),
{
    if s.len() == 0 {
        Seq::empty()
    } else {
        esc_str(s.drop_last()) + esc_byte(s.last())
    }
}

/// A quoted, escaped JSON string.
pub open spec fn quoted(s: Seq<u8>) -> Seq<u8> {
    seq![34u8] + esc_str(s) + seq![34u8]
}

/// A run of spaces.
pub open spec fn spaces(n: int) -> Seq<u8> {
    Seq::new(if n < 0 { 0 } else { n as nat }, |i: int| 32u8)
}

/// What stands before an item of a container: a comma for a non-first item,
/// and under the indent option a newline and the item's indentation.
pub open spec fn item_sep(first: bool, o: u64, ind: int) -> Seq<u8> {
    if !has_flag(o, INDENT_2) {
        if first {
            Seq::empty()
        } else {
            seq![44u8]
        }
    } else {
        (if first {
            seq![10u8]
        } else {
            seq![44u8, 10u8]
        }) + spaces(2 * ind)
    }
}

/// What closes a container: under the indent option a newline and the
/// container's own indentation before the bracket, when it had items.
pub open spec fn close_text(o: u64, ind: int, nonempty: bool, cb: u8) -> Seq<u8> {
    (if has_flag(o, INDENT_2) && nonempty {
        seq![10u8] + spaces(2 * ind)
    } else {
        Seq::empty()
    }) + seq![cb]
}

/// What stands between a key and a value.
pub open spec fn colon_text(o: u64) -> Seq<u8> {
    if has_flag(o, INDENT_2) {
        seq![58u8, 32u8]
    } else {
        seq![58u8]
    }
}

/// The rendering of an integer value: strict mode rejects what a 53-bit
/// mantissa cannot hold exactly; otherwise exact decimal text.
pub open spec fn enc_int(n: int, o: u64) -> EncOut {
    if has_flag(o, STRICT_INTEGER) && (n > MAX_SAFE_INT || n < -MAX_SAFE_INT) {
        EncOut::Fail(EncodeError::IntegerOutOfRange)
    } else {
        EncOut::Bytes(sint(n))
    }
}

/// The rendering of a float value: its decimal text when finite, never
/// representable otherwise.
pub open spec fn enc_float(f: FModel) -> EncOut {
    match f {
        FModel::Finite(t) => EncOut::Bytes(t),
        FModel::NotANumber => EncOut::Fail(EncodeError::InvalidFloat),
        FModel::Infinite(_) => EncOut::Fail(EncodeError::InvalidFloat),
    }
}

/// The literal `null`.
pub open spec fn lit_null() -> Seq<u8> {
    seq![110u8, 117u8, 108u8, 108u8]
}

/// The literal `true` or `false`.
pub open spec fn lit_bool(b: bool) -> Seq<u8> {
    if b {
        seq![116u8, 114u8, 117u8, 101u8]
    } else {
        seq![102u8, 97u8, 108u8, 115u8, 101u8]
    }
}

/// The rendering of an enumerated value's underlying scalar.
pub open spec fn enc_scalar(s: SModel, o: u64) -> EncOut {
    match s {
        SModel::Bool(b) => EncOut::Bytes(lit_bool(b)),
        SModel::Int(n) => enc_int(n, o),
        SModel::Float(f) => enc_float(f),
        SModel::Str(t) => EncOut::Bytes(quoted(t)),
    }
}

/// The stringified form of an object key: a string's own content; any other
/// kind only when non-string keys are permitted, and then only a scalar,
/// rendered with the same rules as scalar values.
pub open spec fn key_text(k: VModel, o: u64) -> Result<Seq<u8>, EncodeError> {
    match k {
        VModel::Str(s) => Ok(s),
        _ => if !has_flag(o, NON_STR_KEYS) {
            Err(EncodeError::KeyMustBeString)
        } else {
            match k {
                VModel::Null => Ok(lit_null()),
                VModel::Bool(b) => Ok(lit_bool(b)),
                VModel::Int(n) => if has_flag(o, STRICT_INTEGER) && (n > MAX_SAFE_INT || n
                    < -MAX_SAFE_INT) {
                    Err(EncodeError::IntegerOutOfRange)
                } else {
                    Ok(sint(n))
                },
                VModel::Float(FModel::Finite(t)) => Ok(t),
                VModel::Float(_) => Err(EncodeError::InvalidFloat),
                VModel::UniqueId(u) => Ok(uuid_text(u)),
                VModel::Temporal(t) => Ok(temporal_text(t, o)),
                _ => Err(EncodeError::KeyMustBeString),
            }
        },
    }
}

/// The stringified keys of an object's pairs, left to right; the first
/// offending key decides the error.
pub open spec fn key_texts(pairs: Seq<(VModel, VModel)>, o: u64) -> Result<
    Seq<(Seq<u8>, VModel)>,
    EncodeError,
>
    decreases pairs.len(),
{
    if pairs.len() == 0 {
        Ok(Seq::empty())
    } else {
        match key_text(pairs[0].0, o) {
            Err(e) => Err(e),
            Ok(t) => match key_texts(pairs.drop_first(), o) {
                Err(e) => Err(e),
                Ok(rest) => Ok(seq![(t, pairs[0].1)] + rest),
            },
        }
    }
}

/// Lexicographic byte order: the empty sequence first, then by the first
/// differing byte.
pub open spec fn lex_le(a: Seq<u8>, b: Seq<u8>) -> bool
    decreases a.len(),
{
    if a.len() == 0 {
        true
    } else if b.len() == 0 {
        false
    } else if a[0] < b[0] {
        true
    } else if a[0] > b[0] {
        false
    } else {
        lex_le(a.drop_first(), b.drop_first())
    }
}

/// Insert a pair after every pair whose key is not greater: stable insertion.
pub open spec fn sinsert(p: (Seq<u8>, VModel), s: Seq<(Seq<u8>, VModel)>) -> Seq<
    (Seq<u8>, VModel),
>
    decreases s.len(),
{
    if s.len() == 0 {
        seq![p]
    } else if lex_le(s[0].0, p.0) {
        seq![s[0]] + sinsert(p, s.drop_first())
    } else {
        seq![p] + s
    }
}

/// Stable insertion sort of pairs by their stringified key.
pub open spec fn ssort(s: Seq<(Seq<u8>, VModel)>) -> Seq<(Seq<u8>, VModel)>
    decreases s.len(),
{
    if s.len() == 0 {
        s
    } else {
        sinsert(s.last(), ssort(s.drop_last()))
    }
}

/// Whether an unclassified value crosses to the fallback, or fails for want
/// of one.
pub open spec fn route_out(fb: bool) -> EncOut {
    if fb {
        EncOut::External
    } else {
        EncOut::Fail(EncodeError::TypeNotSerializable)
    }
}

/// The specified rendering of a value at a recursion depth and an indent
/// level. Containers, wrapper kinds and fallback substitutions deepen the
/// recursion; only containers deepen the indentation.
pub open spec fn enc_val(v: VModel, o: u64, fb: bool, depth: int, ind: int) -> EncOut
    decreases RECURSION_LIMIT - depth, v, 2int,
{
    match v {
        VModel::Null => EncOut::Bytes(lit_null()),
        VModel::Bool(b) => EncOut::Bytes(lit_bool(b)),
        VModel::Int(n) => enc_int(n, o),
        VModel::Float(f) => enc_float(f),
        VModel::Str(s) => EncOut::Bytes(quoted(s)),
        VModel::Array(items) => if depth >= RECURSION_LIMIT {
            EncOut::Fail(EncodeError::RecursionLimitExceeded)
        } else {
            match enc_items(items, o, fb, depth + 1, ind + 1, true) {
                EncOut::Bytes(body) => EncOut::Bytes(
                    seq![91u8] + body + close_text(o, ind, items.len() > 0, 93u8),
                ),
                out => out,
            }
        },
        VModel::Object(pairs) => if depth >= RECURSION_LIMIT {
            EncOut::Fail(EncodeError::RecursionLimitExceeded)
        } else {
            match key_texts(pairs, o) {
                Err(e) => EncOut::Fail(e),
                Ok(kp) => {
                    let sp = if has_flag(o, SORT_KEYS) {
                        ssort(kp)
                    } else {
                        kp
                    };
                    match enc_pairs(sp, o, fb, depth + 1, ind + 1, true) {
                        EncOut::Bytes(body) => EncOut::Bytes(
                            seq![123u8] + body + close_text(o, ind, pairs.len() > 0, 125u8),
                        ),
                        out => out,
                    }
                },
            }
        },
        VModel::Temporal(t) => if has_flag(o, PASSTHROUGH_DATETIME) {
            route_out(fb)
        } else {
            EncOut::Bytes(quoted(temporal_text(t, o)))
        },
        VModel::UniqueId(u) => if has_flag(o, SERIALIZE_UUID) {
            EncOut::Bytes(quoted(uuid_text(u)))
        } else {
            route_out(fb)
        },
        VModel::NumericBuffer(b) => if has_flag(o, SERIALIZE_NUMPY) {
            enc_buf(b, o, fb, depth, ind)
        } else {
            route_out(fb)
        },
        VModel::Record(fields) => if has_flag(o, PASSTHROUGH_DATACLASS) {
            route_out(fb)
        } else if has_flag(o, SERIALIZE_DATACLASS) {
            if depth >= RECURSION_LIMIT {
                EncOut::Fail(EncodeError::RecursionLimitExceeded)
            } else {
                match enc_pairs(fields, o, fb, depth + 1, ind + 1, true) {
                    EncOut::Bytes(body) => EncOut::Bytes(
                        seq![123u8] + body + close_text(o, ind, fields.len() > 0, 125u8),
                    ),
                    out => out,
                }
            }
        } else {
            route_out(fb)
        },
        VModel::Enumerated(s) => enc_scalar(s, o),
        VModel::Subclass(s) => if has_flag(o, PASSTHROUGH_SUBCLASS) {
            route_out(fb)
        } else if depth >= RECURSION_LIMIT {
            EncOut::Fail(EncodeError::RecursionLimitExceeded)
        } else if s.len() == 1 {
            enc_val(s[0], o, fb, depth + 1, ind)
        } else {
            EncOut::Fail(EncodeError::TypeNotSerializable)
        },
        VModel::Opaque(_) => route_out(fb),
    }
}

/// The rendering of a container's items, each preceded by its separator.
pub open spec fn enc_items(
    items: Seq<VModel>,
    o: u64,
    fb: bool,
    depth: int,
    ind: int,
    first: bool,
) -> EncOut
    decreases RECURSION_LIMIT - depth, items, 1int,
{
    if items.len() == 0 {
        EncOut::Bytes(Seq::empty())
    } else {
        match enc_val(items[0], o, fb, depth, ind) {
            EncOut::Bytes(b) => match enc_items(items.drop_first(), o, fb, depth, ind, false) {
                EncOut::Bytes(rest) => EncOut::Bytes(item_sep(first, o, ind) + b + rest),
                out => out,
            },
            out => out,
        }
    }
}

/// The rendering of an object's pairs, keys already stringified.
pub open spec fn enc_pairs(
    ps: Seq<(Seq<u8>, VModel)>,
    o: u64,
    fb: bool,
    depth: int,
    ind: int,
    first: bool,
) -> EncOut
    decreases RECURSION_LIMIT - depth, ps, 1int,
{
    if ps.len() == 0 {
        EncOut::Bytes(Seq::empty())
    } else {
        match enc_val(ps[0].1, o, fb, depth, ind) {
            EncOut::Bytes(vb) => match enc_pairs(ps.drop_first(), o, fb, depth, ind, false) {
                EncOut::Bytes(rest) => EncOut::Bytes(
                    item_sep(first, o, ind) + quoted(ps[0].0) + colon_text(o) + vb + rest,
                ),
                out => out,
            },
            out => out,
        }
    }
}

/// The rendering of one numeric-buffer element.
pub open spec fn enc_elem(e: NModel) -> EncOut {
    match e {
        NModel::I(n) => EncOut::Bytes(sint(n)),
        NModel::F(f) => enc_float(f),
    }
}

/// The rendering of a run of numeric-buffer elements.
pub open spec fn enc_elems(es: Seq<NModel>, o: u64, depth: int, ind: int, first: bool) -> EncOut
    decreases RECURSION_LIMIT - depth, es, 1int,
{
    if es.len() == 0 {
        EncOut::Bytes(Seq::empty())
    } else {
        match enc_elem(es[0]) {
            EncOut::Bytes(b) => match enc_elems(es.drop_first(), o, depth, ind, false) {
                EncOut::Bytes(rest) => EncOut::Bytes(item_sep(first, o, ind) + b + rest),
                out => out,
            },
            out => out,
        }
    }
}

/// The rendering of a numeric buffer: nested arrays, dimension by dimension.
pub open spec fn enc_buf(nb: NBModel, o: u64, fb: bool, depth: int, ind: int) -> EncOut
    decreases RECURSION_LIMIT - depth, nb, 2int,
{
    match nb {
        NBModel::Elems(es) => if depth >= RECURSION_LIMIT {
            EncOut::Fail(EncodeError::RecursionLimitExceeded)
        } else {
            match enc_elems(es, o, depth + 1, ind + 1, true) {
                EncOut::Bytes(body) => EncOut::Bytes(
                    seq![91u8] + body + close_text(o, ind, es.len() > 0, 93u8),
                ),
                out => out,
            }
        },
        NBModel::Rows(rs) => if depth >= RECURSION_LIMIT {
            EncOut::Fail(EncodeError::RecursionLimitExceeded)
        } else {
            match enc_rows(rs, o, fb, depth + 1, ind + 1, true) {
                EncOut::Bytes(body) => EncOut::Bytes(
                    seq![91u8] + body + close_text(o, ind, rs.len() > 0, 93u8),
                ),
                out => out,
            }
        },
    }
}

/// The rendering of a numeric buffer's rows.
pub open spec fn enc_rows(
    rs: Seq<NBModel>,
    o: u64,
    fb: bool,
    depth: int,
    ind: int,
    first: bool,
) -> EncOut
    decreases RECURSION_LIMIT - depth, rs, 1int,
{
    if rs.len() == 0 {
        EncOut::Bytes(Seq::empty())
    } else {
        match enc_buf(rs[0], o, fb, depth, ind) {
            EncOut::Bytes(b) => match enc_rows(rs.drop_first(), o, fb, depth, ind, false) {
                EncOut::Bytes(rest) => EncOut::Bytes(item_sep(first, o, ind) + b + rest),
                out => out,
            },
            out => out,
        }
    }
}

/// The specified outcome of a whole encode call, with the optional trailing
/// newline appended to a successful rendering.
pub open spec fn spec_encode(v: VModel, o: u64, fb: bool) -> EncOut {
    match enc_val(v, o, fb, 0, 0) {
        EncOut::Bytes(b) => EncOut::Bytes(
            if has_flag(o, crate::opt::APPEND_NEWLINE) {
                b.push(10u8)
            } else {
                b
            },
        ),
        out => out,
    }
}

/// The pairs of a sequence ascend by their stringified key.
pub open spec fn sorted_by_key(s: Seq<(Seq<u8>, VModel)>) -> bool {
    forall|i: int, j: int| 0 <= i < j < s.len() ==> lex_le(s[i].0, s[j].0)
}

/// Byte order is total: two keys always compare one way or the other.
pub proof fn lemma_lex_total(a: Seq<u8>, b: Seq<u8>)
    ensures
        lex_le(a, b) || lex_le(b, a),
    decreases a.len(),
{
    if a.len() > 0 && b.len() > 0 && a[0] == b[0] {
        lemma_lex_total(a.drop_first(), b.drop_first());
    }
}

/// Byte order is transitive.
pub proof fn lemma_lex_trans(a: Seq<u8>, b: Seq<u8>, c: Seq<u8>)
    requires
        lex_le(a, b),
        lex_le(b, c),
    ensures
        lex_le(a, c),
    decreases a.len(),
{
    if a.len() > 0 && c.len() > 0 {
        if a[0] == b[0] && b[0] == c[0] {
            lemma_lex_trans(a.drop_first(), b.drop_first(), c.drop_first());
        }
    }
}

/// Every pair of an insertion is the inserted pair or one of the old pairs.
proof fn lemma_sinsert_elems(p: (Seq<u8>, VModel), s: Seq<(Seq<u8>, VModel)>)
    ensures
        forall|k: int| 0 <= k < sinsert(p, s).len() ==> sinsert(p, s)[k] == p || s.contains(
            #[trigger] sinsert(p, s)[k],
        ),
    decreases s.len(),
{
    if s.len() > 0 && lex_le(s[0].0, p.0) {
        lemma_sinsert_elems(p, s.drop_first());
        assert forall|k: int| 0 <= k < sinsert(p, s).len() implies sinsert(p, s)[k] == p
            || s.contains(sinsert(p, s)[k]) by {
            if k == 0 {
                assert(s.contains(s[0]));
            } else {
                let e = sinsert(p, s.drop_first())[k - 1];
                assert(sinsert(p, s)[k] == e);
                if e != p {
                    assert(s.drop_first().contains(e));
                    let m = choose|m: int| 0 <= m < s.drop_first().len() && s.drop_first()[m]
                        == e;
                    assert(s[m + 1] == e);
                }
            }
        }
    } else {
        assert forall|k: int| 0 <= k < sinsert(p, s).len() implies sinsert(p, s)[k] == p
            || s.contains(sinsert(p, s)[k]) by {
            if s.len() > 0 && k >= 1 {
                assert(sinsert(p, s)[k] == s[k - 1]);
            }
        }
    }
}

/// Inserting behind every key that is not greater keeps the pairs sorted.
proof fn lemma_sinsert_sorted(p: (Seq<u8>, VModel), s: Seq<(Seq<u8>, VModel)>)
    requires
        sorted_by_key(s),
    ensures
        sorted_by_key(sinsert(p, s)),
    decreases s.len(),
{
    if s.len() == 0 {
    } else if lex_le(s[0].0, p.0) {
        assert(forall|i: int, j: int|
            0 <= i < j < s.drop_first().len() ==> s.drop_first()[i] == s[i + 1]
                && #[trigger] lex_le(s.drop_first()[i].0, s.drop_first()[j].0));
        lemma_sinsert_sorted(p, s.drop_first());
        lemma_sinsert_elems(p, s.drop_first());
        let r = sinsert(p, s);
        assert forall|i: int, j: int| 0 <= i < j < r.len() implies lex_le(r[i].0, r[j].0) by {
            if i == 0 {
                let e = sinsert(p, s.drop_first())[j - 1];
                assert(r[j] == e);
                if e == p {
                    assert(lex_le(s[0].0, p.0));
                } else {
                    assert(s.drop_first().contains(e));
                    let m = choose|m: int| 0 <= m < s.drop_first().len() && s.drop_first()[m]
                        == e;
                    assert(s[m + 1] == e);
                    assert(lex_le(s[0].0, s[m + 1].0));
                }
            } else {
                assert(r[i] == sinsert(p, s.drop_first())[i - 1]);
                assert(r[j] == sinsert(p, s.drop_first())[j - 1]);
            }
        }
    } else {
        lemma_lex_total(s[0].0, p.0);
        let r = sinsert(p, s);
        assert forall|i: int, j: int| 0 <= i < j < r.len() implies lex_le(r[i].0, r[j].0) by {
            if i == 0 {
                assert(r[j] == s[j - 1]);
                if j > 1 {
                    lemma_lex_trans(p.0, s[0].0, s[j - 1].0);
                }
            } else {
                assert(r[i] == s[i - 1]);
                assert(r[j] == s[j - 1]);
            }
        }
    }
}

/// What the key sort emits ascends by the stringified key: the ordering law
/// behind the sort-keys option (stability lies in the definition: a later
/// equal key is inserted behind the earlier one).
pub proof fn lemma_ssort_sorted(s: Seq<(Seq<u8>, VModel)>)
    ensures
        sorted_by_key(ssort(s)),
    decreases s.len(),
{
    if s.len() > 0 {
        lemma_ssort_sorted(s.drop_last());
        lemma_sinsert_sorted(s.last(), ssort(s.drop_last()));
    }
}

} // verus!
