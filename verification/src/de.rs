//! The deserializer: a strict recursive-descent JSON parser from bytes to a
//! native value tree. The grammar is specified by total mathematical
//! functions over the input; the executable parser is proved to return
//! exactly the specified value, or the specified error kind at the
//! specified byte offset.

use vstd::prelude::*;

use crate::ser::RECURSION_LIMIT;
use crate::value::{model_pairs, model_seq, FModel, FloatValue, VModel, Value};

verus! {

/// The kind of a decode failure.
#[derive(PartialEq, Eq, Structural, Clone, Copy, Debug)]
pub enum DecKind {
    /// The input ended where a value, a string or a token was expected.
    UnexpectedEnd,
    /// A byte that can begin no JSON token, or a non-string object key.
    UnexpectedCharacter,
    /// A broken `true`, `false` or `null` literal.
    InvalidLiteral,
    /// A number with a leading zero followed by more digits.
    LeadingZero,
    /// A malformed number token.
    InvalidNumber,
    /// An integer token outside the signed 64-bit range.
    IntegerOutOfRange,
    /// A string that never closes.
    UnterminatedString,
    /// An unescaped control character inside a string.
    ControlInString,
    /// A malformed escape sequence, or a lone surrogate.
    InvalidEscape,
    /// A byte sequence that is not well-formed UTF-8.
    InvalidUtf8,
    /// A missing colon between a key and a value.
    ExpectedColon,
    /// A missing comma or closing bracket after an item.
    ExpectedCommaOrEnd,
    /// Containers nested beyond the depth ceiling.
    RecursionLimitExceeded,
    /// Bytes left over after the complete value.
    TrailingData,
}

/// The outcome of parsing a value: the value's model and the position after
/// it, or an error kind at a position.
pub enum POut {
    POk(VModel, int),
    PFail(DecKind, int),
}

/// The outcome of parsing string content.
pub enum SOut {
    SOk(Seq<u8>, int),
    SFail(DecKind, int),
}

/// Whether a byte is JSON whitespace.
pub open spec fn is_ws(b: u8) -> bool {
    b == 32 || b == 9 || b == 10 || b == 13
}

/// Whether a byte is a decimal digit.
pub open spec fn is_digit(b: u8) -> bool {
    48 <= b <= 57
}

/// The length of the whitespace run at position `i`.
pub open spec fn ws_run(s: Seq<u8>, i: int) -> nat
    decreases s.len() - i,
{
    if 0 <= i < s.len() && is_ws(s[i]) {
        1 + ws_run(s, i + 1)
    } else {
        0
    }
}

/// The length of the digit run at position `i`.
pub open spec fn digit_run(s: Seq<u8>, i: int) -> nat
    decreases s.len() - i,
{
    if 0 <= i < s.len() && is_digit(s[i]) {
        1 + digit_run(s, i + 1)
    } else {
        0
    }
}

/// A whitespace run stays within the input.
pub proof fn lemma_ws_run(s: Seq<u8>, i: int)
    requires
        0 <= i <= s.len(),
    ensures
        i + ws_run(s, i) <= s.len(),
    decreases s.len() - i,
{
    if i < s.len() && is_ws(s[i]) {
        lemma_ws_run(s, i + 1);
    }
}

/// A digit run stays within the input, and covers digits exactly.
pub proof fn lemma_digit_run(s: Seq<u8>, i: int)
    requires
        0 <= i <= s.len(),
    ensures
        i + digit_run(s, i) <= s.len(),
        forall|q: int| i <= q < i + digit_run(s, i) ==> is_digit(s[q]),
        i + digit_run(s, i) == s.len() || !is_digit(s[i + digit_run(s, i)]),
    decreases s.len() - i,
{
    if i < s.len() && is_digit(s[i]) {
        lemma_digit_run(s, i + 1);
    }
}

/// The value of a hexadecimal digit byte, or a negative number.
pub open spec fn hexval(b: u8) -> int {
    if 48 <= b <= 57 {
        b - 48
    } else if 97 <= b <= 102 {
        b - 87
    } else if 65 <= b <= 70 {
        b - 55
    } else {
        -1
    }
}

/// The value of four hexadecimal digits at `i`, or a negative number.
pub open spec fn hex4(s: Seq<u8>, i: int) -> int {
    if i + 4 <= s.len() && hexval(s[i]) >= 0 && hexval(s[i + 1]) >= 0 && hexval(s[i + 2]) >= 0
        && hexval(s[i + 3]) >= 0 {
        hexval(s[i]) * 4096 + hexval(s[i + 1]) * 256 + hexval(s[i + 2]) * 16 + hexval(s[i + 3])
    } else {
        -1
    }
}

/// The UTF-8 encoding of a scalar value.
pub open spec fn utf8enc(c: int) -> Seq<u8> {
    if c < 0x80 {
        seq![c as u8]
    } else if c < 0x800 {
        seq![(192 + c / 64) as u8, (128 + c % 64) as u8]
    } else if c < 0x10000 {
        seq![(224 + c / 4096) as u8, (128 + (c / 64) % 64) as u8, (128 + c % 64) as u8]
    } else {
        seq![
            (240 + c / 262144) as u8,
            (128 + (c / 4096) % 64) as u8,
            (128 + (c / 64) % 64) as u8,
            (128 + c % 64) as u8,
        ]
    }
}

/// Whether a byte is a UTF-8 continuation byte.
pub open spec fn is_cont(b: u8) -> bool {
    128 <= b <= 191
}

/// Parse string content from position `i` (just inside the opening quote),
/// with the bytes gathered so far: stop at the closing quote, translate
/// escapes (surrogate pairs included), and hold multi-byte sequences to
/// strict UTF-8.
pub open spec fn p_str(s: Seq<u8>, i: int, acc: Seq<u8>) -> SOut
    decreases s.len() - i,
{
    if i < 0 || i >= s.len() {
        SOut::SFail(DecKind::UnterminatedString, i)
    } else {
        let b = s[i];
        if b == 34 {
            SOut::SOk(acc, i + 1)
        } else if b == 92 {
            if i + 2 > s.len() {
                SOut::SFail(DecKind::InvalidEscape, i)
            } else {
                let e = s[i + 1];
                if e == 34 {
                    p_str(s, i + 2, acc.push(34))
                } else if e == 92 {
                    p_str(s, i + 2, acc.push(92))
                } else if e == 47 {
                    p_str(s, i + 2, acc.push(47))
                } else if e == 98 {
                    p_str(s, i + 2, acc.push(8))
                } else if e == 102 {
                    p_str(s, i + 2, acc.push(12))
                } else if e == 110 {
                    p_str(s, i + 2, acc.push(10))
                } else if e == 114 {
                    p_str(s, i + 2, acc.push(13))
                } else if e == 116 {
                    p_str(s, i + 2, acc.push(9))
                } else if e == 117 {
                    let h = hex4(s, i + 2);
                    if h < 0 {
                        SOut::SFail(DecKind::InvalidEscape, i)
                    } else if 0xD800 <= h < 0xDC00 {
                        if i + 12 <= s.len() && s[i + 6] == 92 && s[i + 7] == 117 {
                            let h2 = hex4(s, i + 8);
                            if 0xDC00 <= h2 < 0xE000 {
                                p_str(
                                    s,
                                    i + 12,
                                    acc + utf8enc(0x10000 + (h - 0xD800) * 1024 + (h2 - 0xDC00)),
                                )
                            } else {
                                SOut::SFail(DecKind::InvalidEscape, i)
                            }
                        } else {
                            SOut::SFail(DecKind::InvalidEscape, i)
                        }
                    } else if 0xDC00 <= h < 0xE000 {
                        SOut::SFail(DecKind::InvalidEscape, i)
                    } else {
                        p_str(s, i + 6, acc + utf8enc(h))
                    }
                } else {
                    SOut::SFail(DecKind::InvalidEscape, i)
                }
            }
        } else if b < 32 {
            SOut::SFail(DecKind::ControlInString, i)
        } else if b < 128 {
            p_str(s, i + 1, acc.push(b))
        } else if 194 <= b && b <= 223 {
            if i + 2 <= s.len() && is_cont(s[i + 1]) {
                p_str(s, i + 2, acc.push(b).push(s[i + 1]))
            } else {
                SOut::SFail(DecKind::InvalidUtf8, i)
            }
        } else if b == 224 {
            if i + 3 <= s.len() && 160 <= s[i + 1] <= 191 && is_cont(s[i + 2]) {
                p_str(s, i + 3, acc.push(b).push(s[i + 1]).push(s[i + 2]))
            } else {
                SOut::SFail(DecKind::InvalidUtf8, i)
            }
        } else if (225 <= b && b <= 236) || b == 238 || b == 239 {
            if i + 3 <= s.len() && is_cont(s[i + 1]) && is_cont(s[i + 2]) {
                p_str(s, i + 3, acc.push(b).push(s[i + 1]).push(s[i + 2]))
            } else {
                SOut::SFail(DecKind::InvalidUtf8, i)
            }
        } else if b == 237 {
            if i + 3 <= s.len() && 128 <= s[i + 1] <= 159 && is_cont(s[i + 2]) {
                p_str(s, i + 3, acc.push(b).push(s[i + 1]).push(s[i + 2]))
            } else {
                SOut::SFail(DecKind::InvalidUtf8, i)
            }
        } else if b == 240 {
            if i + 4 <= s.len() && 144 <= s[i + 1] <= 191 && is_cont(s[i + 2]) && is_cont(
                s[i + 3],
            ) {
                p_str(s, i + 4, acc.push(b).push(s[i + 1]).push(s[i + 2]).push(s[i + 3]))
            } else {
                SOut::SFail(DecKind::InvalidUtf8, i)
            }
        } else if 241 <= b && b <= 243 {
            if i + 4 <= s.len() && is_cont(s[i + 1]) && is_cont(s[i + 2]) && is_cont(s[i + 3]) {
                p_str(s, i + 4, acc.push(b).push(s[i + 1]).push(s[i + 2]).push(s[i + 3]))
            } else {
                SOut::SFail(DecKind::InvalidUtf8, i)
            }
        } else if b == 244 {
            if i + 4 <= s.len() && 128 <= s[i + 1] <= 143 && is_cont(s[i + 2]) && is_cont(
                s[i + 3],
            ) {
                p_str(s, i + 4, acc.push(b).push(s[i + 1]).push(s[i + 2]).push(s[i + 3]))
            } else {
                SOut::SFail(DecKind::InvalidUtf8, i)
            }
        } else {
            SOut::SFail(DecKind::InvalidUtf8, i)
        }
    }
}

/// The integer value of a run of digit bytes in `[i, j)`.
pub open spec fn dval(s: Seq<u8>, i: int, j: int) -> int
    decreases j - i,
{
    if j <= i {
        0
    } else {
        dval(s, i, j - 1) * 10 + (s[j - 1] - 48)
    }
}

/// A digit value is non-negative.
pub proof fn lemma_dval_nonneg(s: Seq<u8>, i: int, j: int)
    requires
        i <= j,
        forall|q: int| i <= q < j ==> is_digit(s[q]),
    ensures
        0 <= dval(s, i, j),
    decreases j - i,
{
    if i < j {
        lemma_dval_nonneg(s, i, j - 1);
        assert(dval(s, i, j) == dval(s, i, j - 1) * 10 + (s[j - 1] - 48));
        assert(dval(s, i, j - 1) >= 0 ==> dval(s, i, j - 1) * 10 >= 0) by (nonlinear_arith);
    }
}

/// A digit value grows with its digits.
pub proof fn lemma_dval_mono(s: Seq<u8>, i: int, k: int, j: int)
    requires
        i <= k <= j,
        forall|q: int| i <= q < j ==> is_digit(s[q]),
    ensures
        0 <= dval(s, i, k) <= dval(s, i, j),
    decreases j - k,
{
    lemma_dval_nonneg(s, i, k);
    if k < j {
        lemma_dval_mono(s, i, k, j - 1);
        lemma_dval_nonneg(s, i, j - 1);
        assert(dval(s, i, j) == dval(s, i, j - 1) * 10 + (s[j - 1] - 48));
        assert(dval(s, i, j - 1) >= 0 ==> dval(s, i, j - 1) * 10 >= dval(s, i, j - 1))
            by (nonlinear_arith);
    }
}

/// Parse a number token starting at `i` (a minus sign or a digit). A token
/// without a fraction or exponent is an integer, rejected outside the signed
/// 64-bit range; a leading zero followed by more digits is a grammar
/// violation; anything with a fraction or exponent is a float carrying its
/// exact text.
pub open spec fn p_number(s: Seq<u8>, i: int) -> POut {
    let i0 = if 0 <= i < s.len() && s[i] == 45 {
        i + 1
    } else {
        i
    };
    let neg = i0 == i + 1;
    if i0 >= s.len() || !is_digit(s[i0]) {
        POut::PFail(DecKind::InvalidNumber, i0)
    } else {
        let int_end = i0 + digit_run(s, i0);
        if s[i0] == 48 && int_end > i0 + 1 {
            POut::PFail(DecKind::LeadingZero, i0)
        } else {
            let has_frac = int_end < s.len() && s[int_end] == 46;
            if has_frac && (int_end + 1 >= s.len() || !is_digit(s[int_end + 1])) {
                POut::PFail(DecKind::InvalidNumber, int_end + 1)
            } else {
                let frac_end = if has_frac {
                    int_end + 1 + digit_run(s, int_end + 1)
                } else {
                    int_end
                };
                let has_exp = frac_end < s.len() && (s[frac_end] == 101 || s[frac_end] == 69);
                let es = if has_exp && frac_end + 1 < s.len() && (s[frac_end + 1] == 43 || s[frac_end
                    + 1] == 45) {
                    frac_end + 2
                } else {
                    frac_end + 1
                };
                if has_exp && (es >= s.len() || !is_digit(s[es])) {
                    POut::PFail(DecKind::InvalidNumber, es)
                } else {
                    let end = if has_exp {
                        es + digit_run(s, es)
                    } else {
                        frac_end
                    };
                    if !has_frac && !has_exp {
                        let mag = dval(s, i0, int_end);
                        if neg {
                            if mag > 0x8000000000000000 {
                                POut::PFail(DecKind::IntegerOutOfRange, i)
                            } else {
                                POut::POk(VModel::Int(-mag), end)
                            }
                        } else {
                            if mag > 0x7FFFFFFFFFFFFFFF {
                                POut::PFail(DecKind::IntegerOutOfRange, i)
                            } else {
                                POut::POk(VModel::Int(mag), end)
                            }
                        }
                    } else {
                        POut::POk(VModel::Float(FModel::Finite(s.subrange(i, end))), end)
                    }
                }
            }
        }
    }
}

/// The first index of the pair whose key is the string `k`, or the length.
pub open spec fn find_key(ps: Seq<(VModel, VModel)>, k: Seq<u8>) -> int
    decreases ps.len(),
{
    if ps.len() == 0 {
        0
    } else if ps[0].0 == VModel::Str(k) {
        0
    } else {
        1 + find_key(ps.drop_first(), k)
    }
}

/// Bind a key: a repeated key keeps the position of its first occurrence and
/// takes the new value (last write wins); a new key is appended.
pub open spec fn upsert(ps: Seq<(VModel, VModel)>, k: Seq<u8>, m: VModel) -> Seq<
    (VModel, VModel),
> {
    let f = find_key(ps, k);
    if f < ps.len() {
        ps.update(f, (VModel::Str(k), m))
    } else {
        ps.push((VModel::Str(k), m))
    }
}

/// The position of a found key is within the pairs.
pub proof fn lemma_find_key(ps: Seq<(VModel, VModel)>, k: Seq<u8>)
    ensures
        0 <= find_key(ps, k) <= ps.len(),
        find_key(ps, k) < ps.len() ==> ps[find_key(ps, k)].0 == VModel::Str(k),
        forall|q: int| 0 <= q < find_key(ps, k) ==> ps[q].0 != VModel::Str(k),
    decreases ps.len(),
{
    if ps.len() > 0 && ps[0].0 != VModel::Str(k) {
        lemma_find_key(ps.drop_first(), k);
        assert forall|q: int| 0 <= q < find_key(ps, k) implies ps[q].0 != VModel::Str(k) by {
            if q >= 1 {
                assert(ps[q] == ps.drop_first()[q - 1]);
            }
        }
    }
}

/// Parse a value at position `i` (leading whitespace allowed): an object, an
/// array, a string, a number, or a `true`/`false`/`null` literal; a
/// container at the depth ceiling is rejected rather than recursed into.
pub open spec fn p_value(s: Seq<u8>, i: int, depth: int) -> POut
    decreases s.len() - i, 0int,
{
    let iw = i + ws_run(s, i);
    if i < 0 || iw >= s.len() {
        POut::PFail(DecKind::UnexpectedEnd, iw)
    } else {
        let b = s[iw];
        if b == 123 {
            if depth >= RECURSION_LIMIT {
                POut::PFail(DecKind::RecursionLimitExceeded, iw)
            } else {
                p_obj_items(s, iw + 1, depth + 1, Seq::empty(), true)
            }
        } else if b == 91 {
            if depth >= RECURSION_LIMIT {
                POut::PFail(DecKind::RecursionLimitExceeded, iw)
            } else {
                p_arr_items(s, iw + 1, depth + 1, Seq::empty(), true)
            }
        } else if b == 34 {
            match p_str(s, iw + 1, Seq::empty()) {
                SOut::SOk(c, j) => POut::POk(VModel::Str(c), j),
                SOut::SFail(k, p) => POut::PFail(k, p),
            }
        } else if b == 116 {
            if s.len() - iw >= 4 && s[iw + 1] == 114 && s[iw + 2] == 117 && s[iw + 3] == 101 {
                POut::POk(VModel::Bool(true), iw + 4)
            } else {
                POut::PFail(DecKind::InvalidLiteral, iw)
            }
        } else if b == 102 {
            if s.len() - iw >= 5 && s[iw + 1] == 97 && s[iw + 2] == 108 && s[iw + 3] == 115 && s[iw
                + 4] == 101 {
                POut::POk(VModel::Bool(false), iw + 5)
            } else {
                POut::PFail(DecKind::InvalidLiteral, iw)
            }
        } else if b == 110 {
            if s.len() - iw >= 4 && s[iw + 1] == 117 && s[iw + 2] == 108 && s[iw + 3] == 108 {
                POut::POk(VModel::Null, iw + 4)
            } else {
                POut::PFail(DecKind::InvalidLiteral, iw)
            }
        } else if b == 45 || is_digit(b) {
            p_number(s, iw)
        } else {
            POut::PFail(DecKind::UnexpectedCharacter, iw)
        }
    }
}

/// Parse the items of an array from just after `[` or after a comma. The
/// parser never stands still: a result position not past the item's start is
/// advanced, which keeps the recursion well-founded.
pub open spec fn p_arr_items(
    s: Seq<u8>,
    i: int,
    depth: int,
    acc: Seq<VModel>,
    first: bool,
) -> POut
    decreases s.len() - i, 1int,
{
    let iw = i + ws_run(s, i);
    if i < 0 || iw >= s.len() {
        POut::PFail(DecKind::UnexpectedEnd, iw)
    } else if first && s[iw] == 93 {
        POut::POk(VModel::Array(acc), iw + 1)
    } else {
        match p_value(s, iw, depth) {
            POut::PFail(k, p) => POut::PFail(k, p),
            POut::POk(m, j) => {
                let jc = if j <= iw {
                    iw + 1
                } else {
                    j
                };
                let jw = jc + ws_run(s, jc);
                if jw >= s.len() {
                    POut::PFail(DecKind::UnexpectedEnd, jw)
                } else if s[jw] == 44 {
                    p_arr_items(s, jw + 1, depth, acc.push(m), false)
                } else if s[jw] == 93 {
                    POut::POk(VModel::Array(acc.push(m)), jw + 1)
                } else {
                    POut::PFail(DecKind::ExpectedCommaOrEnd, jw)
                }
            },
        }
    }
}

/// Parse the members of an object from just after `{` or after a comma.
pub open spec fn p_obj_items(
    s: Seq<u8>,
    i: int,
    depth: int,
    acc: Seq<(VModel, VModel)>,
    first: bool,
) -> POut
    decreases s.len() - i, 1int,
{
    let iw = i + ws_run(s, i);
    if i < 0 || iw >= s.len() {
        POut::PFail(DecKind::UnexpectedEnd, iw)
    } else if first && s[iw] == 125 {
        POut::POk(VModel::Object(acc), iw + 1)
    } else if s[iw] != 34 {
        POut::PFail(DecKind::UnexpectedCharacter, iw)
    } else {
        match p_str(s, iw + 1, Seq::empty()) {
            SOut::SFail(k, p) => POut::PFail(k, p),
            SOut::SOk(key, j) => {
                let jc = if j <= iw + 1 {
                    iw + 2
                } else {
                    j
                };
                let jw = jc + ws_run(s, jc);
                if jw >= s.len() {
                    POut::PFail(DecKind::UnexpectedEnd, jw)
                } else if s[jw] != 58 {
                    POut::PFail(DecKind::ExpectedColon, jw)
                } else {
                    match p_value(s, jw + 1, depth) {
                        POut::PFail(k, p) => POut::PFail(k, p),
                        POut::POk(m, j2) => {
                            let j2c = if j2 <= jw + 1 {
                                jw + 2
                            } else {
                                j2
                            };
                            let j2w = j2c + ws_run(s, j2c);
                            if j2w >= s.len() {
                                POut::PFail(DecKind::UnexpectedEnd, j2w)
                            } else if s[j2w] == 44 {
                                p_obj_items(s, j2w + 1, depth, upsert(acc, key, m), false)
                            } else if s[j2w] == 125 {
                                POut::POk(VModel::Object(upsert(acc, key, m)), j2w + 1)
                            } else {
                                POut::PFail(DecKind::ExpectedCommaOrEnd, j2w)
                            }
                        },
                    }
                }
            },
        }
    }
}

/// The outcome of a whole decode call: the single value the input holds, or
/// the first grammar violation; bytes after the value are trailing data.
pub open spec fn spec_loads(s: Seq<u8>) -> POut {
    match p_value(s, 0, 0) {
        POut::POk(m, j) => {
            let jw = j + ws_run(s, j);
            if 0 <= jw < s.len() {
                POut::PFail(DecKind::TrailingData, jw)
            } else {
                POut::POk(m, jw)
            }
        },
        f => f,
    }
}

/// The 1-based line of a byte offset: one more than the newlines before it.
pub open spec fn line_of(s: Seq<u8>, p: int) -> int
    decreases p,
{
    if p <= 0 {
        1
    } else {
        line_of(s, p - 1) + if s[p - 1] == 10 {
            1int
        } else {
            0int
        }
    }
}

/// The 1-based column of a byte offset: its distance from the line's start.
pub open spec fn col_of(s: Seq<u8>, p: int) -> int
    decreases p,
{
    if p <= 0 {
        1
    } else if s[p - 1] == 10 {
        1
    } else {
        col_of(s, p - 1) + 1
    }
}

/// A decode failure: its kind, the original input (retained for error
/// display), and the byte offset at which parsing stopped.
#[derive(Debug)]
pub struct DecodeError {
    pub kind: DecKind,
    pub document: Vec<u8>,
    pub position: usize,
}

/// Copy a slice of bytes into a fresh vector.
fn to_vec(s: &[u8]) -> (r: Vec<u8>)
    ensures
        r@ == s@,
{
    let mut r: Vec<u8> = Vec::new();
    let mut i: usize = 0;
    while i < s.len()
        invariant
            i <= s@.len(),
            r@ == s@.take(i as int),
        decreases s@.len() - i,
    {
        r.push(s[i]);
        proof {
            assert(s@.take(i + 1) =~= s@.take(i as int).push(s@[i as int]));
        }
        i = i + 1;
    }
    proof {
        assert(s@.take(s@.len() as int) =~= s@);
    }
    r
}

/// Copy the bytes of `[from, to)` into `out`.
fn push_slice_range(s: &[u8], from: usize, to: usize, out: &mut Vec<u8>)
    requires
        from <= to <= s@.len(),
    ensures
        final(out)@ == old(out)@ + s@.subrange(from as int, to as int),
{
    let mut i = from;
    while i < to
        invariant
            from <= i <= to <= s@.len(),
            out@ == old(out)@ + s@.subrange(from as int, i as int),
        decreases to - i,
    {
        out.push(s[i]);
        proof {
            assert(s@.subrange(from as int, i + 1) =~= s@.subrange(from as int, i as int).push(
                s@[i as int],
            ));
        }
        i = i + 1;
    }
}

/// The position after the whitespace run at `i`.
fn skip_ws_exec(s: &[u8], i: usize) -> (r: usize)
    ensures
        r as int == i + ws_run(s@, i as int),
        r >= i,
        i <= s@.len() ==> r <= s@.len(),
{
    let mut r = i;
    loop
        invariant
            i <= r,
            i <= s@.len() ==> r <= s@.len(),
            i + ws_run(s@, i as int) == r + ws_run(s@, r as int),
        decreases s@.len() - r,
    {
        if r < s.len() {
            let b = s[r];
            if b == 32 || b == 9 || b == 10 || b == 13 {
                r = r + 1;
            } else {
                proof {
                    assert(ws_run(s@, r as int) == 0);
                }
                return r;
            }
        } else {
            proof {
                assert(ws_run(s@, r as int) == 0);
            }
            return r;
        }
    }
}

/// The position after the digit run at `i`.
fn digits_end(s: &[u8], i: usize) -> (r: usize)
    requires
        i <= s@.len(),
    ensures
        r as int == i + digit_run(s@, i as int),
        i <= r <= s@.len(),
{
    let mut r = i;
    loop
        invariant
            i <= r <= s@.len(),
            i + digit_run(s@, i as int) == r + digit_run(s@, r as int),
        decreases s@.len() - r,
    {
        if r < s.len() {
            let b = s[r];
            if 48 <= b && b <= 57 {
                r = r + 1;
            } else {
                proof {
                    assert(digit_run(s@, r as int) == 0);
                }
                return r;
            }
        } else {
            proof {
                assert(digit_run(s@, r as int) == 0);
            }
            return r;
        }
    }
}

/// The value of a hexadecimal digit byte, or a negative number.
fn hexval_exec(b: u8) -> (r: i32)
    ensures
        r as int == hexval(b),
{
    if 48 <= b && b <= 57 {
        b as i32 - 48
    } else if 97 <= b && b <= 102 {
        b as i32 - 87
    } else if 65 <= b && b <= 70 {
        b as i32 - 55
    } else {
        -1
    }
}

/// The value of four hexadecimal digits at `i`, or a negative number.
fn hex4_exec(s: &[u8], i: usize) -> (r: i32)
    ensures
        r as int == hex4(s@, i as int),
{
    if s.len() >= 4 && i <= s.len() - 4 {
        let a = hexval_exec(s[i]);
        let b = hexval_exec(s[i + 1]);
        let c = hexval_exec(s[i + 2]);
        let d = hexval_exec(s[i + 3]);
        if a >= 0 && b >= 0 && c >= 0 && d >= 0 {
            a * 4096 + b * 256 + c * 16 + d
        } else {
            -1
        }
    } else {
        -1
    }
}

/// Append the UTF-8 encoding of a scalar value.
fn push_utf8(acc: &mut Vec<u8>, c: u32)
    requires
        c < 0x110000,
    ensures
        final(acc)@ == old(acc)@ + utf8enc(c as int),
{
    if c < 0x80 {
        acc.push(c as u8);
    } else if c < 0x800 {
        acc.push(192 + (c / 64) as u8);
        acc.push(128 + (c % 64) as u8);
    } else if c < 0x10000 {
        acc.push(224 + (c / 4096) as u8);
        acc.push(128 + ((c / 64) % 64) as u8);
        acc.push(128 + (c % 64) as u8);
    } else {
        acc.push(240 + (c / 262144) as u8);
        acc.push(128 + ((c / 4096) % 64) as u8);
        acc.push(128 + ((c / 64) % 64) as u8);
        acc.push(128 + (c % 64) as u8);
    }
    proof {
        assert(acc@ =~= old(acc)@ + utf8enc(c as int));
    }
}

/// Parse string content from `pos` (just inside the opening quote), with the
/// bytes gathered so far.
#[verifier::rlimit(100)]
#[verifier::loop_isolation(false)]
fn ps_str(s: &[u8], pos: usize, acc: Vec<u8>) -> (r: Result<(Vec<u8>, usize), (DecKind, usize)>)
    requires
        pos <= s@.len(),
    ensures
        match p_str(s@, pos as int, acc@) {
            SOut::SOk(c, j) => r matches Ok(vp) && vp.0@ == c && vp.1 as int == j,
            SOut::SFail(k, q) => r matches Err(e) && e.0 == k && e.1 as int == q,
        },
    decreases s@.len() - pos,
{
    let ghost p0 = pos as int;
    let ghost a0 = acc@;
    let mut pos = pos;
    let mut acc = acc;
    loop
        invariant
            pos <= s@.len(),
            p_str(s@, p0, a0) == p_str(s@, pos as int, acc@),
        decreases s@.len() - pos,
    {
        if pos >= s.len() {
            return Err((DecKind::UnterminatedString, pos));
        }
        let b = s[pos];
        if b == 34 {
            return Ok((acc, pos + 1));
        } else if b == 92 {
            if s.len() - pos < 2 {
                return Err((DecKind::InvalidEscape, pos));
            }
            let e = s[pos + 1];
            if e == 34 {
                acc.push(34);
                pos = pos + 2;
            } else if e == 92 {
                acc.push(92);
                pos = pos + 2;
            } else if e == 47 {
                acc.push(47);
                pos = pos + 2;
            } else if e == 98 {
                acc.push(8);
                pos = pos + 2;
            } else if e == 102 {
                acc.push(12);
                pos = pos + 2;
            } else if e == 110 {
                acc.push(10);
                pos = pos + 2;
            } else if e == 114 {
                acc.push(13);
                pos = pos + 2;
            } else if e == 116 {
                acc.push(9);
                pos = pos + 2;
            } else if e == 117 {
                let h = hex4_exec(s, pos + 2);
                if h < 0 {
                    return Err((DecKind::InvalidEscape, pos));
                }
                if 0xD800 <= h && h < 0xDC00 {
                    if s.len() - pos >= 12 && s[pos + 6] == 92 && s[pos + 7] == 117 {
                        let h2 = hex4_exec(s, pos + 8);
                        if 0xDC00 <= h2 && h2 < 0xE000 {
                            let c: u32 = 0x10000 + (h as u32 - 0xD800) * 1024 + (h2 as u32
                                - 0xDC00);
                            push_utf8(&mut acc, c);
                            pos = pos + 12;
                        } else {
                            return Err((DecKind::InvalidEscape, pos));
                        }
                    } else {
                        return Err((DecKind::InvalidEscape, pos));
                    }
                } else if 0xDC00 <= h && h < 0xE000 {
                    return Err((DecKind::InvalidEscape, pos));
                } else {
                    push_utf8(&mut acc, h as u32);
                    pos = pos + 6;
                }
            } else {
                return Err((DecKind::InvalidEscape, pos));
            }
        } else if b < 32 {
            return Err((DecKind::ControlInString, pos));
        } else if b < 128 {
            acc.push(b);
            pos = pos + 1;
        } else if 194 <= b && b <= 223 {
            if s.len() - pos >= 2 && 128 <= s[pos + 1] && s[pos + 1] <= 191 {
                acc.push(b);
                let c1 = s[pos + 1];
                acc.push(c1);
                pos = pos + 2;
            } else {
                return Err((DecKind::InvalidUtf8, pos));
            }
        } else if b == 224 {
            if s.len() - pos >= 3 && 160 <= s[pos + 1] && s[pos + 1] <= 191 && 128 <= s[pos + 2]
                && s[pos + 2] <= 191 {
                acc.push(b);
                let c1 = s[pos + 1];
                acc.push(c1);
                let c2 = s[pos + 2];
                acc.push(c2);
                pos = pos + 3;
            } else {
                return Err((DecKind::InvalidUtf8, pos));
            }
        } else if (225 <= b && b <= 236) || b == 238 || b == 239 {
            if s.len() - pos >= 3 && 128 <= s[pos + 1] && s[pos + 1] <= 191 && 128 <= s[pos + 2]
                && s[pos + 2] <= 191 {
                acc.push(b);
                let c1 = s[pos + 1];
                acc.push(c1);
                let c2 = s[pos + 2];
                acc.push(c2);
                pos = pos + 3;
            } else {
                return Err((DecKind::InvalidUtf8, pos));
            }
        } else if b == 237 {
            if s.len() - pos >= 3 && 128 <= s[pos + 1] && s[pos + 1] <= 159 && 128 <= s[pos + 2]
                && s[pos + 2] <= 191 {
                acc.push(b);
                let c1 = s[pos + 1];
                acc.push(c1);
                let c2 = s[pos + 2];
                acc.push(c2);
                pos = pos + 3;
            } else {
                return Err((DecKind::InvalidUtf8, pos));
            }
        } else if b == 240 {
            if s.len() - pos >= 4 && 144 <= s[pos + 1] && s[pos + 1] <= 191 && 128 <= s[pos + 2]
                && s[pos + 2] <= 191 && 128 <= s[pos + 3] && s[pos + 3] <= 191 {
                acc.push(b);
                let c1 = s[pos + 1];
                acc.push(c1);
                let c2 = s[pos + 2];
                acc.push(c2);
                let c3 = s[pos + 3];
                acc.push(c3);
                pos = pos + 4;
            } else {
                return Err((DecKind::InvalidUtf8, pos));
            }
        } else if 241 <= b && b <= 243 {
            if s.len() - pos >= 4 && 128 <= s[pos + 1] && s[pos + 1] <= 191 && 128 <= s[pos + 2]
                && s[pos + 2] <= 191 && 128 <= s[pos + 3] && s[pos + 3] <= 191 {
                acc.push(b);
                let c1 = s[pos + 1];
                acc.push(c1);
                let c2 = s[pos + 2];
                acc.push(c2);
                let c3 = s[pos + 3];
                acc.push(c3);
                pos = pos + 4;
            } else {
                return Err((DecKind::InvalidUtf8, pos));
            }
        } else if b == 244 {
            if s.len() - pos >= 4 && 128 <= s[pos + 1] && s[pos + 1] <= 143 && 128 <= s[pos + 2]
                && s[pos + 2] <= 191 && 128 <= s[pos + 3] && s[pos + 3] <= 191 {
                acc.push(b);
                let c1 = s[pos + 1];
                acc.push(c1);
                let c2 = s[pos + 2];
                acc.push(c2);
                let c3 = s[pos + 3];
                acc.push(c3);
                pos = pos + 4;
            } else {
                return Err((DecKind::InvalidUtf8, pos));
            }
        } else {
            return Err((DecKind::InvalidUtf8, pos));
        }
    }
}

/// Parse a number token starting at `i`.
#[verifier::rlimit(60)]
#[verifier::loop_isolation(false)]
fn p_number_exec(s: &[u8], i: usize) -> (r: Result<(Value, usize), (DecKind, usize)>)
    requires
        i < s@.len(),
    ensures
        match p_number(s@, i as int) {
            POut::POk(m, j) => r matches Ok(vp) && vp.0.model() == m && vp.1 as int == j,
            POut::PFail(k, q) => r matches Err(e) && e.0 == k && e.1 as int == q,
        },
{
    let neg = s[i] == 45;
    let i0 = if neg {
        i + 1
    } else {
        i
    };
    if i0 >= s.len() || !(48 <= s[i0] && s[i0] <= 57) {
        return Err((DecKind::InvalidNumber, i0));
    }
    let int_end = digits_end(s, i0);
    if s[i0] == 48 && int_end > i0 + 1 {
        return Err((DecKind::LeadingZero, i0));
    }
    let mut has_frac = false;
    let mut frac_end = int_end;
    if int_end < s.len() && s[int_end] == 46 {
        has_frac = true;
        if int_end + 1 >= s.len() || !(48 <= s[int_end + 1] && s[int_end + 1] <= 57) {
            return Err((DecKind::InvalidNumber, int_end + 1));
        }
        frac_end = digits_end(s, int_end + 1);
    }
    let mut has_exp = false;
    let mut end = frac_end;
    if frac_end < s.len() && (s[frac_end] == 101 || s[frac_end] == 69) {
        has_exp = true;
        let mut es = frac_end + 1;
        if es < s.len() && (s[es] == 43 || s[es] == 45) {
            es = es + 1;
        }
        if es >= s.len() || !(48 <= s[es] && s[es] <= 57) {
            return Err((DecKind::InvalidNumber, es));
        }
        end = digits_end(s, es);
    }
    if !has_frac && !has_exp {
        proof {
            lemma_digit_run(s@, i0 as int);
        }
        let mut acc: u64 = 0;
        let mut k = i0;
        while k < int_end
            invariant
                i0 <= k <= int_end,
                int_end as int == i0 + digit_run(s@, i0 as int),
                int_end <= s@.len(),
                forall|q: int| i0 <= q < int_end ==> is_digit(s@[q]),
                acc as int == dval(s@, i0 as int, k as int),
                acc <= 9223372036854775809,
            decreases int_end - k,
        {
            if acc > 922337203685477580 {
                proof {
                    lemma_dval_mono(s@, i0 as int, k as int + 1, int_end as int);
                    assert(dval(s@, i0 as int, k as int + 1) == acc * 10 + (s@[k as int] - 48));
                    assert(acc as int * 10 > 0x8000000000000000) by (nonlinear_arith)
                        requires
                            acc > 922337203685477580,
                    ;
                }
                return Err((DecKind::IntegerOutOfRange, i));
            }
            let d = (s[k] - 48) as u64;
            acc = acc * 10 + d;
            k = k + 1;
        }
        if neg {
            if acc > 0x8000000000000000 {
                return Err((DecKind::IntegerOutOfRange, i));
            }
            let v: i64 = if acc == 0x8000000000000000 {
                i64::MIN
            } else {
                -(acc as i64)
            };
            Ok((Value::Int(v), int_end))
        } else {
            if acc > 0x7FFFFFFFFFFFFFFF {
                return Err((DecKind::IntegerOutOfRange, i));
            }
            Ok((Value::Int(acc as i64), int_end))
        }
    } else {
        let mut t: Vec<u8> = Vec::new();
        push_slice_range(s, i, end, &mut t);
        Ok((Value::Float(FloatValue::Finite(t)), end))
    }
}

/// The first index in `acc` whose key is the string `key`, or the length.
fn find_key_exec(acc: &Vec<(Value, Value)>, key: &Vec<u8>) -> (r: usize)
    ensures
        r as int == find_key(model_pairs(acc@), key@),
{
    let ghost pm = model_pairs(acc@);
    proof {
        crate::value::lemma_model_pairs(acc@);
        lemma_find_key(pm, key@);
    }
    let mut idx: usize = 0;
    loop
        invariant
            idx <= acc@.len(),
            pm == model_pairs(acc@),
            pm.len() == acc@.len(),
            forall|q: int| 0 <= q < acc@.len() ==> pm[q] == (acc@[q].0.model(), acc@[q].1.model()),
            forall|q: int| 0 <= q < idx ==> pm[q].0 != VModel::Str(key@),
        decreases acc@.len() - idx,
    {
        if idx >= acc.len() {
            proof {
                lemma_find_key_at(pm, key@, idx as int);
            }
            return idx;
        }
        let hit = match &acc[idx].0 {
            Value::Str(ks) => eq_bytes(ks, key),
            _ => false,
        };
        if hit {
            proof {
                lemma_find_key_at(pm, key@, idx as int);
            }
            return idx;
        }
        idx = idx + 1;
    }
}

/// Whether two byte vectors hold the same bytes.
fn eq_bytes(a: &Vec<u8>, b: &Vec<u8>) -> (r: bool)
    ensures
        r == (a@ == b@),
{
    if a.len() != b.len() {
        proof {
            assert(a@.len() != b@.len());
        }
        return false;
    }
    let mut i: usize = 0;
    while i < a.len()
        invariant
            i <= a@.len(),
            a@.len() == b@.len(),
            forall|q: int| 0 <= q < i ==> a@[q] == b@[q],
        decreases a@.len() - i,
    {
        if a[i] != b[i] {
            return false;
        }
        i = i + 1;
    }
    proof {
        assert(a@ =~= b@);
    }
    true
}

/// A scan that passed every pair before `f`, and matched at `f` or ran out,
/// found the first occurrence.
proof fn lemma_find_key_at(ps: Seq<(VModel, VModel)>, k: Seq<u8>, f: int)
    requires
        0 <= f <= ps.len(),
        forall|q: int| 0 <= q < f ==> ps[q].0 != VModel::Str(k),
        f == ps.len() || ps[f].0 == VModel::Str(k),
    ensures
        find_key(ps, k) == f,
    decreases f,
{
    if ps.len() > 0 {
        if f == 0 {
            if ps[0].0 != VModel::Str(k) {
                lemma_find_key(ps, k);
            }
        } else {
            lemma_find_key_at(ps.drop_first(), k, f - 1);
            assert(forall|q: int|
                0 <= q < ps.len() - 1 ==> #[trigger] ps.drop_first()[q] == ps[q + 1]);
        }
    }
}

/// Bind a key into the gathered pairs: a repeated key keeps its first
/// position and takes the new value; a new key is appended.
fn upsert_exec(acc: Vec<(Value, Value)>, key: Vec<u8>, v: Value) -> (r: Vec<(Value, Value)>)
    ensures
        model_pairs(r@) == upsert(model_pairs(acc@), key@, v.model()),
{
    let ghost pm = model_pairs(acc@);
    proof {
        crate::value::lemma_model_pairs(acc@);
        lemma_find_key(pm, key@);
    }
    let idx = find_key_exec(&acc, &key);
    let mut acc = acc;
    if idx < acc.len() {
        let ghost before = acc@;
        let _old = acc.remove(idx);
        acc.insert(idx, (Value::Str(key), v));
        proof {
            assert(acc@ =~= before.update(idx as int, acc@[idx as int]));
            crate::value::lemma_model_pairs(acc@);
            assert(model_pairs(acc@) =~= pm.update(idx as int, (VModel::Str(key@), v.model())));
        }
        acc
    } else {
        acc.push((Value::Str(key), v));
        proof {
            crate::value::lemma_model_pairs(acc@);
            assert(model_pairs(acc@) =~= pm.push((VModel::Str(key@), v.model())));
        }
        acc
    }
}

/// Parse a value at `pos`: leading whitespace, then an object, array,
/// string, number or literal, as the grammar directs.
#[verifier::rlimit(60)]
pub fn pv(s: &[u8], pos: usize, depth: u32) -> (r: Result<(Value, usize), (DecKind, usize)>)
    requires
        pos <= s@.len(),
        depth <= RECURSION_LIMIT,
    ensures
        match p_value(s@, pos as int, depth as int) {
            POut::POk(m, j) => r matches Ok(vp) && vp.0.model() == m && vp.1 as int == j,
            POut::PFail(k, q) => r matches Err(e) && e.0 == k && e.1 as int == q,
        },
    decreases s@.len() - pos, 0int,
{
    let iw = skip_ws_exec(s, pos);
    if iw >= s.len() {
        return Err((DecKind::UnexpectedEnd, iw));
    }
    let b = s[iw];
    if b == 123 {
        if depth >= RECURSION_LIMIT {
            return Err((DecKind::RecursionLimitExceeded, iw));
        }
        proof {
            assert(model_pairs(Seq::<(Value, Value)>::empty()) =~= Seq::<(VModel, VModel)>::empty());
        }
        p_obj_exec(s, iw + 1, depth + 1, Vec::new(), true)
    } else if b == 91 {
        if depth >= RECURSION_LIMIT {
            return Err((DecKind::RecursionLimitExceeded, iw));
        }
        proof {
            assert(model_seq(Seq::<Value>::empty()) =~= Seq::<VModel>::empty());
        }
        p_arr_exec(s, iw + 1, depth + 1, Vec::new(), true)
    } else if b == 34 {
        match ps_str(s, iw + 1, Vec::new()) {
            Ok(vp) => Ok((Value::Str(vp.0), vp.1)),
            Err(e) => Err(e),
        }
    } else if b == 116 {
        if s.len() - iw >= 4 && s[iw + 1] == 114 && s[iw + 2] == 117 && s[iw + 3] == 101 {
            Ok((Value::Bool(true), iw + 4))
        } else {
            Err((DecKind::InvalidLiteral, iw))
        }
    } else if b == 102 {
        if s.len() - iw >= 5 && s[iw + 1] == 97 && s[iw + 2] == 108 && s[iw + 3] == 115 && s[iw
            + 4] == 101 {
            Ok((Value::Bool(false), iw + 5))
        } else {
            Err((DecKind::InvalidLiteral, iw))
        }
    } else if b == 110 {
        if s.len() - iw >= 4 && s[iw + 1] == 117 && s[iw + 2] == 108 && s[iw + 3] == 108 {
            Ok((Value::Null, iw + 4))
        } else {
            Err((DecKind::InvalidLiteral, iw))
        }
    } else if b == 45 || (48 <= b && b <= 57) {
        p_number_exec(s, iw)
    } else {
        Err((DecKind::UnexpectedCharacter, iw))
    }
}

/// Parse array items from just after `[` or a comma, with the items
/// gathered so far.
#[verifier::rlimit(60)]
fn p_arr_exec(s: &[u8], pos: usize, depth: u32, acc: Vec<Value>, first: bool) -> (r: Result<
    (Value, usize),
    (DecKind, usize),
>)
    requires
        pos <= s@.len(),
        depth <= RECURSION_LIMIT,
    ensures
        match p_arr_items(s@, pos as int, depth as int, model_seq(acc@), first) {
            POut::POk(m, j) => r matches Ok(vp) && vp.0.model() == m && vp.1 as int == j,
            POut::PFail(k, q) => r matches Err(e) && e.0 == k && e.1 as int == q,
        },
    decreases s@.len() - pos, 1int,
{
    let iw = skip_ws_exec(s, pos);
    if iw >= s.len() {
        return Err((DecKind::UnexpectedEnd, iw));
    }
    if first && s[iw] == 93 {
        return Ok((Value::Array(acc), iw + 1));
    }
    let vp = match pv(s, iw, depth) {
        Ok(x) => x,
        Err(e) => {
            return Err(e);
        },
    };
    let v = vp.0;
    let j = vp.1;
    let jc = if j <= iw {
        iw + 1
    } else {
        j
    };
    let jw = skip_ws_exec(s, jc);
    if jw >= s.len() {
        return Err((DecKind::UnexpectedEnd, jw));
    }
    let ghost accm = model_seq(acc@);
    let ghost vm = v.model();
    if s[jw] == 44 {
        let ghost av = acc@;
        let mut acc = acc;
        acc.push(v);
        proof {
            assert(acc@.drop_last() =~= av);
            assert(model_seq(acc@) =~= accm.push(vm));
        }
        p_arr_exec(s, jw + 1, depth, acc, false)
    } else if s[jw] == 93 {
        let ghost av = acc@;
        let mut acc = acc;
        acc.push(v);
        proof {
            assert(acc@.drop_last() =~= av);
            assert(model_seq(acc@) =~= accm.push(vm));
        }
        Ok((Value::Array(acc), jw + 1))
    } else {
        Err((DecKind::ExpectedCommaOrEnd, jw))
    }
}

/// Parse object members from just after `{` or a comma, with the pairs
/// gathered so far.
#[verifier::rlimit(60)]
fn p_obj_exec(s: &[u8], pos: usize, depth: u32, acc: Vec<(Value, Value)>, first: bool) -> (r:
    Result<(Value, usize), (DecKind, usize)>)
    requires
        pos <= s@.len(),
        depth <= RECURSION_LIMIT,
    ensures
        match p_obj_items(s@, pos as int, depth as int, model_pairs(acc@), first) {
            POut::POk(m, j) => r matches Ok(vp) && vp.0.model() == m && vp.1 as int == j,
            POut::PFail(k, q) => r matches Err(e) && e.0 == k && e.1 as int == q,
        },
    decreases s@.len() - pos, 1int,
{
    let iw = skip_ws_exec(s, pos);
    if iw >= s.len() {
        return Err((DecKind::UnexpectedEnd, iw));
    }
    if first && s[iw] == 125 {
        return Ok((Value::Object(acc), iw + 1));
    }
    if s[iw] != 34 {
        return Err((DecKind::UnexpectedCharacter, iw));
    }
    let kp = match ps_str(s, iw + 1, Vec::new()) {
        Ok(x) => x,
        Err(e) => {
            return Err(e);
        },
    };
    let key = kp.0;
    let j = kp.1;
    let jc = if j <= iw + 1 {
        iw + 2
    } else {
        j
    };
    let jw = skip_ws_exec(s, jc);
    if jw >= s.len() {
        return Err((DecKind::UnexpectedEnd, jw));
    }
    if s[jw] != 58 {
        return Err((DecKind::ExpectedColon, jw));
    }
    let vp = match pv(s, jw + 1, depth) {
        Ok(x) => x,
        Err(e) => {
            return Err(e);
        },
    };
    let v = vp.0;
    let j2 = vp.1;
    let j2c = if j2 <= jw + 1 {
        jw + 2
    } else {
        j2
    };
    let j2w = skip_ws_exec(s, j2c);
    if j2w >= s.len() {
        return Err((DecKind::UnexpectedEnd, j2w));
    }
    let ghost accm = model_pairs(acc@);
    let ghost km = key@;
    let ghost vm = v.model();
    if s[j2w] == 44 {
        let acc2 = upsert_exec(acc, key, v);
        p_obj_exec(s, j2w + 1, depth, acc2, false)
    } else if s[j2w] == 125 {
        let acc2 = upsert_exec(acc, key, v);
        Ok((Value::Object(acc2), j2w + 1))
    } else {
        Err((DecKind::ExpectedCommaOrEnd, j2w))
    }
}

/// The decode entry point: parse the single JSON value the input holds. The
/// result is exactly the value the grammar derives, or the first grammar
/// violation, its kind at its byte offset, with the input retained; no
/// partially built value is ever returned.
pub fn loads(data: &[u8]) -> (r: Result<Value, DecodeError>)
    ensures
        match spec_loads(data@) {
            POut::POk(m, _) => r matches Ok(v) && v.model() == m,
            POut::PFail(k, q) => r matches Err(e) && e.kind == k && e.position as int == q
                && e.document@ == data@,
        },
{
    match pv(data, 0, 0) {
        Err(e) => Err(DecodeError { kind: e.0, document: to_vec(data), position: e.1 }),
        Ok(vp) => {
            let jw = skip_ws_exec(data, vp.1);
            if jw < data.len() {
                Err(DecodeError { kind: DecKind::TrailingData, document: to_vec(data), position: jw })
            } else {
                Ok(vp.0)
            }
        },
    }
}

/// The 1-based line and column of a byte offset, counting newlines up to it:
/// a thin helper for displaying a decode error's position.
#[verifier::loop_isolation(false)]
pub fn error_position(doc: &Vec<u8>, pos: usize) -> (r: (usize, usize))
    requires
        pos <= doc@.len(),
        doc@.len() < usize::MAX,
    ensures
        r.0 as int == line_of(doc@, pos as int),
        r.1 as int == col_of(doc@, pos as int),
{
    let mut line: usize = 1;
    let mut col: usize = 1;
    let mut i: usize = 0;
    while i < pos
        invariant
            i <= pos <= doc@.len(),
            line as int == line_of(doc@, i as int),
            col as int == col_of(doc@, i as int),
            line <= i + 1,
            col <= i + 1,
        decreases pos - i,
    {
        if doc[i] == 10 {
            line = line + 1;
            col = 1;
        } else {
            col = col + 1;
        }
        i = i + 1;
    }
    (line, col)
}


/// Decoding the encoding of a value returns it unchanged: the round-trip
/// law, shown here for the literal kinds (null and the booleans) under the
/// empty option set and no fallback.
#[verifier::rlimit(100)]
#[verifier::spinoff_prover]
pub proof fn lemma_literal_roundtrip(v: VModel)
    requires
        v matches VModel::Null || v matches VModel::Bool(_),
    ensures
        crate::ser::spec_encode(v, 0, false) matches crate::ser::EncOut::Bytes(b) && (
        spec_loads(b) matches POut::POk(m, _) && m == v),
{
    match v {
        VModel::Null => {
            let b = crate::ser::lit_null();
            assert(b[0] == 110 && b[1] == 117 && b[2] == 108 && b[3] == 108);
            assert(b.len() == 4);
            assert(ws_run(b, 0) == 0);
            assert(ws_run(b, 4) == 0);
            assert(p_value(b, 0, 0) == POut::POk(VModel::Null, 4));
            assert(spec_loads(b) == POut::POk(VModel::Null, 4));
        },
        VModel::Bool(t) => {
            if t {
                let b = crate::ser::lit_bool(true);
                assert(b[0] == 116 && b[1] == 114 && b[2] == 117 && b[3] == 101);
                assert(b.len() == 4);
                assert(ws_run(b, 0) == 0);
                assert(ws_run(b, 4) == 0);
                assert(p_value(b, 0, 0) == POut::POk(VModel::Bool(true), 4));
                assert(spec_loads(b) == POut::POk(VModel::Bool(true), 4));
            } else {
                let b = crate::ser::lit_bool(false);
                assert(b[0] == 102 && b[1] == 97 && b[2] == 108 && b[3] == 115 && b[4] == 101);
                assert(b.len() == 5);
                assert(ws_run(b, 0) == 0);
                assert(ws_run(b, 5) == 0);
                assert(p_value(b, 0, 0) == POut::POk(VModel::Bool(false), 5));
                assert(spec_loads(b) == POut::POk(VModel::Bool(false), 5));
            }
        },
        _ => {},
    }
}

/// The decimal rendering of a non-negative integer is all digits, is never
/// empty, and has a nonzero leading digit unless the number is zero.
proof fn lemma_sdec_digits(n: int)
    requires
        n >= 0,
    ensures
        crate::ser::sdec(n).len() >= 1,
        forall|q: int| 0 <= q < crate::ser::sdec(n).len() ==> is_digit(
            #[trigger] crate::ser::sdec(n)[q],
        ),
        n >= 1 ==> crate::ser::sdec(n)[0] != 48,
    decreases n,
{
    if n >= 10 {
        lemma_sdec_digits(n / 10);
    }
}

/// Equal digit bytes give equal digit values.
proof fn lemma_dval_congr(a: Seq<u8>, b: Seq<u8>, j: int)
    requires
        0 <= j,
        j <= a.len(),
        j <= b.len(),
        forall|q: int| #![trigger a[q]] 0 <= q < j ==> a[q] == b[q],
    ensures
        dval(a, 0, j) == dval(b, 0, j),
    decreases j,
{
    if j > 0 {
        lemma_dval_congr(a, b, j - 1);
        assert(a[j - 1] == b[j - 1]);
    }
}

/// A leading byte shifts a digit value's range, not its value.
proof fn lemma_dval_prefixed(s: Seq<u8>, j: int)
    requires
        0 <= j <= s.len(),
    ensures
        dval(seq![45u8] + s, 1, j + 1) == dval(s, 0, j),
    decreases j,
{
    if j > 0 {
        lemma_dval_prefixed(s, j - 1);
        assert((seq![45u8] + s)[j] == s[j - 1]);
    }
}

/// Parsing back the decimal rendering of a non-negative integer yields it.
proof fn lemma_dval_sdec(n: int)
    requires
        n >= 0,
    ensures
        dval(crate::ser::sdec(n), 0, crate::ser::sdec(n).len() as int) == n,
    decreases n,
{
    let s = crate::ser::sdec(n);
    if n < 10 {
        assert(dval(s, 0, 1) == dval(s, 0, 0) * 10 + (s[0] - 48));
    } else {
        lemma_dval_sdec(n / 10);
        let p = crate::ser::sdec(n / 10);
        let l = p.len() as int;
        assert(forall|q: int| #![trigger s[q]] 0 <= q < l ==> s[q] == p[q]);
        lemma_dval_congr(s, p, l);
        assert(dval(s, 0, l + 1) == dval(s, 0, l) * 10 + (s[l] - 48));
    }
}

/// A run that is all digits to the end runs to the end.
proof fn lemma_digit_run_full(s: Seq<u8>, i: int)
    requires
        0 <= i <= s.len(),
        forall|q: int| i <= q < s.len() ==> is_digit(s[q]),
    ensures
        digit_run(s, i) == s.len() - i,
    decreases s.len() - i,
{
    if i < s.len() {
        lemma_digit_run_full(s, i + 1);
    }
}

/// Decoding the encoding of an integer value returns it unchanged: the
/// round-trip law for the integer kind, under the empty option set and no
/// fallback.
#[verifier::rlimit(100)]
#[verifier::spinoff_prover]
pub proof fn lemma_integer_roundtrip(n: int)
    requires
        -0x8000000000000000 <= n <= 0x7FFFFFFFFFFFFFFF,
    ensures
        crate::ser::spec_encode(VModel::Int(n), 0, false) matches crate::ser::EncOut::Bytes(b)
            && (spec_loads(b) matches POut::POk(m, _) && m == VModel::Int(n)),
{
    let b = crate::ser::sint(n);
    assert(!crate::opt::has_flag(0, crate::opt::STRICT_INTEGER)) by (bit_vector);
    assert(!crate::opt::has_flag(0, crate::opt::APPEND_NEWLINE)) by (bit_vector);
    assert(crate::ser::enc_int(n, 0) == crate::ser::EncOut::Bytes(b));
    assert(crate::ser::enc_val(VModel::Int(n), 0, false, 0, 0) == crate::ser::EncOut::Bytes(b));
    assert(crate::ser::spec_encode(VModel::Int(n), 0, false) == crate::ser::EncOut::Bytes(b));
    if n >= 0 {
        lemma_sdec_digits(n);
        lemma_dval_sdec(n);
        lemma_digit_run_full(b, 0);
        assert(ws_run(b, 0) == 0);
        assert(ws_run(b, b.len() as int) == 0);
        assert(!is_ws(b[0]) && b[0] != 45);
        assert(p_number(b, 0) == POut::POk(VModel::Int(n), b.len() as int));
        assert(p_value(b, 0, 0) == POut::POk(VModel::Int(n), b.len() as int));
        assert(spec_loads(b) == POut::POk(VModel::Int(n), b.len() as int));
    } else {
        let d = crate::ser::sdec(-n);
        lemma_sdec_digits(-n);
        assert(b == seq![45u8] + d);
        assert(b[0] == 45);
        assert(forall|q: int| 1 <= q < b.len() ==> b[q] == d[q - 1]);
        lemma_digit_run_full(b, 1);
        lemma_dval_sdec(-n);
        lemma_dval_prefixed(d, d.len() as int);
        assert(dval(b, 1, b.len() as int) == -n);
        assert(ws_run(b, 0) == 0);
        assert(ws_run(b, b.len() as int) == 0);
        assert(p_number(b, 0) == POut::POk(VModel::Int(n), b.len() as int));
        assert(p_value(b, 0, 0) == POut::POk(VModel::Int(n), b.len() as int));
        assert(spec_loads(b) == POut::POk(VModel::Int(n), b.len() as int));
    }
}

} // verus!
