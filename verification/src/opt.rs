//! The option flag decoder: a validated bit-set of encoding behaviors.

use vstd::prelude::*;

verus! {

/// Append a trailing newline byte to the encoded output.
pub const APPEND_NEWLINE: u64 = 1;

/// Pretty-print with a two-space indent per nesting level.
pub const INDENT_2: u64 = 2;

/// Treat a temporal value without an explicit offset as UTC.
pub const NAIVE_UTC: u64 = 4;

/// Allow non-string object keys; scalar keys are stringified.
pub const NON_STR_KEYS: u64 = 8;

/// Drop sub-second precision from temporal output.
pub const OMIT_MICROSECONDS: u64 = 16;

/// Route record-like values to the fallback instead of auto-serializing.
pub const PASSTHROUGH_DATACLASS: u64 = 32;

/// Route temporal values to the fallback instead of auto-serializing.
pub const PASSTHROUGH_DATETIME: u64 = 64;

/// Route subclassed native values to the fallback.
pub const PASSTHROUGH_SUBCLASS: u64 = 128;

/// Auto-serialize record-like values as objects.
pub const SERIALIZE_DATACLASS: u64 = 256;

/// Auto-serialize numeric-buffer values as (nested) arrays.
pub const SERIALIZE_NUMPY: u64 = 512;

/// Auto-serialize unique-identifier values as their hyphenated text.
pub const SERIALIZE_UUID: u64 = 1024;

/// Emit object keys in ascending lexicographic order of their stringified form.
pub const SORT_KEYS: u64 = 2048;

/// Reject integers outside the 53-bit exact range.
pub const STRICT_INTEGER: u64 = 4096;

/// Render a UTC offset as a trailing `Z` instead of `+00:00`.
pub const UTC_Z: u64 = 8192;

/// The bitwise OR of every recognized flag; all flags are contiguous powers
/// of two, so the valid encoded integers are exactly `0..=MAX_OPT`.
pub const MAX_OPT: u64 = 16383;

/// Whether the flag `f` is present in the bit-set `bits`.
pub open spec fn has_flag(bits: u64, f: u64) -> bool {
    bits & f != 0
}

/// The failure of the option flag decoder.
#[derive(PartialEq, Eq, Structural, Clone, Copy, Debug)]
pub enum OptionError {
    /// The raw integer lies outside `0..=MAX_OPT`.
    OutOfRange,
    /// The `option` argument was not an integer.
    NotAnInteger,
}

/// An immutable, validated bit-set over the option flags.
#[derive(PartialEq, Eq, Structural, Clone, Copy, Debug)]
pub struct OptionSet {
    pub bits: u64,
}

/// What `OptionSet::decode` returns for a raw integer.
pub open spec fn spec_decode(raw: i64) -> Result<OptionSet, OptionError> {
    if raw < 0 || raw > MAX_OPT {
        Err(OptionError::OutOfRange)
    } else {
        Ok(OptionSet { bits: raw as u64 })
    }
}

impl OptionSet {
    /// The bit-set is valid: no bit outside the recognized mask is present.
    pub open spec fn wf(self) -> bool {
        self.bits <= MAX_OPT
    }

    /// Validate and unpack a raw integer into a flag set: every integer in
    /// `0..=MAX_OPT` is accepted, anything else is out of range.
    pub fn decode(raw: i64) -> (r: Result<OptionSet, OptionError>)
        ensures
            r == spec_decode(raw),
            r matches Ok(o) ==> o.wf(),
    {
        if raw < 0 || raw > 16383i64 {
            Err(OptionError::OutOfRange)
        } else {
            Ok(OptionSet { bits: raw as u64 })
        }
    }

    /// The integer form of the flag set.
    pub fn to_bits(&self) -> (r: u64)
        ensures
            r == self.bits,
    {
        self.bits
    }

    /// Whether the flag `f` is set.
    pub fn has(&self, f: u64) -> (r: bool)
        ensures
            r == has_flag(self.bits, f),
    {
        self.bits & f != 0
    }
}

/// Every integer in `0..=MAX_OPT` decodes successfully and round-trips to the
/// same bit pattern when re-encoded as an integer; `MAX_OPT + 1` (and every
/// other integer outside the range) is rejected as out of range.
pub proof fn lemma_option_roundtrip(raw: i64)
    ensures
        0 <= raw <= MAX_OPT ==> (spec_decode(raw) matches Ok(o) && o.bits == raw && o.wf()),
        raw < 0 || raw > MAX_OPT ==> spec_decode(raw) == Err::<OptionSet, OptionError>(
            OptionError::OutOfRange,
        ),
{
}

} // verus!
