//! A JSON codec core: a value model, an option-flag decoder, a call-binding
//! resolver, a flag-driven recursive encoder, and a strict decoder that
//! reports exact byte offsets. Every function's behavior is stated in its
//! contract and proved.

pub mod de;
pub mod enc;
pub mod opt;
pub mod resolve;
pub mod ser;
pub mod value;

pub use de::{error_position, loads, DecKind, DecodeError};
pub use enc::{dumps, encode, DumpsError, Fallback, NoFallback};
pub use opt::{OptionError, OptionSet};
pub use resolve::{resolve, BindError, CallFrame, Param, ResolveError};
pub use ser::EncodeError;
pub use value::{DateV, FloatValue, NumBuf, NumElem, Scalar, Temporal, TimeV, UniqueId, Value};
