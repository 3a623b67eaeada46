//! The call-binding resolver: binds the three logical parameters of the
//! encode entry point — the value, the fallback, and the option integer —
//! from a positional argument list and a keyword argument list, with
//! duplicate and unknown-name detection, then validates the option integer.

use vstd::prelude::*;

use crate::opt::{OptionError, OptionSet, MAX_OPT};
use crate::value::{model_fields, model_seq, VModel, Value};

verus! {

/// One of the three logical parameters of the encode entry point.
#[derive(PartialEq, Eq, Structural, Clone, Copy, Debug)]
pub enum Param {
    ObjArg,
    DefaultArg,
    OptionArg,
}

/// A binding failure.
#[derive(Debug)]
pub enum BindError {
    /// The required first parameter was not given.
    MissingRequired(Param),
    /// A parameter arrived both positionally and by keyword, or twice by
    /// keyword.
    DuplicateArgument(Param),
    /// A keyword that names no parameter.
    UnexpectedKeyword(Vec<u8>),
    /// More positional arguments than parameters.
    TooManyPositional,
}

/// A resolution failure: a binding error, or an invalid option argument.
#[derive(Debug)]
pub enum ResolveError {
    Bind(BindError),
    BadOption(OptionError),
}

/// The resolved inputs of one encode invocation.
#[derive(Debug)]
pub struct CallFrame {
    /// The value to encode (possibly opaque).
    pub obj: Value,
    /// The fallback argument, an opaque host value, when one was given.
    pub default: Option<Value>,
    /// The validated option flags, when an option integer was given.
    pub option: Option<OptionSet>,
}

/// The mathematical model of a resolution failure.
pub enum RErrM {
    MissingRequired(Param),
    DuplicateArgument(Param),
    UnexpectedKeyword(Seq<u8>),
    TooManyPositional,
    BadOption(OptionError),
}

/// The mathematical model of a resolution outcome.
pub enum ROut {
    ROk(VModel, Option<VModel>, Option<OptionSet>),
    RFail(RErrM),
}

/// The model of a resolution failure value.
pub open spec fn err_model(e: ResolveError) -> RErrM {
    match e {
        ResolveError::Bind(BindError::MissingRequired(p)) => RErrM::MissingRequired(p),
        ResolveError::Bind(BindError::DuplicateArgument(p)) => RErrM::DuplicateArgument(p),
        ResolveError::Bind(BindError::UnexpectedKeyword(n)) => RErrM::UnexpectedKeyword(n@),
        ResolveError::Bind(BindError::TooManyPositional) => RErrM::TooManyPositional,
        ResolveError::BadOption(oe) => RErrM::BadOption(oe),
    }
}

/// The model of an optional value.
pub open spec fn opt_model(o: Option<Value>) -> Option<VModel> {
    match o {
        Option::None => Option::None,
        Option::Some(v) => Option::Some(v.model()),
    }
}

/// The bytes of the parameter name `default`.
pub open spec fn kw_default() -> Seq<u8> {
    seq![100u8, 101u8, 102u8, 97u8, 117u8, 108u8, 116u8]
}

/// The bytes of the parameter name `option`.
pub open spec fn kw_option() -> Seq<u8> {
    seq![111u8, 112u8, 116u8, 105u8, 111u8, 110u8]
}

/// Bind the keyword arguments, in order, onto the bindings made so far: a
/// known name already bound is a duplicate, an unknown name is unexpected.
pub open spec fn bind_kws(
    kws: Seq<(Seq<u8>, VModel)>,
    dflt: Option<VModel>,
    opt: Option<VModel>,
) -> Result<(Option<VModel>, Option<VModel>), RErrM>
    decreases kws.len(),
{
    if kws.len() == 0 {
        Ok((dflt, opt))
    } else {
        let name = kws[0].0;
        let v = kws[0].1;
        if name == kw_default() {
            if dflt is Some {
                Err(RErrM::DuplicateArgument(Param::DefaultArg))
            } else {
                bind_kws(kws.drop_first(), Option::Some(v), opt)
            }
        } else if name == kw_option() {
            if opt is Some {
                Err(RErrM::DuplicateArgument(Param::OptionArg))
            } else {
                bind_kws(kws.drop_first(), dflt, Option::Some(v))
            }
        } else {
            Err(RErrM::UnexpectedKeyword(name))
        }
    }
}

/// The specified resolution: the first positional argument is the value,
/// the second and third tentatively bind the fallback and the option, the
/// keywords bind what is left, and the option argument must be an integer
/// in `0..=MAX_OPT`.
pub open spec fn spec_resolve(pos: Seq<VModel>, kws: Seq<(Seq<u8>, VModel)>) -> ROut {
    if pos.len() == 0 {
        ROut::RFail(RErrM::MissingRequired(Param::ObjArg))
    } else if pos.len() > 3 {
        ROut::RFail(RErrM::TooManyPositional)
    } else {
        let obj = pos[0];
        let d0 = if pos.len() >= 2 {
            Option::Some(pos[1])
        } else {
            Option::None
        };
        let o0 = if pos.len() >= 3 {
            Option::Some(pos[2])
        } else {
            Option::None
        };
        match bind_kws(kws, d0, o0) {
            Err(e) => ROut::RFail(e),
            Ok(bound) => match bound.1 {
                Option::None => ROut::ROk(obj, bound.0, Option::None),
                Option::Some(ov) => match ov {
                    VModel::Int(n) => if n < 0 || n > MAX_OPT {
                        ROut::RFail(RErrM::BadOption(OptionError::OutOfRange))
                    } else {
                        ROut::ROk(obj, bound.0, Option::Some(OptionSet { bits: n as u64 }))
                    },
                    _ => ROut::RFail(RErrM::BadOption(OptionError::NotAnInteger)),
                },
            },
        }
    }
}

/// Whether a name is the parameter name `default`.
fn is_default_kw(n: &Vec<u8>) -> (r: bool)
    ensures
        r == (n@ == kw_default()),
{
    if n.len() != 7 {
        return false;
    }
    let r = n[0] == 100 && n[1] == 101 && n[2] == 102 && n[3] == 97 && n[4] == 117 && n[5] == 108
        && n[6] == 116;
    proof {
        if r {
            assert(n@ =~= kw_default());
        }
    }
    r
}

/// Whether a name is the parameter name `option`.
fn is_option_kw(n: &Vec<u8>) -> (r: bool)
    ensures
        r == (n@ == kw_option()),
{
    if n.len() != 6 {
        return false;
    }
    let r = n[0] == 111 && n[1] == 112 && n[2] == 116 && n[3] == 105 && n[4] == 111 && n[5]
        == 110;
    proof {
        if r {
            assert(n@ =~= kw_option());
        }
    }
    r
}

/// Bind the keyword arguments onto the bindings made so far.
fn bind_kws_exec(
    kws: Vec<(Vec<u8>, Value)>,
    dflt: Option<Value>,
    opt: Option<Value>,
) -> (r: Result<(Option<Value>, Option<Value>), ResolveError>)
    ensures
        match bind_kws(model_fields(kws@), opt_model(dflt), opt_model(opt)) {
            Ok(bound) => r matches Ok(b2) && opt_model(b2.0) == bound.0 && opt_model(b2.1)
                == bound.1,
            Err(e) => r matches Err(re) && err_model(re) == e,
        },
    decreases kws@.len(),
{
    let ghost fm = model_fields(kws@);
    proof {
        crate::value::lemma_model_fields(kws@);
    }
    let mut kws = kws;
    if kws.len() == 0 {
        return Ok((dflt, opt));
    }
    let nv = kws.remove(0);
    proof {
        crate::value::lemma_model_fields(kws@);
        assert(model_fields(kws@) =~= fm.drop_first());
    }
    let name = nv.0;
    let v = nv.1;
    if is_default_kw(&name) {
        if dflt.is_some() {
            Err(ResolveError::Bind(BindError::DuplicateArgument(Param::DefaultArg)))
        } else {
            bind_kws_exec(kws, Some(v), opt)
        }
    } else if is_option_kw(&name) {
        if opt.is_some() {
            Err(ResolveError::Bind(BindError::DuplicateArgument(Param::OptionArg)))
        } else {
            bind_kws_exec(kws, dflt, Some(v))
        }
    } else {
        Err(ResolveError::Bind(BindError::UnexpectedKeyword(name)))
    }
}

/// Resolve the encode invocation's arguments into a call frame: exactly the
/// specified outcome, value for value and error for error.
pub fn resolve(positional: Vec<Value>, keyword: Vec<(Vec<u8>, Value)>) -> (r: Result<
    CallFrame,
    ResolveError,
>)
    ensures
        match spec_resolve(model_seq(positional@), model_fields(keyword@)) {
            ROut::ROk(om, dm, opt) => r matches Ok(f) && f.obj.model() == om && opt_model(
                f.default,
            ) == dm && f.option == opt,
            ROut::RFail(e) => r matches Err(re) && err_model(re) == e,
        },
{
    let ghost pm = model_seq(positional@);
    proof {
        crate::value::lemma_model_seq(positional@);
        crate::value::lemma_model_fields(keyword@);
    }
    let n = positional.len();
    if n == 0 {
        return Err(ResolveError::Bind(BindError::MissingRequired(Param::ObjArg)));
    }
    if n > 3 {
        return Err(ResolveError::Bind(BindError::TooManyPositional));
    }
    let mut positional = positional;
    let obj = positional.remove(0);
    let dflt: Option<Value> = if positional.len() > 0 {
        Some(positional.remove(0))
    } else {
        None
    };
    let optv: Option<Value> = if positional.len() > 0 {
        Some(positional.remove(0))
    } else {
        None
    };
    let bound = match bind_kws_exec(keyword, dflt, optv) {
        Ok(b) => b,
        Err(e) => {
            return Err(e);
        },
    };
    match bound.1 {
        None => Ok(CallFrame { obj, default: bound.0, option: None }),
        Some(ov) => match ov {
            Value::Int(raw) => match OptionSet::decode(raw) {
                Ok(os) => Ok(CallFrame { obj, default: bound.0, option: Some(os) }),
                Err(oe) => Err(ResolveError::BadOption(oe)),
            },
            _ => Err(ResolveError::BadOption(OptionError::NotAnInteger)),
        },
    }
}

} // verus!
