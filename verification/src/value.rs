//! The value model: the tagged union that the encoder reads and the decoder
//! produces. Native JSON kinds stand beside the extension kinds that encode
//! only under specific options, and an opaque kind for values the host could
//! not classify.

use vstd::prelude::*;

verus! {

broadcast use vstd::std_specs::vec::group_vec_axioms;

/// A floating-point value, carried as its decimal rendering. The codec never
/// computes with the number: it validates and moves its text, so the special
/// classes that JSON cannot represent are tagged explicitly.
#[derive(Debug)]
pub enum FloatValue {
    /// A finite double, as its decimal text (for example `b"1.5"` or `b"2e10"`).
    Finite(Vec<u8>),
    /// Not a number; never representable in JSON output.
    NotANumber,
    /// An infinity, negative when the flag is set; never representable.
    Infinite(bool),
}

/// The mathematical model of a floating-point value.
pub enum FModel {
    Finite(Seq<u8>),
    NotANumber,
    Infinite(bool),
}

impl FloatValue {
    /// The mathematical model of this floating-point value.
    pub open spec fn model(self) -> FModel {
        match self {
            FloatValue::Finite(t) => FModel::Finite(t@),
            FloatValue::NotANumber => FModel::NotANumber,
            FloatValue::Infinite(neg) => FModel::Infinite(neg),
        }
    }
}

/// A calendar date.
#[derive(Clone, Copy, PartialEq, Eq, Structural, Debug)]
pub struct DateV {
    pub year: u16,
    pub month: u8,
    pub day: u8,
}

/// A time of day, with microsecond precision.
#[derive(Clone, Copy, PartialEq, Eq, Structural, Debug)]
pub struct TimeV {
    pub hour: u8,
    pub minute: u8,
    pub second: u8,
    pub microsecond: u32,
}

/// A date, a time, or a datetime with an optional UTC offset in minutes.
#[derive(Clone, Copy, Debug)]
pub enum Temporal {
    Date(DateV),
    Time(TimeV),
    DateTime { date: DateV, time: TimeV, offset_minutes: Option<i32> },
}

/// A 128-bit unique identifier, rendered in canonical hyphenated form.
#[derive(Clone, Copy, PartialEq, Eq, Structural, Debug)]
pub struct UniqueId {
    pub hi: u64,
    pub lo: u64,
}

/// One element of a numeric buffer.
#[derive(Debug)]
pub enum NumElem {
    I(i64),
    F(FloatValue),
}

/// The mathematical model of a numeric-buffer element.
pub enum NModel {
    I(int),
    F(FModel),
}

impl NumElem {
    /// The mathematical model of this element.
    pub open spec fn model(self) -> NModel {
        match self {
            NumElem::I(n) => NModel::I(n as int),
            NumElem::F(f) => NModel::F(f.model()),
        }
    }
}

/// A homogeneous numeric array; its shape is carried structurally, outer
/// dimensions as rows of inner buffers, the innermost as a run of elements.
#[derive(Debug)]
pub enum NumBuf {
    Elems(Vec<NumElem>),
    Rows(Vec<NumBuf>),
}

/// The mathematical model of a numeric buffer.
pub enum NBModel {
    Elems(Seq<NModel>),
    Rows(Seq<NBModel>),
}

/// The underlying scalar of an enumerated value.
#[derive(Debug)]
pub enum Scalar {
    Bool(bool),
    Int(i64),
    Float(FloatValue),
    Str(Vec<u8>),
}

/// The mathematical model of an enumerated value's scalar.
pub enum SModel {
    Bool(bool),
    Int(int),
    Float(FModel),
    Str(Seq<u8>),
}

impl Scalar {
    /// The mathematical model of this scalar.
    pub open spec fn model(self) -> SModel {
        match self {
            Scalar::Bool(b) => SModel::Bool(b),
            Scalar::Int(n) => SModel::Int(n as int),
            Scalar::Float(f) => SModel::Float(f.model()),
            Scalar::Str(s) => SModel::Str(s@),
        }
    }
}

/// A value tree. The first seven kinds are native JSON; the next five are
/// extension kinds, encodable only under specific options; `Opaque` stands
/// for a host value the classifier did not recognize, identified by a handle
/// that only the fallback can interpret.
#[derive(Debug)]
pub enum Value {
    Null,
    Bool(bool),
    Int(i64),
    Float(FloatValue),
    /// UTF-8 text, as bytes.
    Str(Vec<u8>),
    Array(Vec<Value>),
    /// Ordered key/value pairs; a key is normally `Str` but may be any
    /// scalar when non-string keys are permitted.
    Object(Vec<(Value, Value)>),
    Temporal(Temporal),
    UniqueId(UniqueId),
    NumericBuffer(NumBuf),
    /// An ordered field-name to value mapping from a record-like input.
    Record(Vec<(Vec<u8>, Value)>),
    /// A value together with its resolved underlying scalar.
    Enumerated(Scalar),
    /// A subclassed native value, carrying the native value it refines.
    Subclass(Box<Value>),
    Opaque(u64),
}

/// The mathematical model of a value tree.
pub enum VModel {
    Null,
    Bool(bool),
    Int(int),
    Float(FModel),
    Str(Seq<u8>),
    Array(Seq<VModel>),
    Object(Seq<(VModel, VModel)>),
    Temporal(Temporal),
    UniqueId(UniqueId),
    NumericBuffer(NBModel),
    Record(Seq<(Seq<u8>, VModel)>),
    Enumerated(SModel),
    /// A single-element sequence holding the refined native value's model.
    Subclass(Seq<VModel>),
    Opaque(u64),
}

/// The models of a sequence of values, in order.
pub open spec fn model_seq(s: Seq<Value>) -> Seq<VModel>
    decreases s, 0int,
{
    if s.len() == 0 {
        Seq::empty()
    } else {
        model_seq(s.drop_last()).push(s.last().model())
    }
}

/// The models of a sequence of key/value pairs, in order.
pub open spec fn model_pairs(s: Seq<(Value, Value)>) -> Seq<(VModel, VModel)>
    decreases s, 0int,
{
    if s.len() == 0 {
        Seq::empty()
    } else {
        model_pairs(s.drop_last()).push(
            (s.last().0.model(), s.last().1.model()),
        )
    }
}

/// The models of a sequence of record fields, in order.
pub open spec fn model_fields(s: Seq<(Vec<u8>, Value)>) -> Seq<(Seq<u8>, VModel)>
    decreases s, 0int,
{
    if s.len() == 0 {
        Seq::empty()
    } else {
        model_fields(s.drop_last()).push((s.last().0@, s.last().1.model()))
    }
}

/// The models of a sequence of numeric buffers, in order.
pub open spec fn model_bufs(s: Seq<NumBuf>) -> Seq<NBModel>
    decreases s, 0int,
{
    if s.len() == 0 {
        Seq::empty()
    } else {
        model_bufs(s.drop_last()).push(s.last().model())
    }
}

/// The models of a sequence of numeric elements, in order.
pub open spec fn model_elems(s: Seq<NumElem>) -> Seq<NModel>
    decreases s, 0int,
{
    if s.len() == 0 {
        Seq::empty()
    } else {
        model_elems(s.drop_last()).push(s.last().model())
    }
}

impl NumBuf {
    /// The mathematical model of this numeric buffer.
    pub open spec fn model(self) -> NBModel
        decreases self, 1int,
    {
        match self {
            NumBuf::Elems(e) => NBModel::Elems(model_elems(e@)),
            NumBuf::Rows(r) => NBModel::Rows(model_bufs(r@)),
        }
    }
}

impl Value {
    /// The mathematical model of this value.
    pub open spec fn model(self) -> VModel
        decreases self, 1int,
    {
        match self {
            Value::Null => VModel::Null,
            Value::Bool(b) => VModel::Bool(b),
            Value::Int(n) => VModel::Int(n as int),
            Value::Float(f) => VModel::Float(f.model()),
            Value::Str(s) => VModel::Str(s@),
            Value::Array(a) => VModel::Array(model_seq(a@)),
            Value::Object(p) => VModel::Object(model_pairs(p@)),
            Value::Temporal(t) => VModel::Temporal(t),
            Value::UniqueId(u) => VModel::UniqueId(u),
            Value::NumericBuffer(b) => VModel::NumericBuffer(b.model()),
            Value::Record(f) => VModel::Record(model_fields(f@)),
            Value::Enumerated(s) => VModel::Enumerated(s.model()),
            Value::Subclass(b) => VModel::Subclass(seq![(*b).model()]),
            Value::Opaque(h) => VModel::Opaque(h),
        }
    }
}

/// The model of a sequence of values is the sequence of their models.
pub proof fn lemma_model_seq(s: Seq<Value>)
    ensures
        model_seq(s).len() == s.len(),
        forall|i: int| 0 <= i < s.len() ==> model_seq(s)[i] == s[i].model(),
    decreases s.len(),
{
    if s.len() > 0 {
        lemma_model_seq(s.drop_last());
    }
}

/// The model of a pair sequence is the sequence of the models of its pairs.
pub proof fn lemma_model_pairs(s: Seq<(Value, Value)>)
    ensures
        model_pairs(s).len() == s.len(),
        forall|i: int|
            0 <= i < s.len() ==> model_pairs(s)[i] == (s[i].0.model(), s[i].1.model()),
    decreases s.len(),
{
    if s.len() > 0 {
        lemma_model_pairs(s.drop_last());
    }
}

/// The model of a field sequence is the sequence of the models of its fields.
pub proof fn lemma_model_fields(s: Seq<(Vec<u8>, Value)>)
    ensures
        model_fields(s).len() == s.len(),
        forall|i: int|
            0 <= i < s.len() ==> model_fields(s)[i] == (s[i].0@, s[i].1.model()),
    decreases s.len(),
{
    if s.len() > 0 {
        lemma_model_fields(s.drop_last());
    }
}

/// The model of a buffer sequence is the sequence of their models.
pub proof fn lemma_model_bufs(s: Seq<NumBuf>)
    ensures
        model_bufs(s).len() == s.len(),
        forall|i: int| 0 <= i < s.len() ==> model_bufs(s)[i] == s[i].model(),
    decreases s.len(),
{
    if s.len() > 0 {
        lemma_model_bufs(s.drop_last());
    }
}

/// The model of an element sequence is the sequence of their models.
pub proof fn lemma_model_elems(s: Seq<NumElem>)
    ensures
        model_elems(s).len() == s.len(),
        forall|i: int| 0 <= i < s.len() ==> model_elems(s)[i] == s[i].model(),
    decreases s.len(),
{
    if s.len() > 0 {
        lemma_model_elems(s.drop_last());
    }
}

} // verus!
