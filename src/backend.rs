//! The numeric payload: candle tensors, reached through trusted wrappers.
//!
//! A `Value` carries a tensor together with the shape, element type and
//! placement that candle records for it, read from the tensor when the value
//! is made. The contracts of the wrappers below say what candle's source
//! gives: which calls succeed on which shapes and kinds, and the shape of
//! what comes back.
use vstd::prelude::*;

verus! {

#[verifier::external_type_specification]
#[verifier::external_body]
pub struct ExTensor(candle_core::Tensor);

#[verifier::external_type_specification]
#[verifier::external_body]
pub struct ExCandleError(candle_core::Error);

/// The element type of a tensor, one variant per candle dtype.
#[derive(Clone, Copy, PartialEq, Eq, Structural, Debug)]
pub enum ElemType {
    U8,
    U32,
    I16,
    I32,
    I64,
    BF16,
    F16,
    F32,
    F64,
    F8E4M3,
    F6E2M3,
    F6E3M2,
    F4,
    F8E8M0,
    /// A dtype that a later candle may add.
    Other,
}

/// Integer element types: candle adds, multiplies and sums them with the
/// plain operators, which panic on overflow in a debug build.
pub open spec fn is_integer(d: ElemType) -> bool {
    d is U8 || d is U32 || d is I16 || d is I32 || d is I64
}

/// The float element types that every CPU operation used here supports.
pub open spec fn is_float(d: ElemType) -> bool {
    d is BF16 || d is F16 || d is F32 || d is F64
}

/// A tensor with the shape, element type and placement that candle records
/// for it.
pub struct Value {
    tensor: candle_core::Tensor,
    shape: Vec<usize>,
    dtype: ElemType,
    on_cpu: bool,
}

/// `from` broadcasts to `to`: `to` has at least as many dimensions, and each
/// trailing dimension of `to` equals the matching one of `from`, or that one
/// is 1.
pub open spec fn broadcasts(from: Seq<usize>, to: Seq<usize>) -> bool {
    &&& from.len() <= to.len()
    &&& forall|i: int|
        0 <= i < from.len() ==> (#[trigger] from[i] == 1 || to[to.len() - from.len() + i] == from[i])
}

impl Value {
    pub closed spec fn tensor(&self) -> candle_core::Tensor {
        self.tensor
    }

    pub closed spec fn shape(&self) -> Seq<usize> {
        self.shape@
    }

    pub closed spec fn dtype(&self) -> ElemType {
        self.dtype
    }

    pub closed spec fn on_cpu(&self) -> bool {
        self.on_cpu
    }

    /// Same element type and same placement.
    pub open spec fn same_kind(&self, o: &Value) -> bool {
        self.dtype() == o.dtype() && self.on_cpu() == o.on_cpu()
    }

    /// A float tensor on the CPU: every operation used here succeeds on it.
    pub open spec fn supported(&self) -> bool {
        self.on_cpu() && is_float(self.dtype())
    }

    /// Same shape, dtype and device.
    pub open spec fn like(&self, o: &Value) -> bool {
        self.shape() == o.shape() && self.same_kind(o)
    }

    pub fn as_tensor(&self) -> (r: &candle_core::Tensor)
        ensures
            *r == self.tensor(),
    {
        &self.tensor
    }

    pub fn dims(&self) -> (r: Vec<usize>)
        ensures
            r@ == self.shape(),
    {
        vstd::slice::slice_to_vec(self.shape.as_slice())
    }

    pub fn elem_type(&self) -> (r: ElemType)
        ensures
            r == self.dtype(),
    {
        self.dtype
    }

    pub fn is_on_cpu(&self) -> (r: bool)
        ensures
            r == self.on_cpu(),
    {
        self.on_cpu
    }
}

/// Relies on candle_core::Tensor::dims: the tensor's shape.
#[verifier::external_body]
fn tensor_dims(t: &candle_core::Tensor) -> Vec<usize> {
    t.dims().to_vec()
}

/// Relies on candle_core::Tensor::dtype: the tensor's element type.
#[verifier::external_body]
fn tensor_dtype(t: &candle_core::Tensor) -> ElemType {
    match t.dtype() {
        candle_core::DType::U8 => ElemType::U8, candle_core::DType::U32 => ElemType::U32,
        candle_core::DType::I16 => ElemType::I16, candle_core::DType::I32 => ElemType::I32,
        candle_core::DType::I64 => ElemType::I64, candle_core::DType::BF16 => ElemType::BF16,
        candle_core::DType::F16 => ElemType::F16, candle_core::DType::F32 => ElemType::F32,
        candle_core::DType::F64 => ElemType::F64, candle_core::DType::F8E4M3 => ElemType::F8E4M3,
        candle_core::DType::F6E2M3 => ElemType::F6E2M3, candle_core::DType::F6E3M2 => ElemType::F6E3M2,
        candle_core::DType::F4 => ElemType::F4, candle_core::DType::F8E8M0 => ElemType::F8E8M0,
        _ => ElemType::Other,
    }
}

/// Relies on candle_core::Tensor::device and Device::is_cpu: whether the
/// tensor lives in main memory.
#[verifier::external_body]
fn tensor_is_cpu(t: &candle_core::Tensor) -> bool {
    t.device().is_cpu()
}

/// Takes a tensor with the shape, element type and placement that candle
/// records for it.
pub fn value_of(t: candle_core::Tensor) -> (r: Value)
    ensures
        r.tensor() == t,
{
    let shape = tensor_dims(&t);
    let dtype = tensor_dtype(&t);
    let on_cpu = tensor_is_cpu(&t);
    Value { tensor: t, shape, dtype, on_cpu }
}

/// Relies on candle_core::Tensor::add: the shapes are compared first (an
/// error when they differ), then device and dtype; on the CPU the four
/// standard float types add elementwise. The result has the left operand's
/// shape, dtype and device. Integer operands are left out: their plain `+`
/// panics on overflow in a debug build.
#[verifier::external_body]
pub(crate) fn value_add(a: &Value, b: &Value) -> (r: Result<Value, candle_core::Error>)
    requires
        !is_integer(a.dtype()),
    ensures
        a.like(b) && a.supported() ==> r is Ok,
        r is Ok ==> a.shape() == b.shape(),
        r matches Ok(v) ==> v.like(a),
{
    a.tensor.add(&b.tensor).map(value_of)
}

/// Relies on candle_core::Tensor::mul, with the same checks as `add`.
#[verifier::external_body]
pub(crate) fn value_mul(a: &Value, b: &Value) -> (r: Result<Value, candle_core::Error>)
    requires
        !is_integer(a.dtype()),
    ensures
        a.like(b) && a.supported() ==> r is Ok,
        r is Ok ==> a.shape() == b.shape(),
        r matches Ok(v) ==> v.like(a),
{
    a.tensor.mul(&b.tensor).map(value_of)
}

/// Relies on candle_core::Tensor::sum_all: the sum over every dimension, a
/// tensor without dimensions of the same dtype and device; the CPU reduction
/// supports the standard float types.
#[verifier::external_body]
pub(crate) fn value_sum_all(a: &Value) -> (r: Result<Value, candle_core::Error>)
    requires
        !is_integer(a.dtype()),
    ensures
        a.supported() ==> r is Ok,
        r matches Ok(v) ==> v.shape() == Seq::<usize>::empty() && v.same_kind(a),
{
    a.tensor.sum_all().map(value_of)
}

/// Relies on candle_core::Tensor::expand (`broadcast_as`, checked by
/// `Layout::broadcast_as`): it succeeds exactly when the shape broadcasts.
#[verifier::external_body]
pub(crate) fn value_expand(a: &Value, shape: &[usize]) -> (r: Result<Value, candle_core::Error>)
    ensures
        r is Ok <==> broadcasts(a.shape(), shape@),
        r matches Ok(v) ==> v.shape() == shape@ && v.same_kind(a),
{
    a.tensor.expand(shape).map(value_of)
}

/// Relies on candle_core::Tensor::ones_like: ones of the same shape, dtype
/// and device; the CPU allocates them for the standard float types.
#[verifier::external_body]
pub(crate) fn value_ones_like(a: &Value) -> (r: Result<Value, candle_core::Error>)
    ensures
        a.supported() ==> r is Ok,
        r matches Ok(v) ==> v.like(a),
{
    a.tensor.ones_like().map(value_of)
}

} // verus!
