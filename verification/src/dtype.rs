//! The element types of a tensor.
use vstd::prelude::*;

verus! {

/// The element types a tensor can have.
#[derive(Debug, Clone, Copy, PartialEq, Eq, Hash, Structural)]
pub enum DType {
    /// 16-bit IEEE half float.
    F16,
    /// 16-bit brain float.
    BF16,
    /// 32-bit float.
    F32,
    /// 64-bit float.
    F64,
    /// Unsigned byte, for image data and masks.
    U8,
    /// Unsigned 32-bit integer, for indices.
    U32,
    /// Signed 64-bit integer, for labels and indices.
    I64,
}

impl DType {
    /// The number of bytes of one element.
    pub open spec fn byte_size(self) -> nat {
        match self {
            DType::U8 => 1,
            DType::F16 | DType::BF16 => 2,
            DType::F32 | DType::U32 => 4,
            DType::F64 | DType::I64 => 8,
        }
    }

    /// The lower-case name of the type.
    pub open spec fn name(self) -> Seq<char> {
        match self {
            DType::F16 => "f16"@,
            DType::BF16 => "bf16"@,
            DType::F32 => "f32"@,
            DType::F64 => "f64"@,
            DType::U8 => "u8"@,
            DType::U32 => "u32"@,
            DType::I64 => "i64"@,
        }
    }

    /// The name of the enum's variant.
    pub open spec fn variant_name(self) -> Seq<char> {
        match self {
            DType::F16 => "F16"@,
            DType::BF16 => "BF16"@,
            DType::F32 => "F32"@,
            DType::F64 => "F64"@,
            DType::U8 => "U8"@,
            DType::U32 => "U32"@,
            DType::I64 => "I64"@,
        }
    }

    /// Size of one element in bytes.
    pub fn size_in_bytes(&self) -> (r: usize)
        ensures
            r == self.byte_size(),
    {
        match self {
            DType::F16 => 2,
            DType::BF16 => 2,
            DType::F32 => 4,
            DType::F64 => 8,
            DType::U8 => 1,
            DType::U32 => 4,
            DType::I64 => 8,
        }
    }

    /// Whether this is a floating-point type (needed for gradient tracking).
    pub fn is_float(&self) -> (r: bool)
        ensures
            r <==> (*self == DType::F16 || *self == DType::BF16 || *self == DType::F32 || *self
                == DType::F64),
    {
        match self {
            DType::F16 | DType::BF16 | DType::F32 | DType::F64 => true,
            _ => false,
        }
    }

    /// Whether this is a half-precision type.
    pub fn is_half(&self) -> (r: bool)
        ensures
            r <==> (*self == DType::F16 || *self == DType::BF16),
    {
        match self {
            DType::F16 | DType::BF16 => true,
            _ => false,
        }
    }

    /// The lower-case name: `f32`, `bf16`, `i64`.
    pub fn as_str(&self) -> (r: &'static str)
        ensures
            r@ == self.name(),
    {
        match self {
            DType::F16 => "f16",
            DType::BF16 => "bf16",
            DType::F32 => "f32",
            DType::F64 => "f64",
            DType::U8 => "u8",
            DType::U32 => "u32",
            DType::I64 => "i64",
        }
    }

    /// The lower-case name as a new string.
    pub fn to_string(&self) -> (r: String)
        ensures
            r@ == self.name(),
    {
        self.as_str().to_owned()
    }

    /// The name of the enum's variant: `F32`, `BF16`, `I64`.
    pub(crate) fn variant_str(&self) -> (r: &'static str)
        ensures
            r@ == self.variant_name(),
    {
        match self {
            DType::F16 => "F16",
            DType::BF16 => "BF16",
            DType::F32 => "F32",
            DType::F64 => "F64",
            DType::U8 => "U8",
            DType::U32 => "U32",
            DType::I64 => "I64",
        }
    }
}

/// The names of the types differ, and the last digits of each name are its number
/// of bits. The types of two bytes are the half-precision floats.
pub proof fn law_names_tell_types(a: DType, b: DType)
    ensures
        a.name() == b.name() ==> a == b,
        a.variant_name() == b.variant_name() ==> a == b,
        a.byte_size() == 2 <==> a == DType::F16 || a == DType::BF16,
        a.name().last() == '8' <==> a.byte_size() == 1,
        a.name().last() == '6' <==> a.byte_size() == 2,
        a.name().last() == '2' <==> a.byte_size() == 4,
        a.name().last() == '4' <==> a.byte_size() == 8,
{
    reveal_strlit("f16");
    reveal_strlit("bf16");
    reveal_strlit("f32");
    reveal_strlit("f64");
    reveal_strlit("u8");
    reveal_strlit("u32");
    reveal_strlit("i64");
    reveal_strlit("F16");
    reveal_strlit("BF16");
    reveal_strlit("F32");
    reveal_strlit("F64");
    reveal_strlit("U8");
    reveal_strlit("U32");
    reveal_strlit("I64");
    assert(a.name() == b.name() ==> a == b) by {
        if a.name() == b.name() {
            assert(a.name()[0] == b.name()[0]);
            assert(a.name()[1] == b.name()[1]);
        }
    }
    assert(a.variant_name() == b.variant_name() ==> a == b) by {
        if a.variant_name() == b.variant_name() {
            assert(a.variant_name()[0] == b.variant_name()[0]);
            assert(a.variant_name()[1] == b.variant_name()[1]);
        }
    }
}

} // verus!
