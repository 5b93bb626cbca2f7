use vstd::prelude::*;

verus! {

/// The eight primitive element types that a column can hold.
#[derive(Debug, Clone, Copy, PartialEq, Eq, Structural)]
pub enum ValueKind {
    U8,
    U16,
    U32,
    I8,
    I16,
    I32,
    F32,
    F64,
}

/// The `TYPE` letter of unsigned integers.
pub const TYPE_UNSIGNED: u8 = 85;
/// The `TYPE` letter of signed integers.
pub const TYPE_SIGNED: u8 = 73;
/// The `TYPE` letter of floating-point numbers.
pub const TYPE_FLOAT: u8 = 70;

/// The primitive that a `SIZE`/`TYPE` pair declares, if it is one of the eight.
pub open spec fn kind_of(size: nat, tag: u8) -> Option<ValueKind> {
    if tag == TYPE_UNSIGNED && size == 1 {
        Some(ValueKind::U8)
    } else if tag == TYPE_UNSIGNED && size == 2 {
        Some(ValueKind::U16)
    } else if tag == TYPE_UNSIGNED && size == 4 {
        Some(ValueKind::U32)
    } else if tag == TYPE_SIGNED && size == 1 {
        Some(ValueKind::I8)
    } else if tag == TYPE_SIGNED && size == 2 {
        Some(ValueKind::I16)
    } else if tag == TYPE_SIGNED && size == 4 {
        Some(ValueKind::I32)
    } else if tag == TYPE_FLOAT && size == 4 {
        Some(ValueKind::F32)
    } else if tag == TYPE_FLOAT && size == 8 {
        Some(ValueKind::F64)
    } else {
        None
    }
}

impl ValueKind {
    /// Byte width of one element.
    pub open spec fn width_spec(self) -> nat {
        match self {
            ValueKind::U8 | ValueKind::I8 => 1,
            ValueKind::U16 | ValueKind::I16 => 2,
            ValueKind::U32 | ValueKind::I32 | ValueKind::F32 => 4,
            ValueKind::F64 => 8,
        }
    }

    /// The `TYPE` letter of this primitive.
    pub open spec fn tag_spec(self) -> u8 {
        match self {
            ValueKind::U8 | ValueKind::U16 | ValueKind::U32 => TYPE_UNSIGNED,
            ValueKind::I8 | ValueKind::I16 | ValueKind::I32 => TYPE_SIGNED,
            ValueKind::F32 | ValueKind::F64 => TYPE_FLOAT,
        }
    }

    pub open spec fn is_float(self) -> bool {
        self == ValueKind::F32 || self == ValueKind::F64
    }

    pub open spec fn is_signed(self) -> bool {
        self == ValueKind::I8 || self == ValueKind::I16 || self == ValueKind::I32
    }

    pub fn width(self) -> (r: usize)
        ensures
            r == self.width_spec(),
    {
        match self {
            ValueKind::U8 | ValueKind::I8 => 1,
            ValueKind::U16 | ValueKind::I16 => 2,
            ValueKind::U32 | ValueKind::I32 | ValueKind::F32 => 4,
            ValueKind::F64 => 8,
        }
    }

    pub fn is_float_kind(self) -> (r: bool)
        ensures
            r == self.is_float(),
    {
        match self {
            ValueKind::F32 | ValueKind::F64 => true,
            _ => false,
        }
    }

    pub fn tag(self) -> (r: u8)
        ensures
            r == self.tag_spec(),
    {
        match self {
            ValueKind::U8 | ValueKind::U16 | ValueKind::U32 => TYPE_UNSIGNED,
            ValueKind::I8 | ValueKind::I16 | ValueKind::I32 => TYPE_SIGNED,
            ValueKind::F32 | ValueKind::F64 => TYPE_FLOAT,
        }
    }

    /// Resolves a `SIZE`/`TYPE` pair to its primitive.
    pub fn from_size_tag(size: usize, tag: u8) -> (r: Option<ValueKind>)
        ensures
            r == kind_of(size as nat, tag),
    {
        if tag == TYPE_UNSIGNED && size == 1 {
            Some(ValueKind::U8)
        } else if tag == TYPE_UNSIGNED && size == 2 {
            Some(ValueKind::U16)
        } else if tag == TYPE_UNSIGNED && size == 4 {
            Some(ValueKind::U32)
        } else if tag == TYPE_SIGNED && size == 1 {
            Some(ValueKind::I8)
        } else if tag == TYPE_SIGNED && size == 2 {
            Some(ValueKind::I16)
        } else if tag == TYPE_SIGNED && size == 4 {
            Some(ValueKind::I32)
        } else if tag == TYPE_FLOAT && size == 4 {
            Some(ValueKind::F32)
        } else if tag == TYPE_FLOAT && size == 8 {
            Some(ValueKind::F64)
        } else {
            None
        }
    }
}

} // verus!
