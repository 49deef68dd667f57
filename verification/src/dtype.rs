//! Descriptor element types
use vstd::prelude::*;

verus! {

/// Element type of the descriptors stored in a vocabulary
#[derive(Clone, Copy, Debug, PartialEq, Eq, Structural)]
pub enum DescriptorType {
    Uint8,
    Float32,
}

/// Error returned when a type code names no known descriptor type
#[derive(Clone, Copy, Debug, PartialEq, Eq, Structural)]
pub struct InvalidDescriptorType(pub u32);

/// The type code with which a descriptor type is stored (OpenCV's `CV_8U` and `CV_32F`)
pub open spec fn spec_type_code(dt: DescriptorType) -> u32 {
    match dt {
        DescriptorType::Uint8 => 0,
        DescriptorType::Float32 => 5,
    }
}

/// The descriptor type that a type code names, if any
pub open spec fn spec_from_type_code(code: u32) -> Option<DescriptorType> {
    if code == 0 {
        Some(DescriptorType::Uint8)
    } else if code == 5 {
        Some(DescriptorType::Float32)
    } else {
        None
    }
}

/// Rust type name of the elements
pub open spec fn spec_name(dt: DescriptorType) -> Seq<char> {
    match dt {
        DescriptorType::Uint8 => "u8"@,
        DescriptorType::Float32 => "f32"@,
    }
}

/// Numpy type name of the elements
pub open spec fn spec_numpy_name(dt: DescriptorType) -> Seq<char> {
    match dt {
        DescriptorType::Uint8 => "np.uint8"@,
        DescriptorType::Float32 => "np.float32"@,
    }
}

impl DescriptorType {
    /// Type code (0 for `u8`, 5 for `f32`)
    pub fn type_code(self) -> (code: u32)
        ensures
            code == spec_type_code(self),
    {
        match self {
            DescriptorType::Uint8 => 0,
            DescriptorType::Float32 => 5,
        }
    }

    /// Parse a type code
    pub fn try_from_code(value: u32) -> (res: Result<DescriptorType, InvalidDescriptorType>)
        ensures
            match spec_from_type_code(value) {
                Some(dt) => res == Ok::<DescriptorType, InvalidDescriptorType>(dt),
                None => res == Err::<DescriptorType, InvalidDescriptorType>(InvalidDescriptorType(value)),
            },
    {
        if value == 0 {
            Ok(DescriptorType::Uint8)
        } else if value == 5 {
            Ok(DescriptorType::Float32)
        } else {
            Err(InvalidDescriptorType(value))
        }
    }

    /// Rust type name (`u8` or `f32`)
    pub fn name(&self) -> (name: &'static str)
        ensures
            name@ == spec_name(*self),
    {
        match self {
            DescriptorType::Uint8 => "u8",
            DescriptorType::Float32 => "f32",
        }
    }

    /// Numpy type name (`np.uint8` or `np.float32`)
    pub fn numpy_name(&self) -> (name: &'static str)
        ensures
            name@ == spec_numpy_name(*self),
    {
        match self {
            DescriptorType::Uint8 => "np.uint8",
            DescriptorType::Float32 => "np.float32",
        }
    }

    /// Text of the type as it is displayed: the numpy name in alternate form,
    /// else the Rust name
    pub fn display_name(&self, alternate: bool) -> (name: &'static str)
        ensures
            alternate ==> name@ == spec_numpy_name(*self),
            !alternate ==> name@ == spec_name(*self),
    {
        if alternate {
            self.numpy_name()
        } else {
            self.name()
        }
    }

    /// Size in bytes of one descriptor element
    pub fn element_size(&self) -> (size: usize)
        ensures
            size == (match *self {
                DescriptorType::Float32 => 4usize,
                DescriptorType::Uint8 => 1usize,
            }),
    {
        match self {
            DescriptorType::Float32 => 4,
            DescriptorType::Uint8 => 1,
        }
    }
}

impl From<DescriptorType> for u32 {
    fn from(value: DescriptorType) -> (code: u32) {
        value.type_code()
    }
}

impl vstd::std_specs::convert::FromSpecImpl<DescriptorType> for u32 {
    open spec fn obeys_from_spec() -> bool {
        true
    }

    open spec fn from_spec(value: DescriptorType) -> u32 {
        spec_type_code(value)
    }
}

impl TryFrom<u32> for DescriptorType {
    type Error = InvalidDescriptorType;

    fn try_from(value: u32) -> (res: Result<DescriptorType, InvalidDescriptorType>) {
        DescriptorType::try_from_code(value)
    }
}

impl vstd::std_specs::convert::TryFromSpecImpl<u32> for DescriptorType {
    open spec fn obeys_try_from_spec() -> bool {
        true
    }

    open spec fn try_from_spec(value: u32) -> Result<DescriptorType, InvalidDescriptorType> {
        match spec_from_type_code(value) {
            Some(dt) => Ok(dt),
            None => Err(InvalidDescriptorType(value)),
        }
    }
}

/// A type code names a descriptor type exactly when it is the code of that type
pub proof fn lemma_type_code_roundtrip(dt: DescriptorType, code: u32)
    ensures
        spec_from_type_code(spec_type_code(dt)) == Some(dt),
        spec_from_type_code(code) == Some(dt) <==> spec_type_code(dt) == code,
{
}

} // verus!
