use vstd::prelude::*;

verus! {

/// The three kinds of signal the host knows how to plot.
#[derive(Clone, Copy, Debug, PartialEq, Eq, Structural)]
pub enum ValueType {
    /// Boolean value
    Bool,
    /// `i32` value
    Int,
    /// `f32` value, carried as its IEEE-754 bit pattern
    Float,
}

/// The wire code of a value type: 0, 1 or 2.
pub open spec fn type_code(t: ValueType) -> i32 {
    match t {
        ValueType::Bool => 0,
        ValueType::Int => 1,
        ValueType::Float => 2,
    }
}

impl ValueType {
    /// The wire code of this value type.
    pub fn code(self) -> (r: i32)
        ensures
            r == type_code(self),
    {
        match self {
            ValueType::Bool => 0,
            ValueType::Int => 1,
            ValueType::Float => 2,
        }
    }
}

/// Boolean signal that shows only positive front impulses.
pub struct OnlyFront(pub bool);

/// The bit pattern of an `f32` sample, as given by `f32::to_bits`.
pub struct FloatBits(pub u32);

/// A sample type that a signal map accepts.
pub trait Value: Sized {
    /// The value type a signal gets when it is first set with this type.
    spec fn spec_value_type() -> ValueType;

    /// Whether a sample of this type is an impulse rather than a level.
    spec fn spec_only_front() -> bool;

    /// The raw 32-bit word stored for this sample.
    spec fn raw(&self) -> i32;

    /// Associated value type.
    fn value_type() -> (r: ValueType)
        ensures
            r == Self::spec_value_type(),
    ;

    /// Only positive front.
    fn only_front() -> (r: bool)
        ensures
            r == Self::spec_only_front(),
    ;

    /// `i32` representation.
    fn to_i32(self) -> (r: i32)
        ensures
            r == self.raw(),
    ;
}

impl Value for i32 {
    open spec fn spec_value_type() -> ValueType {
        ValueType::Int
    }

    open spec fn spec_only_front() -> bool {
        false
    }

    open spec fn raw(&self) -> i32 {
        *self
    }

    fn value_type() -> (r: ValueType) {
        ValueType::Int
    }

    fn only_front() -> (r: bool) {
        false
    }

    fn to_i32(self) -> (r: i32) {
        self
    }
}

/// The word whose bits are those of `bits`: `bits` itself below 2^31,
/// `bits - 2^32` from there on.
pub open spec fn signed_of_bits(bits: u32) -> int {
    if bits < 0x8000_0000 {
        bits as int
    } else {
        bits as int - 0x1_0000_0000
    }
}

impl Value for FloatBits {
    open spec fn spec_value_type() -> ValueType {
        ValueType::Float
    }

    open spec fn spec_only_front() -> bool {
        false
    }

    open spec fn raw(&self) -> i32 {
        signed_of_bits(self.0) as i32
    }

    fn value_type() -> (r: ValueType) {
        ValueType::Float
    }

    fn only_front() -> (r: bool) {
        false
    }

    fn to_i32(self) -> (r: i32) {
        if self.0 < 0x8000_0000 {
            self.0 as i32
        } else {
            (self.0 as i64 - 0x1_0000_0000i64) as i32
        }
    }
}

impl Value for bool {
    open spec fn spec_value_type() -> ValueType {
        ValueType::Bool
    }

    open spec fn spec_only_front() -> bool {
        false
    }

    open spec fn raw(&self) -> i32 {
        if *self { 1 } else { 0 }
    }

    fn value_type() -> (r: ValueType) {
        ValueType::Bool
    }

    fn only_front() -> (r: bool) {
        false
    }

    fn to_i32(self) -> (r: i32) {
        if self { 1 } else { 0 }
    }
}

impl Value for OnlyFront {
    open spec fn spec_value_type() -> ValueType {
        ValueType::Bool
    }

    open spec fn spec_only_front() -> bool {
        true
    }

    open spec fn raw(&self) -> i32 {
        if self.0 { 1 } else { 0 }
    }

    fn value_type() -> (r: ValueType) {
        ValueType::Bool
    }

    fn only_front() -> (r: bool) {
        true
    }

    fn to_i32(self) -> (r: i32) {
        if self.0 { 1 } else { 0 }
    }
}

} // verus!
