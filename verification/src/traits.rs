//! Capabilities that the key and value types of a [`crate::HashMapVec`]
//! must provide: keys can be compared and duplicated, values have a
//! canonical padding value.

use vstd::prelude::*;

verus! {

/// A key type: an executable equality test that decides logical
/// equality, and a way to duplicate a key.
pub trait SeriesKey: Sized {
    /// Decides whether `self` and `other` are the same key.
    fn key_eq(&self, other: &Self) -> (r: bool)
        ensures
            r <==> *self == *other,
    ;

    /// Produces a copy of the key.
    fn key_dup(&self) -> (r: Self)
        ensures
            r == *self,
    ;
}

/// A value type with a canonical default used to pad series at steps
/// where a key received no explicit value.
pub trait PadDefault: Sized {
    /// The padding value, as a mathematical constant.
    spec fn pad_default() -> Self;

    /// Produces the padding value.
    fn default_value() -> (r: Self)
        ensures
            r == Self::pad_default(),
    ;
}

impl SeriesKey for bool {
    fn key_eq(&self, other: &Self) -> (r: bool)
        ensures
            r <==> *self == *other,
    {
        *self == *other
    }

    fn key_dup(&self) -> (r: Self)
        ensures
            r == *self,
    {
        *self
    }
}

impl SeriesKey for char {
    fn key_eq(&self, other: &Self) -> (r: bool)
        ensures
            r <==> *self == *other,
    {
        *self == *other
    }

    fn key_dup(&self) -> (r: Self)
        ensures
            r == *self,
    {
        *self
    }
}

impl SeriesKey for u8 {
    fn key_eq(&self, other: &Self) -> (r: bool)
        ensures
            r <==> *self == *other,
    {
        *self == *other
    }

    fn key_dup(&self) -> (r: Self)
        ensures
            r == *self,
    {
        *self
    }
}

impl SeriesKey for u16 {
    fn key_eq(&self, other: &Self) -> (r: bool)
        ensures
            r <==> *self == *other,
    {
        *self == *other
    }

    fn key_dup(&self) -> (r: Self)
        ensures
            r == *self,
    {
        *self
    }
}

impl SeriesKey for u32 {
    fn key_eq(&self, other: &Self) -> (r: bool)
        ensures
            r <==> *self == *other,
    {
        *self == *other
    }

    fn key_dup(&self) -> (r: Self)
        ensures
            r == *self,
    {
        *self
    }
}

impl SeriesKey for u64 {
    fn key_eq(&self, other: &Self) -> (r: bool)
        ensures
            r <==> *self == *other,
    {
        *self == *other
    }

    fn key_dup(&self) -> (r: Self)
        ensures
            r == *self,
    {
        *self
    }
}

impl SeriesKey for usize {
    fn key_eq(&self, other: &Self) -> (r: bool)
        ensures
            r <==> *self == *other,
    {
        *self == *other
    }

    fn key_dup(&self) -> (r: Self)
        ensures
            r == *self,
    {
        *self
    }
}

impl SeriesKey for i32 {
    fn key_eq(&self, other: &Self) -> (r: bool)
        ensures
            r <==> *self == *other,
    {
        *self == *other
    }

    fn key_dup(&self) -> (r: Self)
        ensures
            r == *self,
    {
        *self
    }
}

impl SeriesKey for i64 {
    fn key_eq(&self, other: &Self) -> (r: bool)
        ensures
            r <==> *self == *other,
    {
        *self == *other
    }

    fn key_dup(&self) -> (r: Self)
        ensures
            r == *self,
    {
        *self
    }
}

impl PadDefault for bool {
    open spec fn pad_default() -> Self {
        false
    }

    fn default_value() -> (r: Self)
        ensures
            r == Self::pad_default(),
    {
        false
    }
}

impl PadDefault for u8 {
    open spec fn pad_default() -> Self {
        0u8
    }

    fn default_value() -> (r: Self)
        ensures
            r == Self::pad_default(),
    {
        0u8
    }
}

impl PadDefault for u16 {
    open spec fn pad_default() -> Self {
        0u16
    }

    fn default_value() -> (r: Self)
        ensures
            r == Self::pad_default(),
    {
        0u16
    }
}

impl PadDefault for u32 {
    open spec fn pad_default() -> Self {
        0u32
    }

    fn default_value() -> (r: Self)
        ensures
            r == Self::pad_default(),
    {
        0u32
    }
}

impl PadDefault for u64 {
    open spec fn pad_default() -> Self {
        0u64
    }

    fn default_value() -> (r: Self)
        ensures
            r == Self::pad_default(),
    {
        0u64
    }
}

impl PadDefault for usize {
    open spec fn pad_default() -> Self {
        0usize
    }

    fn default_value() -> (r: Self)
        ensures
            r == Self::pad_default(),
    {
        0usize
    }
}

impl PadDefault for i32 {
    open spec fn pad_default() -> Self {
        0i32
    }

    fn default_value() -> (r: Self)
        ensures
            r == Self::pad_default(),
    {
        0i32
    }
}

impl PadDefault for i64 {
    open spec fn pad_default() -> Self {
        0i64
    }

    fn default_value() -> (r: Self)
        ensures
            r == Self::pad_default(),
    {
        0i64
    }
}

} // verus!
