use vstd::prelude::*;
use vstd::layout::{size_of, align_of};
use core::marker::PhantomData;
use crate::mem::field_layout::{FieldLayout, round_up};

verus! {

/// The header of a flexible array: it knows how many items follow it.
pub trait FlexibleArrayHeader: Sized {
    /// The number of items, as a mathematical value.
    spec fn spec_len(&self) -> nat;

    /// The number of items.
    fn len(&self) -> (r: usize)
        ensures
            r == self.spec_len(),
    ;

    /// True when no item follows.
    fn is_empty(&self) -> (r: bool)
        ensures
            r == (self.spec_len() == 0),
    {
        self.len() == 0
    }

    /// A constructor for an array with this header and these items.
    fn constructor<I>(self, items: I) -> (r: FlexibleArrayConstructor<Self, I>)
        ensures
            r.header == self,
            r.items == items,
    {
        FlexibleArrayConstructor::new(self, items)
    }
}

/// A bare length is a header.
impl FlexibleArrayHeader for usize {
    open spec fn spec_len(&self) -> nat {
        *self as nat
    }

    fn len(&self) -> (r: usize) {
        *self
    }
}

/// A 16-bit length is a header.
impl FlexibleArrayHeader for u16 {
    open spec fn spec_len(&self) -> nat {
        *self as nat
    }

    fn len(&self) -> (r: usize) {
        *self as usize
    }
}

/// An 8-bit length is a header.
impl FlexibleArrayHeader for u8 {
    open spec fn spec_len(&self) -> nat {
        *self as nat
    }

    fn len(&self) -> (r: usize) {
        *self as usize
    }
}

/// A header that holds the number of items.
pub struct FlexibleArrayLen {
    pub len: usize,
}

impl FlexibleArrayHeader for FlexibleArrayLen {
    open spec fn spec_len(&self) -> nat {
        self.len as nat
    }

    fn len(&self) -> (r: usize) {
        self.len
    }
}

/// The values that a flexible array is built from: its header and its items.
pub struct FlexibleArrayConstructor<H, I> {
    pub header: H,
    pub items: I,
}

impl<H, I> FlexibleArrayConstructor<H, I> {
    /// Keeps the header and the items.
    pub fn new(header: H, items: I) -> (r: Self)
        ensures
            r.header == header,
            r.items == items,
    {
        Self { header, items }
    }
}

/// A header of type `T` followed in memory by `header.len()` items of type `I`.
pub struct FlexibleArray<I, T: FlexibleArrayHeader> {
    pub header: T,
    pub _0: PhantomData<I>,
}

impl<I, T: FlexibleArrayHeader> FlexibleArray<I, T> {
    /// The size in bytes of an array of `len` items: the header's size rounded up to the
    /// items' alignment, then the items.
    pub fn flexible_size(len: usize) -> (r: usize)
        requires
            size_of::<T>() + align_of::<I>() - 1 + len * size_of::<I>() <= usize::MAX,
        ensures
            r == round_up(size_of::<T>(), align_of::<I>()) + len * size_of::<I>(),
    {
        let item_align = core::mem::align_of::<I>();
        let item_size = core::mem::size_of::<I>();
        proof {
            broadcast use vstd::layout::align_properties, vstd::layout::align_nonzero;
            assert(align_of::<I>() > 0);
        }
        let layout = FieldLayout::<T, I>::align_to(item_align);
        proof {
            vstd::arithmetic::mul::lemma_mul_inequality(0, len as int, item_size as int);
        }
        layout.size + len * item_size
    }

    /// The size in bytes of this array: the size of an array of `header.len()` items.
    pub fn object_size(&self) -> (r: usize)
        requires
            size_of::<T>() + align_of::<I>() - 1 + self.header.spec_len() * size_of::<I>()
                <= usize::MAX,
        ensures
            r == round_up(size_of::<T>(), align_of::<I>()) + self.header.spec_len() * size_of::<I>(),
    {
        Self::flexible_size(self.header.len())
    }
}

} // verus!
