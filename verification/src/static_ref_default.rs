use vstd::prelude::*;

verus! {

/// Types with a default value that can be handed out as a `'static` reference.
pub trait StaticRefDefault: Sized + 'static {
    /// The default value.
    spec fn spec_default() -> Self;

    /// A `'static` reference to the default value.
    fn static_ref_default() -> (r: &'static Self)
        ensures
            *r == Self::spec_default(),
    ;
}

impl<T: 'static> StaticRefDefault for Option<T> {
    open spec fn spec_default() -> Self {
        None
    }

    fn static_ref_default() -> (r: &'static Self) {
        &None
    }
}

impl StaticRefDefault for char {
    open spec fn spec_default() -> Self {
        '\0'
    }

    fn static_ref_default() -> (r: &'static Self) {
        &'\0'
    }
}

} // verus!
