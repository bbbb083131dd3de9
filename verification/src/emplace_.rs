//! How a value is made right where it is going to stay.

use vstd::prelude::*;

use core::marker::PhantomData;

use crate::mem_::Layout;

verus! {

/// Makes a value once its place is there.
pub trait TrEmplace: Sized {
    type Target;

    /// Whether the value can be made.
    open spec fn ready(&self) -> bool {
        true
    }

    /// Which values may come of it.
    open spec fn places(&self, data: Self::Target) -> bool {
        true
    }

    /// The layout of the place that the value takes.
    open spec fn layout(&self) -> Layout {
        Layout::for_type::<Self::Target>()
    }

    /// What is noted of a value whose size its type does not tell.
    open spec fn meta(&self) -> usize {
        0
    }

    fn layout_(&self) -> (r: Layout)
        ensures
            r == self.layout(),
            r.wf(),
    ;

    fn meta_(&self) -> (r: usize)
        ensures
            r == self.meta(),
    ;

    fn emplace(self) -> (r: Self::Target)
        requires
            self.ready(),
        ensures
            self.places(r),
    ;
}

/// Makes the value that a function returns.
pub struct IntoEmplace<F, T> {
    pub factory_: F,
    pub target_: PhantomData<T>,
}

impl<F: FnOnce() -> T, T> IntoEmplace<F, T> {
    /// Makes the value that `factory` returns.
    pub open spec fn calling(factory: F) -> Self {
        IntoEmplace { factory_: factory, target_: PhantomData }
    }

    pub fn new(factory: F) -> (r: Self)
        ensures
            r == Self::calling(factory),
    {
        IntoEmplace { factory_: factory, target_: PhantomData }
    }
}

impl<F: FnOnce() -> T, T> TrEmplace for IntoEmplace<F, T> {
    type Target = T;

    open spec fn ready(&self) -> bool {
        call_requires(self.factory_, ())
    }

    open spec fn places(&self, data: T) -> bool {
        call_ensures(self.factory_, (), data)
    }

    open spec fn layout(&self) -> Layout {
        Layout::for_type::<T>()
    }

    open spec fn meta(&self) -> usize {
        0
    }

    fn layout_(&self) -> (r: Layout) {
        Layout::of::<T>()
    }

    fn meta_(&self) -> (r: usize) {
        0
    }

    fn emplace(self) -> (r: T) {
        let factory = self.factory_;
        factory()
    }
}

/// Puts a value in place that is there already.
pub struct Ready<T> {
    pub data_: T,
}

impl<T> TrEmplace for Ready<T> {
    type Target = T;

    open spec fn ready(&self) -> bool {
        true
    }

    open spec fn places(&self, data: T) -> bool {
        data == self.data_
    }

    open spec fn layout(&self) -> Layout {
        Layout::for_type::<T>()
    }

    open spec fn meta(&self) -> usize {
        0
    }

    fn layout_(&self) -> (r: Layout) {
        Layout::of::<T>()
    }

    fn meta_(&self) -> (r: usize) {
        0
    }

    fn emplace(self) -> (r: T) {
        self.data_
    }
}

/// A value that is there already, or that a function returns, takes the place of its type, and
/// nothing is noted of its length; what is placed is that value, or one that the function may
/// return.
pub proof fn law_what_is_placed<F: FnOnce() -> T, T>(ready: Ready<T>, made: IntoEmplace<F, T>, data: T)
    ensures
        ready.layout().size == vstd::layout::size_of::<T>() as usize,
        ready.layout().align == vstd::layout::align_of::<T>() as usize,
        made.layout() == ready.layout(),
        ready.meta() == 0 && made.meta() == 0,
        ready.places(data) <==> data == ready.data_,
        made.places(data) <==> call_ensures(made.factory_, (), data),
        ready.ready(),
        made.ready() <==> call_requires(made.factory_, ()),
{
}

} // verus!
