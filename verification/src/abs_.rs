//! The traits that callers of the library implement or bound by.

use vstd::prelude::*;

use crate::emplace_::{IntoEmplace, Ready, TrEmplace};
use crate::mem_::{Layout, TrAllocator};
use crate::scope_::{
    emplaced, handled, hook_for, law_put_has_value, shut, slot_result, stored, ScopeError,
};
use crate::scope_str_::{EmplaceScopeStr, ScopeStr};
use crate::scope_tree_::node_::NodeId;
use crate::scope_tree_::promises_::none_forgotten;
use crate::scope_tree_::root_::RootScope;
use crate::scope_tree_::state_::RootView;
use crate::smart_pointer_::Retain;
use crate::weak_::pre_drop_::{type_key, PreDropRecord};

verus! {

/// A last look at a value before it is destroyed, whether by its handles or by its scope.
pub trait TrPreDrop<T>: Sized {
    /// Which changes of the value this hook may make: any, unless the hook says otherwise.
    open spec fn last_access(&self, before: T, after: T) -> bool {
        true
    }

    fn pre_drop(&self, data: &mut T)
        ensures
            self.last_access(*old(data), *final(data)),
    ;
}

/// The hook that leaves the value alone.
impl<T> TrPreDrop<T> for () {
    open spec fn last_access(&self, before: T, after: T) -> bool {
        after == before
    }

    fn pre_drop(&self, data: &mut T) {
    }
}

/// A type whose values can carry a `T`: what a tree of scopes stores, where it holds objects of
/// several types.
pub trait TrCarry<T>: Sized {
    /// The value that carries `data`.
    open spec fn carrying(data: T) -> Self {
        arbitrary()
    }

    /// What the value carries, if that is a `T`.
    open spec fn carried(&self) -> Option<T> {
        arbitrary()
    }

    fn carry(data: T) -> (r: Self)
        ensures
            r == Self::carrying(data),
            r.carried() == Some(data),
    ;

    fn get(&self) -> (r: Option<&T>)
        ensures
            match r {
                Some(data) => self.carried() == Some(*data),
                None => self.carried() is None,
            },
    ;

    fn get_mut(&mut self) -> (r: Option<&mut T>)
        ensures
            match r {
                Some(data) => {
                    &&& old(self).carried() == Some(*data)
                    &&& *final(self) == Self::carrying(*final(data))
                    &&& final(self).carried() == Some(*final(data))
                },
                None => old(self).carried() is None && *final(self) == *old(self),
            },
    ;
}

/// Carries values of one type, for a tree that holds no others.
#[derive(Clone, Copy, Debug, PartialEq, Eq)]
pub struct Plain<T>(pub T);

impl<T> TrCarry<T> for Plain<T> {
    open spec fn carrying(data: T) -> Self {
        Plain(data)
    }

    open spec fn carried(&self) -> Option<T> {
        Some(self.0)
    }

    fn carry(data: T) -> (r: Self) {
        Plain(data)
    }

    fn get(&self) -> (r: Option<&T>) {
        Some(&self.0)
    }

    fn get_mut(&mut self) -> (r: Option<&mut T>) {
        Some(&mut self.0)
    }
}

/// What a scope does for its callers.
pub trait TrScope<V, H: Copy + TrPreDrop<V>, A: TrAllocator>: Sized {
    /// The scope.
    open spec fn scope(&self) -> NodeId {
        arbitrary()
    }

    /// Puts an object into the scope, made right where it is going to stay, and hands out a weak
    /// handle. The hook `pre_drop`, if there is one, takes the place of the one that the
    /// object's type was given.
    fn try_emplace_with<E: TrEmplace>(
        &mut self,
        root: &mut RootScope<V, H, A>,
        emplace: E,
        pre_drop: Option<H>,
    ) -> (r: Result<Retain<E::Target>, ScopeError>) where V: TrCarry<E::Target>
        requires
            old(root).wf(),
            handled(old(root)@, old(self).scope()),
            emplace.ready(),
        ensures
            final(self).scope() == old(self).scope(),
            final(root).wf(),
            handled(final(root)@, final(self).scope()),
            r matches Ok(retain) ==> exists|data: E::Target|
                emplace.places(data) && #[trigger] stored::<V, H, E::Target>(
                    final(root)@,
                    retain.slot(),
                    data,
                    hook_for(old(root)@, pre_drop, type_key::<E::Target>()),
                ),
            emplaced(
                *old(root),
                *final(root),
                old(self).scope(),
                emplace,
                pre_drop,
                slot_result(r),
            ),
            r is Ok <==> !shut(old(root)@, old(self).scope()) && old(root).grants_room(
                old(self).scope(),
                emplace.layout(),
            ),
            shut(old(root)@, old(self).scope()) || none_forgotten(final(root)@),
    ;

    /// Gives the type `T` a hook, in the whole tree, in place of one that it had. Objects that
    /// are there already keep theirs.
    fn set_pre_drop<T: ?Sized>(&mut self, root: &mut RootScope<V, H, A>, pre_drop: H) -> (r: Result<
        (),
        ScopeError,
    >)
        requires
            old(root).wf(),
            handled(old(root)@, old(self).scope()),
        ensures
            final(self).scope() == old(self).scope(),
            final(root).wf(),
            handled(final(root)@, final(self).scope()),
            r is Ok,
            final(root)@ == (RootView {
                hooks: old(root)@.hooks.insert(type_key::<T>(), PreDropRecord::hooked(pre_drop)),
                ..old(root)@
            }),
            final(root).allocator_ == old(root).allocator_,
    ;
}

/// The usual ways of putting objects into a scope.
pub trait TrScopeExt<V, H: Copy + TrPreDrop<V>, A: TrAllocator>: TrScope<V, H, A> {
    /// Puts what `factory` returns into the scope. The function is called once there is a place
    /// for the value.
    fn try_put<F: FnOnce() -> T, T>(&mut self, root: &mut RootScope<V, H, A>, factory: F) -> (r:
        Result<Retain<T>, ScopeError>) where V: TrCarry<T>
        requires
            old(root).wf(),
            handled(old(root)@, old(self).scope()),
            call_requires(factory, ()),
        ensures
            final(self).scope() == old(self).scope(),
            final(root).wf(),
            handled(final(root)@, final(self).scope()),
            match r {
                Ok(retain) => exists|data: T|
                    {
                        &&& call_ensures(factory, (), data)
                        &&& #[trigger] stored::<V, H, T>(
                            final(root)@,
                            retain.slot(),
                            data,
                            hook_for(old(root)@, None, type_key::<T>()),
                        )
                        &&& emplaced(
                            *old(root),
                            *final(root),
                            old(self).scope(),
                            Ready { data_: data },
                            None,
                            Ok(retain.slot()),
                        )
                    },
                Err(e) => forall|data: T| #[trigger]
                    emplaced(
                        *old(root),
                        *final(root),
                        old(self).scope(),
                        Ready { data_: data },
                        None,
                        Err(e),
                    ),
            },
            r is Ok <==> !shut(old(root)@, old(self).scope()) && old(root).grants_room(
                old(self).scope(),
                Layout::for_type::<T>(),
            ),
    {
        let ghost n = self.scope();
        let ghost emplace = IntoEmplace::<F, T>::calling(factory);
        let r = self.try_emplace_with(root, IntoEmplace::new(factory), None);
        proof {
            if r is Ok {
                law_put_has_value(*old(root), *root, n, emplace, None, r->Ok_0.slot());
            }
        }
        r
    }

    /// Puts what `factory` returns into the scope, with a hook of its own.
    fn try_put_with<F: FnOnce() -> T, T>(
        &mut self,
        root: &mut RootScope<V, H, A>,
        factory: F,
        pre_drop: H,
    ) -> (r: Result<Retain<T>, ScopeError>) where V: TrCarry<T>
        requires
            old(root).wf(),
            handled(old(root)@, old(self).scope()),
            call_requires(factory, ()),
        ensures
            final(self).scope() == old(self).scope(),
            final(root).wf(),
            handled(final(root)@, final(self).scope()),
            match r {
                Ok(retain) => exists|data: T|
                    {
                        &&& call_ensures(factory, (), data)
                        &&& #[trigger] stored::<V, H, T>(
                            final(root)@,
                            retain.slot(),
                            data,
                            hook_for(old(root)@, Some(pre_drop), type_key::<T>()),
                        )
                        &&& emplaced(
                            *old(root),
                            *final(root),
                            old(self).scope(),
                            Ready { data_: data },
                            Some(pre_drop),
                            Ok(retain.slot()),
                        )
                    },
                Err(e) => forall|data: T| #[trigger]
                    emplaced(
                        *old(root),
                        *final(root),
                        old(self).scope(),
                        Ready { data_: data },
                        Some(pre_drop),
                        Err(e),
                    ),
            },
            r is Ok <==> !shut(old(root)@, old(self).scope()) && old(root).grants_room(
                old(self).scope(),
                Layout::for_type::<T>(),
            ),
    {
        let ghost n = self.scope();
        let ghost emplace = IntoEmplace::<F, T>::calling(factory);
        let r = self.try_emplace_with(root, IntoEmplace::new(factory), Some(pre_drop));
        proof {
            if r is Ok {
                law_put_has_value(*old(root), *root, n, emplace, Some(pre_drop), r->Ok_0.slot());
            }
        }
        r
    }

    /// Puts a copy of a text into the scope.
    fn try_put_str(&mut self, root: &mut RootScope<V, H, A>, text: &str) -> (r: Result<
        Retain<ScopeStr>,
        ScopeError,
    >) where V: TrCarry<ScopeStr>
        requires
            old(root).wf(),
            handled(old(root)@, old(self).scope()),
        ensures
            final(self).scope() == old(self).scope(),
            final(root).wf(),
            handled(final(root)@, final(self).scope()),
            r matches Ok(retain) ==> exists|data: ScopeStr|
                data@ == text@ && #[trigger] stored::<V, H, ScopeStr>(
                    final(root)@,
                    retain.slot(),
                    data,
                    hook_for(old(root)@, None, type_key::<ScopeStr>()),
                ),
            emplaced(
                *old(root),
                *final(root),
                old(self).scope(),
                EmplaceScopeStr { source_: text },
                None,
                slot_result(r),
            ),
            r is Ok <==> !shut(old(root)@, old(self).scope()) && old(root).grants_room(
                old(self).scope(),
                (EmplaceScopeStr { source_: text }).layout(),
            ),
    {
        self.try_emplace_with(root, EmplaceScopeStr::copying(text), None)
    }

    /// Puts an object into the scope, made right where it is going to stay.
    fn try_emplace<E: TrEmplace>(&mut self, root: &mut RootScope<V, H, A>, emplace: E) -> (r: Result<
        Retain<E::Target>,
        ScopeError,
    >) where V: TrCarry<E::Target>
        requires
            old(root).wf(),
            handled(old(root)@, old(self).scope()),
            emplace.ready(),
        ensures
            final(self).scope() == old(self).scope(),
            final(root).wf(),
            handled(final(root)@, final(self).scope()),
            r matches Ok(retain) ==> exists|data: E::Target|
                emplace.places(data) && #[trigger] stored::<V, H, E::Target>(
                    final(root)@,
                    retain.slot(),
                    data,
                    hook_for(old(root)@, None, type_key::<E::Target>()),
                ),
            emplaced(*old(root), *final(root), old(self).scope(), emplace, None, slot_result(r)),
            r is Ok <==> !shut(old(root)@, old(self).scope()) && old(root).grants_room(
                old(self).scope(),
                emplace.layout(),
            ),
    {
        self.try_emplace_with(root, emplace, None)
    }

    /// Puts `data` into the scope, where there is room for it.
    fn put<T>(&mut self, root: &mut RootScope<V, H, A>, data: T) -> (r: Retain<T>) where
        V: TrCarry<T>,

        requires
            old(root).wf(),
            handled(old(root)@, old(self).scope()),
            !shut(old(root)@, old(self).scope()),
            old(root).grants_room(old(self).scope(), Layout::for_type::<T>()),
        ensures
            none_forgotten(final(root)@),
            final(self).scope() == old(self).scope(),
            final(root).wf(),
            handled(final(root)@, final(self).scope()),
            stored::<V, H, T>(
                final(root)@,
                r.slot(),
                data,
                hook_for(old(root)@, None, type_key::<T>()),
            ),
            emplaced(
                *old(root),
                *final(root),
                old(self).scope(),
                Ready { data_: data },
                None,
                Ok(r.slot()),
            ),
    {
        match self.try_emplace_with(root, Ready { data_: data }, None) {
            Ok(retain) => retain,
            Err(_) => vstd::pervasive::unreached(),
        }
    }

    /// Puts what `factory` returns into the scope, with a hook of its own, where there is room
    /// for it.
    fn put_with<F: FnOnce() -> T, T>(
        &mut self,
        root: &mut RootScope<V, H, A>,
        factory: F,
        pre_drop: H,
    ) -> (r: Retain<T>) where V: TrCarry<T>
        requires
            old(root).wf(),
            handled(old(root)@, old(self).scope()),
            call_requires(factory, ()),
            !shut(old(root)@, old(self).scope()),
            old(root).grants_room(
                old(self).scope(),
                Layout::for_type::<T>(),
            ),
        ensures
            final(self).scope() == old(self).scope(),
            final(root).wf(),
            handled(final(root)@, final(self).scope()),
            exists|data: T|
                {
                    &&& call_ensures(factory, (), data)
                    &&& #[trigger] stored::<V, H, T>(
                        final(root)@,
                        r.slot(),
                        data,
                        hook_for(old(root)@, Some(pre_drop), type_key::<T>()),
                    )
                    &&& emplaced(
                        *old(root),
                        *final(root),
                        old(self).scope(),
                        Ready { data_: data },
                        Some(pre_drop),
                        Ok(r.slot()),
                    )
                },
    {
        match self.try_put_with(root, factory, pre_drop) {
            Ok(retain) => retain,
            Err(_) => vstd::pervasive::unreached(),
        }
    }

    /// Puts a copy of a text into the scope, where there is room for it.
    fn put_str(&mut self, root: &mut RootScope<V, H, A>, text: &str) -> (r: Retain<ScopeStr>) where
        V: TrCarry<ScopeStr>,

        requires
            old(root).wf(),
            handled(old(root)@, old(self).scope()),
            !shut(old(root)@, old(self).scope()),
            old(root).grants_room(
                old(self).scope(),
                (EmplaceScopeStr { source_: text }).layout(),
            ),
        ensures
            final(self).scope() == old(self).scope(),
            final(root).wf(),
            handled(final(root)@, final(self).scope()),
            exists|data: ScopeStr|
                data@ == text@ && #[trigger] stored::<V, H, ScopeStr>(
                    final(root)@,
                    r.slot(),
                    data,
                    hook_for(old(root)@, None, type_key::<ScopeStr>()),
                ),
            emplaced(
                *old(root),
                *final(root),
                old(self).scope(),
                EmplaceScopeStr { source_: text },
                None,
                Ok(r.slot()),
            ),
    {
        match self.try_put_str(root, text) {
            Ok(retain) => retain,
            Err(_) => vstd::pervasive::unreached(),
        }
    }
}

impl<V, H: Copy + TrPreDrop<V>, A: TrAllocator, S: TrScope<V, H, A>> TrScopeExt<V, H, A> for S {

}

/// Marks how a scope and its handles may be shared.
pub trait TrShareMarker {

}

} // verus!
