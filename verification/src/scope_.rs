//! Scopes: regions of a tree into which objects are put, and which go as a whole.

use vstd::prelude::*;

use core::marker::PhantomData;

use typeid::ConstTypeId;

use crate::abs_::{TrCarry, TrPreDrop, TrScope, TrShareMarker};
use crate::emplace_::{Ready, TrEmplace};
use crate::mem_::{Layout, TrAllocator};
use crate::ptr_::SlotPtr;
use crate::scope_tree_::handle_laws_::law_put_then_read;
use crate::scope_tree_::laws_::{law_reclaim, law_scopes_with_handles_stay};
use crate::scope_tree_::node_::{node_layout, NodeId};
use crate::scope_tree_::order_::{
    below, closed_above, law_closed_above, lemma_parent_is_older,
};
use crate::scope_tree_::promises_::{law_making_a_tree, none_forgotten, only_below_closed};
use crate::scope_tree_::put_::{put_as, put_done};
use crate::scope_tree_::root_::{fresh_root, makes_root, InitRefusal, RootPlace, RootScope};
use crate::scope_tree_::state_::{root_layout, RootView};
use crate::scope_tree_::step_::next_destroyed;
use crate::scope_tree_::teardown_::{freed_pools, lemma_flushed, released};
use crate::scope_tree_::tree_::ScopeTree;
use crate::share_marker_::Local;
use crate::smart_pointer_::Retain;
use crate::weak_::chain_::in_use;
use crate::weak_::chunk_::DataState;
use crate::weak_::pool_::{budget_count, pool_layout, DEFAULT_PAGE_SIZE};
use crate::weak_::pre_drop_::{type_key, PreDropRecord};

verus! {

/// The allocator after a root was made, with a pool of weak slots within this budget.
pub open spec fn after_root<A: TrAllocator>(allocator: A, page_size: usize) -> A {
    allocator.asked(root_layout()).asked(pool_layout(budget_count(page_size as int)))
}

/// Whether the tree was just made from the allocator, with a pool of weak slots within this
/// budget.
pub open spec fn is_new_tree<V, H: Copy, A: TrAllocator>(
    s: RootView<V, H>,
    allocator: A,
    page_size: usize,
    strict: bool,
) -> bool {
    let count = budget_count(page_size as int);
    &&& allocator.grants(root_layout()) == Some(s.addr)
    &&& allocator.asked(root_layout()).grants(pool_layout(count)) == Some(s.pools[0].addr)
    &&& s == fresh_root::<V, H>(
        s.tree.root,
        s.addr,
        s.pools[0].addr,
        count,
        allocator.blocks(),
        strict,
    )
}

/// Whether the tree was just made from the allocator, with a pool of the default size, and then
/// `c` was opened below its root.
pub open spec fn is_first_scope<V, H: Copy, A: TrAllocator>(
    s: RootView<V, H>,
    c: NodeId,
    allocator: A,
    strict: bool,
) -> bool {
    let addr = after_root(allocator, DEFAULT_PAGE_SIZE).grants(node_layout());
    &&& addr is Some
    &&& exists|made: RootView<V, H>|
        is_new_tree(made, allocator, DEFAULT_PAGE_SIZE, strict)
            && !made.tree.nodes.contains_key(c) && s == #[trigger] made.with_child(
            made.tree.root,
            c,
            addr->0,
        )
}

/// Why a scope refused something.
#[derive(Clone, Copy, Debug, PartialEq, Eq, PartialOrd, Ord, Structural)]
pub enum ScopeError {
    /// There is no memory for it. This is rare, but possible.
    MallocFailed,
    /// The tree was not set up as it should be.
    MalformedInit,
    /// The scope, or one above it, is closed, and the tree is strict about that.
    ClosedScope,
}

/// The handle of a scope, a token for one below the root of a tree.
///
/// The memory of a scope goes only when its handle is gone, no object in it is alive, and there
/// is no scope below it.
pub struct Scope<M: TrShareMarker = Local> {
    node_: NodeId,
    mode_: PhantomData<M>,
}

/// Whether `n` is a scope of the tree that somebody has the handle of.
pub open spec fn handled<V, H: Copy>(s: RootView<V, H>, n: NodeId) -> bool {
    s.tree.nodes.contains_key(n) && !s.tree.nodes[n].dropped && n != s.tree.root
}

/// Whether nothing may be put into the scope `n`: it, or one above it, is closed, and the tree is
/// strict about that.
pub open spec fn shut<V, H: Copy>(s: RootView<V, H>, n: NodeId) -> bool {
    s.strict && closed_above(s.tree.nodes, n)
}

/// A scope is shut exactly where its tree is strict and it is closed, or below one that is. In a
/// tree that is not strict none is shut.
pub proof fn law_shut<V, H: Copy>(s: RootView<V, H>, n: NodeId)
    requires
        s.tree.nodes.contains_key(n),
    ensures
        shut(s, n) <==> s.strict && exists|a: NodeId|
            s.tree.nodes.contains_key(a) && s.tree.nodes[a].closed && #[trigger] below(
                s.tree.nodes,
                a,
                n,
            ),
{
    law_closed_above(s.tree.nodes, n);
}

/// Which answer a caller gets who puts an object: a shut scope refuses it and changes nothing;
/// any other takes it where there is room, and answers that memory ran out otherwise.
pub proof fn law_answers_of_a_put<V: TrCarry<E::Target>, H: Copy, A: TrAllocator, E: TrEmplace>(
    before: RootScope<V, H, A>,
    after: RootScope<V, H, A>,
    n: NodeId,
    emplace: E,
    pre_drop: Option<H>,
    r: Result<SlotPtr, ScopeError>,
)
    requires
        before.wf(),
        before@.tree.nodes.contains_key(n),
        emplaced(before, after, n, emplace, pre_drop, r),
    ensures
        ({
            let closed = before@.strict && exists|a: NodeId|
                before@.tree.nodes.contains_key(a) && before@.tree.nodes[a].closed
                    && #[trigger] below(before@.tree.nodes, a, n);
            &&& r == Err::<SlotPtr, _>(ScopeError::ClosedScope) <==> closed
            &&& closed ==> after@ == before@ && after.allocator_ == before.allocator_
            &&& !closed ==> (r is Ok <==> before.grants_room(n, emplace.layout()))
            &&& !closed && r is Err ==> r->Err_0 == ScopeError::MallocFailed
        }),
{
    law_shut(before@, n);
}

/// The record of an object with this hook of its own.
pub open spec fn object_level<H: Copy>(pre_drop: Option<H>) -> Option<PreDropRecord<H>> {
    match pre_drop {
        Some(hook) => Some(PreDropRecord::hooked(hook)),
        None => None,
    }
}

/// What putting an object into the scope `n` comes to. A closed scope refuses it where the tree
/// is strict about that; otherwise only memory can run out.
pub open spec fn emplaced<V: TrCarry<E::Target>, H: Copy, A: TrAllocator, E: TrEmplace>(
    before: RootScope<V, H, A>,
    after: RootScope<V, H, A>,
    n: NodeId,
    emplace: E,
    pre_drop: Option<H>,
    r: Result<SlotPtr, ScopeError>,
) -> bool {
    if shut(before@, n) {
        &&& r == Err::<SlotPtr, _>(ScopeError::ClosedScope)
        &&& after@ == before@
        &&& after.allocator_ == before.allocator_
    } else {
        &&& r is Err ==> r->Err_0 == ScopeError::MallocFailed
        &&& put_done(
            before@.reclaimed(),
            before@.reclaimed_memory(before.allocator_),
            after@,
            after.allocator_,
            n,
            emplace,
            object_level(pre_drop),
            match r {
                Ok(p) => Some(p),
                Err(_) => None,
            },
        )
    }
}

/// The hook that holds for an object that is put: its own, else the one that its type was given.
pub open spec fn hook_for<V, H: Copy>(
    s: RootView<V, H>,
    pre_drop: Option<H>,
    key: ConstTypeId,
) -> Option<H> {
    match pre_drop {
        Some(hook) => Some(hook),
        None => match s.hook_of(key) {
            Some(record) => record.hook_,
            None => None,
        },
    }
}

/// Whether the object whose slot is at `p` was just put into its scope, with this data and this
/// hook: it has one weak handle, and nobody holds it strongly.
pub open spec fn stored<V: TrCarry<T>, H: Copy, T>(
    s: RootView<V, H>,
    p: SlotPtr,
    data: T,
    hook: Option<H>,
) -> bool {
    &&& s.slot(p).state == DataState::Created
    &&& s.slot(p).count == 1
    &&& s.cell_of(p).data == Some(V::carrying(data))
    &&& V::carrying(data).carried() == Some(data)
    &&& s.cell_of(p).record.hook_ == hook
}

/// What was put has a value, whoever made it: putting that value itself comes to the same.
pub proof fn law_put_has_value<V: TrCarry<T>, H: Copy, A: TrAllocator, T, E: TrEmplace<Target = T>>(
    before: RootScope<V, H, A>,
    after: RootScope<V, H, A>,
    n: NodeId,
    emplace: E,
    pre_drop: Option<H>,
    p: SlotPtr,
)
    requires
        before.wf(),
        after.wf(),
        handled(before@, n),
        emplaced(before, after, n, emplace, pre_drop, Ok(p)),
        emplace.layout() == Layout::for_type::<T>(),
        emplace.meta() == 0,
    ensures
        exists|data: T|
            {
                &&& emplace.places(data)
                &&& #[trigger] stored::<V, H, T>(
                    after@,
                    p,
                    data,
                    hook_for(before@, pre_drop, type_key::<T>()),
                )
                &&& emplaced(before, after, n, Ready { data_: data }, pre_drop, Ok(p))
            },
{
    let ready = before@.reclaimed();
    let memory = before@.reclaimed_memory(before.allocator_);
    let record = object_level(pre_drop);
    law_reclaim(before@);
    assert(ready.tree.nodes.contains_key(n));
    let (k, data) = choose|k: usize, data: T| #[trigger]
        put_as(ready, memory, after@, n, emplace, record, k, data);
    let same = Ready { data_: data };
    assert(put_as(ready, memory, after@, n, same, record, k, data));
    law_put_then_read(ready, memory, after@, after.allocator_, n, same, record, p);
    assert(after@.cell_of(p).data == Some(V::carrying(data)));
    assert(stored::<V, H, T>(after@, p, data, hook_for(before@, pre_drop, type_key::<T>())));
    assert(emplaced(before, after, n, same, pre_drop, Ok(p)));
}

/// The slot of a handle, where there is one.
pub open spec fn slot_result<T>(r: Result<Retain<T>, ScopeError>) -> Result<SlotPtr, ScopeError> {
    match r {
        Ok(retain) => Ok(retain.slot()),
        Err(e) => Err(e),
    }
}

impl Scope<Local> {
    /// Opens a scope below the root of a process, which is made first where there is none.
    pub fn new_local<V, H: Copy, A: TrAllocator>(
        place: &mut RootPlace<V, H, A>,
        allocator: A,
        strict: bool,
    ) -> (r: Result<Self, ScopeError>)
        requires
            !(*old(place) is Acquired),
            *old(place) is Ready ==> old(place)->Ready_0.wf(),
            allocator.wf(),
        ensures
            *final(place) is Ready ==> final(place)->Ready_0.wf(),
            *old(place) is Ready ==> {
                let before = old(place)->Ready_0@;
                let after = final(place)->Ready_0@;
                let memory = old(place)->Ready_0.allocator_;
                let addr = memory.grants(node_layout());
                &&& *final(place) is Ready
                &&& final(place)->Ready_0.allocator_ == memory.asked(node_layout())
                &&& match r {
                    Ok(scope) => {
                        &&& addr is Some
                        &&& !before.tree.nodes.contains_key(scope.node())
                        &&& handled(after, scope.node())
                        &&& after == before.with_child(before.tree.root, scope.node(), addr->0)
                    },
                    Err(e) => {
                        &&& e == ScopeError::MallocFailed
                        &&& addr is None
                        &&& after == before
                    },
                }
            },
            *old(place) is Empty ==> match r {
                Ok(scope) => {
                    let after = final(place)->Ready_0@;
                    &&& *final(place) is Ready
                    &&& handled(after, scope.node())
                    &&& is_first_scope(after, scope.node(), allocator, strict)
                },
                Err(e) => {
                    let after = final(place)->Ready_0@;
                    &&& e == ScopeError::MallocFailed
                    &&& if makes_root(allocator, DEFAULT_PAGE_SIZE) {
                        &&& *final(place) is Ready
                        &&& is_new_tree(after, allocator, DEFAULT_PAGE_SIZE, strict)
                    } else {
                        *final(place) is Empty
                    }
                },
            },
            *old(place) is Empty ==> (r is Ok <==> makes_root(allocator, DEFAULT_PAGE_SIZE)
                && after_root(allocator, DEFAULT_PAGE_SIZE).grants(node_layout()) is Some),
            *old(place) is Empty && makes_root(allocator, DEFAULT_PAGE_SIZE)
                ==> final(place)->Ready_0.allocator_ == after_root(
                allocator,
                DEFAULT_PAGE_SIZE,
            ).asked(node_layout()),
    {
        match RootScope::try_init_default_root_scope_(place, DEFAULT_PAGE_SIZE, allocator, strict) {
            Err(InitRefusal::MallocFailed) => {
                return Err(ScopeError::MallocFailed);
            },
            _ => {},
        }
        match place {
            RootPlace::Ready(root) => {
                let ghost made = root@;
                let ghost addr = root.allocator_.grants(node_layout())->0;
                let at: NodeId = root.root_inner_();
                match root.new_child_(at) {
                    Ok(c) => {
                        assert(root@ == made.with_child(at, c, addr));
                        Ok(Scope { node_: c, mode_: PhantomData })
                    },
                    Err(_) => Err(ScopeError::MallocFailed),
                }
            },
            _ => Err(ScopeError::MalformedInit),
        }
    }
}

impl<M: TrShareMarker> Scope<M> {
    /// The scope.
    pub closed spec fn node(&self) -> NodeId {
        self.node_
    }

    /// The key of the scope.
    pub(crate) fn id_(&self) -> (r: NodeId)
        ensures
            r == self.node(),
    {
        self.node_
    }

    /// Makes the root of a process, unless there is one already; says whether it did.
    pub fn try_config_root<V, H: Copy, A: TrAllocator>(
        place: &mut RootPlace<V, H, A>,
        page_size: usize,
        allocator: A,
        strict: bool,
    ) -> (r: bool)
        requires
            !(*old(place) is Acquired),
            allocator.wf(),
        ensures
            r <==> *old(place) is Empty && makes_root(allocator, page_size),
            *old(place) is Ready ==> *final(place) == *old(place),
            *old(place) is Empty && !r ==> *final(place) is Empty,
            r ==> {
                let root = final(place)->Ready_0;
                &&& *final(place) is Ready
                &&& root.wf()
                &&& is_new_tree(root@, allocator, page_size, strict)
                &&& root.allocator_ == after_root(allocator, page_size)
            },
    {
        RootScope::try_init_default_root_scope_(place, page_size, allocator, strict).is_ok()
    }

    /// Opens a scope below `parent`.
    pub fn new_from_parent<V, H: Copy, A: TrAllocator>(
        parent: &Scope<M>,
        root: &mut RootScope<V, H, A>,
    ) -> (r: Result<Self, ScopeError>)
        requires
            old(root).wf(),
            handled(old(root)@, parent.node()),
        ensures
            final(root).wf(),
            handled(final(root)@, parent.node()),
            ({
                let addr = old(root).allocator_.grants(node_layout());
                match r {
                    Ok(scope) => {
                        &&& addr is Some
                        &&& !old(root)@.tree.nodes.contains_key(scope.node())
                        &&& handled(final(root)@, scope.node())
                        &&& final(root)@ == old(root)@.with_child(
                            parent.node(),
                            scope.node(),
                            addr->0,
                        )
                    },
                    Err(e) => {
                        &&& e == ScopeError::MallocFailed
                        &&& addr is None
                        &&& final(root)@ == old(root)@
                    },
                }
            }),
            final(root).allocator_ == old(root).allocator_.asked(node_layout()),
    {
        match root.new_child_(parent.node_) {
            Ok(c) => Ok(Scope { node_: c, mode_: PhantomData }),
            Err(_) => Err(ScopeError::MallocFailed),
        }
    }

    /// Opens a scope below this one, with pools and a life of its own.
    pub fn child_scope<V, H: Copy, A: TrAllocator>(&self, root: &mut RootScope<V, H, A>) -> (r: Result<
        Self,
        ScopeError,
    >)
        requires
            old(root).wf(),
            handled(old(root)@, self.node()),
        ensures
            final(root).wf(),
            handled(final(root)@, self.node()),
            ({
                let addr = old(root).allocator_.grants(node_layout());
                match r {
                    Ok(scope) => {
                        &&& addr is Some
                        &&& !old(root)@.tree.nodes.contains_key(scope.node())
                        &&& handled(final(root)@, scope.node())
                        &&& final(root)@ == old(root)@.with_child(
                            self.node(),
                            scope.node(),
                            addr->0,
                        )
                    },
                    Err(e) => {
                        &&& e == ScopeError::MallocFailed
                        &&& addr is None
                        &&& final(root)@ == old(root)@
                    },
                }
            }),
            final(root).allocator_ == old(root).allocator_.asked(node_layout()),
    {
        Self::new_from_parent(self, root)
    }

    /// Empties the scope: destroys everything in it that is alive, whoever points at it, and
    /// hands it out after the hooks have run. Cycles and handles that were never released do
    /// not stand in the way. The scope can be used further.
    pub fn collect<V, H: Copy + TrPreDrop<V>, A: TrAllocator>(&mut self, root: &mut RootScope<V, H, A>)
        -> (r: Vec<V>)
        requires
            old(root).wf(),
            handled(old(root)@, old(self).node()),
        ensures
            *final(self) == *old(self),
            final(root).wf(),
            handled(final(root)@, final(self).node()),
            final(root)@ == old(root)@.flushed(old(self).node()).reclaimed(),
            none_forgotten(final(root)@),
            final(root).allocator_ == old(root)@.flushed(old(self).node()).reclaimed_memory(
                freed_pools(old(root).allocator_, old(root)@.scope_pools(old(self).node())),
            ),
            released(
                old(root)@.victims(old(self).node()) + old(root)@.flushed(
                    old(self).node(),
                ).reclaim_victims(),
                r@,
            ),
    {
        proof {
            law_scopes_with_handles_stay(root@, self.node_, self.node_);
            lemma_flushed(root@, self.node_);
            law_reclaim(root@.flushed(self.node_));
        }
        root.collect_(self.node_)
    }

    /// Destroys one object of the scope, whoever points at it, and hands it out after its hook has
    /// run; `None` where nothing is left to destroy.
    ///
    /// Called again and again it destroys what [`collect`](Scope::collect) would, in the same
    /// order, but lets every value be dropped before the hook of the next one runs, and before
    /// any slot or memory is given back. That is left to `collect`.
    pub fn collect_next<V, H: Copy + TrPreDrop<V>, A: TrAllocator>(
        &mut self,
        root: &mut RootScope<V, H, A>,
    ) -> (r: Option<V>)
        requires
            old(root).wf(),
            handled(old(root)@, old(self).node()),
        ensures
            *final(self) == *old(self),
            final(root).wf(),
            handled(final(root)@, final(self).node()),
            final(root).allocator_ == old(root).allocator_,
            next_destroyed(old(root)@, final(root)@, old(self).node(), r),
    {
        root.destroy_next_(self.node_)
    }

    /// Whether the scope may be used: always, unless it or one above it is closed and the tree is
    /// strict.
    pub(crate) fn ensure_open_<V, H: Copy, A: TrAllocator>(&self, root: &RootScope<V, H, A>) -> (r: Result<
        (),
        ScopeError,
    >)
        requires
            root.wf(),
            handled(root@, self.node()),
        ensures
            r == (if shut(root@, self.node()) {
                Err::<(), _>(ScopeError::ClosedScope)
            } else {
                Ok(())
            }),
    {
        broadcast use ScopeTree::lemma_view_wf;

        if !root.strict_ {
            return Ok(());
        }
        let mut at: NodeId = self.node_;
        loop
            invariant
                root.wf(),
                root@.strict,
                root@.tree.nodes.contains_key(at),
                closed_above(root@.tree.nodes, self.node()) == closed_above(root@.tree.nodes, at),
            decreases root@.tree.nodes[at].stamp,
        {
            let node = root.tree_.node(at);
            if node.is_closed_() {
                return Err(ScopeError::ClosedScope);
            }
            proof {
                lemma_parent_is_older(root@.tree.nodes, root@.tree.clock, at);
            }
            match node.node_base_.parent() {
                None => {
                    return Ok(());
                },
                Some(p) => {
                    at = p;
                },
            }
        }
    }

    /// Lets go of the handle: the scope and all below it are closed and wait until nothing holds
    /// them, with what is in them. Then those that nothing holds are reclaimed; what was left
    /// in them is handed out after the hooks have run.
    pub fn release<V, H: Copy + TrPreDrop<V>, A: TrAllocator>(self, root: &mut RootScope<V, H, A>)
        -> (r: Vec<V>)
        requires
            old(root).wf(),
            handled(old(root)@, self.node()),
        ensures
            final(root).wf(),
            final(root)@ == old(root)@.let_go(self.node()).reclaimed(),
            none_forgotten(final(root)@),
            only_below_closed(old(root)@, final(root)@, self.node()),
            forall|m: NodeId|
                final(root)@.tree.nodes.contains_key(m) && !below(
                    old(root)@.tree.nodes,
                    self.node(),
                    m,
                ) ==> #[trigger] shut(final(root)@, m) == shut(old(root)@, m),
            final(root).allocator_ == old(root)@.let_go(self.node()).reclaimed_memory(
                old(root).allocator_,
            ),
            released(old(root)@.let_go(self.node()).reclaim_victims(), r@),
    {
        root.drop_scope_(self.node_)
    }
}

/// Two handles are equal where they are handles of the same scope.
impl<M: TrShareMarker> PartialEq for Scope<M> {
    fn eq(&self, other: &Self) -> (r: bool) {
        self.node_ == other.node_
    }
}

impl<M: TrShareMarker> vstd::std_specs::cmp::PartialEqSpecImpl for Scope<M> {
    open spec fn obeys_eq_spec() -> bool {
        true
    }

    open spec fn eq_spec(&self, other: &Self) -> bool {
        self.node() == other.node()
    }
}

impl<M: TrShareMarker> Eq for Scope<M> {

}

impl<V, H: Copy + TrPreDrop<V>, A: TrAllocator, M: TrShareMarker> TrScope<V, H, A> for Scope<M> {
    open spec fn scope(&self) -> NodeId {
        self.node()
    }

    fn try_emplace_with<E: TrEmplace>(
        &mut self,
        root: &mut RootScope<V, H, A>,
        emplace: E,
        pre_drop: Option<H>,
    ) -> (r: Result<Retain<E::Target>, ScopeError>) where V: TrCarry<E::Target> {
        match self.ensure_open_(root) {
            Err(e) => {
                return Err(e);
            },
            Ok(_) => {},
        }
        let record = match pre_drop {
            Some(hook) => Some(PreDropRecord::of_with(hook)),
            None => None,
        };
        let ghost before = root@;
        let ghost memory = before.reclaimed_memory(root.allocator_);
        proof {
            law_reclaim(before);
            assert(before.reclaimed().tree.nodes.contains_key(self.node_));
        }
        match root.put_(self.node_, emplace, record) {
            Ok(p) => {
                proof {
                    law_put_then_read(
                        before.reclaimed(),
                        memory,
                        root@,
                        root.allocator_,
                        self.node_,
                        emplace,
                        record,
                        p,
                    );
                    let data = choose|data: E::Target|
                        emplace.places(data) && root@.cell_of(p).data == Some(
                            #[trigger] V::carrying(data),
                        ) && V::carrying(data).carried() == Some(data);
                    assert(stored(
                        root@,
                        p,
                        data,
                        hook_for(before, pre_drop, type_key::<E::Target>()),
                    ));
                }
                Ok(Retain::new(p))
            },
            Err(_) => Err(ScopeError::MallocFailed),
        }
    }

    fn set_pre_drop<T: ?Sized>(&mut self, root: &mut RootScope<V, H, A>, pre_drop: H) -> (r: Result<
        (),
        ScopeError,
    >) {
        root.set_pre_drop_::<T>(pre_drop);
        Ok(())
    }
}

/// The hook that runs for an object is its own, else the one that its type was given in this tree.
pub proof fn law_hook_for<V, H: Copy>(s: RootView<V, H>, pre_drop: Option<H>, key: ConstTypeId)
    ensures
        pre_drop is Some ==> hook_for(s, pre_drop, key) == pre_drop,
        pre_drop is None && s.hooks.contains_key(key) ==> hook_for(s, pre_drop, key)
            == s.hooks[key].hook_,
        pre_drop is None && !s.hooks.contains_key(key) ==> hook_for(s, pre_drop, key) is None,
        object_level(pre_drop) is Some <==> pre_drop is Some,
        pre_drop is Some ==> object_level(pre_drop)->0.hook_ == pre_drop,
{
}

/// A root is made wherever its pool can have a slot and the allocator grants the two blocks.
pub proof fn law_when_a_root_is_made<A: TrAllocator>(allocator: A, page_size: usize)
    ensures
        makes_root(allocator, page_size) <==> page_size >= 96 && allocator.grants(
            root_layout(),
        ) is Some && allocator.asked(root_layout()).grants(
            pool_layout(budget_count(page_size as int)),
        ) is Some,
        after_root(allocator, page_size) == allocator.asked(root_layout()).asked(
            pool_layout(budget_count(page_size as int)),
        ),
        root_layout().align == 8,
{
}

/// The first scope of a process: the tree was just made, with an open root, and the scope is the
/// only one below it, open and empty; all weak slots are free.
pub proof fn law_first_scope<V, H: Copy, A: TrAllocator>(
    s: RootView<V, H>,
    c: NodeId,
    allocator: A,
    strict: bool,
)
    requires
        is_first_scope(s, c, allocator, strict),
    ensures
        s.strict == strict && s.tree.root != c && s.tree.pending.len() == 0,
        forall|m: NodeId| #[trigger]
            s.tree.nodes.contains_key(m) <==> m == c || m == s.tree.root,
        !s.tree.nodes[c].closed && !s.tree.nodes[c].dropped,
        !s.tree.nodes[s.tree.root].closed && s.tree.nodes[s.tree.root].children == seq![c],
        s.tree.nodes[c].parent == Some(s.tree.root) && s.tree.nodes[c].children.len() == 0,
        s.live(c).len() == 0 && s.objects(c).len() == 0 && s.scope_pools(c).len() == 0,
        forall|p: SlotPtr| !#[trigger] in_use(s.pools, p),
        forall|k: usize| !#[trigger] s.cells.contains_key(k),
        forall|t: ConstTypeId| !#[trigger] s.hooks.contains_key(t),
        allocator.grants(root_layout()) == Some(s.addr),
{
    let addr = after_root(allocator, DEFAULT_PAGE_SIZE).grants(node_layout())->0;
    let made = choose|made: RootView<V, H>|
        is_new_tree(made, allocator, DEFAULT_PAGE_SIZE, strict) && !made.tree.nodes.contains_key(c)
            && s == #[trigger] made.with_child(made.tree.root, c, addr);
    law_making_a_tree::<V, H>(
        made.tree.root,
        made.addr,
        made.pools[0].addr,
        budget_count(DEFAULT_PAGE_SIZE as int),
        allocator.blocks(),
        strict,
    );
    assert(made.tree.nodes.contains_key(made.tree.root));
    assert(s.tree.nodes[s.tree.root].children =~= seq![c]);
}

} // verus!
