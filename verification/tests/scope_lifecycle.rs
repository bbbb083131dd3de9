//! Opening, closing and reclaiming scopes.

use sw_scope::abs_::{Plain, TrScopeExt};
use sw_scope::mem_::{AddressSpace, AllocError, Layout, TrAllocator};
use sw_scope::scope_::{Scope, ScopeError};
use sw_scope::scope_tree_::root_::{RootPlace, RootScope};
use sw_scope::share_marker_::Local;
use sw_scope::smart_pointer_::Owning;
use sw_scope::weak_::DataState;

/// Hands out addresses, and notes which blocks are out.
struct Ledger {
    next: usize,
    blocks: Vec<(usize, Layout)>,
}

impl TrAllocator for Ledger {
    fn allocate(&mut self, layout: Layout) -> Result<usize, AllocError> {
        let addr = self.next.div_ceil(layout.align) * layout.align;
        self.next = addr + layout.size;
        self.blocks.push((addr, layout));
        Ok(addr)
    }

    fn deallocate(&mut self, addr: usize, layout: Layout) {
        let at = self.blocks.iter().position(|b| *b == (addr, layout)).expect("a block that is out");
        self.blocks.remove(at);
    }
}

type Root<A> = RootScope<Plain<u64>, (), A>;

fn tree_of<A: TrAllocator>(memory: A, strict: bool) -> (Root<A>, Scope) {
    let mut place = RootPlace::Empty;
    let scope = Scope::new_local(&mut place, memory, strict).expect("there is memory for a scope");
    match place {
        RootPlace::Ready(root) => (root, scope),
        _ => panic!("the root was made"),
    }
}

fn new_tree(strict: bool) -> (Root<AddressSpace>, Scope) {
    tree_of(AddressSpace::new(0x1_0000, usize::MAX / 2), strict)
}

fn ledger_tree() -> (Root<Ledger>, Scope) {
    tree_of(Ledger { next: 0x1_0000, blocks: Vec::new() }, false)
}

#[test]
fn closing_scopes_keeps_live_retain_usable() {
    let (mut root, parent) = new_tree(false);
    let mut child = parent.child_scope(&mut root).expect("there is memory for a scope");
    let retain = child.put(&mut root, 42u64);

    assert!(child.release(&mut root).is_empty());
    assert!(parent.release(&mut root).is_empty());

    let owning = retain.try_owning(&mut root).ok().expect("the handle is still usable");
    assert_eq!(owning.get(&root).copied(), Some(42));
}

#[test]
fn deep_scope_chain_closes_iteratively() {
    const DEPTH: usize = 100_000;

    let (mut root, first) = new_tree(false);
    let mut handles: Vec<Scope> = Vec::new();
    let mut cur = first;
    for _ in 0..DEPTH {
        let next = cur.child_scope(&mut root).expect("there is memory for a scope");
        handles.push(cur);
        cur = next;
    }
    handles.push(cur);

    let top = handles.remove(0);
    assert!(top.release(&mut root).is_empty());
    assert!(!root.tree_.contains(1));
    assert!(root.tree_.node(2).is_closed_());
    assert!(root.tree_.node(DEPTH + 1).is_closed_());
}

#[test]
fn put_after_close_is_ignored_by_default() {
    let (mut root, parent) = new_tree(false);
    let mut child = parent.child_scope(&mut root).expect("there is memory for a scope");
    parent.release(&mut root);

    let retain = child.try_put(&mut root, || 7u64).expect("that the scope is closed is ignored");
    let owning = retain.try_owning(&mut root).ok().expect("the number can be owned");
    assert_eq!(owning.get(&root).copied(), Some(7));
}

#[test]
fn put_after_close_errors_under_strict_feature() {
    let (mut root, parent) = new_tree(true);
    let mut child = parent.child_scope(&mut root).expect("there is memory for a scope");
    assert!(child.try_put(&mut root, || 6u64).is_ok());
    parent.release(&mut root);

    let result = child.try_put(&mut root, || 7u64);
    assert!(matches!(result, Err(ScopeError::ClosedScope)));
    let owning = Owning::<u64, Local>::try_new_local(8, &mut child, &mut root);
    assert!(matches!(owning, Err(ScopeError::ClosedScope)));
}

#[test]
fn root_scope_owns_shared_pools_and_is_reachable_from_slots() {
    let (mut root, mut child) = new_tree(false);
    let addr = root.addr();
    assert!(!root.weak_pools_().pools().is_empty());

    let mut handles = Vec::new();
    for value in 0..400u64 {
        handles.push(child.try_put(&mut root, || value).expect("there is memory"));
    }
    assert_eq!(root.weak_pools_().pools().len(), 2);
    let content = &root.tree_.node(1).scope_ext_.content_;
    let (head, tail) = (content.live_head_, content.live_tail_);
    for slot in [head, tail] {
        assert_eq!(root.of_weak_(slot), Some(addr));
    }
    assert_ne!(head.pool_(), tail.pool_());
    for retain in handles {
        assert!(retain.release(&mut root).is_some());
    }
}

#[test]
fn a_root_is_made_once() {
    let mut place: RootPlace<Plain<u64>, (), AddressSpace> = RootPlace::Empty;
    let memory = || AddressSpace::new(0x1_0000, usize::MAX / 2);
    assert!(!Scope::<Local>::try_config_root(&mut place, 4096, AddressSpace::new(1, 10), false));
    assert!(Scope::<Local>::try_config_root(&mut place, 4096, memory(), false));
    assert!(!Scope::<Local>::try_config_root(&mut place, 4096, memory(), false));
    let a = Scope::new_local(&mut place, memory(), false).ok().unwrap();
    let b = Scope::new_local(&mut place, memory(), false).ok().unwrap();
    assert!(a == a);
    assert!(a != b);
    match &place {
        RootPlace::Ready(root) => assert_eq!(root.weak_pools_().pools()[0].capacity(), 84),
        _ => panic!("the root was made"),
    }
}

#[test]
fn a_root_has_as_many_slots_as_its_budget_allows() {
    let mut place: RootPlace<Plain<u64>, (), AddressSpace> = RootPlace::Empty;
    let memory = || AddressSpace::new(0x1_0000, usize::MAX / 2);
    assert!(!Scope::<Local>::try_config_root(&mut place, 8, memory(), false));
    assert!(matches!(place, RootPlace::Empty));
    assert!(Scope::<Local>::try_config_root(&mut place, 1 << 23, memory(), false));
    match &place {
        RootPlace::Ready(root) => assert_eq!(root.weak_pools_().pools()[0].capacity(), 65_535),
        _ => panic!("the root was made"),
    }
}

#[test]
fn a_closed_scope_of_a_lax_tree_takes_further_values() {
    let (mut root, parent) = new_tree(false);
    let mut child = parent.child_scope(&mut root).expect("there is memory for a scope");
    let retain = child.put(&mut root, 42u64);
    assert!(parent.release(&mut root).is_empty());
    let more = child.try_put(&mut root, || 7u64).ok().expect("the tree is lax");
    assert_eq!(retain.try_owning(&mut root).ok().unwrap().get(&root).copied(), Some(42));
    assert_eq!(more.try_owning(&mut root).ok().unwrap().get(&root).copied(), Some(7));
}

#[test]
fn a_scope_below_a_closed_one_is_shut_too() {
    let (mut root, mut parent) = new_tree(true);
    let mut child = parent.child_scope(&mut root).expect("there is memory for a scope");
    assert!(parent.try_put(&mut root, || 1u64).is_ok());
    assert!(parent.release(&mut root).is_empty());
    assert_eq!(child.try_put(&mut root, || 2u64).err(), Some(ScopeError::ClosedScope));
    let mut below = child.child_scope(&mut root).expect("there is memory for a scope");
    let mut deeper = below.child_scope(&mut root).expect("there is memory for a scope");
    assert_eq!(below.try_put(&mut root, || 3u64).err(), Some(ScopeError::ClosedScope));
    assert_eq!(deeper.try_put(&mut root, || 4u64).err(), Some(ScopeError::ClosedScope));
    assert!(matches!(
        Owning::<u64, Local>::try_new_local(5, &mut deeper, &mut root).err(),
        Some(ScopeError::ClosedScope)
    ));
}

#[test]
fn blocks_of_a_tree_share_no_byte() {
    let (mut root, mut scope) = ledger_tree();
    let mut other = Scope::new_from_parent(&scope, &mut root).ok().unwrap();
    let mut handles = Vec::new();
    for i in 0..1_000u64 {
        handles.push(scope.put(&mut root, i));
        handles.push(other.put(&mut root, i));
    }
    let blocks = &root.allocator().blocks;
    // The root, two scopes, six pools of slots, and two pools of data for each scope.
    assert_eq!(blocks.len(), 13);
    for (i, (a, la)) in blocks.iter().enumerate() {
        for (b, lb) in &blocks[i + 1..] {
            assert!(a + la.size <= *b || b + lb.size <= *a);
        }
    }
}

#[test]
fn no_memory_no_scope() {
    let mut place: RootPlace<Plain<u64>, (), AddressSpace> = RootPlace::Empty;
    let tiny = AddressSpace::new(0x1_0000, 0x1_0000 + 100);
    assert_eq!(
        Scope::new_local(&mut place, tiny, false).err(),
        Some(ScopeError::MallocFailed)
    );
    assert!(matches!(place, RootPlace::Empty));
    // Room for the root and its slots, but for no scope.
    let memory = AddressSpace::new(0x1_0000, 0x1_0000 + 168 + 16_384);
    assert_eq!(
        Scope::new_local(&mut place, memory, false).err(),
        Some(ScopeError::MallocFailed)
    );
    assert!(matches!(place, RootPlace::Ready(_)));
}

#[test]
fn a_scope_is_reclaimed_when_its_last_object_goes() {
    let (mut root, mut scope) = ledger_tree();
    let mut other = Scope::new_from_parent(&scope, &mut root).ok().unwrap();
    let before = root.allocator().blocks.len();
    let retain = other.put(&mut root, 1u64);
    assert_eq!(root.allocator().blocks.len(), before + 1);

    // Closed, but alive: the handle is gone, the memory stays.
    other.release(&mut root);
    assert_eq!(root.allocator().blocks.len(), before + 1);
    assert_eq!(retain.data_state(&root), DataState::Created);

    // Nothing holds it any more; the next put takes it out.
    assert_eq!(retain.release(&mut root), Some(Plain(1)));
    assert_eq!(root.allocator().blocks.len(), before + 1);
    let kept = scope.put(&mut root, 2u64);
    assert_eq!(root.allocator().blocks.len(), before);
    assert!(!root.tree_.contains(2));
    assert_eq!(kept.release(&mut root), Some(Plain(2)));
}

#[test]
fn a_scope_with_scopes_below_it_is_not_reclaimed() {
    let (mut root, parent) = ledger_tree();
    let child = parent.child_scope(&mut root).ok().unwrap();
    // The parent closes the child, whose handle is still there.
    parent.release(&mut root);
    assert!(!root.tree_.contains(1));
    let grandchild = child.child_scope(&mut root).ok().unwrap();
    child.release(&mut root);
    assert!(root.tree_.contains(2));
    grandchild.release(&mut root);
    assert!(!root.tree_.contains(3));
    // Children go before parents, so the next round takes the rest.
    let last = root.reclaim_pending_();
    assert!(last.is_empty());
    assert!(!root.tree_.contains(2));
}

#[test]
fn an_empty_tree_of_scopes_goes_as_a_whole() {
    let (mut root, keeper) = ledger_tree();
    let blocks = root.allocator().blocks.len();
    let top = keeper.child_scope(&mut root).ok().unwrap();
    let left = top.child_scope(&mut root).ok().unwrap();
    let right = top.child_scope(&mut root).ok().unwrap();
    left.release(&mut root);
    right.release(&mut root);
    assert_eq!(root.allocator().blocks.len(), blocks + 1);
    top.release(&mut root);
    assert_eq!(root.allocator().blocks.len(), blocks);
}

#[test]
fn closing_puts_children_before_parents_and_the_youngest_first() {
    let (mut root, top) = new_tree(false);
    let eldest = top.child_scope(&mut root).ok().unwrap();
    let youngest = top.child_scope(&mut root).ok().unwrap();
    let below = eldest.child_scope(&mut root).ok().unwrap();
    // Scopes 1 to 4: top, eldest, youngest, below.
    root.close_subtree_(1);
    let mut line = Vec::new();
    let mut cursor = root.tree_.pending_head();
    while let Some(n) = cursor {
        line.push(n);
        cursor = root.tree_.node(n).scope_ext_.pending_next_;
    }
    assert_eq!(line, vec![3, 4, 2, 1]);
    let _ = (youngest, below);
}

#[test]
fn forgotten_objects_go_with_their_scope() {
    let (mut root, mut scope) = ledger_tree();
    let blocks = root.allocator().blocks.len();
    let owning = Owning::<u64, Local>::try_new_local(5, &mut scope, &mut root).ok().unwrap();
    // Never released.
    let _ = owning;
    assert_eq!(scope.release(&mut root), vec![Plain(5)]);
    assert_eq!(root.allocator().blocks.len(), blocks - 1);
}

#[test]
fn collect_gives_the_memory_of_objects_back() {
    let (mut root, mut scope) = ledger_tree();
    let blocks = root.allocator().blocks.len();
    let retain = scope.put(&mut root, 1u64);
    assert_eq!(root.allocator().blocks.len(), blocks + 1);
    assert_eq!(scope.collect(&mut root), vec![Plain(1)]);
    assert_eq!(root.allocator().blocks.len(), blocks);
    assert!(retain.is_zombie(&root));
    let again = scope.put(&mut root, 2u64);
    assert_eq!(root.allocator().blocks.len(), blocks + 1);
    let owning = again.try_owning(&mut root).ok().unwrap();
    assert_eq!(owning.get(&root).copied(), Some(2));
}

#[test]
fn an_owner_finds_nothing_after_its_scope_was_emptied() {
    let (mut root, mut scope) = new_tree(false);
    let retain = scope.put(&mut root, 1u64);
    let owning = retain.try_owning(&mut root).ok().unwrap();
    assert_eq!(scope.collect(&mut root), vec![Plain(1)]);
    let _other = scope.put(&mut root, 2u64);
    assert_eq!(owning.get(&root), None);
    assert_eq!(owning.data_state(&root), DataState::Zombie);
    assert_eq!(owning.release(&mut root), None);
    assert_eq!(retain.release(&mut root), None);
}

#[test]
fn a_sharer_finds_nothing_after_its_scope_was_emptied() {
    let (mut root, mut scope) = new_tree(false);
    let retain = scope.put(&mut root, 1u64);
    let sharing = retain.try_sharing(&mut root).ok().unwrap();
    let kept = sharing.retained(&mut root);
    assert_eq!(scope.collect(&mut root), vec![Plain(1)]);
    assert_eq!(sharing.get(&root), None);
    assert_eq!(sharing.strong_count(&root), 0);
    let copy = sharing.clone(&mut root);
    assert_eq!(copy.release(&mut root), None);
    assert_eq!(sharing.release(&mut root), None);
    assert_eq!(retain.release(&mut root), None);
    assert!(kept.is_zombie(&root));
    assert_eq!(kept.release(&mut root), None);
    // The slot went back, and is the next to be handed out.
    let next = scope.put(&mut root, 2u64);
    assert_eq!(next.data_state(&root), DataState::Created);
    assert_eq!(root.weak_pools_().pools()[0].used_count(), 1);
}
