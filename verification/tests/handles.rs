//! Weak, owning and sharing handles.

use core::sync::atomic::{AtomicUsize, Ordering};

use sw_scope::abs_::{Plain, TrScopeExt};
use sw_scope::mem_::AddressSpace;
use sw_scope::scope_::Scope;
use sw_scope::scope_tree_::root_::{RootPlace, RootScope};
use sw_scope::share_marker_::Local;
use sw_scope::smart_pointer_::{Owning, Retain, Sharing, UpgradeError};
use sw_scope::weak_::DataState;

type Place<T> = RootPlace<Plain<T>, (), AddressSpace>;
type Root<T> = RootScope<Plain<T>, (), AddressSpace>;

fn memory() -> AddressSpace {
    AddressSpace::new(0x1_0000, usize::MAX / 2)
}

fn new_scope<T>(place: &mut Place<T>) -> Scope {
    Scope::new_local(place, memory(), false).expect("there is memory for a scope")
}

fn root_of<T>(place: Place<T>) -> Root<T> {
    match place {
        RootPlace::Ready(root) => root,
        _ => panic!("the root was made"),
    }
}

fn one_object<T>(value: T) -> (Root<T>, Scope, Retain<T>) {
    let mut place = RootPlace::Empty;
    let mut scope = new_scope(&mut place);
    let mut root = root_of(place);
    let retain = scope.put(&mut root, value);
    (root, scope, retain)
}

#[test]
fn owning_drop_returns_to_created_and_data_stays_alive() {
    let (mut root, _scope, retain) = one_object(42u64);
    {
        let owning = retain.try_owning(&mut root).ok().expect("Created can be owned");
        assert_eq!(owning.get(&root).copied(), Some(42));
        assert!(owning.release(&mut root).is_none());
    }
    assert_eq!(retain.data_state(&root), DataState::Created);
    let owning = retain.try_owning(&mut root).ok().expect("the data is still there");
    assert_eq!(owning.get(&root).copied(), Some(42));
    assert_eq!(owning.data_state(&root), DataState::Owning);
}

#[test]
fn an_owner_keeps_all_others_away() {
    let (mut root, _scope, retain) = one_object(1u64);
    let mut owning = retain.try_owning(&mut root).ok().unwrap();
    *owning.get_mut(&mut root).unwrap() = 2;
    assert_eq!(
        retain.try_owning(&mut root).err(),
        Some(UpgradeError::StateErr(DataState::Owning))
    );
    assert_eq!(
        retain.try_sharing(&mut root).err(),
        Some(UpgradeError::StateErr(DataState::Owning))
    );
    assert!(owning.release(&mut root).is_none());
    let sharing = retain.try_sharing(&mut root).ok().unwrap();
    assert_eq!(sharing.get(&root).copied(), Some(2));
    assert_eq!(
        retain.try_owning(&mut root).err(),
        Some(UpgradeError::StateErr(DataState::Sharing))
    );
}

#[test]
fn sharing_counts_and_returns_to_created() {
    let (mut root, _scope, retain) = one_object(7u64);
    let sharing = retain.try_sharing(&mut root).ok().expect("Created can be shared");
    assert_eq!(sharing.strong_count(&root), 1);
    let sharing2 = sharing.clone(&mut root);
    assert_eq!(sharing2.strong_count(&root), 2);

    assert!(sharing.release(&mut root).is_none());
    assert_eq!(sharing2.strong_count(&root), 1);
    assert_eq!(retain.data_state(&root), DataState::Sharing);

    assert!(sharing2.release(&mut root).is_none());
    assert_eq!(retain.data_state(&root), DataState::Created);
    let again = retain.try_sharing(&mut root).ok().unwrap();
    assert_eq!(again.strong_count(&root), 1);
}

#[test]
fn try_sharing_is_idempotent_increment() {
    let (mut root, _scope, retain) = one_object(5u64);
    let first = retain.try_sharing(&mut root).ok().expect("the first sharing");
    let second = retain.try_sharing(&mut root).ok().expect("one more sharing");
    assert_eq!(first.strong_count(&root), 2);
    first.release(&mut root);
    second.release(&mut root);
    assert_eq!(retain.data_state(&root), DataState::Created);
}

static LAST_DROPPED: AtomicUsize = AtomicUsize::new(0);

struct LastProbe;

impl Drop for LastProbe {
    fn drop(&mut self) {
        LAST_DROPPED.fetch_add(1, Ordering::AcqRel);
    }
}

#[test]
fn last_retain_drop_destroys_immediately() {
    let (mut root, _scope, retain) = one_object(LastProbe);
    // A weak handle without the count tells the state of the slot afterwards.
    let slot = root.tree_.node(1).scope_ext_.content_.live_head_;
    assert_eq!(LAST_DROPPED.load(Ordering::Acquire), 0);
    drop(retain.release(&mut root));
    assert_eq!(LAST_DROPPED.load(Ordering::Acquire), 1);
    assert_eq!(root.state_at_(slot), DataState::Destroyed);
}

static CLONE_DROPPED: AtomicUsize = AtomicUsize::new(0);

struct CloneProbe;

impl Drop for CloneProbe {
    fn drop(&mut self) {
        CLONE_DROPPED.fetch_add(1, Ordering::AcqRel);
    }
}

#[test]
fn data_survives_until_last_cloned_retain_is_dropped() {
    let (mut root, _scope, retain) = one_object(CloneProbe);
    let retain2 = retain.clone(&mut root);
    assert_eq!(retain2.weak_count(&root), 2);
    drop(retain.release(&mut root));
    assert_eq!(CLONE_DROPPED.load(Ordering::Acquire), 0);
    assert_eq!(retain2.weak_count(&root), 1);
    drop(retain2.release(&mut root));
    assert_eq!(CLONE_DROPPED.load(Ordering::Acquire), 1);
}

#[test]
fn handle_markers_follow_box_and_arc_bounds() {
    fn assert_send<T: Send>() {}
    fn assert_sync<T: Sync>() {}

    assert_send::<Owning<'static, u64>>();
    assert_sync::<Owning<'static, u64>>();
    assert_send::<Sharing<'static, u64>>();
    assert_sync::<Sharing<'static, u64>>();
    assert_send::<Retain<u64>>();
    assert_sync::<Retain<u64>>();
}

#[test]
fn an_object_without_weak_handles_goes_with_its_owner() {
    let mut place = RootPlace::Empty;
    let mut scope = new_scope(&mut place);
    let mut root: Root<String> = root_of(place);
    let mut owning = Owning::<String, Local>::try_new_local("box".to_string(), &mut scope, &mut root)
        .ok()
        .unwrap();
    assert_eq!(owning.data_state(&root), DataState::Owning);
    owning.get_mut(&mut root).unwrap().push('!');
    assert_eq!(owning.release(&mut root), Some(Plain("box!".to_string())));
}

#[test]
fn a_retained_object_outlives_its_owner() {
    let mut place = RootPlace::Empty;
    let mut scope = new_scope(&mut place);
    let mut root: Root<u64> = root_of(place);
    let owning = Owning::<u64, Local>::try_new_local(9, &mut scope, &mut root).ok().unwrap();
    let retain = owning.retained(&mut root).ok().unwrap();
    let other = owning.retained(&mut root).ok().unwrap();
    assert_eq!(retain.weak_count(&root), 2);
    assert_eq!(owning.weak_count(&root), 2);
    assert_eq!(
        retain.try_owning(&mut root).err(),
        Some(UpgradeError::StateErr(DataState::Owning))
    );
    assert_eq!(owning.release(&mut root), None);
    assert_eq!(retain.data_state(&root), DataState::Created);
    assert_eq!(other.release(&mut root), None);
    assert_eq!(retain.release(&mut root), Some(Plain(9)));
}

#[test]
fn an_owner_takes_the_data_along_when_all_weak_handles_went_before() {
    let mut place = RootPlace::Empty;
    let mut scope = new_scope(&mut place);
    let mut root: Root<u64> = root_of(place);
    let owning = Owning::<u64, Local>::try_new_local(3, &mut scope, &mut root).ok().unwrap();
    let retain = owning.retained(&mut root).ok().unwrap();
    assert_eq!(retain.release(&mut root), None);
    assert_eq!(owning.get(&root).copied(), Some(3));
    assert_eq!(owning.release(&mut root), Some(Plain(3)));
}

#[test]
fn local_demo() {
    fn reown_somewhere(retain: Retain<usize>, root: &mut Root<usize>) -> Retain<usize> {
        let mut x = retain.try_owning(root).ok().unwrap();
        *x.get_mut(root).unwrap() = 58;
        let copy = retain.clone(root);
        x.release(root);
        retain.release(root);
        copy
    }

    fn share_everywhere(retain: Retain<usize>, root: &mut Root<usize>) -> Retain<usize> {
        let x = retain.try_sharing(root).ok().unwrap();
        assert_eq!(x.get(root).copied(), Some(58));
        // Never released: from here on the object cannot be owned.
        let _ = x;
        retain
    }

    let mut place = RootPlace::Empty;
    let mut scope = new_scope(&mut place);
    let mut root: Root<usize> = root_of(place);
    let x = Owning::<usize, Local>::try_new_local(42, &mut scope, &mut root).ok().unwrap();
    let retain = x.retained(&mut root).ok().unwrap();
    x.release(&mut root);
    {
        let x = retain.try_owning(&mut root).ok().unwrap();
        assert_eq!(x.get(&root).copied(), Some(42));
        x.release(&mut root);
    }
    let retain = reown_somewhere(retain, &mut root);
    {
        let x = retain.try_owning(&mut root).ok().unwrap();
        assert_eq!(x.get(&root).copied(), Some(58));
        x.release(&mut root);
    }
    let retain = share_everywhere(retain, &mut root);

    assert!(retain.try_owning(&mut root).is_err());
    let shared = retain.try_sharing(&mut root).ok().unwrap();
    assert_eq!(shared.get(&root).copied(), Some(58));
}
