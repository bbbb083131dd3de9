//! Hooks that run before objects are destroyed, and emptying a scope.

use core::sync::atomic::{AtomicUsize, Ordering};
use std::sync::Mutex;

use sw_scope::abs_::{TrCarry, TrPreDrop, TrScope, TrScopeExt};
use sw_scope::mem_::AddressSpace;
use sw_scope::scope_::Scope;
use sw_scope::scope_tree_::root_::{RootPlace, RootScope};
use sw_scope::share_marker_::Local;
use sw_scope::smart_pointer_::{Owning, Retain};

static A_HOOKED: AtomicUsize = AtomicUsize::new(0);
static B_HOOKED: AtomicUsize = AtomicUsize::new(0);
static OVERRIDDEN_TYPE_HOOKED: AtomicUsize = AtomicUsize::new(0);
static OBJ_HOOKED: AtomicUsize = AtomicUsize::new(0);
static C_HOOKED: AtomicUsize = AtomicUsize::new(0);
static C_DROPPED: AtomicUsize = AtomicUsize::new(0);
static ESCAPED_HANDLE: Mutex<Option<Retain<EscapedHandle>>> = Mutex::new(None);

struct TypeLevelA;

struct TypeLevelB;

struct TypeLevelC;

struct Override;

impl Drop for TypeLevelC {
    fn drop(&mut self) {
        C_DROPPED.fetch_add(1, Ordering::AcqRel);
    }
}

struct EscapedHandle {
    value: u64,
    self_retain: Option<Retain<EscapedHandle>>,
}

enum Value {
    A(TypeLevelA),
    B(TypeLevelB),
    C(TypeLevelC),
    Override(Override),
    Escaped(EscapedHandle),
    Number(u64),
}

impl TrCarry<TypeLevelA> for Value {
    fn carry(data: TypeLevelA) -> Self {
        Value::A(data)
    }

    fn get(&self) -> Option<&TypeLevelA> {
        match self {
            Value::A(data) => Some(data),
            _ => None,
        }
    }

    fn get_mut(&mut self) -> Option<&mut TypeLevelA> {
        match self {
            Value::A(data) => Some(data),
            _ => None,
        }
    }
}

impl TrCarry<TypeLevelB> for Value {
    fn carry(data: TypeLevelB) -> Self {
        Value::B(data)
    }

    fn get(&self) -> Option<&TypeLevelB> {
        match self {
            Value::B(data) => Some(data),
            _ => None,
        }
    }

    fn get_mut(&mut self) -> Option<&mut TypeLevelB> {
        match self {
            Value::B(data) => Some(data),
            _ => None,
        }
    }
}

impl TrCarry<TypeLevelC> for Value {
    fn carry(data: TypeLevelC) -> Self {
        Value::C(data)
    }

    fn get(&self) -> Option<&TypeLevelC> {
        match self {
            Value::C(data) => Some(data),
            _ => None,
        }
    }

    fn get_mut(&mut self) -> Option<&mut TypeLevelC> {
        match self {
            Value::C(data) => Some(data),
            _ => None,
        }
    }
}

impl TrCarry<Override> for Value {
    fn carry(data: Override) -> Self {
        Value::Override(data)
    }

    fn get(&self) -> Option<&Override> {
        match self {
            Value::Override(data) => Some(data),
            _ => None,
        }
    }

    fn get_mut(&mut self) -> Option<&mut Override> {
        match self {
            Value::Override(data) => Some(data),
            _ => None,
        }
    }
}

impl TrCarry<EscapedHandle> for Value {
    fn carry(data: EscapedHandle) -> Self {
        Value::Escaped(data)
    }

    fn get(&self) -> Option<&EscapedHandle> {
        match self {
            Value::Escaped(data) => Some(data),
            _ => None,
        }
    }

    fn get_mut(&mut self) -> Option<&mut EscapedHandle> {
        match self {
            Value::Escaped(data) => Some(data),
            _ => None,
        }
    }
}

impl TrCarry<u64> for Value {
    fn carry(data: u64) -> Self {
        Value::Number(data)
    }

    fn get(&self) -> Option<&u64> {
        match self {
            Value::Number(data) => Some(data),
            _ => None,
        }
    }

    fn get_mut(&mut self) -> Option<&mut u64> {
        match self {
            Value::Number(data) => Some(data),
            _ => None,
        }
    }
}

#[derive(Clone, Copy)]
enum Hook {
    A,
    B,
    C,
    OverriddenType,
    Object,
    Escape,
    Double,
}

impl TrPreDrop<Value> for Hook {
    fn pre_drop(&self, data: &mut Value) {
        match (self, data) {
            (Hook::A, Value::A(_)) => {
                A_HOOKED.fetch_add(1, Ordering::AcqRel);
            }
            (Hook::B, Value::B(_)) => {
                B_HOOKED.fetch_add(1, Ordering::AcqRel);
            }
            (Hook::C, Value::C(_)) => {
                C_HOOKED.fetch_add(1, Ordering::AcqRel);
            }
            (Hook::OverriddenType, Value::Override(_)) => {
                OVERRIDDEN_TYPE_HOOKED.fetch_add(1, Ordering::AcqRel);
            }
            (Hook::Object, Value::Override(_)) => {
                OBJ_HOOKED.fetch_add(1, Ordering::AcqRel);
            }
            (Hook::Escape, Value::Escaped(object)) => {
                if let Some(retain) = object.self_retain.take() {
                    *ESCAPED_HANDLE.lock().unwrap() = Some(retain);
                }
            }
            (Hook::Double, Value::Number(number)) => *number *= 2,
            _ => panic!("the hook of another type"),
        }
    }
}

type Root = RootScope<Value, Hook, AddressSpace>;

fn new_tree() -> (Root, Scope) {
    let mut place = RootPlace::Empty;
    let memory = AddressSpace::new(0x1_0000, usize::MAX / 2);
    let scope = Scope::new_local(&mut place, memory, false).expect("there is memory for a scope");
    match place {
        RootPlace::Ready(root) => (root, scope),
        _ => panic!("the root was made"),
    }
}

#[test]
fn type_level_hook_runs_on_destruction() {
    let (mut root, mut scope) = new_tree();
    scope.set_pre_drop::<TypeLevelA>(&mut root, Hook::A).expect("a hook can be set");
    let retain = scope.put(&mut root, TypeLevelA);
    assert_eq!(A_HOOKED.load(Ordering::Acquire), 0);
    drop(retain.release(&mut root));
    assert_eq!(A_HOOKED.load(Ordering::Acquire), 1);
}

#[test]
fn object_level_hook_overrides_type_level() {
    let (mut root, mut scope) = new_tree();
    scope.set_pre_drop::<Override>(&mut root, Hook::OverriddenType).expect("a hook can be set");
    let plain = scope.put(&mut root, Override);
    let overridden = scope.put_with(&mut root, || Override, Hook::Object);
    drop(plain.release(&mut root));
    drop(overridden.release(&mut root));
    assert_eq!(OVERRIDDEN_TYPE_HOOKED.load(Ordering::Acquire), 1);
    assert_eq!(OBJ_HOOKED.load(Ordering::Acquire), 1);
}

#[test]
fn registry_is_shared_across_child_scopes() {
    let (mut root, mut parent) = new_tree();
    let mut child = parent.child_scope(&mut root).expect("there is memory for a scope");
    child.set_pre_drop::<TypeLevelB>(&mut root, Hook::B).expect("a hook can be set");
    let retain = parent.put(&mut root, TypeLevelB);
    drop(retain.release(&mut root));
    assert_eq!(B_HOOKED.load(Ordering::Acquire), 1);
}

#[test]
fn collect_forces_pre_drop_for_still_alive_objects() {
    let (mut root, mut scope) = new_tree();
    scope.set_pre_drop::<TypeLevelC>(&mut root, Hook::C).expect("a hook can be set");
    let _leaked = scope.put(&mut root, TypeLevelC);
    assert_eq!(C_HOOKED.load(Ordering::Acquire), 0);
    drop(scope.collect(&mut root));
    assert_eq!(C_HOOKED.load(Ordering::Acquire), 1);
    assert_eq!(C_DROPPED.load(Ordering::Acquire), 1);
}

#[test]
fn weak_pool_grows_beyond_initial_capacity() {
    let (mut root, mut scope) = new_tree();
    let mut handles = Vec::new();
    for value in 0..400u64 {
        let retain = scope.try_put(&mut root, || value).expect("there is memory");
        handles.push(retain);
    }
    let first = handles[0].try_owning(&mut root).ok().expect("the first can be owned");
    assert_eq!(first.get(&root).copied(), Some(0));
    let last = handles[399].try_owning(&mut root).ok().expect("the last can be owned");
    assert_eq!(last.get(&root).copied(), Some(399));
    assert_eq!(root.weak_pools_().pools().len(), 2);
}

#[test]
fn scope_is_reusable_after_collect() {
    let (mut root, mut scope) = new_tree();
    for value in 0..64u64 {
        let retain = scope.put(&mut root, value);
        drop(retain.release(&mut root));
    }
    assert!(scope.collect(&mut root).is_empty());
    let retain = scope.put(&mut root, 7u64);
    let owning = retain.try_owning(&mut root).ok().expect("the scope is still usable");
    assert_eq!(owning.get(&root).copied(), Some(7));
}

#[test]
fn collect_keeps_weak_slot_alive_while_escaped_retain_exists() {
    let (mut root, mut scope) = new_tree();
    scope.set_pre_drop::<EscapedHandle>(&mut root, Hook::Escape).expect("a hook can be set");
    let handle = scope.put(&mut root, EscapedHandle { value: 7, self_retain: None });
    {
        let copy = handle.clone(&mut root);
        let mut owning = handle.try_owning(&mut root).ok().expect("the object can be owned");
        owning.get_mut(&mut root).unwrap().self_retain = Some(copy);
        owning.release(&mut root);
    }
    assert!(handle.release(&mut root).is_none());

    assert_eq!(scope.collect(&mut root).len(), 1);

    let escaped = ESCAPED_HANDLE.lock().unwrap().take().expect("the hook moved the handle out");
    assert!(escaped.is_zombie(&root));
    assert!(escaped.try_owning(&mut root).is_err());
    assert!(escaped.try_sharing(&mut root).is_err());

    let fresh = scope.put(&mut root, EscapedHandle { value: 99, self_retain: None });
    assert!(!fresh.is_zombie(&root));
    {
        let owning = fresh.try_owning(&mut root).ok().expect("the new object can be owned");
        assert_eq!(owning.get(&root).unwrap().value, 99);
        owning.release(&mut root);
    }
    assert!(escaped.try_owning(&mut root).is_err());
    assert!(escaped.try_sharing(&mut root).is_err());

    assert!(escaped.release(&mut root).is_none());
    let after = scope.put(&mut root, EscapedHandle { value: 123, self_retain: None });
    let owning = after.try_owning(&mut root).ok().expect("the slot went back");
    assert_eq!(owning.get(&root).unwrap().value, 123);
}

#[test]
fn collect_destroys_in_order_and_exactly_once() {
    let (mut root, mut scope) = new_tree();
    scope.set_pre_drop::<u64>(&mut root, Hook::Double).expect("a hook can be set");
    let first = scope.put(&mut root, 1u64);
    let second = scope.put(&mut root, 2u64);
    let third = scope.put(&mut root, 3u64);
    let direct = Owning::<u64, Local>::try_new_local(4, &mut scope, &mut root).ok().unwrap();
    // Never released.
    let _ = direct;
    let gone = match second.release(&mut root) {
        Some(Value::Number(number)) => number,
        _ => panic!("the last handle takes the data along"),
    };
    assert_eq!(gone, 4);
    let numbers: Vec<u64> = scope
        .collect(&mut root)
        .into_iter()
        .map(|value| match value {
            Value::Number(number) => number,
            _ => panic!("only numbers were put"),
        })
        .collect();
    assert_eq!(numbers, vec![2, 6, 8]);
    assert!(first.is_zombie(&root) && third.is_zombie(&root));
    assert!(scope.collect(&mut root).is_empty());
    assert!(first.release(&mut root).is_none());
    assert!(third.release(&mut root).is_none());
}

#[test]
fn the_latest_hook_holds_for_later_objects() {
    let (mut root, mut scope) = new_tree();
    let early = scope.put(&mut root, 5u64);
    scope.set_pre_drop::<u64>(&mut root, Hook::Double).expect("a hook can be set");
    let late = scope.put(&mut root, 5u64);
    let number = |value: Option<Value>| match value {
        Some(Value::Number(number)) => number,
        _ => panic!("a number was put"),
    };
    assert_eq!(number(early.release(&mut root)), 5);
    assert_eq!(number(late.release(&mut root)), 10);
}
