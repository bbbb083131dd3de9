//! Texts in a scope, and values that are made where they stay.

use core::sync::atomic::{AtomicUsize, Ordering};

use sw_scope::abs_::{Plain, TrCarry, TrPreDrop, TrScope, TrScopeExt};
use sw_scope::emplace_::{IntoEmplace, Ready, TrEmplace};
use sw_scope::mem_::{AddressSpace, Layout};
use sw_scope::scope_::{Scope, ScopeError};
use sw_scope::scope_str_::{EmplaceScopeStr, ScopeStr};
use sw_scope::scope_tree_::root_::{RootPlace, RootScope};
use sw_scope::share_marker_::Local;
use sw_scope::smart_pointer_::{Owning, UpgradeError};

static STR_HOOKED: AtomicUsize = AtomicUsize::new(0);
static EMPLACE_HOOKED: AtomicUsize = AtomicUsize::new(0);

enum Value {
    Text(ScopeStr),
    Number(u64),
    Slice(Vec<u64>),
}

impl TrCarry<ScopeStr> for Value {
    fn carry(data: ScopeStr) -> Self {
        Value::Text(data)
    }

    fn get(&self) -> Option<&ScopeStr> {
        match self {
            Value::Text(data) => Some(data),
            _ => None,
        }
    }

    fn get_mut(&mut self) -> Option<&mut ScopeStr> {
        match self {
            Value::Text(data) => Some(data),
            _ => None,
        }
    }
}

impl TrCarry<u64> for Value {
    fn carry(data: u64) -> Self {
        Value::Number(data)
    }

    fn get(&self) -> Option<&u64> {
        match self {
            Value::Number(data) => Some(data),
            _ => None,
        }
    }

    fn get_mut(&mut self) -> Option<&mut u64> {
        match self {
            Value::Number(data) => Some(data),
            _ => None,
        }
    }
}

impl TrCarry<Vec<u64>> for Value {
    fn carry(data: Vec<u64>) -> Self {
        Value::Slice(data)
    }

    fn get(&self) -> Option<&Vec<u64>> {
        match self {
            Value::Slice(data) => Some(data),
            _ => None,
        }
    }

    fn get_mut(&mut self) -> Option<&mut Vec<u64>> {
        match self {
            Value::Slice(data) => Some(data),
            _ => None,
        }
    }
}

#[derive(Clone, Copy)]
enum Hook {
    Text,
    Emplaced,
}

impl TrPreDrop<Value> for Hook {
    fn pre_drop(&self, data: &mut Value) {
        match (self, data) {
            (Hook::Text, Value::Text(text)) => {
                assert_eq!(&**text, "hooked str");
                STR_HOOKED.fetch_add(1, Ordering::AcqRel);
            }
            (Hook::Emplaced, Value::Number(number)) => {
                assert_eq!(*number, 7);
                EMPLACE_HOOKED.fetch_add(1, Ordering::AcqRel);
            }
            _ => panic!("the hook of another type"),
        }
    }
}

type Root = RootScope<Value, Hook, AddressSpace>;

fn tree_in(memory: AddressSpace) -> (Root, Scope) {
    let mut place = RootPlace::Empty;
    let scope = Scope::new_local(&mut place, memory, false).expect("there is memory for a scope");
    match place {
        RootPlace::Ready(root) => (root, scope),
        _ => panic!("the root was made"),
    }
}

fn new_tree() -> (Root, Scope) {
    tree_in(AddressSpace::new(0x1_0000, usize::MAX / 2))
}

#[test]
fn put_str_is_usable_as_str() {
    let (mut root, mut scope) = new_tree();
    let retain = scope.put_str(&mut root, "hello, scope");
    let owning = retain.try_owning(&mut root).ok().expect("the text can be owned");
    let stored: &ScopeStr = owning.get(&root).unwrap();
    let text: &str = stored;
    assert_eq!(text, "hello, scope");
    assert_eq!(stored.len(), 12);
    let borrowed: &str = core::borrow::Borrow::<str>::borrow(stored);
    assert_eq!(borrowed, "hello, scope");
    assert_eq!(stored.as_str(), "hello, scope");
    assert_eq!(AsRef::<str>::as_ref(stored), "hello, scope");
}

#[test]
fn put_str_type_hook_runs_on_destruction() {
    let (mut root, mut scope) = new_tree();
    scope.set_pre_drop::<ScopeStr>(&mut root, Hook::Text).expect("a hook can be set");
    let retain = scope.put_str(&mut root, "hooked str");
    drop(retain.release(&mut root));
    assert_eq!(STR_HOOKED.load(Ordering::Acquire), 1);
}

#[test]
fn a_text_is_measured_in_bytes() {
    let emplace = EmplaceScopeStr::copying("aé");
    assert_eq!(emplace.layout_(), Layout::new(3, 1));
    assert_eq!(emplace.meta_(), 3);
    assert_eq!(emplace.emplace().as_str(), "aé");
}

#[test]
fn a_text_can_have_a_single_owner() {
    let (mut root, mut scope) = new_tree();
    let owning = Owning::try_local_str("owned", &mut scope, &mut root).ok().unwrap();
    assert_eq!(owning.get(&root).unwrap().as_str(), "owned");
    match owning.release(&mut root) {
        Some(Value::Text(text)) => assert_eq!(text.as_str(), "owned"),
        _ => panic!("the text goes with its owner"),
    }
}

#[test]
fn try_emplace_constructs_sized_target() {
    let (mut root, mut scope) = new_tree();
    let emplace = IntoEmplace::new(|| 99u64);
    let retain = scope.try_emplace(&mut root, emplace).expect("there is memory");
    let owning = retain.try_owning(&mut root).ok().expect("the number can be owned");
    assert_eq!(owning.get(&root).copied(), Some(99));
}

/// Copies a row of numbers to where they are going to stay.
struct CopySlice<'f>(&'f [u64]);

impl<'f> TrEmplace for CopySlice<'f> {
    type Target = Vec<u64>;

    fn layout_(&self) -> Layout {
        Layout::new(self.0.len() * 8, 8)
    }

    fn meta_(&self) -> usize {
        self.0.len()
    }

    fn emplace(self) -> Vec<u64> {
        self.0.to_vec()
    }
}

#[test]
fn try_emplace_constructs_unsized_slice() {
    let values: [u64; 3] = [1, 2, 3];
    let (mut root, mut scope) = new_tree();
    let retain = scope.try_emplace(&mut root, CopySlice(&values)).expect("there is memory");
    let owning = retain.try_owning(&mut root).ok().expect("the numbers can be owned");
    assert_eq!(owning.get(&root).unwrap().as_slice(), &values[..]);
}

#[test]
fn try_emplace_with_runs_object_hook() {
    let (mut root, mut scope) = new_tree();
    let emplace = IntoEmplace::new(|| 7u64);
    let retain = scope
        .try_emplace_with(&mut root, emplace, Some(Hook::Emplaced))
        .expect("there is memory");
    drop(retain.release(&mut root));
    assert_eq!(EMPLACE_HOOKED.load(Ordering::Acquire), 1);
}

#[test]
fn a_value_is_made_only_when_it_has_a_place() {
    // Room for the root, the first pool of slots and one scope, but for no data.
    let (mut root, mut scope) = tree_in(AddressSpace::new(0x1_0000, 0x1_0000 + 17_000));
    let mut made = false;
    let result = scope.try_put(&mut root, || {
        made = true;
        7u64
    });
    assert_eq!(result.err(), Some(ScopeError::MallocFailed));
    assert!(!made);
    // The slot that was found for it is free again.
    assert_eq!(root.weak_pools_().pools()[0].free_count(), 340);
}

#[test]
fn objects_are_put_as_long_as_the_memory_lasts() {
    // Room for the root, the first pool of slots, one scope, and one pool for data.
    let (mut root, mut scope) = tree_in(AddressSpace::new(0x1_0000, 0x1_0000 + 33_200));
    let mut handles = Vec::new();
    for i in 0..340u64 {
        handles.push(scope.put(&mut root, i));
    }
    // The slots are used up, though there is a place for the data.
    assert_eq!(scope.try_put(&mut root, || 340u64).err(), Some(ScopeError::MallocFailed));
    assert_eq!(root.weak_pools_().pools().len(), 1);
    for (i, handle) in handles.iter().enumerate() {
        let owning = handle.try_owning(&mut root).ok().expect("nobody holds it");
        assert_eq!(owning.get(&root).copied(), Some(i as u64));
        drop(owning.release(&mut root));
    }
}

#[test]
fn a_block_that_no_pool_can_hold_is_refused() {
    let (mut root, mut scope) = new_tree();
    struct Huge;
    impl TrEmplace for Huge {
        type Target = u64;

        fn layout_(&self) -> Layout {
            Layout::new(1 << 20, 8)
        }

        fn meta_(&self) -> usize {
            0
        }

        fn emplace(self) -> u64 {
            panic!("there is no place for it")
        }
    }
    assert_eq!(scope.try_emplace(&mut root, Huge).err(), Some(ScopeError::MallocFailed));
    assert!(scope.try_put(&mut root, || 1u64).is_ok());
}

#[test]
fn an_owner_gets_no_weak_handle_where_there_is_no_slot() {
    let mut place: RootPlace<Plain<u8>, (), AddressSpace> = RootPlace::Empty;
    // A page with room for a single slot, and no memory for a second page.
    let memory = AddressSpace::new(0x1_0000, 0x1_0000 + 17_200);
    assert!(Scope::<Local>::try_config_root(&mut place, 96, memory, false));
    let unused = AddressSpace::new(1, 2);
    let mut scope = Scope::new_local(&mut place, unused, false).ok().unwrap();
    let mut root = match place {
        RootPlace::Ready(root) => root,
        _ => panic!("the root was made"),
    };
    let first = Owning::<u8, Local>::try_new_local(1, &mut scope, &mut root).ok().unwrap();
    let taken = first.retained(&mut root).ok().unwrap();
    let second = Owning::<u8, Local>::try_new_local(2, &mut scope, &mut root).ok().unwrap();
    assert_eq!(
        second.retained(&mut root).err(),
        Some(UpgradeError::ScopeErr(ScopeError::MallocFailed))
    );
    assert_eq!(taken.weak_count(&root), 1);
}

#[test]
fn values_know_their_layout() {
    assert_eq!(Ready { data_: 1u32 }.layout_(), Layout::new(4, 4));
    assert_eq!(IntoEmplace::new(|| 1u16).layout_(), Layout::new(2, 2));
    assert_eq!(Ready { data_: 1u32 }.emplace(), 1);
}
