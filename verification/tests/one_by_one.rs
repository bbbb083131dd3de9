//! Emptying a scope one object at a time.

use std::cell::RefCell;
use std::rc::Rc;

use sw_scope::abs_::{Plain, TrPreDrop, TrScope, TrScopeExt};
use sw_scope::mem_::AddressSpace;
use sw_scope::scope_::Scope;
use sw_scope::scope_tree_::root_::{RootPlace, RootScope};
use sw_scope::share_marker_::Local;
use sw_scope::smart_pointer_::Owning;
use sw_scope::weak_::DataState;

type Log = Rc<RefCell<Vec<(&'static str, u32)>>>;

struct Noted {
    number: u32,
    log: Log,
}

impl Drop for Noted {
    fn drop(&mut self) {
        self.log.borrow_mut().push(("drop", self.number));
    }
}

#[derive(Clone, Copy)]
struct Note;

impl TrPreDrop<Plain<Noted>> for Note {
    fn pre_drop(&self, data: &mut Plain<Noted>) {
        data.0.log.borrow_mut().push(("hook", data.0.number));
    }
}

type Root = RootScope<Plain<Noted>, Note, AddressSpace>;

fn new_tree() -> (Root, Scope) {
    let mut place = RootPlace::Empty;
    let memory = AddressSpace::new(0x1_0000, usize::MAX / 2);
    let scope = Scope::new_local(&mut place, memory, false).expect("there is memory for a scope");
    match place {
        RootPlace::Ready(root) => (root, scope),
        _ => panic!("the root was made"),
    }
}

#[test]
fn each_value_is_dropped_before_the_next_hook_runs() {
    let log: Log = Rc::new(RefCell::new(Vec::new()));
    let noted = |number: u32| Noted { number, log: log.clone() };
    let (mut root, mut scope) = new_tree();
    scope.set_pre_drop::<Noted>(&mut root, Note).expect("a tree has a table of hooks");
    let direct = Owning::<Noted, Local>::try_new_local(noted(3), &mut scope, &mut root);
    assert!(direct.is_ok());
    let a = scope.put(&mut root, noted(1));
    let b = scope.put(&mut root, noted(2));
    let free = root.weak_pools_().pools()[0].free_count();

    let mut count = 0;
    while let Some(value) = scope.collect_next(&mut root) {
        drop(value);
        count += 1;
    }
    assert_eq!(count, 3);
    assert_eq!(
        *log.borrow(),
        [("hook", 1), ("drop", 1), ("hook", 2), ("drop", 2), ("hook", 3), ("drop", 3)]
    );
    // Slots and memory stay until the scope is emptied as a whole.
    assert_eq!(a.data_state(&root), DataState::Destroyed);
    assert_eq!(root.weak_pools_().pools()[0].free_count(), free);
    assert!(b.release(&mut root).is_none());
    assert!(scope.collect(&mut root).is_empty());
    assert!(a.is_zombie(&root));
    assert_eq!(root.weak_pools_().pools()[0].free_count(), free + 1);
    assert!(scope.collect_next(&mut root).is_none());
    assert_eq!(log.borrow().len(), 6);
}

#[test]
fn the_rest_goes_with_the_scope() {
    let log: Log = Rc::new(RefCell::new(Vec::new()));
    let (mut root, mut scope) = new_tree();
    for number in 0..4 {
        let _ = scope.put_with(&mut root, || Noted { number, log: log.clone() }, Note);
    }
    drop(scope.collect_next(&mut root));
    assert_eq!(scope.collect(&mut root).len(), 3);
    let hooked: Vec<u32> = log.borrow().iter().filter(|e| e.0 == "hook").map(|e| e.1).collect();
    assert_eq!(hooked, [0, 1, 2, 3]);
}
