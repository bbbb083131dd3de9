//! Records of what to do before a value goes, and the table of types that have one.

use core::marker::PhantomData;
use core::sync::atomic::{AtomicUsize, Ordering};

use sw_scope::abs_::TrPreDrop;
use sw_scope::weak_::{resolve_, PreDropRecord, PreDropRegistry};

type Plain = PreDropRecord<()>;

#[derive(Clone, Copy, Debug, PartialEq, Eq)]
enum TextHook {
    Clear,
    Push(char),
}

impl TrPreDrop<String> for TextHook {
    fn pre_drop(&self, data: &mut String) {
        match self {
            TextHook::Clear => data.clear(),
            TextHook::Push(c) => data.push(*c),
        }
    }
}

#[test]
fn pre_drop_record_is_shared_per_type() {
    assert_eq!(Plain::of::<String>(), Plain::of::<String>());
    assert!(!Plain::of::<String>().is_noop_());
    assert!(Plain::of::<u64>().is_noop_());
}

#[test]
fn pre_drop_registry_hits_registered_type() {
    let mut registry: PreDropRegistry<TextHook> = PreDropRegistry::new();
    registry.register_::<u64>(TextHook::Clear);
    let record = registry.lookup_::<u64>().expect("the type was given a hook");
    assert!(!record.is_noop_());
    assert_eq!(record.hook_, Some(TextHook::Clear));
}

struct A(#[allow(dead_code)] u64);
struct B(#[allow(dead_code)] u64);

#[test]
fn pre_drop_registry_key_does_not_leak_across_types() {
    assert_eq!(core::mem::size_of::<A>(), core::mem::size_of::<B>());
    let mut registry: PreDropRegistry<TextHook> = PreDropRegistry::new();
    registry.register_::<A>(TextHook::Clear);

    assert!(registry.lookup_::<A>().is_some());
    assert!(registry.lookup_::<B>().is_none());
    assert!(registry.lookup_::<String>().is_none());
}

struct Borrowed<'a>(#[allow(dead_code)] PhantomData<&'a u64>);

fn lookup_borrowed<'a>(registry: &mut PreDropRegistry<TextHook>, _anchor: &'a u64) -> bool {
    registry.lookup_::<Borrowed<'a>>().is_some()
}

#[test]
fn pre_drop_registry_key_accepts_non_static_types() {
    let anchor = 1u64;
    let mut registry: PreDropRegistry<TextHook> = PreDropRegistry::new();
    registry.register_::<Borrowed<'_>>(TextHook::Clear);
    assert!(lookup_borrowed(&mut registry, &anchor));
}

#[test]
fn the_latest_hook_of_a_type_holds() {
    let mut registry: PreDropRegistry<TextHook> = PreDropRegistry::new();
    registry.register_::<A>(TextHook::Push('a'));
    registry.register_::<B>(TextHook::Push('b'));
    registry.register_::<A>(TextHook::Clear);
    assert_eq!(registry.lookup_::<A>().unwrap().hook_, Some(TextHook::Clear));
    assert_eq!(registry.lookup_::<B>().unwrap().hook_, Some(TextHook::Push('b')));
}

#[test]
fn object_level_record_overrides_type_level() {
    let mut registry: PreDropRegistry<TextHook> = PreDropRegistry::new();
    registry.register_::<String>(TextHook::Clear);
    let type_level = registry.lookup_::<String>().expect("the type was given a hook");
    let object_level = PreDropRecord::of_with(TextHook::Push('!'));

    assert_eq!(resolve_::<String, TextHook>(Some(&mut registry), None), type_level);
    assert_eq!(resolve_::<String, TextHook>(Some(&mut registry), Some(object_level)), object_level);
    assert_eq!(
        resolve_::<String, TextHook>(None, None),
        PreDropRecord::<TextHook>::of::<String>()
    );
}

static PRE_DROPPED: AtomicUsize = AtomicUsize::new(0);
static DROPPED: AtomicUsize = AtomicUsize::new(0);

struct Probe(&'static str);

impl Drop for Probe {
    fn drop(&mut self) {
        DROPPED.fetch_add(1, Ordering::AcqRel);
    }
}

#[derive(Clone, Copy)]
struct ProbeHook;

impl TrPreDrop<Probe> for ProbeHook {
    fn pre_drop(&self, probe: &mut Probe) {
        assert_eq!(probe.0, "hello");
        assert_eq!(DROPPED.load(Ordering::Acquire), 0);
        PRE_DROPPED.fetch_add(1, Ordering::AcqRel);
    }
}

#[test]
fn pre_drop_runs_before_drop_exactly_once() {
    let mut data = Probe("hello");
    let record = PreDropRecord::of_with(ProbeHook);
    record.run_(&mut data);
    drop(data);
    assert_eq!(PRE_DROPPED.load(Ordering::Acquire), 1);
    assert_eq!(DROPPED.load(Ordering::Acquire), 1);
}

#[test]
fn the_hook_that_does_nothing() {
    let mut data = 5u8;
    TrPreDrop::<u8>::pre_drop(&(), &mut data);
    assert_eq!(data, 5);
    Plain::plain_(true).run_(&mut data);
    assert_eq!(data, 5);
    assert!(!Plain::of_with(()).is_noop_());
}
