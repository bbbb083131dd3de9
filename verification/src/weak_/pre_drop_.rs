//! What to do with a value before it is destroyed: the record of one type or one object, and
//! the table of the records that types were given.

use vstd::prelude::*;

use typeid::ConstTypeId;

use crate::abs_::TrPreDrop;
use crate::atomic_::SpinMutex;

verus! {

/// `typeid::ConstTypeId`: identifies a type, whatever lifetimes it mentions.
#[verifier::external_type_specification]
#[verifier::external_body]
pub struct ExConstTypeId(ConstTypeId);

/// `typeid::ConstTypeId::of`: gives the identifier of `T`. Nothing is claimed of it here; it
/// lets [`type_key`] speak of what it returns.
pub assume_specification<T: ?Sized>[ ConstTypeId::of::<T> ]() -> (r: ConstTypeId);

/// The identifier of `T`.
pub open spec fn type_key<T: ?Sized>() -> ConstTypeId {
    choose|key: ConstTypeId| call_ensures(ConstTypeId::of::<T>, (), key)
}

/// Calls `typeid::ConstTypeId::of`. Claims that it depends on the type alone: every call for
/// the same `T` gives the same identifier. That two types have two identifiers is not claimed,
/// and does not hold of types that differ in lifetimes only.
#[verifier::external_body]
fn key_of<T: ?Sized>() -> (r: ConstTypeId)
    ensures
        r == type_key::<T>(),
{
    ConstTypeId::of::<T>()
}

/// Calls `==` on two `typeid::ConstTypeId`s. Claims that it tells them apart exactly where they
/// are different identifiers.
#[verifier::external_body]
fn same_key(a: &ConstTypeId, b: &ConstTypeId) -> (r: bool)
    ensures
        r == (*a == *b),
{
    *a == *b
}

/// `core::mem::needs_drop`: says whether dropping a `T` matters. Nothing is claimed of it here;
/// it lets [`drop_matters`] speak of what it returns.
pub assume_specification<T: ?Sized>[ core::mem::needs_drop::<T> ]() -> (r: bool);

/// Whether dropping a `T` matters.
pub open spec fn drop_matters<T: ?Sized>() -> bool {
    choose|drops: bool| call_ensures(core::mem::needs_drop::<T>, (), drops)
}

/// Calls `core::mem::needs_drop`. Claims that it depends on the type alone: every call for the
/// same `T` gives the same answer. Which answer that is for a type that has nothing to drop is
/// not claimed: it may be `true` for any type.
#[verifier::external_body]
fn needs_drop_<T: ?Sized>() -> (r: bool)
    ensures
        r == drop_matters::<T>(),
{
    core::mem::needs_drop::<T>()
}

/// What is done with a value before it goes: an optional hook runs, then the value is dropped.
///
/// All objects of a type share its record; an object that was given a hook of its own has
/// another.
#[derive(Clone, Copy, Debug, PartialEq, Eq)]
pub struct PreDropRecord<H> {
    /// Whether dropping the value does anything.
    pub drops_: bool,
    /// The hook, if there is one.
    pub hook_: Option<H>,
}

impl<H: Copy> PreDropRecord<H> {
    /// Whether a value with this record can be forgotten with nothing run.
    pub open spec fn is_noop(self) -> bool {
        !self.drops_ && self.hook_ is None
    }

    /// What the record may make of `before`.
    pub open spec fn outcome<V>(self, before: V, after: V) -> bool where H: TrPreDrop<V> {
        match self.hook_ {
            Some(hook) => hook.last_access(before, after),
            None => after == before,
        }
    }

    /// The record of a type without a hook, given whether dropping the type does anything.
    pub fn plain_(drops: bool) -> (r: Self)
        ensures
            r == (PreDropRecord::<H> { drops_: drops, hook_: None }),
    {
        PreDropRecord { drops_: drops, hook_: None }
    }

    /// The record of the type `T` without a hook.
    pub open spec fn plain<T: ?Sized>() -> Self {
        PreDropRecord { drops_: drop_matters::<T>(), hook_: None }
    }

    /// The record of the type `T` without a hook: the same at every call, and one that does
    /// nothing where dropping a `T` does not matter.
    pub fn of<T: ?Sized>() -> (r: Self)
        ensures
            r == Self::plain::<T>(),
            r.is_noop() == !drop_matters::<T>(),
    {
        Self::plain_(needs_drop_::<T>())
    }

    /// The record with the hook `hook`.
    pub open spec fn hooked(hook: H) -> Self {
        PreDropRecord { drops_: true, hook_: Some(hook) }
    }

    /// The record with the hook `hook`.
    pub fn of_with(hook: H) -> (r: Self)
        ensures
            r == Self::hooked(hook),
            !r.is_noop(),
    {
        PreDropRecord { drops_: true, hook_: Some(hook) }
    }

    pub fn is_noop_(&self) -> (r: bool)
        ensures
            r == self.is_noop(),
    {
        !self.drops_ && self.hook_.is_none()
    }

    /// Runs the hook on the value, which is then ready to be dropped.
    pub fn run_<V>(&self, data: &mut V) where H: TrPreDrop<V>
        ensures
            self.outcome(*old(data), *final(data)),
    {
        match self.hook_ {
            Some(hook) => hook.pre_drop(data),
            None => {},
        }
    }
}

/// The table's rows.
type Entries<H> = Vec<(ConstTypeId, PreDropRecord<H>)>;

/// The first entry of `entries` with the key `key`.
pub open spec fn entry_of<H>(
    entries: Seq<(ConstTypeId, PreDropRecord<H>)>,
    key: ConstTypeId,
) -> Option<PreDropRecord<H>>
    decreases entries.len(),
{
    if entries.len() == 0 {
        None
    } else if entries[0].0 == key {
        Some(entries[0].1)
    } else {
        entry_of(entries.drop_first(), key)
    }
}

proof fn lemma_entry_of<H>(
    entries: Seq<(ConstTypeId, PreDropRecord<H>)>,
    key: ConstTypeId,
    i: int,
)
    requires
        0 <= i <= entries.len(),
        forall|j: int| 0 <= j < i ==> (#[trigger] entries[j]).0 != key,
    ensures
        i < entries.len() && entries[i].0 == key ==> entry_of(entries, key) == Some(entries[i].1),
        i == entries.len() ==> entry_of(entries, key) is None,
    decreases i,
{
    if i > 0 {
        assert(entries[0].0 != key);
        assert forall|j: int| 0 <= j < i - 1 implies (#[trigger] entries.drop_first()[j]).0
            != key by {
            assert(entries.drop_first()[j] == entries[j + 1]);
        }
        lemma_entry_of(entries.drop_first(), key, i - 1);
        if i < entries.len() {
            assert(entries.drop_first()[i - 1] == entries[i]);
        }
    }
}

/// Replacing the entry at `i`, the first with its key, changes what that key gives and nothing
/// else.
proof fn lemma_entry_update<H>(
    entries: Seq<(ConstTypeId, PreDropRecord<H>)>,
    i: int,
    key: ConstTypeId,
    record: PreDropRecord<H>,
    other: ConstTypeId,
)
    requires
        0 <= i < entries.len(),
        entries[i].0 == key,
        other != key,
    ensures
        entry_of(entries.update(i, (key, record)), other) == entry_of(entries, other),
    decreases entries.len(),
{
    let next = entries.update(i, (key, record));
    if i == 0 {
        assert(next.drop_first() =~= entries.drop_first());
    } else {
        assert(next[0] == entries[0]);
        assert(next.drop_first() =~= entries.drop_first().update(i - 1, (key, record)));
        lemma_entry_update(entries.drop_first(), i - 1, key, record, other);
    }
}

proof fn lemma_entry_push<H>(
    entries: Seq<(ConstTypeId, PreDropRecord<H>)>,
    key: ConstTypeId,
    record: PreDropRecord<H>,
    other: ConstTypeId,
)
    requires
        other != key,
    ensures
        entry_of(entries.push((key, record)), other) == entry_of(entries, other),
    decreases entries.len(),
{
    let next = entries.push((key, record));
    if entries.len() == 0 {
        assert(next.drop_first() =~= entries);
    } else {
        assert(next[0] == entries[0]);
        assert(next.drop_first() =~= entries.drop_first().push((key, record)));
        lemma_entry_push(entries.drop_first(), key, record, other);
    }
}

/// Gives `key` the record `record`, in place of what it had.
fn insert_entry<H: Copy>(
    entries: &mut Entries<H>,
    key: ConstTypeId,
    record: PreDropRecord<H>,
)
    ensures
        entry_of(final(entries)@, key) == Some(record),
        forall|other: ConstTypeId|
            other != key ==> #[trigger] entry_of(final(entries)@, other) == entry_of(
                old(entries)@,
                other,
            ),
{
    let mut i: usize = 0;
    while i < entries.len()
        invariant
            i <= entries.len(),
            *entries == *old(entries),
            forall|j: int| 0 <= j < i ==> (#[trigger] entries@[j]).0 != key,
        decreases entries.len() - i,
    {
        if same_key(&entries[i].0, &key) {
            entries.set(i, (key, record));
            proof {
                lemma_entry_of(entries@, key, i as int);
                assert forall|other: ConstTypeId| other != key implies #[trigger] entry_of(
                    entries@,
                    other,
                ) == entry_of(old(entries)@, other) by {
                    lemma_entry_update(old(entries)@, i as int, key, record, other);
                }
            }
            return ;
        }
        i = i + 1;
    }
    entries.push((key, record));
    proof {
        lemma_entry_of(entries@, key, i as int);
        assert forall|other: ConstTypeId| other != key implies #[trigger] entry_of(
            entries@,
            other,
        ) == entry_of(old(entries)@, other) by {
            lemma_entry_push(old(entries)@, key, record, other);
        }
    }
}

/// The record that `key` has, if it has one.
fn find_entry<H: Copy>(
    entries: &Entries<H>,
    key: ConstTypeId,
) -> (r: Option<PreDropRecord<H>>)
    ensures
        r == entry_of(entries@, key),
{
    let mut i: usize = 0;
    while i < entries.len()
        invariant
            i <= entries.len(),
            forall|j: int| 0 <= j < i ==> (#[trigger] entries@[j]).0 != key,
        decreases entries.len() - i,
    {
        if same_key(&entries[i].0, &key) {
            proof {
                lemma_entry_of(entries@, key, i as int);
            }
            return Some(entries[i].1);
        }
        i = i + 1;
    }
    proof {
        lemma_entry_of(entries@, key, i as int);
    }
    None
}

/// The hooks that types were given, shared by a whole tree of scopes.
pub struct PreDropRegistry<H> {
    entries_: SpinMutex<Entries<H>>,
}

impl<H: Copy> PreDropRegistry<H> {
    /// Whether the table can be reached: nobody holds its lock.
    pub closed spec fn wf(&self) -> bool {
        self.entries_.quiet() && !self.entries_.taken()
    }

    /// The record that the type with the key `key` was given.
    pub closed spec fn record_of(&self, key: ConstTypeId) -> Option<PreDropRecord<H>> {
        entry_of(self.entries_.value()@, key)
    }

    pub fn new() -> (r: Self)
        ensures
            r.wf(),
            forall|key: ConstTypeId| #[trigger] r.record_of(key) is None,
    {
        PreDropRegistry { entries_: SpinMutex::new(Vec::new()) }
    }

    /// Runs `access` on the table with its lock taken.
    fn with_entries_<R, F: FnOnce(&mut Entries<H>) -> R>(
        &mut self,
        access: F,
    ) -> (r: R)
        requires
            old(self).wf(),
            forall|x: &mut Entries<H>|
                *x == old(self).entries_.value() ==> call_requires(access, (x,)),
        ensures
            final(self).wf(),
            exists|x: &mut Entries<H>| #[trigger]
                call_ensures(access, (x,), r) && *x == old(self).entries_.value() && *final(x)
                    == final(self).entries_.value(),
    {
        self.entries_.with_locked(access)
    }

    /// Gives the type `T` the hook `hook`, in place of one that it had.
    pub fn register_<T: ?Sized>(&mut self, hook: H)
        requires
            old(self).wf(),
        ensures
            final(self).wf(),
            final(self).record_of(type_key::<T>()) == Some(PreDropRecord::hooked(hook)),
            forall|other: ConstTypeId|
                other != type_key::<T>() ==> #[trigger] final(self).record_of(other) == old(self).record_of(other),
    {
        let key = key_of::<T>();
        let record = PreDropRecord::of_with(hook);
        let access = |entries: &mut Entries<H>| -> (r: ())
            ensures
                entry_of(final(entries)@, key) == Some(record),
                forall|other: ConstTypeId|
                    other != key ==> #[trigger] entry_of(final(entries)@, other) == entry_of(
                        old(entries)@,
                        other,
                    ),
        { insert_entry(entries, key, record) };
        self.with_entries_(access);
    }

    /// The record that the type `T` was given.
    pub fn lookup_<T: ?Sized>(&mut self) -> (r: Option<PreDropRecord<H>>)
        requires
            old(self).wf(),
        ensures
            final(self).wf(),
            r == old(self).record_of(type_key::<T>()),
            forall|key: ConstTypeId| #[trigger]
                final(self).record_of(key) == old(self).record_of(key),
    {
        let key = key_of::<T>();
        let access = |entries: &mut Entries<H>| -> (r: Option<PreDropRecord<H>>)
            ensures
                *final(entries) == *old(entries),
                r == entry_of(old(entries)@, key),
        { find_entry(entries, key) };
        self.with_entries_(access)
    }
}

/// The record that holds for an object: its own, else the one that its type was given, else
/// the plain one of its type.
pub open spec fn resolved<H>(
    object_level: Option<PreDropRecord<H>>,
    type_level: Option<PreDropRecord<H>>,
    plain: PreDropRecord<H>,
) -> PreDropRecord<H> {
    match object_level {
        Some(record) => record,
        None => match type_level {
            Some(record) => record,
            None => plain,
        },
    }
}

/// Picks the record that holds for an object of the type `T`.
pub fn resolve_<T, H: Copy>(
    registry: Option<&mut PreDropRegistry<H>>,
    object_level: Option<PreDropRecord<H>>,
) -> (r: PreDropRecord<H>)
    requires
        registry matches Some(table) ==> table.wf(),
    ensures
        r == resolved(
            object_level,
            match registry {
                Some(table) => table.record_of(type_key::<T>()),
                None => None,
            },
            PreDropRecord::plain::<T>(),
        ),
        registry matches Some(table) ==> final(table).wf() && forall|key: ConstTypeId| #[trigger]
            final(table).record_of(key) == table.record_of(key),
{
    if let Some(record) = object_level {
        return record;
    }
    if let Some(table) = registry {
        if let Some(record) = table.lookup_::<T>() {
            return record;
        }
    }
    PreDropRecord::of::<T>()
}

/// A record does nothing exactly where it has no hook and dropping does not matter. The record
/// that holds is the object's own, else its type's, else the plain one.
pub proof fn law_records<H: Copy>(
    own: Option<PreDropRecord<H>>,
    of_type: Option<PreDropRecord<H>>,
    plain: PreDropRecord<H>,
)
    ensures
        plain.is_noop() <==> plain.hook_ is None && !plain.drops_,
        own is Some ==> resolved(own, of_type, plain) == own->0,
        own is None && of_type is Some ==> resolved(own, of_type, plain) == of_type->0,
        own is None && of_type is None ==> resolved(own, of_type, plain) == plain,
{
}

} // verus!
