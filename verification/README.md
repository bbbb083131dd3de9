# sw-scope

A scope arena, verified with [Verus](https://github.com/verus-lang/verus).

Objects are put into scopes, and scopes form a tree. An object is reached through handles:

- `Retain` is a weak handle. It can be kept anywhere, even inside other objects, so that handles
  may form cycles. It keeps the data while nobody holds it strongly.
- `Owning` is the only strong handle of its object, like a box. It comes from a `Retain`, which it
  borrows, or straight from a scope.
- `Sharing` is one of several strong handles of its object. It borrows the `Retain` that it came
  from.

Data goes in one of two ways. When the last handle of an object is released, the data goes at
once. When a scope is emptied (`Scope::collect`), all data in it goes, whoever still points at it:
cycles and handles that were never released do not stand in the way. Either way a hook runs
first, the object's own or that of its type. A `Retain` that outlives its scope is a zombie: it
gives no strong handle any more, and its slot is not used for anything else while it is there.

Releasing the handle of a scope destroys nothing. The scope and all below it are closed, and wait;
their memory goes when nothing in them is alive and no scope is below them.

## Layout

- `src/` is the library. Its functions are verified against their contracts, but for three in
  `weak_/pre_drop_.rs` that only ask the `typeid` crate and std about a type: their contracts are
  trusted.
  - `scope_.rs`, `smart_pointer_/`, `abs_.rs`: scopes, handles and traits as callers see them.
  - `scope_tree_/`: the tree with all that is in it. `state_.rs` says what holds of it at all
    times, `laws_.rs`, `handle_laws_.rs`, `room_laws_.rs`, `order_.rs` and `step_.rs` what
    holds across operations.
  - `weak_/`, `strong_/`: weak slots and their pools, data and the pools that it is placed in.
  - `atomic_/`: locks in a bit of a word. `mem_.rs`: layouts and memory. `slab_.rs`: storage.
- `tests/` runs the library.
- `app/` is a program around it: handles that release themselves when they are dropped, objects of
  any type, and an experiment that shows with counted heap memory how objects leak from an arena
  in which nobody answers for them.

All state of a tree is in one value, a `RootScope`. Scopes and handles are tokens: their methods
take the tree, and `release` gives back what they stand for. A destroyed value is handed out after
its hook has run, and dropped by the caller. `Scope::collect` hands out all values of a scope at
once; `Scope::collect_next` hands out one, so that it can be dropped before the next hook runs.
