//! Weak slots, their state words, and the pools and chains that they live in.

use core::mem::{align_of, size_of};

use sw_scope::mem_::AddressSpace;
use sw_scope::ptr_::{PoolIndex, SlotPtr};
use sw_scope::weak_::chain_::WeakChain;
use sw_scope::weak_::{DataState, WeakChunk, WeakPool, WeakPoolHead};

type Pool = WeakPool<()>;

fn memory() -> AddressSpace {
    AddressSpace::new(4096, usize::MAX)
}

fn one_slot() -> WeakChunk<()> {
    let mut slots: Vec<WeakChunk<()>> = vec![WeakChunk::stack_empty_()];
    WeakChunk::init_slots(&mut slots, 1);
    slots.pop().expect("there is one slot")
}

#[test]
fn weak_chunk_size_is_type_agnostic() {
    let base_size = size_of::<WeakChunk<()>>();
    let base_align = align_of::<WeakChunk<()>>();

    assert_eq!(base_size, size_of::<WeakChunk<u8>>());
    assert_eq!(base_size, size_of::<WeakChunk<u128>>());
    assert_eq!(base_size, size_of::<WeakChunk<[u8]>>());

    assert_eq!(base_align, align_of::<WeakChunk<u8>>());
    assert_eq!(base_align, align_of::<WeakChunk<u128>>());
    assert_eq!(base_align, align_of::<WeakChunk<[u8]>>());

    assert_eq!(base_size, 48);
}

#[test]
fn weak_chunk_pool_capacity_math() {
    let slot = size_of::<WeakChunk<()>>();
    // The head is rounded up to whole slots.
    let header = size_of::<WeakPoolHead>().div_ceil(slot) * slot;
    assert_eq!(Pool::min_size_for_max_count(0), header);

    for count in [1u16, 7, 1000, PoolIndex::MAX] {
        let need = Pool::min_size_for_max_count(count);
        assert_eq!(need, header + count as usize * slot);
        assert_eq!(Pool::max_count_within_max_size(need), count as usize);
        // One byte less, one slot less.
        assert_eq!(Pool::max_count_within_max_size(need - 1), count as usize - 1);
    }

    assert_eq!(Pool::max_count_within_max_size(0), 0);
    assert_eq!(Pool::max_count_within_max_size(header), 0);
    assert_eq!(Pool::max_count_within_max_size(header - 1), 0);
    assert_eq!(Pool::max_count_within_max_size(header + slot), 1);
}

#[test]
fn weak_chunk_pool_init_builds_sequential_free_list() {
    let mut memory = memory();
    let pool = Pool::try_new_with_cell_count(4, &mut memory).unwrap();
    assert_eq!(pool.capacity(), 4);
    assert_eq!(pool.used_count(), 0);
    assert_eq!(pool.latest_free(), 0);

    let slots = pool.slots();
    assert_eq!(slots.len(), 4);
    for (i, slot) in slots.iter().enumerate() {
        assert_eq!(slot.next_freed(), (i + 1) as u16);
        assert_eq!(slot.pool_order(), i as u16);
        assert_eq!(slot.weak_count(), 0);
    }
}

#[test]
fn weak_chunk_pool_allocate_pops_free_list_head() {
    let mut memory = memory();
    let mut pool = Pool::try_new_with_cell_count(3, &mut memory).unwrap();

    for expect in 0..3u16 {
        let index = pool.allocate().expect("the pool is not full");
        assert_eq!(index, expect);
        assert_eq!(pool.slots()[index as usize].pool_order(), index);
    }
    assert_eq!(pool.used_count(), 3);
    assert_eq!(pool.free_count(), 0);
    assert_eq!(pool.allocate(), None);
    assert_eq!(pool.used_count(), 3);
    assert_eq!(pool.free_count(), 0);

    assert!(pool.deallocate(1));
    assert_eq!(pool.used_count(), 2);
    assert_eq!(pool.free_count(), 1);
    assert_eq!(pool.allocate(), Some(1));
    assert_eq!(pool.used_count(), 3);
    assert_eq!(pool.free_count(), 0);
    assert_eq!(pool.allocate(), None);
}

#[test]
fn weak_chunk_pool_reuses_returned_slots_before_virgin_ones() {
    let mut memory = memory();
    let mut pool = Pool::try_new_with_cell_count(5, &mut memory).unwrap();

    assert_eq!(pool.allocate(), Some(0));
    assert_eq!(pool.allocate(), Some(1));
    assert_eq!(pool.allocate(), Some(2));
    assert_eq!(pool.used_count(), 3);

    assert!(pool.deallocate(1));
    assert!(pool.deallocate(0));
    assert_eq!(pool.used_count(), 1);

    assert_eq!(pool.allocate(), Some(0));
    assert_eq!(pool.allocate(), Some(1));
    assert_eq!(pool.allocate(), Some(3));
    assert_eq!(pool.allocate(), Some(4));
    assert_eq!(pool.allocate(), None);
    assert_eq!(pool.used_count(), 5);
}

#[test]
fn weak_chunk_pool_deallocate_rejects_invalid_input() {
    let mut memory = memory();
    let mut pool = Pool::try_new_with_cell_count(2, &mut memory).unwrap();

    assert!(!pool.deallocate(2));
    assert!(!pool.deallocate(0));
    assert_eq!(pool.used_count(), 0);
    assert_eq!(pool.latest_free(), 0);

    let index = pool.allocate().unwrap();
    assert_eq!(index, 0);
    {
        let chunk = pool.slot_mut_at_(index);
        chunk.incr_use_count();
        chunk.incr_use_count();
        assert_eq!(chunk.weak_count(), 2);
    }
    assert!(pool.deallocate(index));
    assert_eq!(pool.used_count(), 0);
    assert_eq!(pool.slots()[index as usize].weak_count(), 0);
    assert_eq!(pool.allocate(), Some(index));
}

#[test]
fn a_slot_is_not_taken_back_twice() {
    let mut memory = memory();
    let mut pool = Pool::try_new_with_cell_count(3, &mut memory).unwrap();
    assert_eq!(pool.allocate(), Some(0));
    assert_eq!(pool.allocate(), Some(1));
    assert!(pool.deallocate(0));
    assert!(!pool.deallocate(0));
    assert_eq!(pool.used_count(), 1);
    assert_eq!(pool.allocate(), Some(0));
    assert_eq!(pool.allocate(), Some(2));
    assert_eq!(pool.allocate(), None);
}

#[test]
fn weak_chunk_pool_with_max_size_budget() {
    let mut memory = memory();
    let mut pool = Pool::try_new_with_max_size(Pool::min_size_for_max_count(8), &mut memory).unwrap();
    assert_eq!(pool.capacity(), 8);
    for expect in 0..8u16 {
        assert_eq!(pool.allocate(), Some(expect));
    }
    assert_eq!(pool.allocate(), None);

    assert!(Pool::try_new_with_max_size(0, &mut memory).is_err());
    assert!(Pool::try_new_with_max_size(Pool::min_size_for_max_count(1) - 1, &mut memory).is_err());
}

#[test]
fn a_pool_has_no_more_slots_than_can_be_numbered() {
    let mut memory = memory();
    let most = Pool::min_size_for_max_count(PoolIndex::MAX);
    assert_eq!(Pool::max_count_within_max_size(most + 48_000), 66_535);
    let mut pool = Pool::try_new_with_max_size(most + 48_000, &mut memory).unwrap();
    assert_eq!(pool.capacity(), 65_535);
    assert_eq!(pool.free_count(), 65_535);
    assert_eq!(pool.allocate(), Some(0));
    assert_eq!(Pool::try_new_with_max_size(most, &mut memory).unwrap().capacity(), 65_535);
    assert_eq!(Pool::try_new_with_max_size(most - 1, &mut memory).unwrap().capacity(), 65_534);
}

#[test]
fn a_pool_needs_slots_and_memory() {
    let mut memory = AddressSpace::new(4096, 4096 + Pool::min_size_for_max_count(3));
    assert!(Pool::try_new_with_cell_count(0, &mut memory).is_err());
    assert!(Pool::try_new_with_cell_count(4, &mut memory).is_err());
    assert!(Pool::try_new_with_cell_count(3, &mut memory).is_ok());
    assert!(Pool::try_new_with_cell_count(1, &mut memory).is_err());
}

#[test]
fn weak_chunk_pool_slot_order_is_fixed_at_construction() {
    let mut memory = memory();
    let mut pool = Pool::try_new_with_cell_count(3, &mut memory).unwrap();

    let expected: [u16; 3] = [0, 1, 2];
    for (i, slot) in pool.slots().iter().enumerate() {
        assert_eq!(slot.pool_order(), expected[i]);
    }

    assert_eq!(pool.allocate(), Some(0));
    assert_eq!(pool.allocate(), Some(1));
    assert_eq!(pool.allocate(), Some(2));
    assert!(pool.deallocate(1));
    assert!(pool.deallocate(0));
    assert_eq!(pool.allocate(), Some(0));
    assert_eq!(pool.allocate(), Some(1));

    for (i, slot) in pool.slots().iter().enumerate() {
        assert_eq!(slot.pool_order(), expected[i]);
    }
}

const TEST_CAP: u16 = 16;

/// A stream of numbers that is the same in every run.
struct OpStream {
    state: u64,
}

impl OpStream {
    fn new(seed: u64) -> Self {
        let state = if seed == 0 { 0x2545_F491_4F6C_DD1D } else { seed };
        OpStream { state }
    }

    fn next_u64(&mut self) -> u64 {
        self.state = self.state.wrapping_add(0x9E37_79B9_7F4A_7C15);
        let mut z = self.state;
        z = (z ^ (z >> 30)).wrapping_mul(0xBF58_476D_1CE4_E5B9);
        z = (z ^ (z >> 27)).wrapping_mul(0x94D0_49BB_1331_11EB);
        z ^ (z >> 31)
    }

    fn take(&mut self, len: usize) -> Vec<u64> {
        let mut v = Vec::with_capacity(len);
        for _ in 0..len {
            v.push(self.next_u64());
        }
        v
    }
}

fn new_pool(memory: &mut AddressSpace) -> Pool {
    Pool::try_new_with_cell_count(TEST_CAP, memory).expect("there is memory for the pool")
}

#[test]
fn weak_chunk_pool_chain_survives_random_alloc_and_free() {
    const POOL_NUM: usize = 4;
    const OPS: usize = 4096;
    const SEED: u64 = 0xC0FF_EE00_1234_5678;
    let cap = TEST_CAP as usize;
    assert!(cap <= 64, "one bit for each slot");

    let mut memory = memory();
    let root = 0x1_0000usize;
    let mut owners: Vec<Pool> = Vec::with_capacity(POOL_NUM);
    for _ in 0..POOL_NUM {
        owners.push(new_pool(&mut memory));
    }
    for owner in owners.iter_mut() {
        owner.set_root(root);
    }
    for i in 0..POOL_NUM - 1 {
        let (left, right) = owners.split_at_mut(i + 1);
        left[i].link_siblings(&mut right[0]);
    }

    // To begin with, each pool is half full.
    let mut allocated: Vec<u64> = vec![0u64; POOL_NUM];
    for (p, pool) in owners.iter_mut().enumerate() {
        for slot in 0..(cap / 2) {
            assert_eq!(pool.allocate(), Some(slot as PoolIndex));
            allocated[p] |= 1u64 << slot;
        }
        assert_eq!(pool.used_count() as usize, cap / 2);
    }

    let mut stream = OpStream::new(SEED);
    let ops = stream.take(OPS);
    let mut cursor = 0usize;

    for (step, op) in ops.iter().enumerate() {
        let want_free = op & (1u64 << 63) != 0;
        let selector = (*op & 0xFFFF_FFFF) as usize;

        if want_free {
            let occupied: usize = allocated.iter().map(|bits| bits.count_ones() as usize).sum();
            if occupied > 0 {
                let mut pick = selector % occupied;
                let mut target = None;
                for (p, bits) in allocated.iter().enumerate() {
                    let n = bits.count_ones() as usize;
                    if pick < n {
                        let mut seen = 0usize;
                        for s in 0..cap {
                            if bits & (1u64 << s) != 0 {
                                if seen == pick {
                                    target = Some((p, s));
                                    break;
                                }
                                seen += 1;
                            }
                        }
                        break;
                    }
                    pick -= n;
                }
                let (p, s) = target.expect("a slot was picked");
                assert!(owners[p].deallocate(s as PoolIndex), "step {step}: pool {p}, slot {s}");
                allocated[p] &= !(1u64 << s);
            }
        } else {
            for _ in 0..POOL_NUM {
                let p = cursor % POOL_NUM;
                cursor += 1;
                if let Some(slot) = owners[p].allocate() {
                    let slot = slot as usize;
                    assert!(allocated[p] & (1u64 << slot) == 0, "step {step}: pool {p}, slot {slot}");
                    allocated[p] |= 1u64 << slot;
                    break;
                }
            }
        }

        check_chain(&owners, &allocated, cap);
    }

    // In the end every free slot can be had.
    let expected_free: usize = allocated.iter().map(|bits| cap - bits.count_ones() as usize).sum();
    let mut filled = 0usize;
    loop {
        let mut progressed = false;
        for (p, pool) in owners.iter_mut().enumerate() {
            if let Some(slot) = pool.allocate() {
                let slot = slot as usize;
                assert!(allocated[p] & (1u64 << slot) == 0, "pool {p}, slot {slot}");
                allocated[p] |= 1u64 << slot;
                filled += 1;
                progressed = true;
            }
        }
        if !progressed {
            break;
        }
        check_chain(&owners, &allocated, cap);
    }
    assert_eq!(filled, expected_free);
    for (p, bits) in allocated.iter().enumerate() {
        assert_eq!(bits.count_ones() as usize, cap, "pool {p}");
    }
    for (p, pool) in owners.iter_mut().enumerate() {
        assert_eq!(pool.allocate(), None, "pool {p}");
        assert_eq!(pool.root(), Some(root), "pool {p}");
    }
}

fn check_chain(owners: &[Pool], allocated: &[u64], cap: usize) {
    let mut visited = vec![false; owners.len()];
    let mut cursor = owners[0].addr_();
    let mut walked = 0usize;
    loop {
        let index = owners.iter().position(|owner| owner.addr_() == cursor).expect("a pool of the chain");
        assert!(!visited[index], "pool {index} comes twice");
        visited[index] = true;
        walked += 1;
        match owners[index].next() {
            Some(next) => {
                let after = owners.iter().find(|owner| owner.addr_() == next).expect("a pool of the chain");
                assert_eq!(after.prev(), Some(cursor));
                cursor = next;
            }
            None => break,
        }
    }
    assert_eq!(walked, owners.len());
    assert!(owners[0].prev().is_none());

    let expected_root = owners[0].root();
    for (p, pool) in owners.iter().enumerate() {
        assert_eq!(pool.root(), expected_root);
        check_pool_invariants(pool, allocated[p], cap);
    }
}

fn check_pool_invariants(pool: &Pool, allocated: u64, cap: usize) {
    let used = allocated.count_ones() as usize;
    assert_eq!(pool.used_count() as usize, used);
    assert_eq!(pool.free_count() as usize, cap - used);

    let free_mask = !allocated & (u64::MAX >> (64 - cap));
    if used == cap {
        assert_eq!(pool.used_count(), pool.capacity());
        return;
    }

    let head = pool.latest_free();
    assert!(head < cap as PoolIndex);
    let mut visited = 0u64;
    let mut cursor = head;
    let mut steps = 0usize;
    while cursor < cap as PoolIndex {
        let bit = 1u64 << cursor;
        assert_eq!(visited & bit, 0, "slot {cursor} comes twice");
        visited |= bit;
        assert_eq!(pool.pool_order_of(cursor), cursor);
        cursor = pool.next_freed_of(cursor);
        steps += 1;
        assert!(steps <= cap);
    }
    assert_eq!(cursor as usize, cap);
    assert_eq!(visited, free_mask);
}

#[test]
fn a_slot_link_can_be_overwritten() {
    let mut memory = memory();
    let mut pool = new_pool(&mut memory);
    assert_eq!(pool.allocate(), Some(0));
    pool.set_next_freed_of(0, TEST_CAP + 4);
    assert_eq!(pool.next_freed_of(0), TEST_CAP + 4);
    assert_eq!(pool.allocate(), Some(1));
    assert!(pool.deallocate(0));
    assert_eq!(pool.next_freed_of(0), 2);
}

#[test]
fn weak_chunk_state_lock_is_exclusive_and_released_by_guard() {
    let mut chunk = one_slot();
    {
        let guard = chunk.try_lock(64).expect("the slot is free");
        assert!(chunk.try_lock(4).is_none());
        assert!(chunk.try_lock(0).is_none());
        assert!(chunk.try_acq_state_guard(0).is_none());
        assert_eq!(guard.pool_order(), 0);
        guard.release(&mut chunk);
    }
    assert!(chunk.try_lock(64).is_some());
    assert_eq!(chunk.data_state(), DataState::Reclaimed);
    assert_eq!(chunk.weak_count(), 0);
}

#[test]
fn weak_chunk_lock_busy_acquires_and_releases() {
    let mut chunk = one_slot();
    {
        let guard = chunk.lock_busy();
        assert_eq!(guard.pool_order(), 0);
        guard.release(&mut chunk);
    }
    assert!(chunk.try_lock(64).is_some());
}

#[test]
fn a_lock_leaves_state_and_count_alone() {
    let mut chunk = one_slot();
    chunk.chunk_state_.init_created();
    assert_eq!(chunk.incr_weak_count(), 1);
    let guard = chunk.try_acq_state_guard(1).expect("the slot is free");
    assert_eq!(chunk.data_state(), DataState::Created);
    assert_eq!(chunk.weak_count(), 1);
    assert_eq!(chunk.incr_use_count(), 2);
    assert_eq!(chunk.decr_use_count(), 2);
    assert!(chunk.chunk_state().is_locked());
    guard.release(&mut chunk);
    assert!(!chunk.chunk_state().is_locked());
    assert_eq!(chunk.decr_weak_count(), 0);
}

#[test]
fn weak_chunk_data_state_full_transition_path() {
    let mut chunk = one_slot();
    let state = &mut chunk.chunk_state_;

    assert_eq!(state.data_state(), DataState::Reclaimed);
    assert!(!state.data_state().is_data_alive());

    state.init_created();
    assert_eq!(state.data_state(), DataState::Created);
    assert!(state.data_state().is_data_alive());
    assert!(state.try_set_state(DataState::Owning).is_some());
    assert_eq!(state.data_state(), DataState::Owning);

    assert!(state.try_set_state(DataState::Sharing).is_none());
    assert!(state.try_transition_state(DataState::Created, DataState::Sharing).is_none());
    assert!(state.try_transition_state(DataState::Owning, DataState::Owning).is_none());

    assert_eq!(state.try_claim_destroy(), Some(DataState::Owning));
    assert_eq!(state.data_state(), DataState::Destroying);
    assert!(!state.data_state().is_data_alive());
    assert_eq!(state.try_claim_destroy(), None);

    state.mark_destroyed();
    assert_eq!(state.data_state(), DataState::Destroyed);
    state.mark_finalized();
    assert_eq!(state.data_state(), DataState::Finalized);

    assert_eq!(state.weak_count(), 0);
    assert_eq!(state.pool_order(), 0);
}

#[test]
fn only_destroyed_data_leaves_a_zombie_or_a_final_slot() {
    let mut chunk = one_slot();
    let state = &mut chunk.chunk_state_;
    state.init_created();
    assert!(!state.mark_zombie());
    assert!(!state.try_finalize_from(DataState::Destroyed));
    assert_eq!(state.data_state(), DataState::Created);
    assert_eq!(state.try_claim_destroy(), Some(DataState::Created));
    state.mark_destroyed();
    assert!(state.mark_zombie());
    assert_eq!(state.data_state(), DataState::Zombie);
    assert!(!state.data_state().is_data_alive());
    assert!(state.try_finalize_from(DataState::Zombie));
    assert_eq!(state.data_state(), DataState::Finalized);
}

#[test]
fn states_and_their_numbers_match() {
    for v in 0u8..8 {
        assert_eq!(DataState::new(v).to_code(), v);
    }
    assert_eq!(DataState::new(5), DataState::Destroyed);
}

#[test]
fn weak_pool_of_slot_reverses_to_owning_pool() {
    let mut memory = memory();
    let pools = [new_pool(&mut memory), new_pool(&mut memory)];
    assert_ne!(pools[0].addr_(), pools[1].addr_());
    for mut pool in pools {
        for _ in 0..TEST_CAP {
            pool.allocate().expect("there is a slot for each");
        }
        for index in 0..TEST_CAP {
            let slot = pool.slot_addr_(index);
            let derived = Pool::of_slot_(slot, pool.pool_order_of(index)).expect("a pool");
            assert_eq!(derived, pool.addr_());
            assert_eq!(pool.index_of_(slot), Some(index));
            assert_eq!(pool.index_of_(slot + 8), None);
        }
        assert_eq!(Pool::of_slot_(pool.addr_() + 49, 0), None);
        assert_eq!(Pool::of_slot_(8, 0), None);
        assert_eq!(pool.index_of_(pool.addr_()), None);
    }
}

#[test]
fn a_chain_grows_when_its_last_pool_is_full() {
    let mut memory = memory();
    let pool = Pool::try_new_with_cell_count(2, &mut memory).unwrap();
    let root = 64usize;
    let mut chain = WeakChain::new(pool, root);
    let a = chain.allocate_weak_(&mut memory).unwrap();
    let b = chain.allocate_weak_(&mut memory).unwrap();
    assert_eq!((a.pool_(), a.index_(), b.pool_(), b.index_()), (0, 0, 0, 1));
    let c = chain.allocate_weak_(&mut memory).unwrap();
    assert_eq!((c.pool_(), c.index_()), (1, 0));
    assert_eq!(chain.pools()[1].capacity(), 340);
    assert_eq!(chain.pools()[0].next(), Some(chain.pools()[1].addr_()));
    assert_eq!(chain.pools()[1].prev(), Some(chain.pools()[0].addr_()));
    assert_eq!(chain.of_weak_(c), Some(root));
    assert_eq!(chain.weak_pool_of_(b), Some((chain.pools()[0].addr_(), 1)));
    // Slots of an earlier pool stay unused while the last one has some.
    assert!(chain.give_back(a));
    let d = chain.allocate_weak_(&mut memory).unwrap();
    assert_eq!((d.pool_(), d.index_()), (1, 1));
    // No memory, no slot, once the last pool has none.
    let mut none = AddressSpace::new(1, 1);
    for index in 2..340 {
        let e = chain.allocate_weak_(&mut none).unwrap();
        assert_eq!((e.pool_(), e.index_()), (1, index));
    }
    assert!(chain.allocate_weak_(&mut none).is_none());
    let f = chain.allocate_weak_(&mut memory).unwrap();
    assert_eq!((f.pool_(), f.index_()), (2, 0));
}

#[test]
fn positions_tell_pool_and_slot() {
    for (pool, index, raw) in [
        (0usize, 0u16, 0u64),
        (0, 65_535, 65_535),
        (1, 0, 65_536),
        (1, 339, 65_875),
        (3, 7, 66_567),
    ] {
        let p = SlotPtr::new(pool, index);
        assert_eq!((p.pool_(), p.index_(), p.raw), (pool, index, raw));
        assert!(!p.is_null());
    }
    assert!(SlotPtr::null().is_null());
}
