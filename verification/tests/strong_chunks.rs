//! Strong chunks, how they are tied to weak slots, and the pools that they are placed in.

use core::mem::{align_of, size_of};
use core::sync::atomic::{AtomicUsize, Ordering};

use sw_scope::mem_::{AddressSpace, Layout, TrAllocator};
use sw_scope::ptr_::{ChunkPtr, SlotPtr};
use sw_scope::scope_tree_::ScopeContent;
use sw_scope::strong_::{StrongChunk, StrongChunkHead, StrongChunkHeadInfo, StrongChunkState, StrongPool};
use sw_scope::weak_::{DataState, WeakChunk};

fn make_identity() -> WeakChunk<()> {
    let mut slot: WeakChunk<()> = WeakChunk::stack_empty_();
    assert_eq!(
        slot.chunk_state_.try_transition_state(DataState::Reclaimed, DataState::Created),
        Some(DataState::Reclaimed)
    );
    slot
}

const HERE: SlotPtr = SlotPtr { raw: 3 };
const THERE: ChunkPtr = ChunkPtr { raw: 9 };

#[test]
fn strong_chunk_layout_is_compact_and_aligned() {
    assert_eq!(size_of::<StrongChunkHead>(), 16);
    assert_eq!(align_of::<StrongChunkHead>(), 8);
    assert_eq!(StrongChunkHead::base_size_(), 16);
    assert_eq!(size_of::<StrongChunkHeadInfo>(), 8);

    let weak_size = size_of::<WeakChunk<()>>();
    assert_eq!(weak_size, size_of::<WeakChunk<u8>>());
    assert_eq!(weak_size, size_of::<WeakChunk<[u8]>>());
    assert_eq!(align_of::<WeakChunk<()>>(), 8);

    assert_eq!(align_of::<StrongChunk<u64>>(), 8);
    assert_eq!(size_of::<StrongChunk<u64>>(), 16 + size_of::<u64>());
}

#[test]
fn strong_chunk_binds_identity_both_ways() {
    let mut weak = make_identity();
    let chunk = StrongChunk::init_with_(THERE, HERE, &mut weak, 0x0123_4567_89AB_CDEFu64);

    assert_eq!(chunk.weak_chunk(), Some(HERE));
    assert_eq!(weak.strong_chunk(), Some(THERE));

    assert_eq!(*chunk.try_get_data().unwrap(), 0x0123_4567_89AB_CDEF);
    assert!(chunk.is_data_alive());
    assert_eq!(chunk.strong_count(), 0);
    assert!(weak.record().is_none(), "dropping a u64 does nothing");
}

static DROPPED: AtomicUsize = AtomicUsize::new(0);

struct Probe;

impl Drop for Probe {
    fn drop(&mut self) {
        DROPPED.fetch_add(1, Ordering::AcqRel);
    }
}

#[test]
fn strong_chunk_drop_is_type_erased_but_effective() {
    let mut weak = make_identity();
    let chunk = StrongChunk::init_with_(THERE, HERE, &mut weak, Probe);

    assert!(weak.record().is_some_and(|record| !record.is_noop_()));
    assert_eq!(DROPPED.load(Ordering::Acquire), 0);
    let mut data = chunk.data_;
    weak.drop_data(&mut data);
    drop(data);
    assert_eq!(DROPPED.load(Ordering::Acquire), 1);
}

#[test]
fn strong_state_upgrade_paths() {
    let mut weak = make_identity();
    let mut chunk = StrongChunk::init_with_(THERE, HERE, &mut weak, 7u64);

    assert_eq!(weak.data_state(), DataState::Created);
    assert!(chunk.is_data_alive());
    assert_eq!(weak.try_owning(), Ok(THERE));
    assert_eq!(weak.data_state(), DataState::Owning);
    assert_eq!(weak.try_sharing(&mut chunk.chunk_head_), Err(DataState::Owning));
    assert!(chunk.is_data_alive());

    let mut weak2 = make_identity();
    let mut chunk2 = StrongChunk::init_with_(THERE, HERE, &mut weak2, 9u64);

    assert_eq!(weak2.try_sharing(&mut chunk2.chunk_head_), Ok(THERE));
    assert_eq!(weak2.data_state(), DataState::Sharing);
    assert_eq!(chunk2.strong_count(), 1);
    assert_eq!(weak2.try_owning(), Err(DataState::Sharing));
    assert_eq!(weak2.try_sharing(&mut chunk2.chunk_head_), Ok(THERE));
    assert_eq!(chunk2.strong_count(), 2);
}

#[test]
fn a_slot_without_data_cannot_be_upgraded() {
    let mut weak = make_identity();
    let mut head = StrongChunkHead::empty_(0, 0);
    assert_eq!(weak.try_owning(), Err(DataState::Created));
    assert_eq!(weak.try_sharing(&mut head), Err(DataState::Created));
    assert_eq!(head.strong_count(), 0);
}

#[test]
fn weak_state_upgrade_primitive_is_exclusive() {
    let mut weak = make_identity();
    let state = &mut weak.chunk_state_;
    state.init_created();

    assert_eq!(state.try_set_state(DataState::Owning), Some(DataState::Created));
    assert_eq!(state.data_state(), DataState::Owning);
    assert_eq!(state.try_set_state(DataState::Sharing), None);
    assert_eq!(state.data_state(), DataState::Owning);
}

#[test]
fn weak_state_sharing_path_claims_destroy_exactly_once() {
    let mut weak = make_identity();
    let state = &mut weak.chunk_state_;
    state.init_created();

    assert_eq!(state.try_set_state(DataState::Sharing), Some(DataState::Created));
    assert_eq!(state.data_state(), DataState::Sharing);
    assert_eq!(state.try_set_state(DataState::Owning), None);

    assert_eq!(state.try_claim_destroy(), Some(DataState::Sharing));
    assert_eq!(state.data_state(), DataState::Destroying);
    assert_eq!(state.try_claim_destroy(), None);

    state.mark_destroyed();
    assert_eq!(state.data_state(), DataState::Destroyed);
    state.mark_finalized();
    assert_eq!(state.data_state(), DataState::Finalized);
}

#[test]
fn strong_counts_step_by_one() {
    let mut chunk = StrongChunk::new_(5u8);
    assert_eq!(chunk.incr_strong_count(), 0);
    assert_eq!(chunk.incr_strong_count(), 1);
    assert_eq!(chunk.chunk_head_.chunk_state(), StrongChunkState::Owning);
    assert_eq!(chunk.decr_strong_count(), 1);
    assert_eq!(chunk.decr_strong_count(), 0);
    assert_eq!(chunk.chunk_head_.chunk_state(), StrongChunkState::Owning);
    *chunk.try_get_data_mut().unwrap() = 6;
    assert_eq!(chunk.try_get_data(), Some(&6));
    let mut head = StrongChunkHead::empty_(1, 2);
    for before in 0..5 {
        assert_eq!(head.incr_strong_count(), before);
        assert_eq!(head.chunk_state(), StrongChunkState::Unused);
    }
    head.mark_state_(StrongChunkState::Desert);
    assert_eq!(head.decr_strong_count(), 5);
    assert_eq!(head.incr_strong_count(), 4);
    assert_eq!(head.strong_count(), 5);
    assert_eq!(head.chunk_state(), StrongChunkState::Desert);
    assert_eq!(StrongChunkState::new(7), StrongChunkState::Desert);
    assert!(!StrongChunkState::new(4).is_data_alive());
}

#[test]
fn strong_pool_bump_allocation_is_aligned() {
    let mut memory = AddressSpace::new(4096, usize::MAX);
    let mut pool = StrongPool::<8>::try_new_(64, &mut memory, None).expect("there is memory");
    assert_eq!(pool.cell_count_(), 64);
    assert_eq!(pool.used_count_(), 0);

    let a = pool.allocate_(Layout::new(16, 8)).expect("the first block fits");
    assert_eq!(a % 8, 0);
    let first_used = pool.used_count_();

    let b = pool.allocate_(Layout::new(16, 16)).expect("the second block fits");
    assert_eq!(b % 16, 0);
    assert!(pool.used_count_() > first_used);
    assert!(pool.used_count_() <= pool.cell_count_());
    memory.deallocate(pool.addr_, StrongPool::<8>::layout_for_(64));
}

#[test]
fn strong_pool_places_blocks_behind_each_other() {
    let mut memory = AddressSpace::new(8, usize::MAX);
    let mut pool = StrongPool::<8>::try_new_(4, &mut memory, Some(3)).expect("there is memory");
    assert_eq!((pool.addr_, pool.prev_()), (8, Some(3)));
    assert_eq!(pool.memory_(), (24, 32));
    assert_eq!(pool.allocate_(Layout::new(1, 1)), Ok(24));
    // One byte uses its cell up.
    assert_eq!(pool.used_count_(), 1);
    assert_eq!(pool.free_addr_(), (32, 24));
    // Skipped bytes count as used.
    assert_eq!(pool.allocate_(Layout::new(8, 16)), Ok(32));
    assert_eq!(pool.allocate_(Layout::new(8, 64)), Err(16));
    assert_eq!(pool.allocate_(Layout::new(17, 8)), Err(16));
    assert_eq!(pool.allocate_(Layout::new(usize::MAX, 8)), Err(16));
    assert_eq!(pool.allocate_(Layout::new(16, 8)), Ok(40));
    assert_eq!(pool.allocate_(Layout::new(1, 1)), Err(0));
    assert_eq!(pool.used_count_(), 4);
    assert!(StrongPool::<8>::try_new_(0, &mut memory, None).is_err());
    let mut small = AddressSpace::new(8, 40);
    assert!(StrongPool::<8>::try_new_(4, &mut small, None).is_err());
}

#[test]
fn a_pool_is_opened_wide_enough_to_align_its_block() {
    let mut memory = AddressSpace::new(8, usize::MAX / 2);
    let mut content = ScopeContent::new();
    assert_eq!(content.allocate(Layout::new(8, 32_768), &mut memory), Ok(32_768));
    assert_eq!(content.strong_pools_.len(), 1);
    assert_eq!(content.strong_pools_[0].addr_, 8);
    assert_eq!(content.strong_pools_[0].cell_count_(), 4_096);
    // What is left of the pool is used before another is opened behind it.
    assert_eq!(content.free_size(), 16);
    assert_eq!(content.allocate(Layout::new(16, 8), &mut memory), Ok(32_776));
    assert_eq!(content.strong_pools_.len(), 1);
    assert_eq!(content.allocate(Layout::new(8, 8), &mut memory), Ok(32_808));
    assert_eq!(content.strong_pools_.len(), 2);
    assert_eq!(content.strong_pools_[1].prev_(), Some(8));
}

#[test]
fn a_block_is_refused_where_it_needs_too_many_cells() {
    let mut memory = AddressSpace::new(8, usize::MAX / 2);
    let mut content = ScopeContent::new();
    assert!(content.allocate(Layout::new(524_257, 8), &mut memory).is_err());
    assert!(content.strong_pools_.is_empty());
    assert!(content.allocate(Layout::new(usize::MAX, 8), &mut memory).is_err());
    assert!(content.allocate(Layout::new(8, 1 << 31), &mut memory).is_err());
    assert_eq!(content.allocate(Layout::new(524_256, 32), &mut memory), Ok(32));
    assert_eq!(content.strong_pools_[0].cell_count_(), 65_535);
    let mut small = AddressSpace::new(8, 4_096);
    assert!(ScopeContent::new().allocate(Layout::new(8, 8), &mut small).is_err());
}

#[test]
fn heads_keep_their_distances() {
    let mut head = StrongChunkHead::empty_(3, 5);
    assert_eq!(head.incr_strong_count(), 0);
    head.set_weak_chunk(SlotPtr::new(1, 2));
    assert_eq!(head.decr_strong_count(), 1);
    assert_eq!(head.chunk_info_.head_offset(), 3);
    assert_eq!(head.chunk_info_.next_offset(), 5);
    assert_eq!(head.weak_chunk(), Some(SlotPtr::new(1, 2)));
}

#[test]
fn layouts_follow_each_other() {
    let head = Layout::new(16, 8);
    assert_eq!(head.extend(Layout::new(4, 4)), Some((Layout::new(20, 8), 16)));
    assert_eq!(head.extend(Layout::new(4, 32)), Some((Layout::new(36, 32), 32)));
    assert_eq!(head.extend(Layout::new(usize::MAX, 1)), None);
    assert_eq!(Layout::of::<u64>(), Layout::new(8, 8));
}
