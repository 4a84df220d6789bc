use pod_buffer::alloc_api::{AllocError, Allocator, Block, Global, Layout};
use pod_buffer::pod::Pod;
use pod_buffer::raw::Bound;
use std::cell::Cell;
use std::rc::Rc;

/// Counts the calls that reach it and hands them on to the global allocator.
#[derive(Clone)]
struct Counting {
    calls: Rc<Cell<usize>>,
    releases: Rc<Cell<usize>>,
    shrinks: Rc<Cell<usize>>,
}

impl Counting {
    fn new() -> Counting {
        Counting {
            calls: Rc::new(Cell::new(0)),
            releases: Rc::new(Cell::new(0)),
            shrinks: Rc::new(Cell::new(0)),
        }
    }

    fn count(&self) {
        self.calls.set(self.calls.get() + 1);
    }
}

impl Allocator for Counting {
    fn allocate(&self, layout: Layout) -> Result<Block, AllocError> {
        self.count();
        Global.allocate(layout)
    }

    fn deallocate(&self, block: Block, layout: Layout) {
        self.count();
        self.releases.set(self.releases.get() + 1);
        Global.deallocate(block, layout)
    }

    fn grow(&self, block: &mut Block, old: Layout, new: Layout) -> Result<(), AllocError> {
        self.count();
        Global.grow(block, old, new)
    }

    fn shrink(&self, block: &mut Block, old: Layout, new: Layout) -> Result<(), AllocError> {
        self.count();
        self.shrinks.set(self.shrinks.get() + 1);
        Global.shrink(block, old, new)
    }
}

/// Refuses every request.
struct Refusing;

impl Allocator for Refusing {
    fn allocate(&self, _layout: Layout) -> Result<Block, AllocError> {
        Err(AllocError)
    }

    fn deallocate(&self, _block: Block, _layout: Layout) {
    }

    fn grow(&self, _block: &mut Block, _old: Layout, _new: Layout) -> Result<(), AllocError> {
        Err(AllocError)
    }

    fn shrink(&self, _block: &mut Block, _old: Layout, _new: Layout) -> Result<(), AllocError> {
        Err(AllocError)
    }
}

/// Serves blocks of at most `limit` bytes.
struct Limited {
    limit: usize,
}

impl Allocator for Limited {
    fn allocate(&self, layout: Layout) -> Result<Block, AllocError> {
        if layout.size() > self.limit {
            return Err(AllocError);
        }
        Global.allocate(layout)
    }

    fn deallocate(&self, block: Block, layout: Layout) {
        Global.deallocate(block, layout)
    }

    fn grow(&self, block: &mut Block, old: Layout, new: Layout) -> Result<(), AllocError> {
        if new.size() > self.limit {
            return Err(AllocError);
        }
        Global.grow(block, old, new)
    }

    fn shrink(&self, block: &mut Block, old: Layout, new: Layout) -> Result<(), AllocError> {
        Global.shrink(block, old, new)
    }
}

fn row<A: Allocator>(pod: &Pod<u32, A>) -> Vec<u32> {
    pod.uget_slice(0..pod.len())
}

fn filled(values: &[u32]) -> Pod<u32> {
    let mut pod: Pod<u32> = Pod::new();
    for v in values {
        pod.push(*v).unwrap();
    }
    pod
}

#[test]
fn new_is_empty_without_memory() {
    let pod: Pod<u32> = Pod::new();
    assert_eq!(pod.len(), 0);
    assert_eq!(pod.capacity(), 0);
    assert_eq!(pod.get(0), None);
}

#[test]
fn with_capacity_reserves_exactly() {
    let pod: Pod<u32> = Pod::with_capacity(10).unwrap();
    assert_eq!(pod.len(), 0);
    assert_eq!(pod.capacity(), 10);
}

#[test]
fn with_capacity_rejects_what_no_block_can_hold() {
    assert!(Pod::<u32>::with_capacity(usize::MAX).is_err());
    assert!(Pod::<u32>::with_capacity(usize::MAX / 4).is_err());
    assert!(Pod::<u8>::with_capacity(isize::MAX as usize + 1).is_err());
    assert!(Pod::<()>::with_capacity(usize::MAX).is_ok());
}

#[test]
fn push_remove_insert_splice() {
    let mut pod: Pod<u32> = Pod::new();
    for v in [1u32, 2, 3, 4, 5] {
        pod.push(v).unwrap();
    }
    assert_eq!(row(&pod), vec![1, 2, 3, 4, 5]);
    assert_eq!(pod.remove(2), 3);
    assert_eq!(row(&pod), vec![1, 2, 4, 5]);
    pod.insert(1, 9).unwrap();
    assert_eq!(row(&pod), vec![1, 9, 2, 4, 5]);
    pod.splice(Bound::Included(1), Bound::Excluded(3), &[7, 8, 9]).unwrap();
    assert_eq!(row(&pod), vec![1, 7, 8, 9, 4, 5]);
}

#[test]
fn pushes_then_pops_come_back_in_reverse() {
    let mut pod: Pod<u64> = Pod::new();
    for v in 0..100u64 {
        pod.push(v * 0x0101_0101_0101).unwrap();
    }
    assert_eq!(pod.len(), 100);
    for v in (0..100u64).rev() {
        assert_eq!(pod.pop(), Some(v * 0x0101_0101_0101));
    }
    assert_eq!(pod.len(), 0);
    assert_eq!(pod.pop(), None);
}

#[test]
fn pop_on_empty_gives_nothing() {
    let mut pod: Pod<u8> = Pod::new();
    assert_eq!(pod.pop(), None);
    assert_eq!(pod.len(), 0);
}

#[test]
fn len_never_exceeds_capacity() {
    let mut pod: Pod<u32> = Pod::new();
    assert!(pod.len() <= pod.capacity());
    for v in 0..40u32 {
        pod.push(v).unwrap();
        assert!(pod.len() <= pod.capacity());
    }
    pod.insert(3, 7).unwrap();
    assert!(pod.len() <= pod.capacity());
    pod.remove(0);
    assert!(pod.len() <= pod.capacity());
    pod.splice(Bound::Unbounded, Bound::Excluded(2), &[1, 2, 3, 4, 5, 6]).unwrap();
    assert!(pod.len() <= pod.capacity());
    pod.shrink_to_fit().unwrap();
    assert!(pod.len() <= pod.capacity());
    pod.push_repeat(0, 100).unwrap();
    assert!(pod.len() <= pod.capacity());
    pod.clear();
    assert!(pod.len() <= pod.capacity());
}

#[test]
fn capacity_grows_by_half() {
    let mut pod: Pod<u32> = Pod::new();
    let mut seen = Vec::new();
    for v in 0..20u32 {
        pod.push(v).unwrap();
        if seen.last() != Some(&pod.capacity()) {
            seen.push(pod.capacity());
        }
    }
    assert_eq!(seen, vec![1, 2, 3, 4, 6, 9, 13, 19, 28]);
}

#[test]
fn reserve_takes_the_larger_of_need_and_growth() {
    let mut pod = filled(&[1, 2, 3, 4, 5]);
    assert_eq!(pod.capacity(), 6);
    pod.reserve(1).unwrap();
    assert_eq!(pod.capacity(), 6);
    pod.reserve(2).unwrap();
    assert_eq!(pod.capacity(), 9);
    pod.reserve(10).unwrap();
    assert_eq!(pod.capacity(), 15);
    assert_eq!(row(&pod), vec![1, 2, 3, 4, 5]);
}

#[test]
fn reserve_fails_on_overflow_and_changes_nothing() {
    let mut pod = filled(&[1, 2, 3]);
    let capacity = pod.capacity();
    assert_eq!(pod.reserve(usize::MAX), Err(AllocError));
    assert_eq!(pod.reserve(usize::MAX / 2), Err(AllocError));
    assert_eq!(pod.capacity(), capacity);
    assert_eq!(row(&pod), vec![1, 2, 3]);
}

#[test]
fn pushes_call_the_allocator_logarithmically() {
    let alloc = Counting::new();
    let calls = alloc.calls.clone();
    let mut pod: Pod<u32, Counting> = Pod::with_allocator(alloc);
    for v in 0..1000u32 {
        pod.push(v).unwrap();
    }
    assert_eq!(pod.capacity(), 1066);
    assert_eq!(calls.get(), 18);
    let log2_of_1000 = 9;
    assert!(calls.get() <= 2 * log2_of_1000 + 2);
}

#[test]
fn push_with_room_asks_no_allocator() {
    let alloc = Counting::new();
    let calls = alloc.calls.clone();
    let mut pod: Pod<u16, Counting> = Pod::with_allocator(alloc);
    pod.reserve(8).unwrap();
    assert_eq!(calls.get(), 1);
    for v in 0..8u16 {
        pod.push(v).unwrap();
    }
    assert_eq!(calls.get(), 1);
    pod.push(8).unwrap();
    assert_eq!(calls.get(), 2);
    assert_eq!(pod.capacity(), 12);
}

#[test]
fn insert_then_remove_is_a_round_trip() {
    let mut pod = filled(&[10, 20, 30, 40]);
    for i in 0..=4usize {
        pod.insert(i, 99).unwrap();
        assert_eq!(pod.len(), 5);
        assert_eq!(pod.get(i), Some(99));
        assert_eq!(pod.remove(i), 99);
        assert_eq!(row(&pod), vec![10, 20, 30, 40]);
    }
}

#[test]
fn insert_at_both_ends() {
    let mut pod: Pod<u32> = Pod::new();
    pod.insert(0, 2).unwrap();
    pod.insert(0, 1).unwrap();
    pod.insert(2, 3).unwrap();
    assert_eq!(row(&pod), vec![1, 2, 3]);
}

#[test]
fn insert_into_full_buffer_keeps_the_tail() {
    let mut pod: Pod<u32> = Pod::with_capacity(4).unwrap();
    pod.extend_from_slice(&[1, 2, 3, 4]).unwrap();
    assert_eq!(pod.capacity(), 4);
    pod.insert(0, 0).unwrap();
    assert_eq!(row(&pod), vec![0, 1, 2, 3, 4]);
    assert_eq!(pod.capacity(), 6);
}

#[test]
fn remove_first_and_last() {
    let mut pod = filled(&[1, 2, 3, 4]);
    assert_eq!(pod.remove(0), 1);
    assert_eq!(pod.remove(2), 4);
    assert_eq!(row(&pod), vec![2, 3]);
}

#[test]
fn splice_replaces_a_range_by_more_or_fewer() {
    let mut pod = filled(&[0, 1, 2, 3, 4, 5, 6, 7]);
    pod.splice(Bound::Included(2), Bound::Excluded(5), &[20]).unwrap();
    assert_eq!(row(&pod), vec![0, 1, 20, 5, 6, 7]);
    assert_eq!(pod.len(), 8 - 3 + 1);
    pod.splice(Bound::Included(1), Bound::Included(2), &[9, 9, 9, 9, 9]).unwrap();
    assert_eq!(row(&pod), vec![0, 9, 9, 9, 9, 9, 5, 6, 7]);
    assert_eq!(pod.len(), 6 - 2 + 5);
}

#[test]
fn splice_with_every_form_of_range() {
    let mut pod = filled(&[1, 2, 3, 4]);
    pod.splice(Bound::Unbounded, Bound::Unbounded, &[5, 6]).unwrap();
    assert_eq!(row(&pod), vec![5, 6]);
    pod.splice(Bound::Included(1), Bound::Unbounded, &[7, 8, 9]).unwrap();
    assert_eq!(row(&pod), vec![5, 7, 8, 9]);
    pod.splice(Bound::Unbounded, Bound::Excluded(2), &[]).unwrap();
    assert_eq!(row(&pod), vec![8, 9]);
    pod.splice(Bound::Excluded(0), Bound::Included(1), &[1]).unwrap();
    assert_eq!(row(&pod), vec![8, 1]);
    pod.splice(Bound::Included(2), Bound::Excluded(2), &[2, 3]).unwrap();
    assert_eq!(row(&pod), vec![8, 1, 2, 3]);
}

#[test]
fn extend_from_slice_appends_in_order() {
    let mut pod = filled(&[1]);
    pod.extend_from_slice(&[2, 3, 4]).unwrap();
    pod.extend_from_slice(&[]).unwrap();
    assert_eq!(row(&pod), vec![1, 2, 3, 4]);
    assert_eq!(pod.capacity(), 4);
}

#[test]
fn push_repeat_appends_copies() {
    let mut pod = filled(&[1, 2]);
    pod.push_repeat(7, 3).unwrap();
    pod.push_repeat(8, 0).unwrap();
    assert_eq!(row(&pod), vec![1, 2, 7, 7, 7]);
}

#[test]
fn clear_keeps_the_capacity() {
    let mut pod = filled(&[1, 2, 3, 4, 5]);
    pod.clear();
    assert_eq!(pod.len(), 0);
    assert_eq!(pod.capacity(), 6);
    assert_eq!(pod.get(0), None);
}

#[test]
fn shrink_to_fit_after_removing() {
    let mut pod = filled(&[1, 2, 3, 4, 5]);
    pod.remove(1);
    pod.remove(1);
    assert_eq!(pod.capacity(), 6);
    pod.shrink_to_fit().unwrap();
    assert_eq!(pod.capacity(), pod.len());
    assert_eq!(pod.capacity(), 3);
    assert_eq!(row(&pod), vec![1, 4, 5]);
    pod.clear();
    pod.shrink_to_fit().unwrap();
    assert_eq!(pod.capacity(), 0);
}

#[test]
fn get_beyond_the_end_is_absent() {
    let pod = filled(&[1, 2, 3]);
    assert_eq!(pod.get(2), Some(3));
    assert_eq!(pod.get(pod.len()), None);
    assert_eq!(pod.get(usize::MAX), None);
    assert_eq!(pod.ptr(3), None);
    assert_eq!(pod.ptr(2), Some(8));
}

#[test]
fn get_slice_checks_the_range() {
    let pod = filled(&[1, 2, 3, 4]);
    assert_eq!(pod.get_slice(1..3), Some(vec![2, 3]));
    assert_eq!(pod.get_slice(0..4), Some(vec![1, 2, 3, 4]));
    assert_eq!(pod.get_slice(4..4), Some(vec![]));
    assert_eq!(pod.get_slice(3..5), None);
    assert_eq!(pod.get_slice(3..2), None);
    assert_eq!(pod.slice(1..3), Some((4, 2)));
    assert_eq!(pod.slice(1..5), None);
}

#[test]
fn offsets_of_elements_and_ranges() {
    let pod = filled(&[1, 2, 3, 4, 5]);
    assert_eq!(pod.u_ptr(3), 12);
    assert_eq!(pod.u_slice(2..5), (8, 3));
    assert_eq!(pod.uget(4), 5);
    assert_eq!(pod.raw_offset(6), Some(24));
    assert_eq!(pod.raw_offset(7), None);
}

#[test]
fn set_and_replace_overwrite_in_place() {
    let mut pod = filled(&[1, 2, 3]);
    pod.set(1, 20);
    assert_eq!(row(&pod), vec![1, 20, 3]);
    assert_eq!(pod.replace(2, 30), Some(3));
    assert_eq!(pod.replace(3, 40), None);
    assert_eq!(row(&pod), vec![1, 20, 30]);
}

#[test]
fn write_slice_overwrites_or_refuses() {
    let mut pod = filled(&[1, 2, 3, 4]);
    assert!(pod.write_slice(1, &[7, 8]));
    assert_eq!(row(&pod), vec![1, 7, 8, 4]);
    assert!(!pod.write_slice(3, &[9, 9]));
    assert!(!pod.write_slice(5, &[]));
    assert!(pod.write_slice(4, &[]));
    assert_eq!(row(&pod), vec![1, 7, 8, 4]);
}

#[test]
fn refusing_allocator_fails_every_growth() {
    let mut pod: Pod<u32, Refusing> = Pod::with_allocator(Refusing);
    assert_eq!(pod.push(1), Err(AllocError));
    assert_eq!(pod.insert(0, 1), Err(AllocError));
    assert_eq!(pod.extend_from_slice(&[1, 2]), Err(AllocError));
    assert_eq!(pod.push_repeat(1, 2), Err(AllocError));
    assert_eq!(pod.reserve(1), Err(AllocError));
    assert_eq!(pod.splice(Bound::Unbounded, Bound::Unbounded, &[1]), Err(AllocError));
    assert_eq!(pod.len(), 0);
    assert_eq!(pod.capacity(), 0);
    assert_eq!(pod.reserve(0), Ok(()));
    assert_eq!(pod.shrink_to_fit(), Ok(()));
}

#[test]
fn failed_growth_leaves_the_buffer_as_it_was() {
    let mut pod: Pod<u32, Limited> = Pod::with_allocator(Limited { limit: 16 });
    pod.extend_from_slice(&[1, 2, 3, 4]).unwrap();
    assert_eq!(pod.capacity(), 4);
    assert_eq!(pod.push(5), Err(AllocError));
    assert_eq!(pod.insert(2, 5), Err(AllocError));
    assert_eq!(pod.splice(Bound::Included(1), Bound::Excluded(2), &[8, 9]), Err(AllocError));
    assert_eq!(row(&pod), vec![1, 2, 3, 4]);
    assert_eq!(pod.capacity(), 4);
    pod.splice(Bound::Included(1), Bound::Excluded(3), &[8, 9]).unwrap();
    assert_eq!(row(&pod), vec![1, 8, 9, 4]);
}

#[test]
fn values_without_bytes_need_no_memory() {
    let alloc = Counting::new();
    let calls = alloc.calls.clone();
    let mut pod: Pod<(), Counting> = Pod::with_allocator(alloc);
    for _ in 0..10 {
        pod.push(()).unwrap();
    }
    assert_eq!(pod.len(), 10);
    assert_eq!(pod.capacity(), 13);
    assert!(pod.len() <= pod.capacity());
    pod.reserve(1000).unwrap();
    assert_eq!(pod.capacity(), 1010);
    assert_eq!(pod.pop(), Some(()));
    pod.shrink_to_fit().unwrap();
    assert_eq!(pod.capacity(), 9);
    pod.release();
    assert_eq!(calls.get(), 0);
}

#[test]
fn release_returns_the_memory_once() {
    let alloc = Counting::new();
    let releases = alloc.releases.clone();
    let mut pod: Pod<u32, Counting> = Pod::with_allocator(alloc);
    pod.extend_from_slice(&[1, 2, 3]).unwrap();
    let (alloc, _log) = pod.release();
    assert_eq!(releases.get(), 1);
    assert_eq!(alloc.calls.get(), 2);
}

#[test]
fn release_of_empty_buffer_calls_nothing() {
    let alloc = Counting::new();
    let pod: Pod<u32, Counting> = Pod::with_allocator(alloc);
    let (alloc, _log) = pod.release();
    assert_eq!(alloc.calls.get(), 0);
}

#[test]
fn leak_hands_out_the_block_unreleased() {
    let alloc = Counting::new();
    let releases = alloc.releases.clone();
    let mut pod: Pod<u16, Counting> = Pod::with_allocator(alloc);
    pod.extend_from_slice(&[0x0102, 0x0304]).unwrap();
    let (block, len, _log) = pod.leak();
    assert_eq!(len, 2);
    assert_eq!(releases.get(), 0);
    assert_eq!(block.into_bytes(), vec![2, 1, 4, 3]);
}

#[test]
fn try_clone_copies_into_memory_of_its_own() {
    let alloc = Counting::new();
    let calls = alloc.calls.clone();
    let mut pod: Pod<u32, Counting> = Pod::with_allocator(alloc);
    pod.extend_from_slice(&[1, 2, 3]).unwrap();
    pod.reserve(10).unwrap();
    let before = calls.get();
    let mut other = pod.try_clone().unwrap();
    assert_eq!(calls.get(), before + 1);
    assert_eq!(row(&other), vec![1, 2, 3]);
    assert_eq!(other.capacity(), 3);
    other.set(0, 9);
    pod.set(2, 7);
    assert_eq!(row(&other), vec![9, 2, 3]);
    assert_eq!(row(&pod), vec![1, 2, 7]);
}

#[test]
fn into_iter_walks_from_first_to_last() {
    let pod = filled(&[3, 1, 2]);
    let mut iter = pod.into_iter();
    assert_eq!(iter.next(), Some(3));
    assert_eq!(iter.next(), Some(1));
    assert_eq!(iter.next(), Some(2));
    assert_eq!(iter.next(), None);
    assert_eq!(iter.next(), None);
}

#[test]
fn leaked_block_is_released_with_the_layout_of_the_capacity() {
    let alloc = Counting::new();
    let releases = alloc.releases.clone();
    let handle = alloc.clone();
    let mut pod: Pod<u32, Counting> = Pod::with_allocator(alloc);
    pod.extend_from_slice(&[1, 2, 3]).unwrap();
    pod.reserve(4).unwrap();
    let capacity = pod.capacity();
    assert_eq!(capacity, 7);
    let (block, len, _log) = pod.leak();
    assert_eq!(len, 3);
    assert!(block.len() >= 4 * capacity);
    assert_eq!(releases.get(), 0);
    handle.deallocate(block, Layout::from_size_align(4 * capacity, 4).unwrap());
    assert_eq!(releases.get(), 1);
}

#[test]
fn leaked_empty_buffer_hands_out_the_sentinel() {
    let pod: Pod<u64> = Pod::new();
    let (block, len, _log) = pod.leak();
    assert_eq!(len, 0);
    assert_eq!(block.len(), 0);
}

#[test]
fn release_of_valueless_elements_calls_nothing() {
    let alloc = Counting::new();
    let mut pod: Pod<(), Counting> = Pod::with_allocator(alloc);
    pod.push_repeat((), 5).unwrap();
    let (alloc, _log) = pod.release();
    assert_eq!(alloc.calls.get(), 0);
    assert_eq!(alloc.releases.get(), 0);
}

#[test]
fn pushes_never_shrink_or_release() {
    let alloc = Counting::new();
    let releases = alloc.releases.clone();
    let shrinks = alloc.shrinks.clone();
    let mut pod: Pod<u32, Counting> = Pod::with_allocator(alloc);
    for v in 0..500u32 {
        pod.push(v).unwrap();
    }
    assert_eq!(releases.get(), 0);
    assert_eq!(shrinks.get(), 0);
}

#[test]
fn iterator_gives_the_buffer_back_for_release() {
    let alloc = Counting::new();
    let releases = alloc.releases.clone();
    let mut pod: Pod<u32, Counting> = Pod::with_allocator(alloc);
    pod.extend_from_slice(&[4, 5, 6]).unwrap();
    let mut iter = pod.into_iter();
    assert_eq!(iter.next(), Some(4));
    let pod = iter.into_pod();
    assert_eq!(row(&pod), vec![4, 5, 6]);
    assert_eq!(releases.get(), 0);
    pod.release();
    assert_eq!(releases.get(), 1);
}
