//! The buffer engine: length, capacity and element layout over one block of
//! memory, with growth, shrinking and moves of element ranges. It knows the
//! elements only as runs of bytes.

use crate::alloc_api::{layout_fits, AllocError, Allocator, Block, Call, CallLog, Layout};
use crate::plain::Plain;
use crate::slots::{
    lemma_move_slots, lemma_patch_slot, lemma_prefix_slots, lemma_slot_bounds, moved, slots,
};
use core::ops::Range;
use vstd::layout::size_of;
use vstd::prelude::*;

verus! {

/// The layout of one element: its size and alignment in bytes.
#[derive(Clone, Copy, Debug, PartialEq, Eq, Structural)]
pub struct DataInfo {
    /// The number of bytes that one element takes.
    pub size: usize,
    /// The alignment that the block of the elements is asked for.
    pub align: usize,
}

/// One end of a range of element indices.
#[derive(Clone, Copy, Debug, PartialEq, Eq, Structural)]
pub enum Bound {
    /// The range reaches the index and holds it.
    Included(usize),
    /// The range reaches the index and leaves it out.
    Excluded(usize),
    /// The range has no limit at this end.
    Unbounded,
}

/// Why a change of capacity did not happen.
#[derive(Clone, Copy, Debug, PartialEq, Eq, Structural)]
pub enum ReallocError {
    /// No block of the requested capacity can exist.
    Layout,
    /// The allocator refused the request.
    Refused,
}

/// What a change of capacity asks of the allocator, with the block sizes in
/// bytes.
#[derive(Clone, Copy, Debug, PartialEq, Eq, Structural)]
pub enum Request {
    /// Nothing: the block keeps its byte size.
    Nothing,
    /// A fresh block of this size.
    Allocate(usize),
    /// The release of the block, which has this size.
    Deallocate(usize),
    /// The growth of the block from the first size to the second.
    Grow(usize, usize),
    /// The shrinking of the block from the first size to the second.
    Shrink(usize, usize),
}

/// Whether `count` elements of the layout `info` can stand in one block:
/// they take no bytes at all, or their byte size is the size of a layout.
pub open spec fn block_fits(info: DataInfo, count: int) -> bool {
    info.size * count == 0 || (info.size * count <= usize::MAX && layout_fits(
        (info.size * count) as usize,
        info.align,
    ))
}

/// Fewer elements fit wherever more do.
pub proof fn lemma_block_fits_less(info: DataInfo, fewer: int, count: int)
    requires
        0 <= fewer <= count,
        block_fits(info, count),
    ensures
        block_fits(info, fewer),
{
    assert(0 <= info.size * fewer <= info.size * count) by (nonlinear_arith)
        requires
            0 <= fewer <= count,
            0 <= info.size,
    ;
}

/// The capacity that a buffer of capacity `capacity` grows to when `needed`
/// elements must fit: half as much again, or `needed` if that is more.
pub open spec fn grown_capacity(needed: int, capacity: int) -> int {
    if needed >= capacity * 3 / 2 {
        needed
    } else {
        capacity * 3 / 2
    }
}

/// The first index of the range that starts at `start`.
pub open spec fn range_start(start: Bound) -> int {
    match start {
        Bound::Included(s) => s as int,
        Bound::Excluded(s) => s + 1,
        Bound::Unbounded => 0,
    }
}

/// The index after the last of the range that ends at `end`, in a buffer of
/// `length` elements.
pub open spec fn range_end(end: Bound, length: int) -> int {
    match end {
        Bound::Included(e) => e + 1,
        Bound::Excluded(e) => e as int,
        Bound::Unbounded => length,
    }
}

/// The engine's state. The element slots `0..len` are live; the slots up to
/// the capacity are backed by the block and free to be written.
pub struct RawPod {
    data: Block,
    info: DataInfo,
    length: usize,
    capacity: usize,
    log: CallLog,
}

impl RawPod {
    /// The number of live elements.
    pub closed spec fn spec_len(&self) -> usize {
        self.length
    }

    /// The number of elements that the block has room for.
    pub closed spec fn spec_capacity(&self) -> usize {
        self.capacity
    }

    /// The layout of one element.
    pub closed spec fn info(&self) -> DataInfo {
        self.info
    }

    /// The bytes of the backing block.
    pub closed spec fn bytes(&self) -> Seq<u8> {
        self.data@
    }

    /// The calls that the engine has made to allocators so far, the first
    /// one first.
    pub closed spec fn calls(&self) -> Seq<Call> {
        self.log.calls()
    }

    /// How many calls the engine has made to allocators so far.
    pub open spec fn alloc_calls(&self) -> nat {
        self.calls().len()
    }

    /// The element slots that the block backs, each as its bytes.
    pub open spec fn slots(&self) -> Seq<Seq<u8>> {
        slots(self.bytes(), self.info().size as nat, self.spec_capacity() as nat)
    }

    /// The invariant of the engine: the live elements fit the capacity, and
    /// the block is the sentinel while the capacity takes no bytes, else a
    /// block obtained for exactly the capacity's byte size at the element's
    /// alignment.
    pub closed spec fn wf(&self) -> bool {
        &&& self.length <= self.capacity
        &&& block_fits(self.info, self.capacity as int)
        &&& self.holds(self.capacity as int)
    }

    /// The block is the one for `count` elements: the sentinel while they
    /// take no bytes, else a block obtained for exactly their byte size at
    /// the element's alignment.
    pub closed spec fn holds(&self, count: int) -> bool {
        block_for(self.data, self.info, count)
    }

    /// What making room for `needed` elements in all does to the engine
    /// besides its slots. It succeeds where the room is had without the
    /// allocator and fails where no block of the capacity to reach can
    /// exist; between the two the allocator decides. On success the capacity
    /// is `reserved_capacity(needed, capacity)`, on failure it is unchanged;
    /// either way the calls made to the allocator are `reserve_calls`.
    pub open spec fn made_room(before: Self, after: Self, needed: int, ok: bool) -> bool {
        let capacity = before.spec_capacity() as int;
        &&& after.wf()
        &&& after.info() == before.info()
        &&& after.calls() == before.calls() + reserve_calls(
            before.info(),
            needed,
            capacity,
        )
        &&& reserve_is_free(before.info(), needed, capacity) ==> ok
        &&& !can_reserve(before.info(), needed, capacity) ==> !ok
        &&& after.spec_capacity() == if ok {
            reserved_capacity(needed, capacity)
        } else {
            capacity
        }
    }

    /// The live elements never outnumber the capacity, and the capacity's
    /// bytes are all in the block.
    pub proof fn lemma_wf(&self)
        requires
            self.wf(),
        ensures
            self.spec_len() <= self.spec_capacity(),
            block_fits(self.info(), self.spec_capacity() as int),
            self.holds(self.spec_capacity() as int),
            self.info().size * self.spec_capacity() <= self.bytes().len() <= usize::MAX,
    {
        self.data.lemma_len_bounded();
    }

    /// The empty engine for elements of layout `info`: no elements, no
    /// capacity, no memory.
    pub fn new(info: DataInfo) -> (s: Self)
        ensures
            s.wf(),
            s.info() == info,
            s.spec_len() == 0,
            s.spec_capacity() == 0,
            s.calls() == Seq::<Call>::empty(),
    {
        RawPod { data: Block::dangling(), info, length: 0, capacity: 0, log: CallLog::new() }
    }

    /// Whether `start..end` is a range of live elements.
    pub fn range_is_valid(&self, start: usize, end: usize) -> (b: bool)
        ensures
            b == (start <= end && end <= self.spec_len()),
    {
        start <= end && end <= self.length
    }

    /// Turns the two ends of a range into the half-open range of indices
    /// that they describe.
    pub fn translate_range(&self, start: Bound, end: Bound) -> (r: Range<usize>)
        requires
            range_start(start) <= usize::MAX,
            range_end(end, self.spec_len() as int) <= usize::MAX,
        ensures
            r.start == range_start(start),
            r.end == range_end(end, self.spec_len() as int),
    {
        let start: usize = match start {
            Bound::Included(s) => s,
            Bound::Excluded(s) => s + 1,
            Bound::Unbounded => 0,
        };
        let end: usize = match end {
            Bound::Included(e) => e + 1,
            Bound::Excluded(e) => e,
            Bound::Unbounded => self.length,
        };
        start..end
    }

    /// The byte offset of slot `i` in the block.
    pub fn ptr(&self, i: usize) -> (offset: usize)
        requires
            self.wf(),
            i <= self.spec_capacity(),
        ensures
            offset == self.info().size * i,
    {
        proof {
            self.lemma_wf();
            assert(self.info.size * i <= self.info.size * self.capacity) by (nonlinear_arith)
                requires
                    i <= self.capacity,
            ;
        }
        self.info.size * i
    }

    /// Copies the elements of `range` to the slots that start at `to`. The
    /// two runs of slots may overlap: what arrives is what stood in `range`
    /// before the call. The length stays as it is. Returns `true`, and
    /// copies nothing, when `range` is not a range of live elements.
    pub fn copy_range(&mut self, range: Range<usize>, to: usize) -> (failed: bool)
        requires
            old(self).wf(),
            range.start <= range.end <= old(self).spec_len() ==> to + (range.end - range.start)
                <= old(self).spec_capacity(),
        ensures
            final(self).wf(),
            final(self).info() == old(self).info(),
            final(self).spec_len() == old(self).spec_len(),
            final(self).spec_capacity() == old(self).spec_capacity(),
            final(self).calls() == old(self).calls(),
            failed == !(range.start <= range.end <= old(self).spec_len()),
            failed ==> final(self).bytes() == old(self).bytes(),
            !failed ==> final(self).slots() == moved(
                old(self).slots(),
                range.start as int,
                range.end as int,
                to as int,
            ),
    {
        let start: usize = range.start;
        let end: usize = range.end;
        if !self.range_is_valid(start, end) {
            return true;
        }
        proof {
            self.lemma_wf();
            let size = self.info.size as int;
            assert(self.capacity * size == size * self.capacity) by (nonlinear_arith);
            assert(start * size == size * start) by (nonlinear_arith);
            assert(end * size == size * end) by (nonlinear_arith);
            assert(to * size == size * to) by (nonlinear_arith);
            lemma_move_slots(
                self.bytes(),
                self.info.size as nat,
                self.capacity as nat,
                start as int,
                end as int,
                to as int,
            );
            assert(self.info.size * (end - start) == self.info.size * end - self.info.size * start)
                by (nonlinear_arith);
        }
        let src: usize = self.ptr(start);
        let dest: usize = self.ptr(to);
        let copy_len: usize = end - start;
        self.data.copy_within(src, dest, self.info.size * copy_len);
        false
    }

    /// Decides what a change of the capacity to `elem_capacity` asks of the
    /// allocator: nothing where the block keeps its byte size, else the one
    /// call that takes the block from its byte size to the new one. Fails
    /// where no block of the new capacity can exist.
    pub fn request(&self, elem_capacity: usize) -> (r: Result<Request, ReallocError>)
        requires
            self.wf(),
        ensures
            r == match request_for(
                self.info(),
                self.spec_capacity() as int,
                elem_capacity as int,
            ) {
                Some(request) => Ok::<Request, ReallocError>(request),
                None => Err::<Request, ReallocError>(ReallocError::Layout),
            },
    {
        let size: usize = self.info.size;
        proof {
            self.lemma_wf();
        }
        let prev_size: usize = size * self.capacity;
        let new_size: usize = match size.checked_mul(elem_capacity) {
            Some(n) => n,
            None => {
                return Err(ReallocError::Layout);
            },
        };
        if prev_size == new_size {
            proof {
                if new_size != 0 {
                    lemma_same_count(size as int, self.capacity as int, elem_capacity as int);
                }
            }
            return Ok(Request::Nothing);
        }
        if new_size == 0 {
            return Ok(Request::Deallocate(prev_size));
        }
        if Layout::from_size_align(new_size, self.info.align).is_err() {
            return Err(ReallocError::Layout);
        }
        if prev_size == 0 {
            Ok(Request::Allocate(new_size))
        } else if new_size > prev_size {
            Ok(Request::Grow(prev_size, new_size))
        } else {
            Ok(Request::Shrink(prev_size, new_size))
        }
    }

    /// Takes in the allocator's answer to the request that a change of the
    /// capacity to `elem_capacity` made. After a refusal nothing changes and
    /// the refusal is reported. After a success, with the block for the new
    /// capacity in place, the capacity is recorded and the length is cut down
    /// to it.
    pub fn settle(&mut self, answer: Result<(), AllocError>, elem_capacity: usize) -> (r: Result<
        (),
        ReallocError,
    >)
        requires
            old(self).spec_len() <= old(self).spec_capacity(),
            match answer {
                Ok(_) => block_fits(old(self).info(), elem_capacity as int) && old(self).holds(
                    elem_capacity as int,
                ),
                Err(_) => old(self).wf(),
            },
        ensures
            final(self).wf(),
            final(self).info() == old(self).info(),
            final(self).bytes() == old(self).bytes(),
            final(self).calls() == old(self).calls(),
            r == match answer {
                Ok(_) => Ok::<(), ReallocError>(()),
                Err(_) => Err::<(), ReallocError>(ReallocError::Refused),
            },
            final(self).spec_capacity() == if answer.is_ok() {
                elem_capacity
            } else {
                old(self).spec_capacity()
            },
            final(self).spec_len() == if answer.is_ok() && elem_capacity < old(self).spec_len() {
                elem_capacity
            } else {
                old(self).spec_len()
            },
    {
        if answer.is_err() {
            return Err(ReallocError::Refused);
        }
        if elem_capacity < self.length {
            self.length = elem_capacity;
        }
        self.capacity = elem_capacity;
        Ok(())
    }

    /// Forces the capacity to exactly `elem_capacity`: makes the one call to
    /// `alloc` that `request` decides on, if any, and settles its answer.
    ///
    /// - Where the block keeps its byte size, only the capacity is recorded.
    /// - From no bytes to some, a block is allocated.
    /// - From some bytes to none, the block is released and the sentinel
    ///   takes its place.
    /// - Else the block is grown or shrunk.
    ///
    /// On success the length is cut down to the new capacity and the slots
    /// that both capacities cover keep their bytes. On failure nothing has
    /// changed.
    pub fn try_realloc(&mut self, alloc: &dyn Allocator, elem_capacity: usize) -> (r: Result<
        (),
        ReallocError,
    >)
        requires
            old(self).wf(),
        ensures
            final(self).wf(),
            final(self).info() == old(self).info(),
            final(self).calls() == old(self).calls() + realloc_calls(
                old(self).info(),
                old(self).spec_capacity() as int,
                elem_capacity as int,
            ),
            r == Err::<(), ReallocError>(ReallocError::Layout) <==> !block_fits(
                old(self).info(),
                elem_capacity as int,
            ),
            realloc_calls(
                old(self).info(),
                old(self).spec_capacity() as int,
                elem_capacity as int,
            ).len() == 0 && block_fits(old(self).info(), elem_capacity as int) ==> r.is_ok(),
            old(self).info().size * elem_capacity == 0 ==> r.is_ok(),
            r.is_ok() ==> {
                &&& final(self).spec_capacity() == elem_capacity
                &&& final(self).spec_len() == if old(self).spec_len() <= elem_capacity {
                    old(self).spec_len()
                } else {
                    elem_capacity
                }
                &&& kept_slots(*old(self), *final(self))
            },
            r.is_err() ==> {
                &&& final(self).spec_capacity() == old(self).spec_capacity()
                &&& final(self).spec_len() == old(self).spec_len()
                &&& final(self).bytes() == old(self).bytes()
            },
    {
        let request = match self.request(elem_capacity) {
            Ok(request) => request,
            Err(e) => {
                return Err(e);
            },
        };
        proof {
            self.lemma_wf();
        }
        let ghost before = *self;
        let align: usize = self.info.align;
        let answer: Result<(), AllocError> = match request {
            Request::Nothing => Ok(()),
            Request::Allocate(new_size) => {
                match Layout::from_size_align(new_size, align) {
                    Ok(layout) => {
                        match self.log.allocate(alloc, layout) {
                            Ok(block) => {
                                self.data = block;
                                Ok(())
                            },
                            Err(e) => Err(e),
                        }
                    },
                    Err(_) => Err(AllocError),
                }
            },
            Request::Deallocate(prev_size) => {
                match Layout::from_size_align(prev_size, align) {
                    Ok(layout) => {
                        proof {
                            Layout::lemma_same(layout, self.data.layout().unwrap());
                        }
                        let mut block = Block::dangling();
                        core::mem::swap(&mut self.data, &mut block);
                        self.log.deallocate(alloc, block, layout);
                        Ok(())
                    },
                    Err(_) => Err(AllocError),
                }
            },
            Request::Grow(prev_size, new_size) => {
                match (
                    Layout::from_size_align(prev_size, align),
                    Layout::from_size_align(new_size, align),
                ) {
                    (Ok(prev_layout), Ok(new_layout)) => {
                        proof {
                            Layout::lemma_same(prev_layout, self.data.layout().unwrap());
                        }
                        self.log.grow(alloc, &mut self.data, prev_layout, new_layout)
                    },
                    _ => Err(AllocError),
                }
            },
            Request::Shrink(prev_size, new_size) => {
                match (
                    Layout::from_size_align(prev_size, align),
                    Layout::from_size_align(new_size, align),
                ) {
                    (Ok(prev_layout), Ok(new_layout)) => {
                        proof {
                            Layout::lemma_same(prev_layout, self.data.layout().unwrap());
                        }
                        self.log.shrink(alloc, &mut self.data, prev_layout, new_layout)
                    },
                    _ => Err(AllocError),
                }
            },
        };
        assert(self.calls() =~= before.calls() + realloc_calls(
            before.info,
            before.capacity as int,
            elem_capacity as int,
        ));
        let r = self.settle(answer, elem_capacity);
        proof {
            if r.is_ok() {
                if request == Request::Nothing {
                    lemma_unsized(before, *self);
                } else {
                    lemma_resized(before, *self);
                }
            }
        }
        r
    }

    /// Forces the capacity to exactly `elem_capacity`, as `try_realloc`
    /// does, and reports every failure as the one allocation fault.
    pub fn realloc(&mut self, alloc: &dyn Allocator, elem_capacity: usize) -> (r: Result<
        (),
        AllocError,
    >)
        requires
            old(self).wf(),
        ensures
            final(self).wf(),
            final(self).info() == old(self).info(),
            final(self).calls() == old(self).calls() + realloc_calls(
                old(self).info(),
                old(self).spec_capacity() as int,
                elem_capacity as int,
            ),
            !block_fits(old(self).info(), elem_capacity as int) ==> r.is_err(),
            realloc_calls(
                old(self).info(),
                old(self).spec_capacity() as int,
                elem_capacity as int,
            ).len() == 0 && block_fits(old(self).info(), elem_capacity as int) ==> r.is_ok(),
            old(self).info().size * elem_capacity == 0 ==> r.is_ok(),
            r.is_ok() ==> {
                &&& final(self).spec_capacity() == elem_capacity
                &&& final(self).spec_len() == if old(self).spec_len() <= elem_capacity {
                    old(self).spec_len()
                } else {
                    elem_capacity
                }
                &&& kept_slots(*old(self), *final(self))
            },
            r.is_err() ==> {
                &&& final(self).spec_capacity() == old(self).spec_capacity()
                &&& final(self).spec_len() == old(self).spec_len()
                &&& final(self).bytes() == old(self).bytes()
            },
    {
        match self.try_realloc(alloc, elem_capacity) {
            Ok(()) => Ok(()),
            Err(_) => Err(AllocError),
        }
    }

    /// Makes room for `needed` elements in all. Where the capacity already
    /// suffices nothing is done; else the capacity grows to
    /// `grown_capacity(needed, capacity)`.
    pub fn reserve_total(&mut self, alloc: &dyn Allocator, needed: usize) -> (r: Result<
        (),
        AllocError,
    >)
        requires
            old(self).wf(),
        ensures
            Self::made_room(*old(self), *final(self), needed as int, r.is_ok()),
            final(self).spec_len() == old(self).spec_len(),
            r.is_ok() ==> final(self).spec_capacity() >= needed && final(self).slots().take(
                old(self).spec_capacity() as int,
            ) == old(self).slots(),
            r.is_err() ==> final(self).bytes() == old(self).bytes(),
    {
        proof {
            self.lemma_wf();
        }
        if needed <= self.capacity {
            assert(self.slots().take(self.capacity as int) =~= self.slots());
            return Ok(());
        }
        let geometric: usize = match self.capacity.checked_add(self.capacity / 2) {
            Some(g) => g,
            None => {
                proof {
                    lemma_geometric_overflow(self.info, self.capacity as int);
                }
                return Err(AllocError);
            },
        };
        let new_capacity: usize = if needed >= geometric {
            needed
        } else {
            geometric
        };
        proof {
            lemma_distinct_sizes(self.info, self.capacity as int, new_capacity as int);
            assert(new_capacity == reserved_capacity(needed as int, self.capacity as int));
        }
        let ghost before = *self;
        let r = self.realloc(alloc, new_capacity);
        proof {
            if r.is_ok() {
                assert(before.slots().take(before.capacity as int) =~= before.slots());
            }
        }
        r
    }

    /// Makes room for `additional` elements beyond the live ones.
    pub fn reserve_additional(&mut self, alloc: &dyn Allocator, additional: usize) -> (r: Result<
        (),
        AllocError,
    >)
        requires
            old(self).wf(),
        ensures
            Self::made_room(
                *old(self),
                *final(self),
                old(self).spec_len() + additional,
                r.is_ok(),
            ),
            final(self).spec_len() == old(self).spec_len(),
            r.is_ok() ==> final(self).spec_capacity() >= old(self).spec_len() + additional
                && final(self).slots().take(old(self).spec_capacity() as int) == old(
                self,
            ).slots(),
            r.is_err() ==> final(self).bytes() == old(self).bytes(),
    {
        proof {
            self.lemma_wf();
        }
        match self.length.checked_add(additional) {
            Some(needed) => self.reserve_total(alloc, needed),
            None => Err(AllocError),
        }
    }

    /// Prepares the replacement of the elements of `range` by `len` new ones:
    /// makes room, moves the elements behind the range to where they will
    /// stand, and sets the length. Returns the byte offset of the first of
    /// the `len` opened slots, which the caller is to fill.
    pub fn splice_ptr(&mut self, alloc: &dyn Allocator, range: Range<usize>, len: usize) -> (r:
        Result<usize, AllocError>)
        requires
            old(self).wf(),
            range.start <= range.end <= old(self).spec_len(),
        ensures
            Self::made_room(
                *old(self),
                *final(self),
                spliced_len(
                    old(self).spec_len() as int,
                    range.start as int,
                    range.end as int,
                    len as int,
                ),
                r.is_ok(),
            ),
            r matches Ok(offset) ==> {
                &&& offset == old(self).info().size * range.start
                &&& final(self).spec_len() == spliced_len(
                    old(self).spec_len() as int,
                    range.start as int,
                    range.end as int,
                    len as int,
                )
                &&& final(self).slots().take(range.start as int) == old(self).slots().take(
                    range.start as int,
                )
                &&& final(self).slots().subrange(
                    range.start + len,
                    final(self).spec_len() as int,
                ) == old(self).slots().subrange(range.end as int, old(self).spec_len() as int)
            },
            r.is_err() ==> {
                &&& final(self).spec_len() == old(self).spec_len()
                &&& final(self).bytes() == old(self).bytes()
            },
    {
        let start: usize = range.start;
        let end: usize = range.end;
        proof {
            self.lemma_wf();
        }
        let tail: usize = self.length - end;
        let copy_target: usize = match start.checked_add(len) {
            Some(t) => t,
            None => {
                return Err(AllocError);
            },
        };
        let final_len: usize = match copy_target.checked_add(tail) {
            Some(n) => n,
            None => {
                return Err(AllocError);
            },
        };
        let ghost before = *self;
        match self.reserve_total(alloc, final_len) {
            Ok(()) => {},
            Err(e) => {
                return Err(e);
            },
        }
        let ghost reserved = *self;
        self.copy_range(end..self.length, copy_target);
        self.length = final_len;
        proof {
            assert(self.slots().take(start as int) =~= before.slots().take(start as int)) by {
                assert forall|j: int| 0 <= j < start implies self.slots()[j]
                    == before.slots()[j] by {
                    assert(reserved.slots().take(before.capacity as int)[j] == reserved.slots()[j]);
                }
            }
            let moved_tail = self.slots().subrange(start + len, final_len as int);
            let old_tail = before.slots().subrange(end as int, before.length as int);
            assert(moved_tail =~= old_tail) by {
                assert forall|k: int| 0 <= k < tail implies #[trigger] moved_tail[k]
                    == old_tail[k] by {
                    assert(reserved.slots().take(before.capacity as int)[end + k]
                        == reserved.slots()[end + k]);
                }
            }
        }
        Ok(self.ptr(start))
    }

    /// The engine for elements of layout `info` with room for `capacity`
    /// elements and none live.
    pub fn with_capacity(info: DataInfo, alloc: &dyn Allocator, capacity: usize) -> (r: Result<
        Self,
        AllocError,
    >)
        ensures
            !block_fits(info, capacity as int) ==> r.is_err(),
            info.size * capacity == 0 ==> r.is_ok(),
            r matches Ok(s) ==> {
                &&& s.wf()
                &&& s.info() == info
                &&& s.spec_len() == 0
                &&& s.spec_capacity() == capacity
                &&& s.calls() == realloc_calls(info, 0, capacity as int)
            },
    {
        let mut s = Self::new(info);
        match s.realloc(alloc, capacity) {
            Ok(()) => Ok(s),
            Err(e) => Err(e),
        }
    }

    /// The number of live elements.
    #[verifier::when_used_as_spec(spec_len)]
    pub fn len(&self) -> (n: usize)
        ensures
            n == self.spec_len(),
    {
        self.length
    }

    /// The number of elements that the block has room for.
    #[verifier::when_used_as_spec(spec_capacity)]
    pub fn capacity(&self) -> (n: usize)
        ensures
            n == self.spec_capacity(),
    {
        self.capacity
    }

    /// Declares the first `length` slots live. The bytes stay as they are.
    pub fn set_len(&mut self, length: usize)
        requires
            old(self).wf(),
            length <= old(self).spec_capacity(),
        ensures
            final(self).wf(),
            final(self).info() == old(self).info(),
            final(self).spec_len() == length,
            final(self).spec_capacity() == old(self).spec_capacity(),
            final(self).bytes() == old(self).bytes(),
            final(self).slots() == old(self).slots(),
            final(self).calls() == old(self).calls(),
    {
        self.length = length;
    }

    /// Gives up the engine without a call to any allocator: hands out its
    /// block, which is still the one for the capacity, and the record of
    /// the calls made.
    pub fn into_block(self) -> (out: (Block, CallLog))
        requires
            self.wf(),
        ensures
            out.0@ == self.bytes(),
            block_for(out.0, self.info(), self.spec_capacity() as int),
            out.1.calls() == self.calls(),
    {
        (self.data, self.log)
    }

    /// Writes `value` into slot `i`.
    pub fn store<T: Plain>(&mut self, i: usize, value: T)
        requires
            old(self).wf(),
            i < old(self).spec_capacity(),
            old(self).info().size == size_of::<T>(),
        ensures
            final(self).wf(),
            final(self).info() == old(self).info(),
            final(self).spec_len() == old(self).spec_len(),
            final(self).spec_capacity() == old(self).spec_capacity(),
            final(self).calls() == old(self).calls(),
            final(self).slots() == old(self).slots().update(i as int, value.encode()),
    {
        let offset: usize = self.ptr(i);
        proof {
            self.lemma_wf();
            value.lemma_round_trip();
            let size = self.info.size as nat;
            assert(self.capacity * size == size * self.capacity) by (nonlinear_arith);
            assert(i * size == size * i) by (nonlinear_arith);
            lemma_slot_bounds(size, i as int, self.capacity as nat);
            lemma_patch_slot(self.bytes(), size, self.capacity as nat, i as int, value.encode());
        }
        value.store(&mut self.data, offset);
    }

    /// Reads the value that stands in slot `i`.
    pub fn load<T: Plain>(&self, i: usize) -> (value: T)
        requires
            self.wf(),
            i < self.spec_capacity(),
            self.info().size == size_of::<T>(),
        ensures
            value == T::decode(self.slots()[i as int]),
    {
        let offset: usize = self.ptr(i);
        proof {
            self.lemma_wf();
            let size = self.info.size as nat;
            assert(self.capacity * size == size * self.capacity) by (nonlinear_arith);
            assert(i * size == size * i) by (nonlinear_arith);
            lemma_slot_bounds(size, i as int, self.capacity as nat);
        }
        T::load(&self.data, offset)
    }
}

/// What the change of the capacity from `capacity` to `elem_capacity` asks
/// of the allocator, if a block of the new capacity can exist.
pub open spec fn request_for(info: DataInfo, capacity: int, elem_capacity: int) -> Option<
    Request,
> {
    let prev_size = info.size * capacity;
    let new_size = info.size * elem_capacity;
    if !block_fits(info, elem_capacity) {
        None
    } else if prev_size == new_size {
        Some(Request::Nothing)
    } else if new_size == 0 {
        Some(Request::Deallocate(prev_size as usize))
    } else if prev_size == 0 {
        Some(Request::Allocate(new_size as usize))
    } else if new_size > prev_size {
        Some(Request::Grow(prev_size as usize, new_size as usize))
    } else {
        Some(Request::Shrink(prev_size as usize, new_size as usize))
    }
}

/// The calls to the allocator that a change of capacity from `capacity` to
/// `elem_capacity` makes: the one that `request_for` names, with the byte
/// sizes at the element's alignment as layouts; none where the block keeps
/// its byte size or no block of the new capacity can exist.
pub open spec fn realloc_calls(info: DataInfo, capacity: int, elem_capacity: int) -> Seq<Call> {
    match request_for(info, capacity, elem_capacity) {
        Some(Request::Allocate(new_size)) => seq![Call::Allocate((new_size, info.align))],
        Some(Request::Deallocate(prev_size)) => seq![Call::Deallocate((prev_size, info.align))],
        Some(Request::Grow(prev_size, new_size)) => seq![
            Call::Grow((prev_size, info.align), (new_size, info.align)),
        ],
        Some(Request::Shrink(prev_size, new_size)) => seq![
            Call::Shrink((prev_size, info.align), (new_size, info.align)),
        ],
        _ => Seq::empty(),
    }
}

/// Whether `block` is the one for `count` elements of the layout `info`:
/// the sentinel while they take no bytes, else a block obtained for exactly
/// their byte size at the element's alignment.
pub open spec fn block_for(block: Block, info: DataInfo, count: int) -> bool {
    if info.size * count == 0 {
        block.is_dangling()
    } else {
        &&& block.layout() matches Some(l)
        &&& l.size() == info.size * count
        &&& l.align() == info.align
        &&& block@.len() >= l.size()
    }
}

/// The slots that both `before` and `after` have room for hold the same
/// bytes in both.
pub open spec fn kept_slots(before: RawPod, after: RawPod) -> bool {
    let shared = if before.spec_capacity() <= after.spec_capacity() {
        before.spec_capacity() as int
    } else {
        after.spec_capacity() as int
    };
    after.slots().take(shared) == before.slots().take(shared)
}

proof fn lemma_same_count(size: int, a: int, b: int)
    requires
        size * a == size * b,
        size * a != 0,
    ensures
        a == b,
{
    assert(a == b) by (nonlinear_arith)
        requires
            size * a == size * b,
            size * a != 0,
    ;
}

proof fn lemma_unsized(before: RawPod, after: RawPod)
    requires
        before.info == after.info,
        before.data@ == after.data@,
        before.info.size * before.capacity == before.info.size * after.capacity,
    ensures
        kept_slots(before, after),
{
    let shared = if before.capacity <= after.capacity {
        before.capacity as int
    } else {
        after.capacity as int
    };
    assert(after.slots().take(shared) =~= before.slots().take(shared));
}

proof fn lemma_resized(before: RawPod, after: RawPod)
    requires
        before.info == after.info,
        before.info.size * before.capacity != before.info.size * after.capacity,
        before.info.size * before.capacity <= before.data@.len(),
        before.info.size * after.capacity <= after.data@.len(),
        before.info.size * before.capacity > 0 && before.info.size * after.capacity > 0 ==> {
            let least = if before.info.size * before.capacity <= before.info.size
                * after.capacity {
                before.info.size * before.capacity
            } else {
                before.info.size * after.capacity
            };
            after.data@.take(least) == before.data@.take(least)
        },
    ensures
        kept_slots(before, after),
{
    let size = before.info.size as nat;
    let shared: nat = if before.capacity <= after.capacity {
        before.capacity as nat
    } else {
        after.capacity as nat
    };
    if before.info.size * before.capacity > 0 && before.info.size * after.capacity > 0 {
        assert(size > 0) by (nonlinear_arith)
            requires
                size * before.capacity > 0,
        ;
        assert(before.capacity * size == size * before.capacity) by (nonlinear_arith);
        assert(after.capacity * size == size * after.capacity) by (nonlinear_arith);
        assert(shared * size == size * shared) by (nonlinear_arith);
        assert(before.capacity <= after.capacity <==> size * before.capacity <= size
            * after.capacity) by (nonlinear_arith)
            requires
                size > 0,
        ;
        lemma_prefix_slots(after.data@, before.data@, size, shared);
        assert(after.slots().take(shared as int) =~= slots(after.data@, size, shared));
        assert(before.slots().take(shared as int) =~= slots(before.data@, size, shared));
    } else {
        assert(shared == 0) by (nonlinear_arith)
            requires
                size * before.capacity != size * after.capacity,
                size * before.capacity == 0 || size * after.capacity == 0,
                shared == before.capacity || shared == after.capacity,
                shared <= before.capacity,
                shared <= after.capacity,
        ;
        assert(after.slots().take(shared as int) =~= before.slots().take(shared as int));
    }
}

/// The length of a buffer of `length` elements after the elements
/// `start..end` were replaced by `len` new ones.
pub open spec fn spliced_len(length: int, start: int, end: int, len: int) -> int {
    start + len + (length - end)
}

/// The capacity after room for `needed` elements was made in a buffer of
/// capacity `capacity`.
pub open spec fn reserved_capacity(needed: int, capacity: int) -> int {
    if needed <= capacity {
        capacity
    } else {
        grown_capacity(needed, capacity)
    }
}

/// Whether room for `needed` elements can be made at all in a buffer of
/// capacity `capacity`: the capacity to reach is a count that a block can
/// hold.
pub open spec fn can_reserve(info: DataInfo, needed: int, capacity: int) -> bool {
    reserved_capacity(needed, capacity) <= usize::MAX && block_fits(
        info,
        reserved_capacity(needed, capacity),
    )
}

/// Whether making room for `needed` elements asks nothing of the allocator,
/// so that it cannot fail: the room is there already, or the elements take
/// no bytes and the capacity to reach is a count of the machine.
pub open spec fn reserve_is_free(info: DataInfo, needed: int, capacity: int) -> bool {
    needed <= capacity || (info.size == 0 && grown_capacity(needed, capacity) <= usize::MAX)
}

/// The calls to the allocator that making room for `needed` elements takes
/// in a buffer of capacity `capacity`: those of the change to the capacity
/// to reach, where the buffer must grow; else none.
pub open spec fn reserve_calls(info: DataInfo, needed: int, capacity: int) -> Seq<Call> {
    if needed > capacity && reserved_capacity(needed, capacity) <= usize::MAX {
        realloc_calls(info, capacity, reserved_capacity(needed, capacity))
    } else {
        Seq::empty()
    }
}

proof fn lemma_geometric_overflow(info: DataInfo, capacity: int)
    requires
        0 <= capacity <= usize::MAX,
        capacity + capacity / 2 > usize::MAX,
        block_fits(info, capacity),
    ensures
        capacity * 3 / 2 > usize::MAX,
        info.size == 0,
{
    if info.size > 0 {
        assert(info.size * capacity >= capacity) by (nonlinear_arith)
            requires
                info.size >= 1,
                capacity >= 0,
        ;
    }
}

proof fn lemma_distinct_sizes(info: DataInfo, capacity: int, new_capacity: int)
    requires
        0 <= capacity < new_capacity,
    ensures
        info.size > 0 <==> info.size * capacity != info.size * new_capacity,
{
    if info.size > 0 {
        assert(info.size * capacity < info.size * new_capacity) by (nonlinear_arith)
            requires
                info.size > 0,
                0 <= capacity < new_capacity,
        ;
    } else {
        assert(info.size * capacity == info.size * new_capacity) by (nonlinear_arith)
            requires
                info.size == 0,
        ;
    }
}

} // verus!
