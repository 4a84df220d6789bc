//! The typed buffer: a growable row of plain values over the byte engine and
//! an allocator of its own.

use crate::alloc_api::{AllocError, Allocator, Block, Call, CallLog, Global};
use crate::plain::Plain;
use crate::raw::{
    block_fits, block_for, can_reserve, lemma_block_fits_less, range_end, range_start,
    realloc_calls, reserve_calls, reserve_is_free, reserved_capacity, spliced_len, Bound,
    DataInfo, RawPod,
};
use core::marker::PhantomData;
use core::ops::Range;
use vstd::layout::{align_of, size_of};
use vstd::prelude::*;

verus! {

/// The layout of one element of type `T`.
pub open spec fn info_of<T>() -> DataInfo {
    DataInfo { size: size_of::<T>() as usize, align: align_of::<T>() as usize }
}

/// A growable buffer of plain values. Its view is the row of its live
/// elements.
pub struct Pod<T: Copy + Plain, A: Allocator = Global> {
    raw: RawPod,
    allocator: A,
    phantom: PhantomData<T>,
}

impl<T: Copy + Plain, A: Allocator> View for Pod<T, A> {
    type V = Seq<T>;

    /// The live elements, each read back from its bytes.
    closed spec fn view(&self) -> Seq<T> {
        Seq::new(self.raw.spec_len() as nat, |i: int| T::decode(self.raw.slots()[i]))
    }
}

impl<T: Copy + Plain> Pod<T, Global> {
    /// The empty buffer on the process-wide allocator.
    pub fn new() -> (s: Self)
        ensures
            s.wf(),
            s@ == Seq::<T>::empty(),
            s.spec_capacity() == 0,
            s.calls() == Seq::<Call>::empty(),
            s.allocator() == Global,
    {
        Self::with_allocator(Global)
    }

    /// The empty buffer with room for `capacity` elements, on the
    /// process-wide allocator.
    pub fn with_capacity(capacity: usize) -> (r: Result<Self, AllocError>)
        ensures
            !block_fits(info_of::<T>(), capacity as int) ==> r.is_err(),
            size_of::<T>() * capacity == 0 ==> r.is_ok(),
            r matches Ok(s) ==> {
                &&& s.wf()
                &&& s@ == Seq::<T>::empty()
                &&& s.spec_capacity() == capacity
                &&& s.calls() == realloc_calls(info_of::<T>(), 0, capacity as int)
            },
    {
        let mut s = Self::new();
        match s.raw.realloc(&Global, capacity) {
            Ok(()) => {
                assert(s@ =~= Seq::<T>::empty());
                Ok(s)
            },
            Err(e) => Err(e),
        }
    }
}

impl<T: Copy + Plain, A: Allocator> Pod<T, A> {
    /// The invariant of the buffer: the engine's own, for the layout of `T`.
    pub closed spec fn wf(&self) -> bool {
        &&& self.raw.wf()
        &&& self.raw.info() == info_of::<T>()
        &&& self.raw.info().size == size_of::<T>()
    }

    /// The number of elements that the buffer has room for.
    pub closed spec fn spec_capacity(&self) -> usize {
        self.raw.spec_capacity()
    }

    /// How many calls the buffer has made to its allocator so far.
    pub open spec fn alloc_calls(&self) -> nat {
        self.calls().len()
    }

    /// The calls that the buffer has made to its allocator so far, the
    /// first one first.
    pub closed spec fn calls(&self) -> Seq<Call> {
        self.raw.calls()
    }

    /// The allocator that the buffer draws on.
    pub closed spec fn allocator(&self) -> A {
        self.allocator
    }

    /// What an operation that makes room for `needed` elements in all does
    /// to the buffer besides its elements. It succeeds where the room is had
    /// without the allocator and fails where no block of the capacity to
    /// reach can exist; between the two the allocator decides. On success the
    /// capacity is `reserved_capacity(needed, capacity)`, on failure it is
    /// unchanged; either way the calls made to the allocator are
    /// `reserve_calls`.
    pub open spec fn made_room(before: Self, after: Self, needed: int, ok: bool) -> bool {
        let capacity = before.spec_capacity() as int;
        &&& after.wf()
        &&& after.allocator() == before.allocator()
        &&& after.calls() == before.calls() + reserve_calls(
            info_of::<T>(),
            needed,
            capacity,
        )
        &&& reserve_is_free(info_of::<T>(), needed, capacity) ==> ok
        &&& !can_reserve(info_of::<T>(), needed, capacity) ==> !ok
        &&& after.spec_capacity() == if ok {
            reserved_capacity(needed, capacity)
        } else {
            capacity
        }
    }

    /// The elements never outnumber the capacity.
    pub proof fn lemma_len_le_capacity(&self)
        requires
            self.wf(),
        ensures
            self@.len() <= self.spec_capacity(),
    {
        self.raw.lemma_wf();
    }

    /// The empty buffer on `allocator`. No memory is obtained yet.
    pub fn with_allocator(allocator: A) -> (s: Self)
        ensures
            s.wf(),
            s@ == Seq::<T>::empty(),
            s.spec_capacity() == 0,
            s.calls() == Seq::<Call>::empty(),
            s.allocator() == allocator,
    {
        let info = DataInfo { size: core::mem::size_of::<T>(), align: core::mem::align_of::<T>() };
        let s = Pod { raw: RawPod::new(info), allocator, phantom: PhantomData };
        assert(s@ =~= Seq::<T>::empty());
        s
    }

    /// The number of elements that the buffer has room for.
    #[verifier::when_used_as_spec(spec_capacity)]
    pub fn capacity(&self) -> (n: usize)
        ensures
            n == self.spec_capacity(),
    {
        self.raw.capacity()
    }

    /// The number of live elements.
    pub fn len(&self) -> (n: usize)
        requires
            self.wf(),
        ensures
            n == self@.len(),
    {
        self.raw.len()
    }

    /// Appends `t`.
    pub fn push(&mut self, t: T) -> (r: Result<(), AllocError>)
        requires
            old(self).wf(),
        ensures
            Self::made_room(*old(self), *final(self), old(self)@.len() + 1int, r.is_ok()),
            final(self)@ == if r.is_ok() {
                old(self)@.push(t)
            } else {
                old(self)@
            },
    {
        let ghost before = self.raw;
        match self.raw.reserve_additional(&self.allocator, 1) {
            Ok(()) => {},
            Err(e) => {
                assert(self@ =~= old(self)@);
                return Err(e);
            },
        }
        let len: usize = self.raw.len();
        let ghost reserved = self.raw;
        self.raw.store(len, t);
        self.raw.set_len(len + 1);
        proof {
            t.lemma_round_trip();
            before.lemma_wf();
            lemma_kept(before, reserved);
            assert(self@ =~= old(self)@.push(t));
        }
        Ok(())
    }

    /// Takes the last element off, if there is one.
    pub fn pop(&mut self) -> (r: Option<T>)
        requires
            old(self).wf(),
        ensures
            final(self).wf(),
            final(self).allocator() == old(self).allocator(),
            final(self).spec_capacity() == old(self).spec_capacity(),
            final(self).calls() == old(self).calls(),
            match r {
                Some(t) => old(self)@.len() > 0 && t == old(self)@.last() && final(self)@ == old(
                    self,
                )@.drop_last(),
                None => old(self)@.len() == 0 && final(self)@ == old(self)@,
            },
    {
        let len: usize = self.raw.len();
        if len == 0 {
            return None;
        }
        proof {
            self.raw.lemma_wf();
        }
        let t: T = self.raw.load(len - 1);
        self.raw.set_len(len - 1);
        assert(self@ =~= old(self)@.drop_last());
        Some(t)
    }

    /// Forgets every element. The capacity stays.
    pub fn clear(&mut self)
        requires
            old(self).wf(),
        ensures
            final(self).wf(),
            final(self).allocator() == old(self).allocator(),
            final(self)@ == Seq::<T>::empty(),
            final(self).spec_capacity() == old(self).spec_capacity(),
            final(self).calls() == old(self).calls(),
    {
        self.raw.set_len(0);
        assert(self@ =~= Seq::<T>::empty());
    }

    /// Puts `value` at position `i` and moves the elements from `i` on one
    /// place up.
    pub fn insert(&mut self, i: usize, value: T) -> (r: Result<(), AllocError>)
        requires
            old(self).wf(),
            i <= old(self)@.len(),
        ensures
            Self::made_room(*old(self), *final(self), old(self)@.len() + 1int, r.is_ok()),
            final(self)@ == if r.is_ok() {
                old(self)@.insert(i as int, value)
            } else {
                old(self)@
            },
    {
        let ghost before = self.raw;
        proof {
            before.lemma_wf();
        }
        match self.raw.reserve_additional(&self.allocator, 1) {
            Ok(()) => {},
            Err(e) => {
                assert(self@ =~= old(self)@);
                return Err(e);
            },
        }
        let len: usize = self.raw.len();
        let ghost reserved = self.raw;
        self.raw.copy_range(i..len, i + 1);
        self.raw.set_len(len + 1);
        self.raw.store(i, value);
        proof {
            value.lemma_round_trip();
            lemma_kept(before, reserved);
            assert(self@ =~= old(self)@.insert(i as int, value));
        }
        Ok(())
    }

    /// Takes the element at position `i` out and moves the elements behind
    /// it one place down.
    pub fn remove(&mut self, i: usize) -> (value: T)
        requires
            old(self).wf(),
            i < old(self)@.len(),
        ensures
            final(self).wf(),
            final(self).allocator() == old(self).allocator(),
            final(self).spec_capacity() == old(self).spec_capacity(),
            final(self).calls() == old(self).calls(),
            value == old(self)@[i as int],
            final(self)@ == old(self)@.remove(i as int),
    {
        proof {
            self.raw.lemma_wf();
        }
        let value: T = self.raw.load(i);
        let len: usize = self.raw.len();
        self.raw.copy_range((i + 1)..len, i);
        self.raw.set_len(len - 1);
        assert(self@ =~= old(self)@.remove(i as int));
        value
    }

    /// Makes room for `additional` elements beyond the live ones.
    pub fn reserve(&mut self, additional: usize) -> (r: Result<(), AllocError>)
        requires
            old(self).wf(),
        ensures
            Self::made_room(*old(self), *final(self), old(self)@.len() + additional, r.is_ok()),
            final(self)@ == old(self)@,
            r.is_ok() ==> final(self).spec_capacity() >= old(self)@.len() + additional,
    {
        let ghost before = self.raw;
        proof {
            before.lemma_wf();
        }
        let r = self.raw.reserve_additional(&self.allocator, additional);
        proof {
            if r.is_ok() {
                lemma_kept(before, self.raw);
            }
            assert(self@ =~= old(self)@);
        }
        r
    }

    /// Gives back the room that no live element takes.
    pub fn shrink_to_fit(&mut self) -> (r: Result<(), AllocError>)
        requires
            old(self).wf(),
        ensures
            final(self).wf(),
            final(self).allocator() == old(self).allocator(),
            final(self)@ == old(self)@,
            final(self).calls() == old(self).calls() + realloc_calls(
                info_of::<T>(),
                old(self).spec_capacity() as int,
                old(self)@.len() as int,
            ),
            old(self)@.len() == old(self).spec_capacity() || old(self)@.len() == 0
                || size_of::<T>() == 0 ==> r.is_ok(),
            r.is_ok() ==> final(self).spec_capacity() == old(self)@.len(),
            r.is_err() ==> final(self).spec_capacity() == old(self).spec_capacity(),
    {
        let ghost before = self.raw;
        proof {
            before.lemma_wf();
            lemma_block_fits_less(
                info_of::<T>(),
                before.spec_len() as int,
                before.spec_capacity() as int,
            );
            if size_of::<T>() == 0 || self.raw.spec_len() == 0 {
                assert(self.raw.info().size * self.raw.spec_len() == 0) by (nonlinear_arith)
                    requires
                        self.raw.info().size == 0 || self.raw.spec_len() == 0,
                ;
            }
        }
        let len: usize = self.raw.len();
        let r = self.raw.realloc(&self.allocator, len);
        proof {
            if r.is_ok() {
                assert forall|j: int| 0 <= j < len implies self.raw.slots()[j]
                    == before.slots()[j] by {
                    assert(self.raw.slots()[j] == self.raw.slots().take(len as int)[j]);
                    assert(before.slots()[j] == before.slots().take(len as int)[j]);
                }
            }
            assert(self@ =~= old(self)@);
        }
        r
    }

    /// Appends the elements of `data`, in their order.
    pub fn extend_from_slice(&mut self, data: &[T]) -> (r: Result<(), AllocError>)
        requires
            old(self).wf(),
        ensures
            Self::made_room(
                *old(self),
                *final(self),
                (old(self)@.len() + data@.len()) as int,
                r.is_ok(),
            ),
            final(self)@ == if r.is_ok() {
                old(self)@ + data@
            } else {
                old(self)@
            },
    {
        let ghost before = self.raw;
        proof {
            before.lemma_wf();
        }
        let count: usize = data.len();
        match self.raw.reserve_additional(&self.allocator, count) {
            Ok(()) => {},
            Err(e) => {
                assert(self@ =~= old(self)@);
                return Err(e);
            },
        }
        let len: usize = self.raw.len();
        let ghost reserved = self.raw;
        self.fill_from(len, data);
        self.raw.set_len(len + count);
        proof {
            lemma_kept(before, reserved);
            let joined = old(self)@ + data@;
            assert forall|j: int| 0 <= j < len + count implies self@[j] == joined[j] by {
                if j >= len {
                    data@[j - len].lemma_round_trip();
                }
            }
            assert(self@ =~= joined);
        }
        Ok(())
    }

    /// Writes the elements of `data` into the slots that start at `at`.
    /// Neither the length nor any other slot changes.
    fn fill_from(&mut self, at: usize, data: &[T])
        requires
            old(self).wf(),
            at + data@.len() <= old(self).spec_capacity(),
        ensures
            final(self).wf(),
            final(self).allocator() == old(self).allocator(),
            final(self).raw.spec_len() == old(self).raw.spec_len(),
            final(self).spec_capacity() == old(self).spec_capacity(),
            final(self).calls() == old(self).calls(),
            final(self).raw.slots().len() == old(self).raw.slots().len(),
            forall|j: int|
                0 <= j < old(self).spec_capacity() ==> #[trigger] final(self).raw.slots()[j]
                    == if at <= j < at + data@.len() {
                    data@[j - at].encode()
                } else {
                    old(self).raw.slots()[j]
                },
    {
        let count: usize = data.len();
        let mut k: usize = 0;
        while k < count
            invariant
                k <= count,
                count == data@.len(),
                at + count <= self.spec_capacity(),
                self.wf(),
                self.allocator() == old(self).allocator(),
                self.raw.spec_len() == old(self).raw.spec_len(),
                self.spec_capacity() == old(self).spec_capacity(),
                self.calls() == old(self).calls(),
                forall|j: int|
                    0 <= j < self.spec_capacity() ==> #[trigger] self.raw.slots()[j] == if at <= j
                        < at + k {
                        data@[j - at].encode()
                    } else {
                        old(self).raw.slots()[j]
                    },
            decreases count - k,
        {
            self.raw.store(at + k, data[k]);
            k = k + 1;
        }
    }

    /// Appends `repeat` copies of `t`.
    pub fn push_repeat(&mut self, t: T, repeat: usize) -> (r: Result<(), AllocError>)
        requires
            old(self).wf(),
        ensures
            Self::made_room(*old(self), *final(self), old(self)@.len() + repeat, r.is_ok()),
            final(self)@ == if r.is_ok() {
                old(self)@ + Seq::new(repeat as nat, |i: int| t)
            } else {
                old(self)@
            },
    {
        let ghost before = self.raw;
        proof {
            before.lemma_wf();
        }
        match self.raw.reserve_additional(&self.allocator, repeat) {
            Ok(()) => {},
            Err(e) => {
                assert(self@ =~= old(self)@);
                return Err(e);
            },
        }
        let len: usize = self.raw.len();
        let ghost reserved = self.raw;
        let mut k: usize = 0;
        while k < repeat
            invariant
                k <= repeat,
                len == reserved.spec_len(),
                len + repeat <= self.spec_capacity(),
                self.wf(),
                self.allocator() == old(self).allocator(),
                self.raw.spec_len() == reserved.spec_len(),
                self.raw.spec_capacity() == reserved.spec_capacity(),
                self.raw.calls() == reserved.calls(),
                forall|j: int|
                    0 <= j < self.spec_capacity() ==> #[trigger] self.raw.slots()[j] == if len <= j
                        < len + k {
                        t.encode()
                    } else {
                        reserved.slots()[j]
                    },
            decreases repeat - k,
        {
            self.raw.store(len + k, t);
            k = k + 1;
        }
        self.raw.set_len(len + repeat);
        proof {
            t.lemma_round_trip();
            lemma_kept(before, reserved);
            let joined = old(self)@ + Seq::new(repeat as nat, |i: int| t);
            assert(self@ =~= joined);
        }
        Ok(())
    }

    /// Replaces the elements of the range from `start` to `end` by those of
    /// `values`. The elements before the range stay, those behind it follow
    /// the new ones.
    pub fn splice(&mut self, start: Bound, end: Bound, values: &[T]) -> (r: Result<(), AllocError>)
        requires
            old(self).wf(),
            range_start(start) <= range_end(end, old(self)@.len() as int) <= old(self)@.len(),
        ensures
            Self::made_room(*old(self), *final(self), spliced_len(
                    old(self)@.len() as int,
                    range_start(start),
                    range_end(end, old(self)@.len() as int),
                    values@.len() as int,
                ), r.is_ok()),
            final(self)@ == if r.is_ok() {
                old(self)@.take(range_start(start)) + values@ + old(self)@.skip(
                    range_end(end, old(self)@.len() as int),
                )
            } else {
                old(self)@
            },
    {
        let ghost before = self.raw;
        proof {
            before.lemma_wf();
        }
        let range = self.raw.translate_range(start, end);
        let first: usize = range.start;
        let ghost last = range.end;
        let count: usize = values.len();
        match self.raw.splice_ptr(&self.allocator, range, count) {
            Ok(_) => {},
            Err(e) => {
                assert(self@ =~= old(self)@);
                return Err(e);
            },
        }
        let ghost opened = self.raw;
        proof {
            opened.lemma_wf();
        }
        self.fill_from(first, values);
        proof {
            assert forall|j: int| 0 <= j < first implies opened.slots()[j] == before.slots()[j] by {
                assert(opened.slots()[j] == opened.slots().take(first as int)[j]);
                assert(before.slots()[j] == before.slots().take(first as int)[j]);
            }
            assert forall|j: int| first + count <= j < opened.spec_len() implies opened.slots()[j]
                == before.slots()[j - first - count + last] by {
                assert(opened.slots()[j] == opened.slots().subrange(
                    first + count,
                    opened.spec_len() as int,
                )[j - first - count]);
                assert(before.slots()[j - first - count + last] == before.slots().subrange(
                    last as int,
                    before.spec_len() as int,
                )[j - first - count]);
            }
            assert forall|j: int| first <= j < first + count implies T::decode(
                #[trigger] self.raw.slots()[j],
            ) == values@[j - first] by {
                values@[j - first].lemma_round_trip();
            }
            assert(self@ =~= old(self)@.take(first as int) + values@ + old(self)@.skip(
                last as int,
            ));
        }
        Ok(())
    }

    /// The byte offset of the live element `i` in the backing block.
    pub fn u_ptr(&self, i: usize) -> (offset: usize)
        requires
            self.wf(),
            i < self@.len(),
        ensures
            offset == size_of::<T>() * i,
    {
        proof {
            self.raw.lemma_wf();
        }
        self.raw.ptr(i)
    }

    /// The byte offset of the first element of the range `r` of live
    /// elements, and the number of elements in the range.
    pub fn u_slice(&self, r: Range<usize>) -> (run: (usize, usize))
        requires
            self.wf(),
            r.start <= r.end <= self@.len(),
        ensures
            run.0 == size_of::<T>() * r.start,
            run.1 == r.end - r.start,
    {
        proof {
            self.raw.lemma_wf();
        }
        let start: usize = r.start;
        let end: usize = r.end;
        (self.raw.ptr(start), end - start)
    }

    /// The live element `i`.
    pub fn uget(&self, i: usize) -> (value: T)
        requires
            self.wf(),
            i < self@.len(),
        ensures
            value == self@[i as int],
    {
        proof {
            self.raw.lemma_wf();
        }
        self.raw.load(i)
    }

    /// Overwrites the live element `i`.
    pub fn set(&mut self, i: usize, value: T)
        requires
            old(self).wf(),
            i < old(self)@.len(),
        ensures
            final(self).wf(),
            final(self).allocator() == old(self).allocator(),
            final(self).spec_capacity() == old(self).spec_capacity(),
            final(self).calls() == old(self).calls(),
            final(self)@ == old(self)@.update(i as int, value),
    {
        proof {
            self.raw.lemma_wf();
            value.lemma_round_trip();
        }
        self.raw.store(i, value);
        assert(self@ =~= old(self)@.update(i as int, value));
    }

    /// The live elements of the range `r`, copied out in their order.
    pub fn uget_slice(&self, r: Range<usize>) -> (values: Vec<T>)
        requires
            self.wf(),
            r.start <= r.end <= self@.len(),
        ensures
            values@ == self@.subrange(r.start as int, r.end as int),
    {
        proof {
            self.raw.lemma_wf();
        }
        let start: usize = r.start;
        let end: usize = r.end;
        let mut values: Vec<T> = Vec::with_capacity(end - start);
        let mut i: usize = start;
        while i < end
            invariant
                self.wf(),
                start <= i <= end <= self@.len(),
                self@.len() <= self.raw.spec_capacity(),
                values@ == self@.subrange(start as int, i as int),
            decreases end - i,
        {
            let value: T = self.raw.load(i);
            values.push(value);
            assert(values@ =~= self@.subrange(start as int, i + 1));
            i = i + 1;
        }
        values
    }

    /// The byte offset of slot `i` in the backing block, for every slot that
    /// the block has room for and for the position just behind them.
    pub fn raw_offset(&self, i: usize) -> (r: Option<usize>)
        requires
            self.wf(),
        ensures
            match r {
                Some(offset) => i <= self.spec_capacity() && offset == size_of::<T>() * i,
                None => i > self.spec_capacity(),
            },
    {
        if i > self.raw.capacity() {
            return None;
        }
        Some(self.raw.ptr(i))
    }

    /// The byte offset of element `i` in the backing block, if `i` is the
    /// index of a live element.
    pub fn ptr(&self, i: usize) -> (r: Option<usize>)
        requires
            self.wf(),
        ensures
            match r {
                Some(offset) => i < self@.len() && offset == size_of::<T>() * i,
                None => i >= self@.len(),
            },
    {
        proof {
            self.raw.lemma_wf();
        }
        if i >= self.raw.len() {
            return None;
        }
        Some(self.raw.ptr(i))
    }

    /// The byte offset and the element count of the range `r`, if it is a
    /// range of live elements.
    pub fn slice(&self, r: Range<usize>) -> (run: Option<(usize, usize)>)
        requires
            self.wf(),
        ensures
            match run {
                Some((offset, count)) => r.start <= r.end <= self@.len() && offset == size_of::<T>()
                    * r.start && count == r.end - r.start,
                None => !(r.start <= r.end <= self@.len()),
            },
    {
        proof {
            self.raw.lemma_wf();
        }
        let start: usize = r.start;
        let end: usize = r.end;
        if !self.raw.range_is_valid(start, end) {
            return None;
        }
        Some((self.raw.ptr(start), end - start))
    }

    /// The element `i`, if `i` is the index of a live element.
    pub fn get(&self, i: usize) -> (r: Option<T>)
        requires
            self.wf(),
        ensures
            r == if i < self@.len() {
                Some(self@[i as int])
            } else {
                None
            },
    {
        proof {
            self.raw.lemma_wf();
        }
        if i >= self.raw.len() {
            return None;
        }
        Some(self.raw.load(i))
    }

    /// Overwrites the element `i` and hands out what stood there, if `i` is
    /// the index of a live element; else nothing changes.
    pub fn replace(&mut self, i: usize, value: T) -> (r: Option<T>)
        requires
            old(self).wf(),
        ensures
            final(self).wf(),
            final(self).allocator() == old(self).allocator(),
            final(self).spec_capacity() == old(self).spec_capacity(),
            final(self).calls() == old(self).calls(),
            r == if i < old(self)@.len() {
                Some(old(self)@[i as int])
            } else {
                None
            },
            final(self)@ == if i < old(self)@.len() {
                old(self)@.update(i as int, value)
            } else {
                old(self)@
            },
    {
        proof {
            self.raw.lemma_wf();
        }
        if i >= self.raw.len() {
            return None;
        }
        let previous: T = self.raw.load(i);
        self.set(i, value);
        Some(previous)
    }

    /// The elements of the range `r`, copied out in their order, if `r` is
    /// a range of live elements.
    pub fn get_slice(&self, r: Range<usize>) -> (values: Option<Vec<T>>)
        requires
            self.wf(),
        ensures
            values.is_some() <==> r.start <= r.end <= self@.len(),
            values matches Some(v) ==> v@ == self@.subrange(r.start as int, r.end as int),
    {
        proof {
            self.raw.lemma_wf();
        }
        if !self.raw.range_is_valid(r.start, r.end) {
            return None;
        }
        Some(self.uget_slice(r))
    }

    /// Overwrites the elements from position `start` on by those of
    /// `values`, if that many live elements stand there; else nothing
    /// changes. Returns whether it wrote.
    pub fn write_slice(&mut self, start: usize, values: &[T]) -> (written: bool)
        requires
            old(self).wf(),
        ensures
            final(self).wf(),
            final(self).allocator() == old(self).allocator(),
            final(self).spec_capacity() == old(self).spec_capacity(),
            final(self).calls() == old(self).calls(),
            written == (start + values@.len() <= old(self)@.len()),
            final(self)@ == if written {
                old(self)@.take(start as int) + values@ + old(self)@.skip(start + values@.len())
            } else {
                old(self)@
            },
    {
        proof {
            self.raw.lemma_wf();
        }
        let len: usize = self.raw.len();
        if start > len || values.len() > len - start {
            return false;
        }
        self.fill_from(start, values);
        proof {
            assert forall|j: int| start <= j < start + values@.len() implies T::decode(
                #[trigger] self.raw.slots()[j],
            ) == values@[j - start] by {
                values@[j - start].lemma_round_trip();
            }
            assert(self@ =~= old(self)@.take(start as int) + values@ + old(self)@.skip(
                start + values@.len(),
            ));
        }
        true
    }

    /// Gives up the buffer without releasing its memory and without a call
    /// to the allocator: hands out the backing block itself, whose first
    /// slots hold the elements, their number, and the record of the calls
    /// made. The block is still the one for the capacity, so whoever takes
    /// it can release it with the layout of the capacity's byte size, and
    /// answers for doing so.
    pub fn leak(self) -> (out: (Block, usize, CallLog))
        requires
            self.wf(),
        ensures
            out.1 == self@.len(),
            self@ == Seq::new(
                out.1 as nat,
                |i: int| T::decode(crate::slots::slot(out.0@, size_of::<T>(), i)),
            ),
            block_for(out.0, info_of::<T>(), self.spec_capacity() as int),
            out.2.calls() == self.calls(),
    {
        proof {
            self.raw.lemma_wf();
        }
        let len: usize = self.raw.len();
        let ghost row = self@;
        let (block, log) = self.raw.into_block();
        assert(row =~= Seq::new(
            len as nat,
            |i: int| T::decode(crate::slots::slot(block@, size_of::<T>(), i)),
        ));
        (block, len, log)
    }

    /// Ends the buffer: forces the capacity to zero through its allocator,
    /// which releases the block with one `deallocate` where it has bytes and
    /// asks nothing where it has none, and hands back the allocator and the
    /// record of the calls made.
    pub fn release(self) -> (out: (A, CallLog))
        requires
            self.wf(),
        ensures
            out.0 == self.allocator(),
            out.1.calls() == self.calls() + realloc_calls(
                info_of::<T>(),
                self.spec_capacity() as int,
                0,
            ),
    {
        let mut raw = self.raw;
        let allocator = self.allocator;
        let _ = raw.realloc(&allocator, 0);
        let (_, log) = raw.into_block();
        (allocator, log)
    }

    /// Walks the buffer from its first element on, handing out the elements
    /// by value.
    pub fn into_iter(self) -> (iter: PodIter<T, A>)
        requires
            self.wf(),
        ensures
            iter.wf(),
            iter.pod() == self,
            iter.remaining() == self@,
    {
        let iter = PodIter { pod: self, index: 0 };
        assert(iter.remaining() =~= self@);
        iter
    }
}

impl<T: Copy + Plain, A: Allocator + Clone> Pod<T, A> {
    /// A second buffer with the same elements, in memory of its own that it
    /// obtains through a clone of the allocator.
    pub fn try_clone(&self) -> (r: Result<Self, AllocError>)
        requires
            self.wf(),
        ensures
            self@.len() == 0 || size_of::<T>() == 0 ==> r.is_ok(),
            r matches Ok(other) ==> {
                &&& other.wf()
                &&& other@ == self@
                &&& other.spec_capacity() == self@.len()
                &&& vstd::pervasive::cloned(self.allocator(), other.allocator())
                &&& other.calls() == reserve_calls(info_of::<T>(), self@.len() as int, 0)
            },
    {
        proof {
            self.raw.lemma_wf();
        }
        let mut other: Pod<T, A> = Pod::with_allocator(self.allocator.clone());
        let len: usize = self.raw.len();
        proof {
            other.lemma_len_le_capacity();
        }
        match other.reserve(len) {
            Ok(()) => {},
            Err(e) => {
                return Err(e);
            },
        }
        proof {
            other.lemma_len_le_capacity();
        }
        let ghost reserved = other;
        let mut i: usize = 0;
        while i < len
            invariant
                i <= len,
                len == self@.len(),
                len <= self.raw.spec_capacity(),
                self.wf(),
                other.wf(),
                other.allocator() == reserved.allocator(),
                other.calls() == reserved.calls(),
                other.raw.spec_len() == 0,
                other.spec_capacity() == len,
                forall|j: int|
                    0 <= j < i ==> T::decode(#[trigger] other.raw.slots()[j]) == self@[j],
            decreases len - i,
        {
            let value: T = self.raw.load(i);
            proof {
                value.lemma_round_trip();
            }
            other.raw.store(i, value);
            i = i + 1;
        }
        other.raw.set_len(len);
        assert(other@ =~= self@);
        Ok(other)
    }
}

/// Where an engine kept the slots that it had before, each of them holds the
/// bytes that it held.
proof fn lemma_kept(before: RawPod, after: RawPod)
    requires
        before.spec_capacity() <= after.spec_capacity(),
        after.slots().take(before.spec_capacity() as int) == before.slots(),
    ensures
        forall|j: int|
            0 <= j < before.spec_capacity() ==> after.slots()[j] == #[trigger] before.slots()[j],
{
    assert forall|j: int| 0 <= j < before.spec_capacity() implies after.slots()[j]
        == #[trigger] before.slots()[j] by {
        assert(before.slots()[j] == after.slots().take(before.spec_capacity() as int)[j]);
    }
}

/// A walk over a buffer that it owns, from the first element to the last.
pub struct PodIter<T: Copy + Plain, A: Allocator> {
    pod: Pod<T, A>,
    index: usize,
}

impl<T: Copy + Plain, A: Allocator> PodIter<T, A> {
    /// The walk never stands behind the end of its buffer.
    pub closed spec fn wf(&self) -> bool {
        self.pod.wf() && self.index <= self.pod@.len()
    }

    /// The buffer that is walked.
    pub closed spec fn pod(&self) -> Pod<T, A> {
        self.pod
    }

    /// Ends the walk and hands the buffer back, whole and unreleased.
    pub fn into_pod(self) -> (pod: Pod<T, A>)
        requires
            self.wf(),
        ensures
            pod == self.pod(),
            pod.wf(),
    {
        self.pod
    }

    /// The elements that the walk has yet to hand out.
    pub closed spec fn remaining(&self) -> Seq<T> {
        self.pod@.skip(self.index as int)
    }

    /// Hands out the next element, if one is left.
    pub fn next(&mut self) -> (r: Option<T>)
        requires
            old(self).wf(),
        ensures
            final(self).wf(),
            final(self).pod() == old(self).pod(),
            match r {
                Some(t) => old(self).remaining().len() > 0 && t == old(self).remaining()[0]
                    && final(self).remaining() == old(self).remaining().skip(1),
                None => old(self).remaining().len() == 0 && final(self).remaining() == old(
                    self,
                ).remaining(),
            },
    {
        match self.pod.get(self.index) {
            Some(t) => {
                self.index = self.index + 1;
                assert(self.remaining() =~= old(self).remaining().skip(1));
                Some(t)
            },
            None => None,
        }
    }
}

} // verus!
