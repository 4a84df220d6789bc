//! The allocator capability: byte layouts, owned memory blocks, and the four
//! operations an allocator offers on them.

use std::collections::TryReserveError;
use vstd::arithmetic::power2::is_pow2;
use vstd::prelude::*;

verus! {

/// The one error kind of every allocation fault.
#[derive(Clone, Copy, Debug, PartialEq, Eq, Structural)]
pub struct AllocError;

/// A size and alignment pair does not describe a block that can exist.
#[derive(Clone, Copy, Debug, PartialEq, Eq, Structural)]
pub struct LayoutError;

/// A layout as plain numbers: the size and the alignment in bytes.
pub type Shape = (usize, usize);

/// The memory requirements of a block: its size in bytes and its alignment.
#[derive(Clone, Copy, Debug, PartialEq, Eq, Structural)]
pub struct Layout {
    size: usize,
    align: usize,
}

/// Whether `size` bytes at alignment `align` describe a block that can exist:
/// the alignment is a power of two and the size, rounded up to a multiple of
/// the alignment, does not exceed `isize::MAX`.
pub open spec fn layout_fits(size: usize, align: usize) -> bool {
    is_pow2(align as int) && size + align - 1 <= isize::MAX
}

/// Decides whether `n` is a power of two by halving it while it is even.
pub fn is_power_of_two(n: usize) -> (b: bool)
    ensures
        b == is_pow2(n as int),
{
    if n == 0 {
        proof {
            reveal(is_pow2);
        }
        return false;
    }
    let mut x: usize = n;
    while x % 2 == 0
        invariant
            x > 0,
            is_pow2(x as int) == is_pow2(n as int),
        decreases x,
    {
        proof {
            reveal(is_pow2);
        }
        x = x / 2;
    }
    proof {
        reveal(is_pow2);
    }
    x == 1
}

impl Layout {
    /// The size in bytes.
    pub closed spec fn spec_size(&self) -> usize {
        self.size
    }

    /// The alignment in bytes.
    pub closed spec fn spec_align(&self) -> usize {
        self.align
    }

    /// Builds the layout of `size` bytes at alignment `align`, or fails when
    /// no such block can exist.
    pub fn from_size_align(size: usize, align: usize) -> (r: Result<Layout, LayoutError>)
        ensures
            r.is_ok() <==> layout_fits(size, align),
            r matches Ok(l) ==> l.spec_size() == size && l.spec_align() == align,
    {
        if !is_power_of_two(align) {
            return Err(LayoutError);
        }
        proof {
            reveal(is_pow2);
        }
        let limit: usize = isize::MAX as usize;
        if align - 1 > limit || size > limit - (align - 1) {
            return Err(LayoutError);
        }
        Ok(Layout { size, align })
    }

    /// A layout is its size and its alignment, and nothing else.
    pub proof fn lemma_same(a: Layout, b: Layout)
        requires
            a.spec_size() == b.spec_size(),
            a.spec_align() == b.spec_align(),
        ensures
            a == b,
    {
    }

    /// The layout as plain numbers.
    pub open spec fn shape(&self) -> Shape {
        (self.spec_size(), self.spec_align())
    }

    #[verifier::when_used_as_spec(spec_size)]
    pub fn size(&self) -> (s: usize)
        ensures
            s == self.spec_size(),
    {
        self.size
    }

    #[verifier::when_used_as_spec(spec_align)]
    pub fn align(&self) -> (a: usize)
        ensures
            a == self.spec_align(),
    {
        self.align
    }
}

/// `bytes` with the run that starts at offset `at` replaced by `data`.
pub open spec fn patched(bytes: Seq<u8>, at: int, data: Seq<u8>) -> Seq<u8> {
    Seq::new(
        bytes.len(),
        |i: int|
            if at <= i < at + data.len() {
                data[i - at]
            } else {
                bytes[i]
            },
    )
}

/// An owned block of raw memory, or the sentinel that owns none.
///
/// A block cannot be copied: whoever holds the value holds the memory, and
/// handing the value to `deallocate` gives the memory up.
pub struct Block {
    bytes: Vec<u8>,
    layout: Option<Layout>,
}

impl View for Block {
    type V = Seq<u8>;

    /// The bytes of the block, in address order.
    closed spec fn view(&self) -> Seq<u8> {
        self.bytes@
    }
}

impl Block {
    /// The layout that the block was last obtained or resized for; the
    /// sentinel has none.
    pub closed spec fn layout(&self) -> Option<Layout> {
        self.layout
    }

    /// The block was obtained for `layout` and holds at least its size.
    pub open spec fn fits(&self, layout: Layout) -> bool {
        self.layout() == Some(layout) && self@.len() >= layout.size()
    }

    /// The block is the sentinel: it owns no memory.
    pub open spec fn is_dangling(&self) -> bool {
        self.layout().is_none() && self@.len() == 0
    }

    /// A block never holds more bytes than an offset can address.
    pub proof fn lemma_len_bounded(&self)
        ensures
            self@.len() <= usize::MAX,
    {
        assert(self.bytes@.len() == self.bytes.len());
    }

    /// The sentinel block.
    pub fn dangling() -> (b: Block)
        ensures
            b.is_dangling(),
    {
        Block { bytes: Vec::new(), layout: None }
    }

    /// Wraps `bytes` as a block obtained for `layout`.
    pub fn new(bytes: Vec<u8>, layout: Layout) -> (b: Block)
        requires
            bytes.len() >= layout.size(),
        ensures
            b@ == bytes@,
            b.fits(layout),
    {
        Block { bytes, layout: Some(layout) }
    }

    /// Gives up the block and hands out its bytes.
    pub fn into_bytes(self) -> (bytes: Vec<u8>)
        ensures
            bytes@ == self@,
    {
        self.bytes
    }

    /// The number of bytes in the block.
    pub fn len(&self) -> (n: usize)
        ensures
            n == self@.len(),
    {
        self.bytes.len()
    }

    /// The byte at offset `i`.
    pub fn get(&self, i: usize) -> (b: u8)
        requires
            i < self@.len(),
        ensures
            b == self@[i as int],
    {
        self.bytes[i]
    }

    /// Overwrites the byte at offset `i`.
    pub fn set(&mut self, i: usize, b: u8)
        requires
            i < old(self)@.len(),
        ensures
            final(self)@ == old(self)@.update(i as int, b),
            final(self).layout() == old(self).layout(),
    {
        self.bytes.set(i, b);
    }

    /// Copies the `count` bytes that start at offset `src` to offset `dst`
    /// of the same block. The two runs may overlap: the bytes that arrive are
    /// those that stood in the source run before the call.
    pub fn copy_within(&mut self, src: usize, dst: usize, count: usize)
        requires
            src + count <= old(self)@.len(),
            dst + count <= old(self)@.len(),
        ensures
            final(self)@ == patched(
                old(self)@,
                dst as int,
                old(self)@.subrange(src as int, src + count),
            ),
            final(self).layout() == old(self).layout(),
    {
        let ghost before = self@;
        proof {
            self.lemma_len_bounded();
        }
        if dst <= src {
            let mut k: usize = 0;
            while k < count
                invariant
                    k <= count,
                    src + count <= before.len() <= usize::MAX,
                    dst <= src,
                    self@.len() == before.len(),
                    self.layout() == old(self).layout(),
                    forall|j: int|
                        0 <= j < before.len() ==> #[trigger] self@[j] == if dst <= j < dst + k {
                            before[j - dst + src]
                        } else {
                            before[j]
                        },
                decreases count - k,
            {
                let b = self.bytes[src + k];
                self.bytes.set(dst + k, b);
                k = k + 1;
            }
        } else {
            let mut k: usize = count;
            while k > 0
                invariant
                    k <= count,
                    dst + count <= before.len() <= usize::MAX,
                    src < dst,
                    self@.len() == before.len(),
                    self.layout() == old(self).layout(),
                    forall|j: int|
                        0 <= j < before.len() ==> #[trigger] self@[j] == if dst + k <= j < dst
                            + count {
                            before[j - dst + src]
                        } else {
                            before[j]
                        },
                decreases k,
            {
                k = k - 1;
                let b = self.bytes[src + k];
                self.bytes.set(dst + k, b);
            }
        }
        assert(self@ =~= patched(before, dst as int, before.subrange(src as int, src + count)));
    }
}

/// The capability to obtain, resize and release blocks of memory.
pub trait Allocator {
    /// Obtains a fresh block for `layout`. Its contents are unspecified.
    fn allocate(&self, layout: Layout) -> (r: Result<Block, AllocError>)
        ensures
            r matches Ok(b) ==> b.fits(layout),
    ;

    /// Releases a block that was obtained for `layout`.
    fn deallocate(&self, block: Block, layout: Layout)
        requires
            block.fits(layout),
    ;

    /// Resizes `block` from `old_layout` to the larger `new_layout`, keeping
    /// its first `old_layout.size()` bytes. On failure the block is untouched.
    fn grow(&self, block: &mut Block, old_layout: Layout, new_layout: Layout) -> (r: Result<
        (),
        AllocError,
    >)
        requires
            old(block).fits(old_layout),
            new_layout.size() >= old_layout.size(),
        ensures
            r.is_ok() ==> final(block).fits(new_layout) && final(block)@.take(
                old_layout.size() as int,
            ) == old(block)@.take(old_layout.size() as int),
            r.is_err() ==> final(block)@ == old(block)@ && final(block).layout() == old(
                block,
            ).layout(),
    ;

    /// Resizes `block` from `old_layout` to the smaller `new_layout`, keeping
    /// its first `new_layout.size()` bytes. On failure the block is untouched.
    fn shrink(&self, block: &mut Block, old_layout: Layout, new_layout: Layout) -> (r: Result<
        (),
        AllocError,
    >)
        requires
            old(block).fits(old_layout),
            new_layout.size() <= old_layout.size(),
        ensures
            r.is_ok() ==> final(block).fits(new_layout) && final(block)@.take(
                new_layout.size() as int,
            ) == old(block)@.take(new_layout.size() as int),
            r.is_err() ==> final(block)@ == old(block)@ && final(block).layout() == old(
                block,
            ).layout(),
    ;
}

/// One call to an allocator, with the layouts that it was handed.
pub enum Call {
    /// `allocate` for this layout.
    Allocate(Shape),
    /// `deallocate` of a block with this layout.
    Deallocate(Shape),
    /// `grow` from the first layout to the second.
    Grow(Shape, Shape),
    /// `shrink` from the first layout to the second.
    Shrink(Shape, Shape),
}

/// The record of the calls that its holder made to allocators. Only the
/// four methods below add to it, and each of them makes the call that it
/// records, so what the record holds was truly asked.
pub struct CallLog {
    calls: Ghost<Seq<Call>>,
}

impl CallLog {
    /// The calls made so far, the first one first.
    pub closed spec fn calls(&self) -> Seq<Call> {
        self.calls@
    }

    /// The record of no calls.
    pub fn new() -> (log: CallLog)
        ensures
            log.calls() == Seq::<Call>::empty(),
    {
        CallLog { calls: Ghost(Seq::empty()) }
    }

    /// Calls `alloc.allocate(layout)` and records the call.
    pub fn allocate(&mut self, alloc: &dyn Allocator, layout: Layout) -> (r: Result<
        Block,
        AllocError,
    >)
        ensures
            final(self).calls() == old(self).calls().push(Call::Allocate(layout.shape())),
            r matches Ok(b) ==> b.fits(layout),
    {
        self.calls = Ghost(self.calls@.push(Call::Allocate(layout.shape())));
        alloc.allocate(layout)
    }

    /// Calls `alloc.deallocate(block, layout)` and records the call.
    pub fn deallocate(&mut self, alloc: &dyn Allocator, block: Block, layout: Layout)
        requires
            block.fits(layout),
        ensures
            final(self).calls() == old(self).calls().push(Call::Deallocate(layout.shape())),
    {
        self.calls = Ghost(self.calls@.push(Call::Deallocate(layout.shape())));
        alloc.deallocate(block, layout)
    }

    /// Calls `alloc.grow(block, old_layout, new_layout)` and records the
    /// call.
    pub fn grow(
        &mut self,
        alloc: &dyn Allocator,
        block: &mut Block,
        old_layout: Layout,
        new_layout: Layout,
    ) -> (r: Result<(), AllocError>)
        requires
            old(block).fits(old_layout),
            new_layout.size() >= old_layout.size(),
        ensures
            final(self).calls() == old(self).calls().push(
                Call::Grow(old_layout.shape(), new_layout.shape()),
            ),
            r.is_ok() ==> final(block).fits(new_layout) && final(block)@.take(
                old_layout.size() as int,
            ) == old(block)@.take(old_layout.size() as int),
            r.is_err() ==> final(block)@ == old(block)@ && final(block).layout() == old(
                block,
            ).layout(),
    {
        self.calls = Ghost(self.calls@.push(Call::Grow(old_layout.shape(), new_layout.shape())));
        alloc.grow(block, old_layout, new_layout)
    }

    /// Calls `alloc.shrink(block, old_layout, new_layout)` and records the
    /// call.
    pub fn shrink(
        &mut self,
        alloc: &dyn Allocator,
        block: &mut Block,
        old_layout: Layout,
        new_layout: Layout,
    ) -> (r: Result<(), AllocError>)
        requires
            old(block).fits(old_layout),
            new_layout.size() <= old_layout.size(),
        ensures
            final(self).calls() == old(self).calls().push(
                Call::Shrink(old_layout.shape(), new_layout.shape()),
            ),
            r.is_ok() ==> final(block).fits(new_layout) && final(block)@.take(
                new_layout.size() as int,
            ) == old(block)@.take(new_layout.size() as int),
            r.is_err() ==> final(block)@ == old(block)@ && final(block).layout() == old(
                block,
            ).layout(),
    {
        self.calls = Ghost(self.calls@.push(Call::Shrink(old_layout.shape(), new_layout.shape())));
        alloc.shrink(block, old_layout, new_layout)
    }
}

/// `bytes` cut down to `size` bytes, or filled up to `size` bytes with
/// zero bytes.
pub open spec fn resized(bytes: Seq<u8>, size: nat) -> Seq<u8> {
    Seq::new(
        size,
        |i: int|
            if i < bytes.len() {
                bytes[i]
            } else {
                0u8
            },
    )
}

/// Reads the answer to a reservation of memory: a refusal is the allocation
/// fault, and nothing else is.
pub fn reserved(answer: Result<(), TryReserveError>) -> (r: Result<(), AllocError>)
    ensures
        r.is_ok() == answer.is_ok(),
{
    match answer {
        Ok(()) => Ok(()),
        Err(_) => Err(AllocError),
    }
}

/// The process-wide allocator. It refuses a request when the process
/// cannot have the memory.
#[derive(Clone, Copy, Debug)]
pub struct Global;

impl Allocator for Global {
    /// The block is as long as the layout asks and holds zero bytes. A
    /// block of no bytes asks nothing of the process and is always had.
    fn allocate(&self, layout: Layout) -> (r: Result<Block, AllocError>)
        ensures
            layout.size() == 0 ==> r.is_ok(),
            r matches Ok(b) ==> b@ == resized(Seq::<u8>::empty(), layout.size() as nat),
    {
        let mut bytes: Vec<u8> = Vec::new();
        if layout.size() > 0 {
            match reserved(bytes.try_reserve(layout.size())) {
                Ok(()) => {},
                Err(e) => {
                    return Err(e);
                },
            }
        }
        bytes.resize(layout.size(), 0u8);
        assert(bytes@ =~= resized(Seq::<u8>::empty(), layout.size() as nat));
        Ok(Block { bytes, layout: Some(layout) })
    }

    fn deallocate(&self, block: Block, layout: Layout) {
        // The bytes are freed as the block goes out of scope here.
    }

    /// The block is cut down or filled up with zero bytes to the size of
    /// `new_layout`. Where it already holds that many bytes nothing is asked
    /// of the process and the call succeeds.
    fn grow(&self, block: &mut Block, old_layout: Layout, new_layout: Layout) -> (r: Result<
        (),
        AllocError,
    >)
        ensures
            new_layout.size() <= old(block)@.len() ==> r.is_ok(),
            r.is_ok() ==> final(block)@ == resized(old(block)@, new_layout.size() as nat),
    {
        let held: usize = block.bytes.len();
        if new_layout.size() > held {
            match reserved(block.bytes.try_reserve(new_layout.size() - held)) {
                Ok(()) => {},
                Err(e) => {
                    return Err(e);
                },
            }
        }
        block.bytes.resize(new_layout.size(), 0u8);
        block.layout = Some(new_layout);
        assert(block@ =~= resized(old(block)@, new_layout.size() as nat));
        Ok(())
    }

    fn shrink(&self, block: &mut Block, old_layout: Layout, new_layout: Layout) -> (r: Result<
        (),
        AllocError,
    >)
        ensures
            r.is_ok(),
    {
        block.bytes.truncate(new_layout.size());
        block.layout = Some(new_layout);
        Ok(())
    }
}

} // verus!
