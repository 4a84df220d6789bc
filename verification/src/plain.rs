//! Values that are nothing but their bytes: what a buffer can hold.

use crate::alloc_api::{patched, Block};
use vstd::layout::size_of;
use vstd::prelude::*;

verus! {

/// A value with a fixed-width byte representation from which it can be read
/// back. Copying the bytes copies the value.
pub trait Plain: Sized {
    /// The bytes that stand for the value.
    spec fn encode(self) -> Seq<u8>;

    /// The value that `bytes` stand for.
    spec fn decode(bytes: Seq<u8>) -> Self;

    /// The representation is as wide as the type, and reading it back gives
    /// the value that was written.
    proof fn lemma_round_trip(self)
        ensures
            self.encode().len() == size_of::<Self>(),
            Self::decode(self.encode()) == self,
    ;

    /// Writes the value's bytes into `block`, starting at offset `at`.
    fn store(self, block: &mut Block, at: usize)
        requires
            at + size_of::<Self>() <= old(block)@.len(),
        ensures
            final(block)@ == patched(old(block)@, at as int, self.encode()),
            final(block).layout() == old(block).layout(),
    ;

    /// Reads the value whose bytes start at offset `at` of `block`.
    fn load(block: &Block, at: usize) -> (v: Self)
        requires
            at + size_of::<Self>() <= block@.len(),
        ensures
            v == Self::decode(block@.subrange(at as int, at + size_of::<Self>())),
    ;
}

impl Plain for () {
    open spec fn encode(self) -> Seq<u8> {
        Seq::empty()
    }

    open spec fn decode(bytes: Seq<u8>) -> Self {
        ()
    }

    proof fn lemma_round_trip(self) {
        broadcast use vstd::layout::layout_of_unit_tuple;

    }

    fn store(self, block: &mut Block, at: usize) {
        assert(block@ =~= patched(block@, at as int, self.encode()));
    }

    fn load(block: &Block, at: usize) -> (v: Self) {
        ()
    }
}

impl Plain for u8 {
    open spec fn encode(self) -> Seq<u8> {
        seq![self]
    }

    open spec fn decode(bytes: Seq<u8>) -> Self {
        bytes[0]
    }

    proof fn lemma_round_trip(self) {
        broadcast use vstd::layout::layout_of_primitives;

    }

    fn store(self, block: &mut Block, at: usize) {
        broadcast use vstd::layout::layout_of_primitives;

        block.set(at, self);
        assert(block@ =~= patched(old(block)@, at as int, self.encode()));
    }

    fn load(block: &Block, at: usize) -> (v: Self) {
        broadcast use vstd::layout::layout_of_primitives;

        block.get(at)
    }
}

impl Plain for u16 {
    open spec fn encode(self) -> Seq<u8> {
        seq![(self % 256) as u8, (self / 256) as u8]
    }

    open spec fn decode(bytes: Seq<u8>) -> Self {
        (bytes[0] + 256 * bytes[1]) as u16
    }

    proof fn lemma_round_trip(self) {
        broadcast use vstd::layout::layout_of_primitives;

    }

    fn store(self, block: &mut Block, at: usize) {
        broadcast use vstd::layout::layout_of_primitives;

        proof {
            block.lemma_len_bounded();
        }
        block.set(at, (self % 256) as u8);
        block.set(at + 1, (self / 256) as u8);
        assert(block@ =~= patched(old(block)@, at as int, self.encode()));
    }

    fn load(block: &Block, at: usize) -> (v: Self) {
        broadcast use vstd::layout::layout_of_primitives;

        proof {
            block.lemma_len_bounded();
        }
        let b0: u16 = block.get(at) as u16;
        let b1: u16 = block.get(at + 1) as u16;
        b0 + 256 * b1
    }
}

impl Plain for u32 {
    open spec fn encode(self) -> Seq<u8> {
        seq![
            (self % 256) as u8,
            (self / 0x100 % 256) as u8,
            (self / 0x1_0000 % 256) as u8,
            (self / 0x100_0000) as u8,
        ]
    }

    open spec fn decode(bytes: Seq<u8>) -> Self {
        (bytes[0] + 0x100 * bytes[1] + 0x1_0000 * bytes[2] + 0x100_0000 * bytes[3]) as u32
    }

    proof fn lemma_round_trip(self) {
        broadcast use vstd::layout::layout_of_primitives;

    }

    fn store(self, block: &mut Block, at: usize) {
        broadcast use vstd::layout::layout_of_primitives;

        proof {
            block.lemma_len_bounded();
        }
        block.set(at, (self % 256) as u8);
        block.set(at + 1, (self / 0x100 % 256) as u8);
        block.set(at + 2, (self / 0x1_0000 % 256) as u8);
        block.set(at + 3, (self / 0x100_0000) as u8);
        assert(block@ =~= patched(old(block)@, at as int, self.encode()));
    }

    fn load(block: &Block, at: usize) -> (v: Self) {
        broadcast use vstd::layout::layout_of_primitives;

        proof {
            block.lemma_len_bounded();
        }
        let b0: u32 = block.get(at) as u32;
        let b1: u32 = block.get(at + 1) as u32;
        let b2: u32 = block.get(at + 2) as u32;
        let b3: u32 = block.get(at + 3) as u32;
        b0 + 0x100 * b1 + 0x1_0000 * b2 + 0x100_0000 * b3
    }
}

impl Plain for u64 {
    open spec fn encode(self) -> Seq<u8> {
        ((self % 0x1_0000_0000) as u32).encode() + ((self / 0x1_0000_0000) as u32).encode()
    }

    open spec fn decode(bytes: Seq<u8>) -> Self {
        (u32::decode(bytes.subrange(0, 4)) + 0x1_0000_0000 * u32::decode(bytes.subrange(4, 8)))
            as u64
    }

    proof fn lemma_round_trip(self) {
        broadcast use vstd::layout::layout_of_primitives;

        let low = (self % 0x1_0000_0000) as u32;
        let high = (self / 0x1_0000_0000) as u32;
        low.lemma_round_trip();
        high.lemma_round_trip();
        assert(self.encode().subrange(0, 4) =~= low.encode());
        assert(self.encode().subrange(4, 8) =~= high.encode());
    }

    fn store(self, block: &mut Block, at: usize) {
        broadcast use vstd::layout::layout_of_primitives;

        proof {
            block.lemma_len_bounded();
        }
        let low: u32 = (self % 0x1_0000_0000) as u32;
        let high: u32 = (self / 0x1_0000_0000) as u32;
        low.store(block, at);
        high.store(block, at + 4);
        assert(block@ =~= patched(old(block)@, at as int, self.encode()));
    }

    fn load(block: &Block, at: usize) -> (v: Self) {
        broadcast use vstd::layout::layout_of_primitives;

        proof {
            block.lemma_len_bounded();
        }
        let low: u32 = u32::load(block, at);
        let high: u32 = u32::load(block, at + 4);
        assert(block@.subrange(at as int, at + 4) =~= block@.subrange(at as int, at + 8).subrange(
            0,
            4,
        ));
        assert(block@.subrange(at + 4, at + 8) =~= block@.subrange(at as int, at + 8).subrange(
            4,
            8,
        ));
        low as u64 + 0x1_0000_0000 * (high as u64)
    }
}

/// The unsigned number with the bits of `x` in two's complement.
pub open spec fn unsigned32(x: i32) -> u32 {
    if x >= 0 {
        x as u32
    } else {
        (x + 0x1_0000_0000) as u32
    }
}

/// The signed number that the bits of `u` stand for in two's complement.
pub open spec fn signed32(u: u32) -> i32 {
    if u < 0x8000_0000 {
        u as i32
    } else {
        (u - 0x1_0000_0000) as i32
    }
}

/// The unsigned number with the bits of `x` in two's complement.
pub open spec fn unsigned64(x: i64) -> u64 {
    if x >= 0 {
        x as u64
    } else {
        (x + 0x1_0000_0000_0000_0000) as u64
    }
}

/// The signed number that the bits of `u` stand for in two's complement.
pub open spec fn signed64(u: u64) -> i64 {
    if u < 0x8000_0000_0000_0000 {
        u as i64
    } else {
        (u - 0x1_0000_0000_0000_0000) as i64
    }
}

impl Plain for i32 {
    open spec fn encode(self) -> Seq<u8> {
        unsigned32(self).encode()
    }

    open spec fn decode(bytes: Seq<u8>) -> Self {
        signed32(u32::decode(bytes))
    }

    proof fn lemma_round_trip(self) {
        broadcast use vstd::layout::layout_of_primitives;

        unsigned32(self).lemma_round_trip();
    }

    fn store(self, block: &mut Block, at: usize) {
        broadcast use vstd::layout::layout_of_primitives;

        let u: u32 = if self >= 0 {
            self as u32
        } else {
            (self as i64 + 0x1_0000_0000) as u32
        };
        u.store(block, at);
    }

    fn load(block: &Block, at: usize) -> (v: Self) {
        broadcast use vstd::layout::layout_of_primitives;

        let u: u32 = u32::load(block, at);
        if u < 0x8000_0000 {
            u as i32
        } else {
            (u as i64 - 0x1_0000_0000) as i32
        }
    }
}

impl Plain for i64 {
    open spec fn encode(self) -> Seq<u8> {
        unsigned64(self).encode()
    }

    open spec fn decode(bytes: Seq<u8>) -> Self {
        signed64(u64::decode(bytes))
    }

    proof fn lemma_round_trip(self) {
        broadcast use vstd::layout::layout_of_primitives;

        unsigned64(self).lemma_round_trip();
    }

    fn store(self, block: &mut Block, at: usize) {
        broadcast use vstd::layout::layout_of_primitives;

        let u: u64 = if self >= 0 {
            self as u64
        } else {
            (self as i128 + 0x1_0000_0000_0000_0000) as u64
        };
        u.store(block, at);
    }

    fn load(block: &Block, at: usize) -> (v: Self) {
        broadcast use vstd::layout::layout_of_primitives;

        let u: u64 = u64::load(block, at);
        if u < 0x8000_0000_0000_0000 {
            u as i64
        } else {
            (u as i128 - 0x1_0000_0000_0000_0000) as i64
        }
    }
}

} // verus!
