//! A byte sequence read as a row of equally wide slots, and how writes and
//! moves of bytes show in the slots.

use crate::alloc_api::patched;
use vstd::prelude::*;

verus! {

/// The bytes of slot `i` when `bytes` is cut into slots of `size` bytes.
pub open spec fn slot(bytes: Seq<u8>, size: nat, i: int) -> Seq<u8> {
    bytes.subrange(i * size, i * size + size)
}

/// The first `count` slots of `bytes`.
pub open spec fn slots(bytes: Seq<u8>, size: nat, count: nat) -> Seq<Seq<u8>> {
    Seq::new(count, |i: int| slot(bytes, size, i))
}

/// `row` after the items `start..end` were copied to the positions that
/// start at `to`; the copy reads the row as it was before.
pub open spec fn moved<E>(row: Seq<E>, start: int, end: int, to: int) -> Seq<E> {
    Seq::new(
        row.len(),
        |j: int|
            if to <= j < to + (end - start) {
                row[start + j - to]
            } else {
                row[j]
            },
    )
}

/// Slot `i` of `count` slots lies inside the first `count * size` bytes.
pub proof fn lemma_slot_bounds(size: nat, i: int, count: nat)
    requires
        0 <= i < count,
    ensures
        0 <= i * size,
        i * size + size <= count * size,
{
    assert(0 <= i * size) by (nonlinear_arith)
        requires
            0 <= i,
            0 <= size,
    ;
    assert(i * size + size <= count * size) by (nonlinear_arith)
        requires
            i + 1 <= count,
            0 <= size,
    ;
}

/// Offsets grow with the slot index.
pub proof fn lemma_offset_monotonic(size: nat, i: int, j: int)
    requires
        0 <= i <= j,
    ensures
        0 <= i * size <= j * size,
{
    assert(0 <= i * size <= j * size) by (nonlinear_arith)
        requires
            0 <= i <= j,
            0 <= size,
    ;
}

/// Writing one slot's worth of bytes at the offset of slot `j` replaces
/// slot `j` and leaves every other slot as it was.
pub proof fn lemma_patch_slot(bytes: Seq<u8>, size: nat, count: nat, j: int, data: Seq<u8>)
    requires
        0 <= j < count,
        count * size <= bytes.len(),
        data.len() == size,
    ensures
        slots(patched(bytes, j * size, data), size, count) == slots(bytes, size, count).update(
            j,
            data,
        ),
{
    let after = patched(bytes, j * size, data);
    assert forall|i: int| 0 <= i < count implies #[trigger] slot(after, size, i) == (if i == j {
        data
    } else {
        slot(bytes, size, i)
    }) by {
        lemma_slot_bounds(size, i, count);
        lemma_slot_bounds(size, j, count);
        if i < j {
            lemma_offset_monotonic(size, i + 1, j);
            assert((i + 1) * size == i * size + size) by (nonlinear_arith);
        } else if i > j {
            lemma_offset_monotonic(size, j + 1, i);
            assert((j + 1) * size == j * size + size) by (nonlinear_arith);
        }
        assert(slot(after, size, i) =~= (if i == j {
            data
        } else {
            slot(bytes, size, i)
        }));
    }
    assert(slots(after, size, count) =~= slots(bytes, size, count).update(j, data));
}

/// Moving the bytes of slots `start..end` to the offset of slot `to` moves
/// the slots and leaves every other slot as it was.
pub proof fn lemma_move_slots(
    bytes: Seq<u8>,
    size: nat,
    count: nat,
    start: int,
    end: int,
    to: int,
)
    requires
        0 <= start <= end <= count,
        0 <= to,
        to + (end - start) <= count,
        count * size <= bytes.len(),
    ensures
        start * size <= end * size <= bytes.len(),
        to * size + (end * size - start * size) <= bytes.len(),
        slots(
            patched(bytes, to * size, bytes.subrange(start * size, end * size)),
            size,
            count,
        ) == moved(slots(bytes, size, count), start, end, to),
{
    let n = end - start;
    lemma_offset_monotonic(size, start, end);
    lemma_offset_monotonic(size, end, count as int);
    lemma_offset_monotonic(size, to + n, count as int);
    assert((to + n) * size == to * size + (end * size - start * size)) by (nonlinear_arith)
        requires
            n == end - start,
    ;
    let data = bytes.subrange(start * size, end * size);
    let after = patched(bytes, to * size, data);
    assert forall|j: int| 0 <= j < count implies #[trigger] slot(after, size, j) == (if to <= j < to
        + n {
        slot(bytes, size, start + j - to)
    } else {
        slot(bytes, size, j)
    }) by {
        lemma_slot_bounds(size, j, count);
        assert((j + 1) * size == j * size + size) by (nonlinear_arith);
        if to <= j < to + n {
            let s = start + j - to;
            lemma_slot_bounds(size, s, count);
            lemma_offset_monotonic(size, to, j);
            lemma_offset_monotonic(size, j + 1, to + n);
            assert(s * size == j * size - to * size + start * size) by (nonlinear_arith)
                requires
                    s == start + j - to,
            ;
            assert(slot(after, size, j) =~= slot(bytes, size, s));
        } else if j < to {
            lemma_offset_monotonic(size, j + 1, to);
            assert(slot(after, size, j) =~= slot(bytes, size, j));
        } else {
            lemma_offset_monotonic(size, to + n, j);
            assert(slot(after, size, j) =~= slot(bytes, size, j));
        }
    }
    assert(slots(after, size, count) =~= moved(slots(bytes, size, count), start, end, to));
}

/// Byte sequences that agree on their first `count * size` bytes agree on
/// their first `count` slots.
pub proof fn lemma_prefix_slots(a: Seq<u8>, b: Seq<u8>, size: nat, count: nat)
    requires
        count * size <= a.len(),
        count * size <= b.len(),
        a.take((count * size) as int) == b.take((count * size) as int),
    ensures
        slots(a, size, count) == slots(b, size, count),
{
    let n = (count * size) as int;
    assert forall|i: int| 0 <= i < count implies #[trigger] slot(a, size, i) == slot(
        b,
        size,
        i,
    ) by {
        lemma_slot_bounds(size, i, count);
        assert(slot(a, size, i) =~= a.take(n).subrange(i * size, i * size + size));
        assert(slot(b, size, i) =~= b.take(n).subrange(i * size, i * size + size));
    }
    assert(slots(a, size, count) =~= slots(b, size, count));
}

} // verus!
