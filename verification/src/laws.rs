//! What holds of the buffer across several of its operations, stated over
//! the views and spec functions that the operations' contracts use.

use crate::alloc_api::Call;
use crate::raw::{grown_capacity, reserve_calls, reserved_capacity, DataInfo};
use vstd::arithmetic::logarithm::{lemma_log_is_ordered, lemma_log_pow, log};
use vstd::arithmetic::power::pow;
use vstd::arithmetic::power2::{lemma_pow2, lemma_pow2_unfold, pow2};
use vstd::prelude::*;

verus! {

/// The row after the elements of `values` were pushed onto `row`, one after
/// the other.
pub open spec fn push_all<T>(row: Seq<T>, values: Seq<T>) -> Seq<T>
    decreases values.len(),
{
    if values.len() == 0 {
        row
    } else {
        push_all(row.push(values[0]), values.skip(1))
    }
}

/// The row after `n` pops.
pub open spec fn pop_many<T>(row: Seq<T>, n: nat) -> Seq<T>
    decreases n,
{
    if n == 0 {
        row
    } else {
        pop_many(row.drop_last(), (n - 1) as nat)
    }
}

/// Pushing one by one appends.
pub proof fn lemma_push_all<T>(row: Seq<T>, values: Seq<T>)
    ensures
        push_all(row, values) == row + values,
    decreases values.len(),
{
    if values.len() == 0 {
        assert(row + values =~= row);
    } else {
        lemma_push_all(row.push(values[0]), values.skip(1));
        assert(row.push(values[0]) + values.skip(1) =~= row + values);
    }
}

/// Popping `n` times leaves the row without its last `n` elements.
pub proof fn lemma_pop_many<T>(row: Seq<T>, n: nat)
    requires
        n <= row.len(),
    ensures
        pop_many(row, n) == row.take(row.len() - n),
    decreases n,
{
    if n == 0 {
        assert(row.take(row.len() as int) =~= row);
    } else {
        lemma_pop_many(row.drop_last(), (n - 1) as nat);
        assert(row.drop_last().take(row.len() - n) =~= row.take(row.len() - n));
    }
}

/// Last in, first out: after the elements of `values` were pushed onto the
/// empty buffer, the pop that follows `k` earlier pops hands out the element
/// that was pushed `k` places before the last, and after as many pops as
/// there were pushes the buffer is empty again.
pub proof fn lemma_push_pop_lifo<T>(values: Seq<T>)
    ensures
        forall|k: nat|
            k < values.len() ==> (#[trigger] pop_many(
                push_all(Seq::<T>::empty(), values),
                k,
            )).last() == values[values.len() - 1 - k],
        pop_many(push_all(Seq::<T>::empty(), values), values.len()) == Seq::<T>::empty(),
{
    let full = push_all(Seq::<T>::empty(), values);
    lemma_push_all(Seq::<T>::empty(), values);
    assert(Seq::<T>::empty() + values =~= values);
    assert forall|k: nat| k < values.len() implies (#[trigger] pop_many(full, k)).last()
        == values[values.len() - 1 - k] by {
        lemma_pop_many(full, k);
    }
    lemma_pop_many(full, values.len());
    assert(full.take(0) =~= Seq::<T>::empty());
}

/// Inserting at a position and removing at the same position right after
/// leaves the row, and so its length, as it was.
pub proof fn lemma_insert_remove<T>(row: Seq<T>, i: int, value: T)
    requires
        0 <= i <= row.len(),
    ensures
        row.insert(i, value).remove(i) == row,
        row.insert(i, value).remove(i).len() == row.len(),
{
    assert(row.insert(i, value).remove(i) =~= row);
}

/// Replacing the `end - start` elements of a range by `values` changes the
/// length by the difference of the two counts, puts `values` where the range
/// began, and keeps what stood before and behind the range.
pub proof fn lemma_splice_shape<T>(row: Seq<T>, start: int, end: int, values: Seq<T>)
    requires
        0 <= start <= end <= row.len(),
    ensures
        ({
            let out = row.take(start) + values + row.skip(end);
            &&& out.len() == row.len() - (end - start) + values.len()
            &&& out.subrange(start, start + values.len()) == values
            &&& out.take(start) == row.take(start)
            &&& out.skip(start + values.len()) == row.skip(end)
        }),
{
    let out = row.take(start) + values + row.skip(end);
    assert(out.subrange(start, start + values.len()) =~= values);
    assert(out.take(start) =~= row.take(start));
    assert(out.skip(start + values.len()) =~= row.skip(end));
}

/// The capacity of a buffer that started empty and took `n` pushes.
pub open spec fn pushed_capacity(n: nat) -> int
    decreases n,
{
    if n == 0 {
        0
    } else {
        reserved_capacity(n as int, pushed_capacity((n - 1) as nat))
    }
}

/// How many of the first `n` pushes onto an empty buffer found it full, and
/// so had to turn to the allocator.
pub open spec fn pushed_calls(n: nat) -> nat
    decreases n,
{
    if n == 0 {
        0
    } else if n > pushed_capacity((n - 1) as nat) {
        pushed_calls((n - 1) as nat) + 1
    } else {
        pushed_calls((n - 1) as nat)
    }
}

/// One more push onto a buffer that took `n` pushes from empty leaves the
/// capacity that `pushed_capacity` names, and costs no more calls to the
/// allocator than `pushed_calls` counts for it.
pub proof fn lemma_push_follows_count(info: DataInfo, n: nat)
    ensures
        reserved_capacity(n as int + 1, pushed_capacity(n)) == pushed_capacity(n + 1),
        pushed_calls(n) + reserve_calls(info, n as int + 1, pushed_capacity(n)).len()
            <= pushed_calls(n + 1),
{
    reveal_with_fuel(pushed_capacity, 2);
    reveal_with_fuel(pushed_calls, 2);
}

/// The calls to the allocator that `n` pushes onto an empty buffer of
/// elements of layout `info` make, the first one first.
pub open spec fn pushed_log(info: DataInfo, n: nat) -> Seq<Call>
    decreases n,
{
    if n == 0 {
        Seq::empty()
    } else {
        pushed_log(info, (n - 1) as nat) + reserve_calls(
            info,
            n as int,
            pushed_capacity((n - 1) as nat),
        )
    }
}

/// Making room asks the allocator at most once, and never to shrink or to
/// release: the call, if there is one, is `allocate` or `grow`.
pub proof fn lemma_reserve_calls_allocate_or_grow(info: DataInfo, needed: int, capacity: int)
    requires
        0 <= capacity,
    ensures
        reserve_calls(info, needed, capacity).len() <= 1,
        needed <= capacity ==> reserve_calls(info, needed, capacity).len() == 0,
        forall|i: int|
            0 <= i < reserve_calls(info, needed, capacity).len() ==> {
                let call = #[trigger] reserve_calls(info, needed, capacity)[i];
                call is Allocate || call is Grow
            },
{
    let reached = reserved_capacity(needed, capacity);
    if needed > capacity {
        assert(info.size * capacity <= info.size * reached) by (nonlinear_arith)
            requires
                0 <= capacity <= reached,
                0 <= info.size,
        ;
        assert(0 <= info.size * capacity) by (nonlinear_arith)
            requires
                0 <= capacity,
                0 <= info.size,
        ;
    }
}

/// The pushes onto an empty buffer call `allocate` and `grow` only, never
/// `shrink` or `deallocate`, and no more often than `pushed_calls` counts:
/// at most `2 * log2(n) + 2` times in `n` pushes.
pub proof fn lemma_pushes_allocate_and_grow_only(info: DataInfo, n: nat)
    ensures
        pushed_log(info, n).len() <= pushed_calls(n),
        n >= 1 ==> pushed_log(info, n).len() <= 2 * log(2, n as int) + 2,
        forall|i: int|
            0 <= i < pushed_log(info, n).len() ==> {
                let call = #[trigger] pushed_log(info, n)[i];
                call is Allocate || call is Grow
            },
    decreases n,
{
    if n > 0 {
        let before = (n - 1) as nat;
        lemma_pushes_allocate_and_grow_only(info, before);
        lemma_pushed(before);
        lemma_reserve_calls_allocate_or_grow(info, n as int, pushed_capacity(before));
        lemma_push_follows_count(info, before);
        lemma_pushes_call_logarithmically(n);
        let step = reserve_calls(info, n as int, pushed_capacity(before));
        assert forall|i: int| 0 <= i < pushed_log(info, n).len() implies {
            let call = #[trigger] pushed_log(info, n)[i];
            call is Allocate || call is Grow
        } by {
            if i >= pushed_log(info, before).len() {
                assert(pushed_log(info, n)[i] == step[i - pushed_log(info, before).len()]);
            } else {
                assert(pushed_log(info, n)[i] == pushed_log(info, before)[i]);
            }
        }
    }
}

/// The capacity that a buffer has after it grew `k` times, each time by one
/// push onto a full buffer.
pub open spec fn grown(k: nat) -> int
    decreases k,
{
    if k == 0 {
        0
    } else {
        grown_capacity(grown((k - 1) as nat) + 1, grown((k - 1) as nat))
    }
}

/// Each growth adds room, and two growths in a row at least double it.
proof fn lemma_grown_doubles(k: nat)
    ensures
        grown(k) >= k,
        grown(k + 1) > grown(k),
        k >= 2 ==> grown(k + 2) >= 2 * grown(k),
    decreases k,
{
    reveal_with_fuel(grown, 3);
    if k > 0 {
        lemma_grown_doubles((k - 1) as nat);
    }
}

/// The capacity grows with the number of growths.
proof fn lemma_grown_ordered(a: nat, b: nat)
    requires
        a <= b,
    ensures
        grown(a) <= grown(b),
    decreases b - a,
{
    if a < b {
        lemma_grown_doubles(a);
        lemma_grown_ordered(a + 1, b);
    }
}

/// After twice `j` growths the capacity is at least the `j`th power of two.
proof fn lemma_grown_exponential(j: nat)
    requires
        j >= 1,
    ensures
        grown(2 * j) >= pow2(j),
    decreases j,
{
    if j == 1 {
        reveal_with_fuel(grown, 3);
        lemma_pow2(1);
        reveal(pow);
        assert(pow(2, 1) == 2 * pow(2, 0));
    } else {
        lemma_grown_exponential((j - 1) as nat);
        lemma_grown_doubles((2 * (j - 1)) as nat);
        lemma_pow2_unfold(j);
    }
}

/// What `n` pushes from empty leave behind: room for all of them, reached by
/// as many growths as pushes found the buffer full; and the last of those
/// growths began at a capacity below `n`.
proof fn lemma_pushed(n: nat)
    ensures
        pushed_capacity(n) == grown(pushed_calls(n)),
        pushed_capacity(n) >= n,
        n >= 1 ==> pushed_calls(n) >= 1 && grown((pushed_calls(n) - 1) as nat) <= n - 1,
    decreases n,
{
    if n > 0 {
        lemma_pushed((n - 1) as nat);
        let before = pushed_capacity((n - 1) as nat);
        if n > before {
            assert(before == n - 1);
        } else {
            assert(n >= 2) by {
                reveal_with_fuel(pushed_capacity, 2);
            }
        }
    }
}

/// Growth is amortised: `n` pushes onto an empty buffer turn to the
/// allocator at most `2 * log2(n) + 2` times.
pub proof fn lemma_pushes_call_logarithmically(n: nat)
    requires
        n >= 1,
    ensures
        pushed_calls(n) <= 2 * log(2, n as int) + 2,
{
    lemma_pushed(n);
    let calls = pushed_calls(n);
    let j = ((calls - 1) / 2) as nat;
    if j >= 1 {
        lemma_grown_exponential(j);
        lemma_grown_ordered(2 * j, (calls - 1) as nat);
        assert(pow2(j) <= n);
        lemma_pow2(j);
        lemma_log_pow(2, j);
        lemma_log_is_ordered(2, pow2(j) as int, n as int);
    } else {
        vstd::arithmetic::logarithm::lemma_log_nonnegative(2, n as int);
    }
}

} // verus!
