//! Counting construction: the element procedure runs on ordinals 0, 1, 2, ...
//! that pass the guard, until the array is full.
use vstd::prelude::*;

use crate::buffer::PartiallyInitArray;

verus! {

/// Why a construction stopped without an array.
#[derive(Debug, PartialEq, Eq)]
pub enum Halt<E> {
    /// Every ordinal below the limit was tried before the array was full.
    Exhausted,
    /// The guard or the element procedure asked to abandon the construction.
    Escaped(E),
}

/// First ordinal after the `k`-th accepted one (0 for `k == 0`).
pub open spec fn next_after(picks: Seq<u64>, k: int) -> int {
    if k == 0 {
        0
    } else {
        picks[k - 1] + 1
    }
}

/// The guard returned `Ok(false)` on every ordinal in `lo..hi`.
pub open spec fn rejected_between<E, P: Fn(u64) -> Result<bool, E>>(
    guard: P,
    lo: int,
    hi: int,
) -> bool {
    forall|o: u64| lo <= o < hi ==> #[trigger] guard.ensures((o,), Ok(false))
}

/// A record of the attempts on ordinals `0..end`: `picks` are the ordinals
/// the guard accepted, in order, and `out[k]` is what the element procedure
/// gave for `picks[k]`; every other ordinal below `end` was rejected.
pub open spec fn counting_run<T, E, P: Fn(u64) -> Result<bool, E>, F: Fn(u64) -> Result<T, E>>(
    guard: P,
    elem: F,
    picks: Seq<u64>,
    out: Seq<T>,
    end: int,
) -> bool {
    &&& picks.len() == out.len()
    &&& next_after(picks, picks.len() as int) <= end
    &&& rejected_between(guard, next_after(picks, picks.len() as int), end)
    &&& forall|k: int|
        #![trigger next_after(picks, k)]
        #![trigger out[k]]
        0 <= k < picks.len() ==> {
            &&& next_after(picks, k) <= picks[k]
            &&& rejected_between(guard, next_after(picks, k), picks[k] as int)
            &&& guard.ensures((picks[k],), Ok(true))
            &&& elem.ensures((picks[k],), Ok(out[k]))
        }
}

/// Builds an array of `N` elements: for each ordinal `o` in `0..limit`, in
/// order, the guard decides whether `elem(o)` fills the next slot.
///
/// `limit` is the size of the ordinal space (255 for a wrapping `u8`
/// counter); running past it with slots left is `Halt::Exhausted`. An `Err`
/// from either closure abandons the construction, releasing the elements
/// built so far, and comes back as `Halt::Escaped`.
pub fn build_array<T, E, const N: usize, P, F>(limit: u64, guard: P, elem: F) -> (r: Result<
    [T; N],
    Halt<E>,
>) where P: Fn(u64) -> Result<bool, E>, F: Fn(u64) -> Result<T, E>
    requires
        forall|o: u64| #[trigger] guard.requires((o,)),
        forall|o: u64| #[trigger] elem.requires((o,)),
    ensures
        N == 0 ==> r is Ok,
        r matches Ok(a) ==> exists|picks: Seq<u64>, end: int|
            end <= limit && #[trigger] counting_run(guard, elem, picks, a@, end),
        r matches Err(Halt::Exhausted) ==> exists|picks: Seq<u64>, out: Seq<T>|
            out.len() < N && #[trigger] counting_run(guard, elem, picks, out, limit as int),
        r matches Err(Halt::Escaped(e)) ==> exists|picks: Seq<u64>, out: Seq<T>, o: u64|
            out.len() < N && o < limit && #[trigger] counting_run(guard, elem, picks, out, o as int)
                && (guard.ensures((o,), Err(e)) || (guard.ensures((o,), Ok(true))
                && elem.ensures((o,), Err(e)))),
{
    let mut buf = PartiallyInitArray::<T, N>::uninit();
    let mut ord: u64 = 0;
    let ghost mut picks: Seq<u64> = Seq::empty();
    loop
        invariant
            buf.wf(),
            ord <= limit,
            forall|o: u64| #[trigger] guard.requires((o,)),
            forall|o: u64| #[trigger] elem.requires((o,)),
            counting_run(guard, elem, picks, buf@, ord as int),
        decreases limit - ord,
    {
        if buf.is_init() {
            let a = buf.assume_init();
            let r: Result<[T; N], Halt<E>> = Ok(a);
            assert(counting_run(guard, elem, picks, r->Ok_0@, ord as int));
            return r;
        }
        if ord == limit {
            return Err(Halt::Exhausted);
        }
        match guard(ord) {
            Err(e) => {
                return Err(Halt::Escaped(e));
            },
            Ok(false) => {
                proof {
                    let n = picks.len() as int;
                    assert forall|o: u64| next_after(picks, n) <= o < ord + 1 implies #[trigger] guard.ensures((o,), Ok(false)) by {
                        if o < ord {
                            assert(rejected_between(guard, next_after(picks, n), ord as int));
                        }
                    }
                    assert(counting_run(guard, elem, picks, buf@, ord + 1));
                }
            },
            Ok(true) => {
                match elem(ord) {
                    Err(e) => {
                        return Err(Halt::Escaped(e));
                    },
                    Ok(v) => {
                        let ghost old_out = buf@;
                        buf.write(v);
                        proof {
                            let old_picks = picks;
                            picks = picks.push(ord);
                            assert forall|k: int| 0 <= k <= old_picks.len() implies next_after(picks, k) == next_after(old_picks, k) by {
                            }
                            assert forall|k: int| 0 <= k < picks.len() implies {
                                &&& next_after(picks, k) <= picks[k]
                                &&& rejected_between(guard, next_after(picks, k), picks[k] as int)
                                &&& guard.ensures((picks[k],), Ok(true))
                                &&& elem.ensures((picks[k],), Ok(#[trigger] buf@[k]))
                            } by {
                                if k < old_picks.len() {
                                    assert(old_out[k] == buf@[k]);
                                }
                            }
                            assert(next_after(picks, picks.len() as int) == ord + 1);
                            assert(rejected_between(guard, ord + 1, ord + 1));
                            assert(counting_run(guard, elem, picks, buf@, ord + 1));
                        }
                    },
                }
            },
        }
        ord = ord + 1;
    }
}

/// Where the guard accepts every ordinal, the `k`-th accepted ordinal is `k`.
proof fn picks_are_consecutive<T, E, P: Fn(u64) -> Result<bool, E>, F: Fn(u64) -> Result<T, E>>(
    guard: P,
    elem: F,
    picks: Seq<u64>,
    out: Seq<T>,
    end: int,
    k: int,
)
    requires
        forall|o: u64, r: Result<bool, E>| #[trigger] guard.ensures((o,), r) ==> r == Ok::<bool, E>(true),
        counting_run(guard, elem, picks, out, end),
        0 <= k < picks.len(),
    ensures
        picks[k] == k,
    decreases k,
{
    if k > 0 {
        picks_are_consecutive(guard, elem, picks, out, end, k - 1);
    }
    if next_after(picks, k) < picks[k] {
        let o = next_after(picks, k) as u64;
        assert(guard.ensures((o,), Ok(false)));
    }
}

/// With a guard that accepts every ordinal and an element procedure that
/// gives the square of its ordinal, a finished counting construction holds
/// `0², 1², 2², ...` in order.
pub proof fn squares_in_order<E, P: Fn(u64) -> Result<bool, E>, F: Fn(u64) -> Result<u64, E>>(
    guard: P,
    elem: F,
    a: Seq<u64>,
)
    requires
        forall|o: u64, r: Result<bool, E>| #[trigger] guard.ensures((o,), r) ==> r == Ok::<bool, E>(true),
        forall|o: u64, r: Result<u64, E>| #[trigger] elem.ensures((o,), r) ==> (r matches Ok(v) && v == o * o),
        exists|picks: Seq<u64>, end: int| #[trigger] counting_run(guard, elem, picks, a, end),
    ensures
        forall|k: int| 0 <= k < a.len() ==> #[trigger] a[k] == k * k,
{
    let (picks, end) = choose|picks: Seq<u64>, end: int| #[trigger] counting_run(guard, elem, picks, a, end);
    assert forall|k: int| 0 <= k < a.len() implies #[trigger] a[k] == k * k by {
        picks_are_consecutive(guard, elem, picks, a, end, k);
        assert(elem.ensures((picks[k],), Ok(a[k])));
    }
}

/// The ordinal `2k + 1` fits, the guard passed it, and the element
/// procedure gave `x` for it.
pub open spec fn odd_ordinal_gave<T, E, P: Fn(u64) -> Result<bool, E>, F: Fn(u64) -> Result<T, E>>(
    guard: P,
    elem: F,
    k: int,
    x: T,
) -> bool {
    &&& 2 * k + 1 <= u64::MAX
    &&& guard.ensures(((2 * k + 1) as u64,), Ok(true))
    &&& elem.ensures(((2 * k + 1) as u64,), Ok(x))
}

/// Where the guard accepts exactly the odd ordinals, the `k`-th accepted
/// ordinal is `2k + 1`.
proof fn picks_are_odd<T, E, P: Fn(u64) -> Result<bool, E>, F: Fn(u64) -> Result<T, E>>(
    guard: P,
    elem: F,
    picks: Seq<u64>,
    out: Seq<T>,
    end: int,
    k: int,
)
    requires
        forall|o: u64, r: Result<bool, E>| #[trigger] guard.ensures((o,), r) ==> r == Ok::<bool, E>(o % 2 == 1),
        counting_run(guard, elem, picks, out, end),
        0 <= k < picks.len(),
    ensures
        picks[k] == 2 * k + 1,
        2 * k + 1 <= u64::MAX,
        guard.ensures(((2 * k + 1) as u64,), Ok(true)),
        elem.ensures(((2 * k + 1) as u64,), Ok(out[k])),
    decreases k,
{
    if k > 0 {
        picks_are_odd(guard, elem, picks, out, end, k - 1);
    }
    let p = picks[k];
    assert(next_after(picks, k) == 2 * k);
    assert(guard.ensures((p,), Ok(true)));
    assert(p % 2 == 1);
    if p > 2 * k + 1 {
        let o = (2 * k + 1) as u64;
        assert(guard.ensures((o,), Ok(false)));
    }
    assert(p == (2 * k + 1) as u64);
}

/// With a guard that accepts the odd ordinals only, a finished counting
/// construction skips every even ordinal: its `k`-th element is what the
/// element procedure gave for the ordinal `2k + 1`, which the guard passed.
pub proof fn odd_guard_skips_even<T, E, P: Fn(u64) -> Result<bool, E>, F: Fn(u64) -> Result<T, E>>(
    guard: P,
    elem: F,
    a: Seq<T>,
)
    requires
        forall|o: u64, r: Result<bool, E>| #[trigger] guard.ensures((o,), r) ==> r == Ok::<bool, E>(o % 2 == 1),
        exists|picks: Seq<u64>, end: int| #[trigger] counting_run(guard, elem, picks, a, end),
    ensures
        forall|k: int| 0 <= k < a.len() ==> #[trigger] odd_ordinal_gave(guard, elem, k, a[k]),
{
    let (picks, end) = choose|picks: Seq<u64>, end: int| #[trigger] counting_run(guard, elem, picks, a, end);
    assert forall|k: int| 0 <= k < a.len() implies #[trigger] odd_ordinal_gave(guard, elem, k, a[k]) by {
        picks_are_odd(guard, elem, picks, a, end, k);
    }
}

} // verus!
