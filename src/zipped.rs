//! Source construction: each attempt pulls one item from a source, and the
//! element procedure runs on the items that pass the guard.
//!
//! Several sources are combined by pulling from each in turn inside the
//! source closure (as `Iterator::zip` does): the attempt ends the whole
//! construction as soon as any of them is exhausted.
use vstd::prelude::*;

use crate::buffer::PartiallyInitArray;
use crate::counting::next_after;

verus! {

/// The source gave `items[j]` on the attempt `j`, for each `j`.
pub open spec fn pulled<I, S: Fn(u64) -> Option<I>>(source: S, items: Seq<I>) -> bool {
    &&& items.len() <= u64::MAX
    &&& forall|j: int| 0 <= j < items.len() ==> source.ensures((j as u64,), Some(#[trigger] items[j]))
}

/// The guard returned `Ok(false)` on every item of `items[lo..hi]`.
pub open spec fn items_rejected<I, E, P: Fn(&I) -> Result<bool, E>>(
    guard: P,
    items: Seq<I>,
    lo: int,
    hi: int,
) -> bool {
    forall|j: int| lo <= j < hi ==> guard.ensures((&#[trigger] items[j],), Ok(false))
}

/// A record of the attempts made so far: `items` were pulled in order,
/// `picks` are the positions of those the guard accepted, and `out[k]` is
/// what the element procedure gave for `items[picks[k]]`.
pub open spec fn zipped_run<
    T,
    I,
    E,
    S: Fn(u64) -> Option<I>,
    P: Fn(&I) -> Result<bool, E>,
    F: Fn(I) -> Result<T, E>,
>(source: S, guard: P, elem: F, items: Seq<I>, picks: Seq<u64>, out: Seq<T>) -> bool {
    &&& pulled(source, items)
    &&& picks.len() == out.len()
    &&& next_after(picks, picks.len() as int) <= items.len()
    &&& items_rejected(guard, items, next_after(picks, picks.len() as int), items.len() as int)
    &&& forall|k: int|
        #![trigger next_after(picks, k)]
        #![trigger out[k]]
        0 <= k < picks.len() ==> {
            &&& next_after(picks, k) <= picks[k] < items.len()
            &&& items_rejected(guard, items, next_after(picks, k), picks[k] as int)
            &&& guard.ensures((&items[picks[k] as int],), Ok(true))
            &&& elem.ensures((items[picks[k] as int],), Ok(out[k]))
        }
}

/// The source has nothing for the attempt that follows `items`.
pub open spec fn source_ended<I, S: Fn(u64) -> Option<I>>(source: S, items: Seq<I>) -> bool {
    items.len() == u64::MAX || source.ensures((items.len() as u64,), None)
}

/// Builds an array of `N` elements from the items of `source`: attempt `j`
/// pulls `source(j)`, and an item that the guard accepts fills the next slot
/// with `elem(item)`.
///
/// `Ok(None)` when the source runs dry (or has given `u64::MAX` items) before
/// the array is full; the elements built so far are released. An `Err` from
/// the guard or the element procedure abandons the construction and is
/// handed back as it is.
pub fn collect_array<T, I, E, const N: usize, S, P, F>(source: S, guard: P, elem: F) -> (r: Result<
    Option<[T; N]>,
    E,
>) where S: Fn(u64) -> Option<I>, P: Fn(&I) -> Result<bool, E>, F: Fn(I) -> Result<T, E>
    requires
        forall|j: u64| #[trigger] source.requires((j,)),
        forall|x: I| #[trigger] guard.requires((&x,)),
        forall|x: I| #[trigger] elem.requires((x,)),
    ensures
        N == 0 ==> r matches Ok(Some(_)),
        r matches Ok(Some(a)) ==> exists|items: Seq<I>, picks: Seq<u64>|
            #[trigger] zipped_run(source, guard, elem, items, picks, a@),
        r matches Ok(None) ==> exists|items: Seq<I>, picks: Seq<u64>, out: Seq<T>|
            out.len() < N && #[trigger] zipped_run(source, guard, elem, items, picks, out)
                && source_ended(source, items),
        r matches Err(e) ==> exists|items: Seq<I>, picks: Seq<u64>, out: Seq<T>, x: I|
            out.len() < N && #[trigger] zipped_run(source, guard, elem, items, picks, out)
                && items.len() < u64::MAX && #[trigger] source.ensures((items.len() as u64,), Some(x))
                && (guard.ensures((&x,), Err(e)) || (guard.ensures((&x,), Ok(true))
                && elem.ensures((x,), Err(e)))),
{
    let mut buf = PartiallyInitArray::<T, N>::uninit();
    let mut attempt: u64 = 0;
    let ghost mut items: Seq<I> = Seq::empty();
    let ghost mut picks: Seq<u64> = Seq::empty();
    loop
        invariant
            buf.wf(),
            items.len() == attempt,
            forall|j: u64| #[trigger] source.requires((j,)),
            forall|x: I| #[trigger] guard.requires((&x,)),
            forall|x: I| #[trigger] elem.requires((x,)),
            zipped_run(source, guard, elem, items, picks, buf@),
        decreases u64::MAX - attempt,
    {
        if buf.is_init() {
            let a = buf.assume_init();
            let r: Result<Option<[T; N]>, E> = Ok(Some(a));
            assert(zipped_run(source, guard, elem, items, picks, r->Ok_0->Some_0@));
            return r;
        }
        if attempt == u64::MAX {
            let r: Result<Option<[T; N]>, E> = Ok(buf.try_init());
            return r;
        }
        let next = source(attempt);
        match next {
            None => {
                let r: Result<Option<[T; N]>, E> = Ok(buf.try_init());
                return r;
            },
            Some(x) => {
                match guard(&x) {
                    Err(e) => {
                        assert(zipped_run(source, guard, elem, items, picks, buf@));
                        assert(source.ensures((items.len() as u64,), Some(x)));
                        return Err(e);
                    },
                    Ok(false) => {
                        proof {
                            let old_items = items;
                            items = items.push(x);
                            let n = picks.len() as int;
                            assert forall|j: int| 0 <= j < old_items.len() implies old_items[j] == items[j] by {}
                            assert forall|j: int| next_after(picks, n) <= j < items.len() implies guard.ensures((&#[trigger] items[j],), Ok(false)) by {
                                if j < old_items.len() {
                                    assert(items_rejected(guard, old_items, next_after(picks, n), old_items.len() as int));
                                }
                            }
                            assert(zipped_run(source, guard, elem, items, picks, buf@));
                        }
                    },
                    Ok(true) => {
                        let ghost gx = x;
                        match elem(x) {
                            Err(e) => {
                                assert(zipped_run(source, guard, elem, items, picks, buf@));
                                assert(source.ensures((items.len() as u64,), Some(gx)));
                                return Err(e);
                            },
                            Ok(v) => {
                                let ghost old_out = buf@;
                                buf.write(v);
                                proof {
                                    let old_items = items;
                                    let old_picks = picks;
                                    items = items.push(gx);
                                    picks = picks.push(attempt);
                                    assert forall|k: int| 0 <= k <= old_picks.len() implies next_after(picks, k) == next_after(old_picks, k) by {}
                                    assert forall|k: int| 0 <= k < picks.len() implies {
                                        &&& next_after(picks, k) <= picks[k] < items.len()
                                        &&& items_rejected(guard, items, next_after(picks, k), picks[k] as int)
                                        &&& guard.ensures((&items[picks[k] as int],), Ok(true))
                                        &&& elem.ensures((items[picks[k] as int],), Ok(#[trigger] buf@[k]))
                                    } by {
                                        if k < old_picks.len() {
                                            assert(old_out[k] == buf@[k]);
                                            assert(items_rejected(guard, old_items, next_after(old_picks, k), old_picks[k] as int));
                                            assert forall|j: int| next_after(picks, k) <= j < picks[k] implies guard.ensures((&#[trigger] items[j],), Ok(false)) by {
                                                assert(old_items[j] == items[j]);
                                            }
                                        } else {
                                            assert forall|j: int| next_after(picks, k) <= j < picks[k] implies guard.ensures((&#[trigger] items[j],), Ok(false)) by {
                                                assert(old_items[j] == items[j]);
                                                assert(items_rejected(guard, old_items, next_after(old_picks, k), old_items.len() as int));
                                            }
                                        }
                                    }
                                    assert(pulled(source, items)) by {
                                        assert forall|j: int| 0 <= j < items.len() implies source.ensures((j as u64,), Some(#[trigger] items[j])) by {
                                            if j < old_items.len() {
                                                assert(old_items[j] == items[j]);
                                            }
                                        }
                                    }
                                    assert(zipped_run(source, guard, elem, items, picks, buf@));
                                }
                            },
                        }
                    },
                }
            },
        }
        attempt = attempt + 1;
    }
}

/// The guard decides by `keep` alone.
pub open spec fn guard_keeps<I, E, P: Fn(&I) -> Result<bool, E>>(guard: P, keep: spec_fn(I) -> bool) -> bool {
    forall|x: I, r: Result<bool, E>| #[trigger] guard.ensures((&x,), r) ==> r == Ok::<bool, E>(keep(x))
}

/// The element procedure hands its item back.
pub open spec fn elem_is_identity<I, E, F: Fn(I) -> Result<I, E>>(elem: F) -> bool {
    forall|x: I, r: Result<I, E>| #[trigger] elem.ensures((x,), r) ==> r == Ok::<I, E>(x)
}

/// The source that gives the items of `s` in order and then nothing.
pub open spec fn gives_seq<I, S: Fn(u64) -> Option<I>>(source: S, s: Seq<I>) -> bool {
    forall|j: u64, r: Option<I>|
        #[trigger] source.ensures((j,), r) ==> r == (if j < s.len() {
            Some(s[j as int])
        } else {
            None
        })
}

/// Filtering a prefix that grows by items `keep` refuses changes nothing.
proof fn filter_skips_refused<I>(x: Seq<I>, keep: spec_fn(I) -> bool, lo: int, hi: int)
    requires
        0 <= lo <= hi <= x.len(),
        forall|j: int| lo <= j < hi ==> !keep(#[trigger] x[j]),
    ensures
        x.take(hi).filter(keep) == x.take(lo).filter(keep),
    decreases hi - lo,
{
    if lo < hi {
        filter_skips_refused(x, keep, lo, hi - 1);
        reveal(Seq::filter);
        assert(x.take(hi).drop_last() == x.take(hi - 1));
        assert(x.take(hi).last() == x[hi - 1]);
    }
}

/// Filtering a prefix that grows by an item `keep` accepts appends it.
proof fn filter_takes_kept<I>(x: Seq<I>, keep: spec_fn(I) -> bool, p: int)
    requires
        0 <= p < x.len(),
        keep(x[p]),
    ensures
        x.take(p + 1).filter(keep) == x.take(p).filter(keep).push(x[p]),
{
    reveal(Seq::filter);
    assert(x.take(p + 1).drop_last() == x.take(p));
    assert(x.take(p + 1).last() == x[p]);
}

/// The first `k` elements of a run are the kept items before the `k`-th pick.
proof fn run_prefix_is_filter<I, E, S, P, F>(
    source: S,
    guard: P,
    elem: F,
    keep: spec_fn(I) -> bool,
    items: Seq<I>,
    picks: Seq<u64>,
    out: Seq<I>,
    k: int,
) where S: Fn(u64) -> Option<I>, P: Fn(&I) -> Result<bool, E>, F: Fn(I) -> Result<I, E>
    requires
        guard_keeps(guard, keep),
        elem_is_identity(elem),
        zipped_run(source, guard, elem, items, picks, out),
        0 <= k <= picks.len(),
    ensures
        items.take(next_after(picks, k)).filter(keep) == out.take(k),
    decreases k,
{
    if k == 0 {
        reveal(Seq::filter);
        assert(items.take(0) == Seq::<I>::empty());
        assert(out.take(0) == Seq::<I>::empty());
    } else {
        let j = k - 1;
        run_prefix_is_filter(source, guard, elem, keep, items, picks, out, j);
        let lo = next_after(picks, j);
        let p = picks[j] as int;
        assert(lo <= p < items.len());
        assert forall|i: int| lo <= i < p implies !keep(#[trigger] items[i]) by {
            assert(guard.ensures((&items[i],), Ok(false)));
        }
        filter_skips_refused(items, keep, lo, p);
        assert(guard.ensures((&items[p],), Ok(true)));
        filter_takes_kept(items, keep, p);
        assert(elem.ensures((items[p],), Ok(out[j])));
        assert(out.take(k) == out.take(j).push(out[j]));
    }
}

/// With an element procedure that hands its item back, a run holds exactly
/// the pulled items that the guard kept.
proof fn run_is_filter<I, E, S, P, F>(
    source: S,
    guard: P,
    elem: F,
    keep: spec_fn(I) -> bool,
    items: Seq<I>,
    picks: Seq<u64>,
    out: Seq<I>,
) where S: Fn(u64) -> Option<I>, P: Fn(&I) -> Result<bool, E>, F: Fn(I) -> Result<I, E>
    requires
        guard_keeps(guard, keep),
        elem_is_identity(elem),
        zipped_run(source, guard, elem, items, picks, out),
    ensures
        out == items.filter(keep),
{
    let n = picks.len() as int;
    run_prefix_is_filter(source, guard, elem, keep, items, picks, out, n);
    assert forall|i: int| next_after(picks, n) <= i < items.len() implies !keep(#[trigger] items[i]) by {
        assert(guard.ensures((&items[i],), Ok(false)));
    }
    filter_skips_refused(items, keep, next_after(picks, n), items.len() as int);
    assert(items.take(items.len() as int) == items);
    assert(out.take(n) == out);
}

/// The items pulled by a run are the first items of the source.
proof fn pulled_prefix<I, S: Fn(u64) -> Option<I>>(source: S, s: Seq<I>, items: Seq<I>)
    requires
        gives_seq(source, s),
        pulled(source, items),
    ensures
        items.len() <= s.len(),
        items == s.take(items.len() as int),
{
    if items.len() > 0 {
        assert(source.ensures(((items.len() - 1) as u64,), Some(items[items.len() - 1])));
    }
    assert forall|j: int| 0 <= j < items.len() implies #[trigger] items[j] == s[j] by {
        assert(source.ensures((j as u64,), Some(items[j])));
    }
    assert(items == s.take(items.len() as int));
}

/// With a guard that keeps the items `keep` accepts and an element procedure
/// that hands its item back, a finished source construction holds the first
/// kept items of the source, in the order they came.
pub proof fn collected_in_encounter_order<I, E, S, P, F>(
    source: S,
    guard: P,
    elem: F,
    keep: spec_fn(I) -> bool,
    s: Seq<I>,
    a: Seq<I>,
) where S: Fn(u64) -> Option<I>, P: Fn(&I) -> Result<bool, E>, F: Fn(I) -> Result<I, E>
    requires
        gives_seq(source, s),
        guard_keeps(guard, keep),
        elem_is_identity(elem),
        exists|items: Seq<I>, picks: Seq<u64>| #[trigger] zipped_run(source, guard, elem, items, picks, a),
    ensures
        a.len() <= s.filter(keep).len(),
        a == s.filter(keep).take(a.len() as int),
{
    let (items, picks) = choose|items: Seq<I>, picks: Seq<u64>| #[trigger] zipped_run(source, guard, elem, items, picks, a);
    run_is_filter(source, guard, elem, keep, items, picks, a);
    pulled_prefix(source, s, items);
    let m = items.len() as int;
    assert(s == s.take(m) + s.skip(m));
    Seq::filter_distributes_over_add(s.take(m), s.skip(m), keep);
    assert(s.filter(keep) == a + s.skip(m).filter(keep));
    assert(a == s.filter(keep).take(a.len() as int));
}

/// With a guard that keeps the items `keep` accepts, a source construction
/// that ran the source dry before filling `n` slots had fewer than `n` kept
/// items. (The construction pulls at most `u64::MAX` items.)
pub proof fn short_source_gives_none<I, E, S, P, F>(
    source: S,
    guard: P,
    elem: F,
    keep: spec_fn(I) -> bool,
    s: Seq<I>,
    n: usize,
) where S: Fn(u64) -> Option<I>, P: Fn(&I) -> Result<bool, E>, F: Fn(I) -> Result<I, E>
    requires
        s.len() <= u64::MAX,
        gives_seq(source, s),
        guard_keeps(guard, keep),
        elem_is_identity(elem),
        exists|items: Seq<I>, picks: Seq<u64>, out: Seq<I>|
            out.len() < n && #[trigger] zipped_run(source, guard, elem, items, picks, out)
                && source_ended(source, items),
    ensures
        s.filter(keep).len() < n,
{
    let (items, picks, out) = choose|items: Seq<I>, picks: Seq<u64>, out: Seq<I>|
        out.len() < n && #[trigger] zipped_run(source, guard, elem, items, picks, out)
            && source_ended(source, items);
    run_is_filter(source, guard, elem, keep, items, picks, out);
    pulled_prefix(source, s, items);
    if items.len() < u64::MAX {
        assert(source.ensures((items.len() as u64,), None));
    }
    assert(items.len() == s.len());
    assert(s.take(s.len() as int) == s);
}

} // verus!
