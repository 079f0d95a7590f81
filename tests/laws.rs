use std::cell::{Cell, RefCell};
use std::rc::Rc;

use array_fu::{build_array, collect_array, Halt, PartiallyInitArray};

/// A value that counts how often values of its kind are dropped.
struct Counted {
    drops: Rc<Cell<usize>>,
}

impl Drop for Counted {
    fn drop(&mut self) {
        self.drops.set(self.drops.get() + 1);
    }
}

#[test]
fn squares_of_ordinals() {
    assert_eq!(
        build_array::<u64, (), 5, _, _>(u64::MAX, |_| Ok(true), |o| Ok(o * o)),
        Ok([0, 1, 4, 9, 16])
    );
}

#[test]
fn odd_guard_gives_odd_ordinals_only() {
    let seen = RefCell::new(Vec::new());
    let r = build_array::<u64, (), 4, _, _>(u64::MAX, |o| Ok(o % 2 == 1), |o| {
        seen.borrow_mut().push(o);
        Ok(o)
    });
    assert_eq!(r, Ok([1, 3, 5, 7]));
    assert_eq!(*seen.borrow(), vec![1, 3, 5, 7]);
}

#[test]
fn ordinal_space_runs_out() {
    let r = build_array::<u8, (), 1, _, _>(255, |_| Ok(false), |_| Ok(0));
    assert_eq!(r, Err(Halt::Exhausted));
    let r = build_array::<u64, (), 3, _, _>(5, |o| Ok(o % 2 == 1), |o| Ok(o));
    assert_eq!(r, Err(Halt::Exhausted));
    let r = build_array::<u64, (), 3, _, _>(6, |o| Ok(o % 2 == 1), |o| Ok(o));
    assert_eq!(r, Ok([1, 3, 5]));
}

#[test]
fn full_array_before_limit_is_done() {
    let r = build_array::<u64, (), 3, _, _>(3, |_| Ok(true), |o| Ok(o + 10));
    assert_eq!(r, Ok([10, 11, 12]));
}

#[test]
fn escape_value_comes_back() {
    let r = build_array::<u64, &str, 3, _, _>(u64::MAX, |_| Ok(true), |o| if o == 1 { Err("stop") } else { Ok(o) });
    assert_eq!(r, Err(Halt::Escaped("stop")));
    let it = RefCell::new(1..);
    let r = collect_array::<i32, i32, i32, 3, _, _, _>(|_| it.borrow_mut().next(), |&x| if x == 2 { Err(x) } else { Ok(true) }, |x| Ok(x));
    assert_eq!(r, Err(2));
}

#[test]
fn single_source_in_encounter_order() {
    let it = RefCell::new(1..);
    let r = collect_array::<i32, i32, (), 3, _, _, _>(|_| it.borrow_mut().next(), |_| Ok(true), |x| Ok(x));
    assert_eq!(r, Ok(Some([1, 2, 3])));
    let it = RefCell::new(1..3);
    let r = collect_array::<i32, i32, (), 3, _, _, _>(|_| it.borrow_mut().next(), |_| Ok(true), |x| Ok(x));
    assert_eq!(r, Ok(None));
}

#[test]
fn source_indexed_by_attempt() {
    let r = collect_array::<u64, u64, (), 4, _, _, _>(|j| if j < 4 { Some(j * 10) } else { None }, |_| Ok(true), |x| Ok(x));
    assert_eq!(r, Ok(Some([0, 10, 20, 30])));
    let r = collect_array::<u64, u64, (), 4, _, _, _>(|j| if j < 4 { Some(j * 10) } else { None }, |&x| Ok(x != 10), |x| Ok(x));
    assert_eq!(r, Ok(None));
}

#[test]
fn two_sources_summed_pointwise() {
    let it = RefCell::new((1..).zip(2..));
    let r = collect_array::<i32, (i32, i32), (), 3, _, _, _>(|_| it.borrow_mut().next(), |_| Ok(true), |(x, y)| Ok(x + y));
    assert_eq!(r, Ok(Some([3, 5, 7])));
}

#[test]
fn guard_over_two_sources() {
    let it = RefCell::new((1..).zip([1, 2].into_iter().cycle()));
    let r = collect_array::<i32, (i32, i32), (), 3, _, _, _>(
        |_| it.borrow_mut().next(),
        |&(x, y)| Ok(x > 3 && y == 1),
        |(x, y)| Ok(x + y),
    );
    assert_eq!(r, Ok(Some([6, 8, 10])));
    let it = RefCell::new((1..).zip([1, 2].into_iter().cycle()));
    let r = collect_array::<i32, (i32, i32), (), 3, _, _, _>(
        |_| it.borrow_mut().next(),
        |&(x, y)| Ok(x > 3 && y == 1),
        |(x, _y)| Ok(x),
    );
    assert_eq!(r, Ok(Some([5, 7, 9])));
}

#[test]
fn exhausted_later_source_ends_construction() {
    let pulls = Cell::new(0);
    let it = RefCell::new((0..10).zip(0..2));
    let r = collect_array::<i32, (i32, i32), (), 3, _, _, _>(
        |_| {
            pulls.set(pulls.get() + 1);
            it.borrow_mut().next()
        },
        |_| Ok(true),
        |(x, _)| Ok(x),
    );
    assert_eq!(r, Ok(None));
    assert_eq!(pulls.get(), 3);
}

#[test]
fn escape_releases_exactly_the_written_values() {
    for k in 0..4u64 {
        let drops = Rc::new(Cell::new(0));
        let made = Cell::new(0);
        let r = build_array::<Counted, u64, 4, _, _>(u64::MAX, |_| Ok(true), |o| {
            if o == k {
                Err(o)
            } else {
                made.set(made.get() + 1);
                Ok(Counted { drops: drops.clone() })
            }
        });
        assert!(matches!(r, Err(Halt::Escaped(e)) if e == k));
        assert_eq!(made.get(), k as usize);
        assert_eq!(drops.get(), k as usize);
    }
}

#[test]
fn exhausted_source_releases_partial_values() {
    let drops = Rc::new(Cell::new(0));
    let r = collect_array::<Counted, u64, (), 4, _, _, _>(
        |j| if j < 2 { Some(j) } else { None },
        |_| Ok(true),
        |_| Ok(Counted { drops: drops.clone() }),
    );
    assert!(matches!(r, Ok(None)));
    assert_eq!(drops.get(), 2);
}

#[test]
fn full_buffer_hands_values_out_once() {
    let drops = Rc::new(Cell::new(0));
    let mut buf = PartiallyInitArray::<Counted, 3>::uninit();
    for _ in 0..3 {
        assert!(!buf.is_init());
        buf.write(Counted { drops: drops.clone() });
    }
    assert!(buf.is_init());
    assert_eq!(buf.len(), 3);
    let a = buf.try_init();
    assert!(a.is_some());
    assert_eq!(drops.get(), 0);
    drop(a);
    assert_eq!(drops.get(), 3);
}

#[test]
fn partial_buffer_releases_on_try_init() {
    let drops = Rc::new(Cell::new(0));
    let mut buf = PartiallyInitArray::<Counted, 3>::uninit();
    buf.write(Counted { drops: drops.clone() });
    buf.write(Counted { drops: drops.clone() });
    assert_eq!(buf.len(), 2);
    assert!(buf.try_init().is_none());
    assert_eq!(drops.get(), 2);
}

#[test]
fn abandoned_buffer_releases_written_values() {
    let drops = Rc::new(Cell::new(0));
    let mut buf = PartiallyInitArray::<Counted, 4>::uninit();
    buf.write(Counted { drops: drops.clone() });
    drop(buf);
    assert_eq!(drops.get(), 1);
}

#[test]
fn strict_finalizer_keeps_write_order() {
    let mut buf = PartiallyInitArray::<&str, 2>::uninit();
    buf.write("a");
    buf.write("b");
    assert_eq!(buf.assume_init(), ["a", "b"]);
}

#[test]
fn zero_length_runs_nothing() {
    let r = build_array::<u64, (), 0, _, _>(0, |_| panic!(), |_| panic!());
    assert_eq!(r, Ok([]));
    let r = collect_array::<u64, u64, (), 0, _, _, _>(|_| panic!(), |_| panic!(), |_| panic!());
    assert_eq!(r, Ok(Some([])));
    assert!(PartiallyInitArray::<u64, 0>::uninit().is_init());
}
