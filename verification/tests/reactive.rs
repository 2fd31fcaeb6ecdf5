use std::cell::Cell;
use yoru::tracking::{
    Computed, Computed2, Derived, Dirtiness, ObservableInner, ObserverInner, ReadableSignal,
    RwSignal, TrackedVec, Tracker, WritableSignal,
};

struct Model {
    flag: RwSignal<bool>,
    a: RwSignal<i32>,
    b: RwSignal<i32>,
}

fn pick(tracker: &mut Tracker, model: &mut Model) -> i32 {
    if model.flag.get(tracker) {
        model.a.get(tracker)
    } else {
        model.b.get(tracker)
    }
}

#[test]
fn dirtiness_tells_itself_apart() {
    assert!(Dirtiness::Clean.is_clean());
    assert!(!Dirtiness::Clean.is_dirty());
    assert!(Dirtiness::Dirty.is_dirty());
    assert!(!Dirtiness::Dirty.is_clean());
}

#[test]
fn read_outside_a_computation_registers_nothing() {
    let mut tracker = Tracker::new();
    assert_eq!(tracker.len(), 0);
    assert!(!tracker.is_tracking());
    let signal = RwSignal::new(&mut tracker, 7);
    assert_eq!(tracker.len(), 1);
    assert_eq!(signal.get(&mut tracker), 7);
    assert_eq!(signal.get_untracked(), 7);
    signal.track(&mut tracker);
    let observer = ObserverInner::new(&mut tracker, Dirtiness::Clean);
    let mut signal = signal;
    signal.set(&mut tracker, 8);
    assert!(!observer.is_dirty(&tracker));
    assert_eq!(signal.get_untracked(), 8);
}

#[test]
fn trigger_marks_what_depends_on_the_observable() {
    let mut tracker = Tracker::new();
    let source = ObservableInner::new(&mut tracker);
    let other = ObservableInner::new(&mut tracker);
    let (first, _) = ObserverInner::run_and_track(&mut tracker, |t: &mut Tracker| {
        assert!(t.is_tracking());
        source.register(t);
    });
    let (second, _) = ObserverInner::run_and_track(&mut tracker, |t: &mut Tracker| {
        first.as_observable().register(t);
    });
    let (third, _) = ObserverInner::run_and_track(&mut tracker, |t: &mut Tracker| {
        other.register(t);
    });
    assert!(!tracker.is_tracking());
    assert!(!first.is_dirty(&tracker));
    source.trigger(&mut tracker);
    assert!(first.is_dirty(&tracker));
    assert!(second.is_dirty(&tracker));
    assert!(!third.is_dirty(&tracker));
    assert_eq!(first.id(), source.id() + 2);
}

#[test]
fn trigger_stops_at_a_dirty_observer() {
    let mut tracker = Tracker::new();
    let source = ObservableInner::new(&mut tracker);
    let (first, _) = ObserverInner::run_and_track(&mut tracker, |t: &mut Tracker| source.register(t));
    first.mark_dirty(&mut tracker);
    // reads `first` while it is dirty
    let (behind, _) = ObserverInner::run_and_track(&mut tracker, |t: &mut Tracker| {
        first.as_observable().register(t)
    });
    let (beside, _) = ObserverInner::run_and_track(&mut tracker, |t: &mut Tracker| source.register(t));
    source.trigger(&mut tracker);
    assert!(first.is_dirty(&tracker));
    assert!(beside.is_dirty(&tracker));
    assert!(!behind.is_dirty(&tracker));
}

#[test]
fn trigger_reaches_an_observer_over_two_paths_once() {
    let mut tracker = Tracker::new();
    let source = ObservableInner::new(&mut tracker);
    let (left, _) = ObserverInner::run_and_track(&mut tracker, |t: &mut Tracker| source.register(t));
    let (right, _) = ObserverInner::run_and_track(&mut tracker, |t: &mut Tracker| {
        source.register(t);
        source.register(t);
    });
    let (join, _) = ObserverInner::run_and_track(&mut tracker, |t: &mut Tracker| {
        left.as_observable().register(t);
        right.as_observable().register(t);
    });
    source.trigger(&mut tracker);
    assert!(left.is_dirty(&tracker));
    assert!(right.is_dirty(&tracker));
    assert!(join.is_dirty(&tracker));
    source.trigger(&mut tracker);
    assert!(join.is_dirty(&tracker));
}

#[test]
fn mark_dirty_triggers_only_on_the_change() {
    let mut tracker = Tracker::new();
    let signal = RwSignal::new(&mut tracker, 1);
    let (first, _) = ObserverInner::run_and_track(&mut tracker, |t: &mut Tracker| signal.get(t));
    let (second, _) = ObserverInner::run_and_track(&mut tracker, |t: &mut Tracker| {
        first.as_observable().register(t)
    });
    first.mark_dirty(&mut tracker);
    assert!(first.is_dirty(&tracker));
    assert!(second.is_dirty(&tracker));
    let (third, _) = ObserverInner::run_and_track(&mut tracker, |t: &mut Tracker| {
        first.as_observable().register(t)
    });
    // already dirty: nothing is triggered
    first.mark_dirty(&mut tracker);
    assert!(!third.is_dirty(&tracker));
}

#[test]
fn released_observer_is_passed_over() {
    let mut tracker = Tracker::new();
    let signal = RwSignal::new(&mut tracker, 1);
    let (gone, _) = ObserverInner::run_and_track(&mut tracker, |t: &mut Tracker| signal.get(t));
    let (behind, _) = ObserverInner::run_and_track(&mut tracker, |t: &mut Tracker| {
        gone.as_observable().register(t)
    });
    gone.release(&mut tracker);
    let mut signal = signal;
    signal.set(&mut tracker, 2);
    assert!(!gone.is_dirty(&tracker));
    assert!(!behind.is_dirty(&tracker));
}

#[test]
fn nested_computations_keep_their_reads_apart() {
    let mut tracker = Tracker::new();
    let outer_signal = RwSignal::new(&mut tracker, 1);
    let inner_signal = RwSignal::new(&mut tracker, 2);
    let (outer, inner) = ObserverInner::run_and_track(&mut tracker, |t: &mut Tracker| {
        let (inner, _) = ObserverInner::run_and_track(t, |t: &mut Tracker| inner_signal.get(t));
        outer_signal.get(t);
        inner
    });
    let mut inner_signal = inner_signal;
    inner_signal.set(&mut tracker, 3);
    assert!(inner.is_dirty(&tracker));
    assert!(!outer.is_dirty(&tracker));
    let mut outer_signal = outer_signal;
    outer_signal.set(&mut tracker, 4);
    assert!(outer.is_dirty(&tracker));
}

#[test]
fn signal_update_changes_the_value_and_triggers() {
    let mut tracker = Tracker::new();
    let mut signal = RwSignal::new(&mut tracker, vec![1, 2]);
    let (reader, total) = ObserverInner::run_and_track(&mut tracker, |t: &mut Tracker| {
        signal.with(t, |items: &Vec<i32>| items.iter().sum::<i32>())
    });
    assert_eq!(total, 3);
    signal.update(&mut tracker, |items: &mut Vec<i32>| items.push(4));
    assert!(reader.is_dirty(&tracker));
    assert_eq!(signal.get_untracked(), vec![1, 2, 4]);
    let (reader, _) = ObserverInner::run_and_track(&mut tracker, |t: &mut Tracker| signal.track(t));
    signal.set_untracked(vec![]);
    let n = signal.update_untracked(|items: &mut Vec<i32>| {
        items.push(9);
        items.len()
    });
    assert_eq!(n, 1);
    assert!(!reader.is_dirty(&tracker));
    let doubled = WritableSignal::update(&mut signal, &mut tracker, |items: &mut Vec<i32>| {
        items[0] *= 2;
        items[0]
    });
    assert_eq!(doubled, 18);
    assert!(reader.is_dirty(&tracker));
}

#[test]
fn computed_runs_only_while_dirty() {
    let mut tracker = Tracker::new();
    let mut signal = RwSignal::new(&mut tracker, 5);
    let mut cell: Computed<i32> = Computed::new(&mut tracker);
    assert!(cell.is_dirty(&tracker));
    assert_eq!(cell.get_untracked(), 0);
    let calls = Cell::new(0);
    cell.maybe_update(&mut tracker, |t: &mut Tracker| {
        calls.set(calls.get() + 1);
        signal.get(t) * 2
    });
    assert!(!cell.is_dirty(&tracker));
    assert_eq!(cell.get_untracked(), 10);
    assert_eq!(*cell.peek(), 10);
    cell.maybe_update(&mut tracker, |_: &mut Tracker| {
        calls.set(calls.get() + 1);
        0
    });
    assert_eq!(calls.get(), 1);
    assert_eq!(cell.get(&mut tracker), 10);
    signal.set(&mut tracker, 6);
    assert!(cell.is_dirty(&tracker));
    cell.maybe_update(&mut tracker, |t: &mut Tracker| signal.get(t) * 2);
    assert_eq!(cell.get_untracked(), 12);
    cell.invalidate(&mut tracker);
    assert!(cell.is_dirty(&tracker));
    let with_initial = Computed::new_with_initial(&mut tracker, 3u8);
    assert_eq!(with_initial.get_untracked(), 3);
    assert!(with_initial.is_dirty(&tracker));
}

#[test]
fn derived_on_derived_is_marked_through_the_chain() {
    let mut tracker = Tracker::new();
    let mut model = Model {
        flag: RwSignal::new(&mut tracker, true),
        a: RwSignal::new(&mut tracker, 1),
        b: RwSignal::new(&mut tracker, 2),
    };
    let mut first: Derived<Model, i32, _> = Derived::new(&mut tracker, pick);
    assert_eq!(first.maybe_update(&mut tracker, &mut model), Some((0, &1)));
    assert_eq!(first.maybe_update(&mut tracker, &mut model), None);
    let mut second: Computed<i32> = Computed::new(&mut tracker);
    second.maybe_update(&mut tracker, |t: &mut Tracker| first.get(t) + 100);
    assert_eq!(second.get_untracked(), 101);
    model.a.set(&mut tracker, 5);
    assert!(first.is_dirty(&tracker));
    assert!(second.is_dirty(&tracker));
    assert_eq!(first.maybe_update(&mut tracker, &mut model), Some((1, &5)));
    assert_eq!(first.get_untracked(), 5);
    assert_eq!(*first.peek(), 5);
    first.track(&mut tracker);
}

#[test]
fn derived_stops_depending_on_what_it_no_longer_reads() {
    let mut tracker = Tracker::new();
    let mut model = Model {
        flag: RwSignal::new(&mut tracker, true),
        a: RwSignal::new(&mut tracker, 1),
        b: RwSignal::new(&mut tracker, 2),
    };
    let mut cell = Derived::new_with_initial(&mut tracker, -1, pick);
    assert_eq!(cell.maybe_update(&mut tracker, &mut model), Some((-1, &1)));
    assert_eq!(cell.get_untracked(), 1);
    // reads `a`: a write to it marks the cell
    model.a.set(&mut tracker, 10);
    assert!(cell.is_dirty(&tracker));
    cell.maybe_update(&mut tracker, &mut model);
    assert_eq!(cell.get_untracked(), 10);
    // the branch changes: `a` is no longer read
    model.flag.set(&mut tracker, false);
    assert!(cell.is_dirty(&tracker));
    cell.maybe_update(&mut tracker, &mut model);
    assert_eq!(cell.get_untracked(), 2);
    model.a.set(&mut tracker, 11);
    assert!(!cell.is_dirty(&tracker));
    model.b.set(&mut tracker, 3);
    assert!(cell.is_dirty(&tracker));
}

#[test]
fn computed2_runs_when_dirty_or_on_another_input() {
    let mut tracker = Tracker::new();
    let mut signal = RwSignal::new(&mut tracker, 1);
    let mut cell: Computed2<u32, i32> = Computed2::new(&mut tracker);
    let calls = Cell::new(0);
    let mut run = |cell: &mut Computed2<u32, i32>, tracker: &mut Tracker, input: u32| {
        cell.maybe_update(tracker, input, |t: &mut Tracker, input: &u32| {
            calls.set(calls.get() + 1);
            signal.get(t) + *input as i32
        });
    };
    // dirty at first, though the input is the default one
    run(&mut cell, &mut tracker, 0);
    assert_eq!(calls.get(), 1);
    assert_eq!(cell.get_untracked(), 1);
    run(&mut cell, &mut tracker, 0);
    assert_eq!(calls.get(), 1);
    run(&mut cell, &mut tracker, 5);
    assert_eq!(calls.get(), 2);
    assert_eq!(cell.get_untracked(), 6);
    assert!(!cell.is_dirty(&tracker));
    let mut reader: Computed<i32> = Computed::new(&mut tracker);
    reader.maybe_update(&mut tracker, |t: &mut Tracker| cell.get(t));
    assert!(!reader.is_dirty(&tracker));
    // another input: what read the cell is marked after the computation
    cell.maybe_update(&mut tracker, 6, |t: &mut Tracker, input: &u32| signal.get(t) + *input as i32);
    assert!(reader.is_dirty(&tracker));
    assert_eq!(cell.get_untracked(), 7);
    signal.set(&mut tracker, 2);
    assert!(cell.is_dirty(&tracker));
    cell.refresh(&mut tracker, false, 6, |_: &mut Tracker, _: &u32| 0);
    assert_eq!(cell.get_untracked(), 7);
    cell.refresh(&mut tracker, true, 6, |_: &mut Tracker, _: &u32| 40);
    assert_eq!(cell.get_untracked(), 40);
    let ready = Computed2::new_with_initial(&mut tracker, 1u8, 2u8);
    assert_eq!(ready.get_untracked(), 2);
    assert_eq!(*ready.peek(), 2);
    assert!(ready.is_dirty(&tracker));
    ready.track(&mut tracker);
}

#[test]
fn tracked_vec_triggers_on_push() {
    let mut tracker = Tracker::new();
    let mut list: TrackedVec<i32> = TrackedVec::new(&mut tracker);
    let mut count: Computed<usize> = Computed::new(&mut tracker);
    count.maybe_update(&mut tracker, |t: &mut Tracker| list.with(t, |items: &[i32]| items.len()));
    assert_eq!(count.get_untracked(), 0);
    list.push(&mut tracker, 4);
    list.push(&mut tracker, 5);
    assert!(count.is_dirty(&tracker));
    count.maybe_update(&mut tracker, |t: &mut Tracker| list.with(t, |items: &[i32]| items.len()));
    assert_eq!(count.get_untracked(), 2);
    let first = list.with_mut_untracked(|items: &mut [i32]| {
        items[0] = 40;
        items[0]
    });
    assert_eq!(first, 40);
    assert!(!count.is_dirty(&tracker));
    assert_eq!(list.with(&mut tracker, |items: &[i32]| items.len()), 2);
    assert_eq!(list.with(&mut tracker, |items: &[i32]| items.to_vec()), vec![40, 5]);
}

#[test]
fn pending_computation_resumes_the_outer_one() {
    let mut tracker = Tracker::new();
    let signal = RwSignal::new(&mut tracker, 1);
    let outer = tracker.begin();
    let inner = tracker.begin();
    assert!(tracker.is_tracking());
    signal.track(&mut tracker);
    let inner = tracker.end(inner);
    assert!(tracker.is_tracking());
    let outer = tracker.end(outer);
    assert!(!tracker.is_tracking());
    let mut signal = signal;
    signal.set(&mut tracker, 2);
    assert!(inner.is_dirty(&tracker));
    assert!(!outer.is_dirty(&tracker));
    let mut cell = Computed::new_with_initial(&mut tracker, 0);
    let pending = tracker.begin();
    let observer = tracker.end(pending);
    cell.install(&mut tracker, observer, 9);
    assert_eq!(cell.get_untracked(), 9);
    assert!(!cell.is_dirty(&tracker));
}

#[test]
fn reads_are_counted_for_the_observer() {
    let mut tracker = Tracker::new();
    let a = RwSignal::new(&mut tracker, 1);
    let b = RwSignal::new(&mut tracker, 2);
    let mut cell: Computed<i32> = Computed::new(&mut tracker);
    assert_eq!(cell.count_observers(&tracker), 0);
    cell.maybe_update(&mut tracker, |t: &mut Tracker| a.get(t) + b.get(t) + a.get(t));
    assert_eq!(cell.count_observers(&tracker), 3);
    assert_eq!(tracker.count_reads(0), 0);
    cell.invalidate(&mut tracker);
    cell.maybe_update(&mut tracker, |t: &mut Tracker| b.get(t));
    assert_eq!(cell.count_observers(&tracker), 1);
}
