use mystd::cell::refcell::{borrow, borrow_mut, release_exclusive, release_shared, RefCellState};
use mystd::cell::Cell;
use mystd::rc::Rc;
use mystd::sync::Arc;
use mystd::test::DropTest;
use std::sync::Mutex;

#[test]
fn cell_test_all() {
    let cell = Cell::new(42);

    let cell_ref_1 = &cell;
    let cell_ref_2 = &cell;

    assert_eq!(cell.get(), 42);
    assert_eq!(cell_ref_1.get(), 42);
    assert_eq!(cell_ref_2.get(), 42);

    cell_ref_1.set(69);

    assert_eq!(cell.get(), 69);
    assert_eq!(cell_ref_1.get(), 69);
    assert_eq!(cell_ref_2.get(), 69);
}

#[test]
fn rc_test_1() {
    let rc = Rc::new(Cell::new(42));

    let rc_1 = rc.clone();
    let rc_2 = rc.clone();

    assert_eq!(rc_1.get().get(), 42);
    assert_eq!(rc_2.get().get(), 42);

    assert_eq!(rc.strong_count(), 3);
}

#[test]
fn rc_test_drop() {
    let (indicator, droptest) = DropTest::new();
    let rc = Rc::new(droptest);

    assert!(indicator.is_alive());

    let rc_1 = rc.clone();

    drop(rc);
    assert!(indicator.is_alive());

    drop(rc_1);
    assert!(!indicator.is_alive());
}

#[test]
fn rc_deref_reads_the_value() {
    let rc = Rc::new(String::from("shared"));
    let other = rc.clone();
    assert_eq!(other.len(), 6);
    assert_eq!(*rc.get(), "shared");
}

#[test]
fn arc_test_1() {
    let a = Arc::new(5);
    let b = a.clone();
    let c = b.clone();
    assert_eq!(*a, 5);
    assert_eq!(*b, 5);
    assert_eq!(*c, 5);

    assert_eq!(a.strong_count(), 3);
}

#[test]
fn arc_test_drop() {
    let a = Arc::new(5);
    let b = a.clone();
    let c = b.clone();

    assert_eq!(a.strong_count(), 3);

    drop(c);
    assert_eq!(a.strong_count(), 2);

    drop(b);
    assert_eq!(a.strong_count(), 1);
}

#[test]
fn arc_test_mutex() {
    let a = Arc::new(Mutex::new(5));
    let b = a.clone();
    let c = b.clone();

    {
        let mut num = a.lock().unwrap();
        *num += 1;
    }

    {
        let mut num = b.lock().unwrap();
        *num += 1;
    }

    {
        let mut num = c.lock().unwrap();
        *num += 1;
    }

    let num = a.lock().unwrap();
    assert_eq!(*num, 8);
}

#[test]
fn refcell_state_shared_borrows_count_up_and_down() {
    let s = borrow(RefCellState::Unshared).unwrap();
    assert_eq!(s, RefCellState::Shared(1));
    let s = borrow(s).unwrap();
    assert_eq!(s, RefCellState::Shared(2));
    assert_eq!(borrow_mut(s), None);
    let s = release_shared(s);
    assert_eq!(s, RefCellState::Shared(1));
    let s = release_shared(s);
    assert_eq!(s, RefCellState::Unshared);
    assert_eq!(borrow_mut(s), Some(RefCellState::Exclusive));
}

#[test]
fn refcell_state_exclusive_blocks_everything() {
    let s = borrow_mut(RefCellState::Unshared).unwrap();
    assert_eq!(borrow(s), None);
    assert_eq!(borrow_mut(s), None);
    assert_eq!(release_exclusive(s), RefCellState::Unshared);
    assert_eq!(borrow(RefCellState::Shared(usize::MAX)), None);
}
