use typestore::raw::TypeContainer;
use typestore::{Key, StoreError};

#[derive(Debug, Clone, Copy, PartialEq)]
enum Val {
    U(usize),
    B(bool),
    Unit,
    F(f64),
}

struct A;
impl Key for A {
    type Value = usize;
    fn identity(&self) -> u64 {
        1
    }
}

struct B;
impl Key for B {
    type Value = bool;
    fn identity(&self) -> u64 {
        2
    }
}

struct C;
impl Key for C {
    type Value = ();
    fn identity(&self) -> u64 {
        3
    }
}

struct D;
impl Key for D {
    type Value = f64;
    fn identity(&self) -> u64 {
        4
    }
}

#[test]
fn raw_test_insert() {
    let mut container: TypeContainer<Val> = TypeContainer::new();

    assert!(container.get(A.identity()).is_none());
    assert!(container.get(B.identity()).is_none());
    assert!(container.get(C.identity()).is_none());
    assert!(container.get(D.identity()).is_none());

    assert!(container.try_insert(A.identity(), Val::U(1)).is_ok());
    assert!(container.get(A.identity()).is_some_and(|x| *x == Val::U(1)));
    assert!(container.get(B.identity()).is_none());
    assert!(container.get(C.identity()).is_none());
    assert!(container.get(D.identity()).is_none());

    assert!(container.try_insert(B.identity(), Val::B(true)).is_ok());
    assert!(container.get(A.identity()).is_some_and(|x| *x == Val::U(1)));
    assert!(container.get(B.identity()).is_some_and(|x| *x == Val::B(true)));
    assert!(container.get(C.identity()).is_none());
    assert!(container.get(D.identity()).is_none());

    assert!(container.try_insert(C.identity(), Val::Unit).is_ok());
    assert!(container.get(A.identity()).is_some_and(|x| *x == Val::U(1)));
    assert!(container.get(B.identity()).is_some_and(|x| *x == Val::B(true)));
    assert!(container.get(C.identity()).is_some_and(|x| x.eq(&Val::Unit)));
    assert!(container.get(D.identity()).is_none());

    assert!(container.try_insert(D.identity(), Val::F(1.0)).is_ok());
    assert!(container.get(A.identity()).is_some_and(|x| *x == Val::U(1)));
    assert!(container.get(B.identity()).is_some_and(|x| *x == Val::B(true)));
    assert!(container.get(C.identity()).is_some_and(|x| x.eq(&Val::Unit)));
    assert!(container.get(D.identity()).is_some_and(|x| x.eq(&Val::F(1.0))));
}

#[test]
fn raw_test_mutate() {
    let mut container: TypeContainer<Val> = TypeContainer::new();

    let _ = container.try_insert(A.identity(), Val::U(1));
    let _ = container.try_insert(B.identity(), Val::B(true));
    let _ = container.try_insert(C.identity(), Val::Unit);
    let _ = container.try_insert(D.identity(), Val::F(1.0));

    let a = container.get_mut(A.identity()).unwrap();
    *a = Val::U(2);
    assert!(container.get(A.identity()).is_some_and(|x| *x == Val::U(2)));
    assert!(container.get(B.identity()).is_some_and(|x| *x == Val::B(true)));
    assert!(container.get(C.identity()).is_some_and(|x| x.eq(&Val::Unit)));
    assert!(container.get(D.identity()).is_some_and(|x| x.eq(&Val::F(1.0))));

    let b = container.get_mut(B.identity()).unwrap();
    *b = Val::B(false);
    assert!(container.get(A.identity()).is_some_and(|x| *x == Val::U(2)));
    assert!(container.get(B.identity()).is_some_and(|x| *x == Val::B(false)));
    assert!(container.get(C.identity()).is_some_and(|x| x.eq(&Val::Unit)));
    assert!(container.get(D.identity()).is_some_and(|x| x.eq(&Val::F(1.0))));

    let c = container.get_mut(C.identity()).unwrap();
    *c = Val::Unit;
    assert!(container.get(A.identity()).is_some_and(|x| *x == Val::U(2)));
    assert!(container.get(B.identity()).is_some_and(|x| *x == Val::B(false)));
    assert!(container.get(C.identity()).is_some_and(|x| x.eq(&Val::Unit)));
    assert!(container.get(D.identity()).is_some_and(|x| x.eq(&Val::F(1.0))));

    let d = container.get_mut(D.identity()).unwrap();
    *d = Val::F(2.0);
    assert!(container.get(A.identity()).is_some_and(|x| *x == Val::U(2)));
    assert!(container.get(B.identity()).is_some_and(|x| *x == Val::B(false)));
    assert!(container.get(C.identity()).is_some_and(|x| x.eq(&Val::Unit)));
    assert!(container.get(D.identity()).is_some_and(|x| x.eq(&Val::F(2.0))));
}

#[test]
fn raw_test_reference_insert() {
    let mut container: TypeContainer<Val> = TypeContainer::new();

    // Hold on to a payload handle while inserting
    let _ = container.try_insert(A.identity(), Val::U(1));
    let a = container.payload_handle(A.identity()).unwrap();

    // Force the internal directory to be resized
    let _ = container.try_insert(B.identity(), Val::B(true));
    let _ = container.try_insert(C.identity(), Val::Unit);
    let _ = container.try_insert(D.identity(), Val::F(1.0));
    assert!(container.get(B.identity()).is_some_and(|x| *x == Val::B(true)));
    assert!(container.get(C.identity()).is_some_and(|x| x.eq(&Val::Unit)));
    assert!(container.get(D.identity()).is_some_and(|x| x.eq(&Val::F(1.0))));

    // Check the payload the handle names is still valid
    assert_eq!(*container.payload_at(a), Val::U(1));
}

#[test]
fn raw_test_double_insert() {
    let mut container: TypeContainer<Val> = TypeContainer::new();
    assert!(container.try_insert(A.identity(), Val::U(1)).is_ok());
    assert!(container.try_insert(A.identity(), Val::U(2)).is_err());
    assert!(container.get(A.identity()).is_some_and(|x| *x == Val::U(1)));
}

#[test]
fn raw_double_insert_error_kind() {
    let mut container: TypeContainer<u32> = TypeContainer::new();
    assert!(container.try_insert(7, 10).is_ok());
    assert_eq!(container.try_insert(7, 11), Err(StoreError::KeyAlreadyPresent));
    assert_eq!(container.get(7), Some(&10));
}

#[test]
fn raw_growth_keeps_all_entries() {
    let mut container: TypeContainer<u64> = TypeContainer::new();
    for k in 0u64..100 {
        assert!(container.try_insert(k * 7 + 3, k * k).is_ok());
    }
    for k in 0u64..100 {
        assert_eq!(container.get(k * 7 + 3), Some(&(k * k)));
        assert!(container.get(k * 7 + 4).is_none());
    }
}

#[test]
fn raw_handles_survive_growth() {
    let mut container: TypeContainer<u64> = TypeContainer::new();
    let mut handles: Vec<usize> = Vec::new();
    for k in 0u64..40 {
        assert!(container.try_insert(k, 1000 + k).is_ok());
        handles.push(container.payload_handle(k).unwrap());
    }
    // Growth happened several times along the way; every handle taken
    // before still names the same payload.
    for k in 0u64..40 {
        assert_eq!(*container.payload_at(handles[k as usize]), 1000 + k);
    }
}

#[test]
fn raw_mutation_is_visible() {
    let mut container: TypeContainer<i32> = TypeContainer::new();
    let _ = container.try_insert(1, 5);
    let _ = container.try_insert(2, 6);
    *container.get_mut(1).unwrap() = 50;
    assert_eq!(container.get(1), Some(&50));
    assert_eq!(container.get(2), Some(&6));
}

#[test]
fn raw_zero_size_values_round_trip() {
    let mut container: TypeContainer<()> = TypeContainer::new();
    assert!(container.get(1).is_none());
    assert!(container.try_insert(1, ()).is_ok());
    assert_eq!(container.get(1), Some(&()));
    assert!(container.try_insert(1, ()).is_err());
    *container.get_mut(1).unwrap() = ();
    assert_eq!(container.get(1), Some(&()));
    assert!(container.get(2).is_none());
}
