use typestore::hashmap::TypeContainer;
use typestore::{Key, StoreError};

#[derive(Debug, Clone, Copy, PartialEq)]
enum Val {
    U(usize),
    B(bool),
    Unit,
    F(f64),
}

struct A;
impl Key for A {
    type Value = usize;
    fn identity(&self) -> u64 {
        1
    }
}

struct B;
impl Key for B {
    type Value = bool;
    fn identity(&self) -> u64 {
        2
    }
}

struct C;
impl Key for C {
    type Value = ();
    fn identity(&self) -> u64 {
        3
    }
}

struct D;
impl Key for D {
    type Value = f64;
    fn identity(&self) -> u64 {
        4
    }
}

#[test]
fn hashmap_test_insert() {
    let mut container: TypeContainer<Val> = TypeContainer::new();

    assert!(container.get(A.identity()).is_none());
    assert!(container.get(B.identity()).is_none());
    assert!(container.get(C.identity()).is_none());
    assert!(container.get(D.identity()).is_none());

    assert!(container.try_insert(A.identity(), Val::U(1)).is_ok());
    assert!(container.get(A.identity()).is_some_and(|x| *x == Val::U(1)));
    assert!(container.get(B.identity()).is_none());
    assert!(container.get(C.identity()).is_none());
    assert!(container.get(D.identity()).is_none());

    assert!(container.try_insert(B.identity(), Val::B(true)).is_ok());
    assert!(container.get(A.identity()).is_some_and(|x| *x == Val::U(1)));
    assert!(container.get(B.identity()).is_some_and(|x| *x == Val::B(true)));
    assert!(container.get(C.identity()).is_none());
    assert!(container.get(D.identity()).is_none());

    assert!(container.try_insert(C.identity(), Val::Unit).is_ok());
    assert!(container.get(A.identity()).is_some_and(|x| *x == Val::U(1)));
    assert!(container.get(B.identity()).is_some_and(|x| *x == Val::B(true)));
    assert!(container.get(C.identity()).is_some_and(|x| x.eq(&Val::Unit)));
    assert!(container.get(D.identity()).is_none());

    assert!(container.try_insert(D.identity(), Val::F(1.0)).is_ok());
    assert!(container.get(A.identity()).is_some_and(|x| *x == Val::U(1)));
    assert!(container.get(B.identity()).is_some_and(|x| *x == Val::B(true)));
    assert!(container.get(C.identity()).is_some_and(|x| x.eq(&Val::Unit)));
    assert!(container.get(D.identity()).is_some_and(|x| x.eq(&Val::F(1.0))));
}

#[test]
fn hashmap_test_mutate() {
    let mut container: TypeContainer<Val> = TypeContainer::new();

    let _ = container.try_insert(A.identity(), Val::U(1));
    let _ = container.try_insert(B.identity(), Val::B(true));
    let _ = container.try_insert(C.identity(), Val::Unit);
    let _ = container.try_insert(D.identity(), Val::F(1.0));

    let a = container.get_mut(A.identity()).unwrap();
    *a = Val::U(2);
    assert!(container.get(A.identity()).is_some_and(|x| *x == Val::U(2)));
    assert!(container.get(B.identity()).is_some_and(|x| *x == Val::B(true)));
    assert!(container.get(C.identity()).is_some_and(|x| x.eq(&Val::Unit)));
    assert!(container.get(D.identity()).is_some_and(|x| x.eq(&Val::F(1.0))));

    let b = container.get_mut(B.identity()).unwrap();
    *b = Val::B(false);
    assert!(container.get(A.identity()).is_some_and(|x| *x == Val::U(2)));
    assert!(container.get(B.identity()).is_some_and(|x| *x == Val::B(false)));
    assert!(container.get(C.identity()).is_some_and(|x| x.eq(&Val::Unit)));
    assert!(container.get(D.identity()).is_some_and(|x| x.eq(&Val::F(1.0))));

    let c = container.get_mut(C.identity()).unwrap();
    *c = Val::Unit;
    assert!(container.get(A.identity()).is_some_and(|x| *x == Val::U(2)));
    assert!(container.get(B.identity()).is_some_and(|x| *x == Val::B(false)));
    assert!(container.get(C.identity()).is_some_and(|x| x.eq(&Val::Unit)));
    assert!(container.get(D.identity()).is_some_and(|x| x.eq(&Val::F(1.0))));

    let d = container.get_mut(D.identity()).unwrap();
    *d = Val::F(2.0);
    assert!(container.get(A.identity()).is_some_and(|x| *x == Val::U(2)));
    assert!(container.get(B.identity()).is_some_and(|x| *x == Val::B(false)));
    assert!(container.get(C.identity()).is_some_and(|x| x.eq(&Val::Unit)));
    assert!(container.get(D.identity()).is_some_and(|x| x.eq(&Val::F(2.0))));
}

#[test]
fn hashmap_test_reference_insert() {
    let mut container: TypeContainer<Val> = TypeContainer::new();

    // Read a value out, then keep inserting
    let _ = container.try_insert(A.identity(), Val::U(1));
    let a = *container.get(A.identity()).unwrap();

    // Make the backing map grow
    let _ = container.try_insert(B.identity(), Val::B(true));
    let _ = container.try_insert(C.identity(), Val::Unit);
    let _ = container.try_insert(D.identity(), Val::F(1.0));
    assert!(container.get(B.identity()).is_some_and(|x| *x == Val::B(true)));
    assert!(container.get(C.identity()).is_some_and(|x| x.eq(&Val::Unit)));
    assert!(container.get(D.identity()).is_some_and(|x| x.eq(&Val::F(1.0))));

    // The stored value for A is unchanged
    assert_eq!(a, Val::U(1));
    assert!(container.get(A.identity()).is_some_and(|x| *x == Val::U(1)));
}

#[test]
fn hashmap_test_double_insert() {
    let mut container: TypeContainer<Val> = TypeContainer::new();
    assert!(container.try_insert(A.identity(), Val::U(1)).is_ok());
    assert!(container.try_insert(A.identity(), Val::U(2)).is_err());
    assert!(container.get(A.identity()).is_some_and(|x| *x == Val::U(1)));
}

#[test]
fn hashmap_double_insert_error_kind() {
    let mut container: TypeContainer<u32> = TypeContainer::new();
    assert!(container.try_insert(7, 10).is_ok());
    assert_eq!(container.try_insert(7, 11), Err(StoreError::KeyAlreadyPresent));
    assert_eq!(container.get(7), Some(&10));
}

#[test]
fn hashmap_absent_before_first_insert() {
    let container: TypeContainer<u32> = TypeContainer::new();
    for k in 0u64..32 {
        assert!(container.get(k).is_none());
    }
}
