//! Tests of the pool's admission state machine: the bound, slot
//! exclusivity, and release making a slot grantable again.

use respool::Pool;

#[test]
fn admission_bound_of_two() {
    let mut pool = Pool::new(2);
    let a = pool.acquire().expect("first lease");
    let b = pool.acquire().expect("second lease");
    assert_ne!(a.slot(), b.slot());
    assert!(pool.acquire().is_none());
    let freed = a.slot();
    pool.release(a);
    let c = pool.acquire().expect("lease after release");
    assert_eq!(c.slot(), freed);
    assert!(pool.acquire().is_none());
}

#[test]
fn slots_are_exclusive() {
    let mut pool = Pool::new(3);
    let a = pool.acquire().unwrap();
    let b = pool.acquire().unwrap();
    let c = pool.acquire().unwrap();
    assert_ne!(a.slot(), b.slot());
    assert_ne!(a.slot(), c.slot());
    assert_ne!(b.slot(), c.slot());
    assert!(a.slot() < 3 && b.slot() < 3 && c.slot() < 3);
    assert!(pool.acquire().is_none());
}

#[test]
fn empty_pool_grants_nothing() {
    let mut pool = Pool::new(0);
    assert!(pool.acquire().is_none());
}

#[test]
fn release_and_reacquire_cycles() {
    let mut pool = Pool::new(1);
    for _ in 0..3 {
        let l = pool.acquire().expect("the single slot is free");
        assert_eq!(l.slot(), 0);
        assert!(pool.acquire().is_none());
        pool.release(l);
    }
}
