//! The open-addressing table, probed through its integer instance.

use loom::errors::Error;
use loom::hasht::HashT;

type UsizeT = HashT<usize, usize>;

#[test]
fn hash_test() {
    let v = vec![0usize; 0];
    let r = UsizeT::find(&v, &1usize);
    assert!(matches!(r.unwrap_err(), Error::NoSpace));
}

#[test]
fn hash_test2() {
    let v = vec![0usize; 1];
    let r = UsizeT::find(&v, &1usize);
    assert_eq!(r.unwrap(), 0);
}

#[test]
fn hash_test3() {
    let mut v = vec![0usize; 1];
    let a = UsizeT::find(&v, &1usize).expect("find 1");
    v[a] = 1;
    let b = UsizeT::find(&v, &2usize);
    assert!(matches!(b.unwrap_err(), Error::NoSpace));
}

#[test]
fn hash_test4() {
    let mut v = vec![0usize; 2];
    let a = UsizeT::find(&v, &1usize).expect("find 1");
    v[a] = 1;
    let b = UsizeT::find(&v, &2usize).expect("find 2");
    assert_ne!(a, b);
    v[b] = 2;
    assert_eq!(UsizeT::find(&v, &1usize).unwrap(), a);
    assert_eq!(UsizeT::find(&v, &2usize).unwrap(), b);
    assert!(matches!(UsizeT::find(&v, &3usize).unwrap_err(), Error::NoSpace));
    assert!(matches!(
        UsizeT::find(&v, &usize::MAX).unwrap_err(),
        Error::NoSpace
    ));
}

#[test]
fn hash_migrate_test() {
    let mut v = vec![0usize; 2];
    let a = UsizeT::find(&v, &1usize).expect("find 1");
    v[a] = 1;
    let b = UsizeT::find(&v, &2usize).expect("find 2");
    assert_ne!(a, b);
    v[b] = 2;
    assert_eq!(UsizeT::find(&v, &1usize).unwrap(), a);
    assert_eq!(UsizeT::find(&v, &2usize).unwrap(), b);
    let mut m = vec![0usize; 4];
    UsizeT::migrate(&v, &mut m).expect("migrate");
    let ma = UsizeT::find(&m, &1usize).expect("find 1");
    let mb = UsizeT::find(&m, &2usize).expect("find 2");
    assert_eq!(m[ma], 1);
    assert_eq!(m[mb], 2);
    let mc = UsizeT::find(&m, &3usize).expect("find 3");
    m[mc] = 3;
    assert_eq!(UsizeT::find(&m, &3usize).unwrap(), mc);
}

// Probe determinism: with capacity 8 and 7 distinct keys inserted, every
// key keeps resolving to the slot it was filed at, call after call.
#[test]
fn probe_determinism() {
    let mut v = vec![0usize; 8];
    let keys = [3usize, 11, 19, 5, 6, 7, 100];
    let mut slots = Vec::new();
    for k in keys.iter() {
        let p = UsizeT::find(&v, k).expect("room left");
        v[p] = *k;
        slots.push(p);
    }
    for _round in 0..3 {
        for (k, p) in keys.iter().zip(slots.iter()) {
            assert_eq!(UsizeT::find(&v, k).unwrap(), *p);
            assert_eq!(v[*p], *k);
        }
    }
}

// No-space boundary: a fully occupied table refuses an absent key.
#[test]
fn full_table_no_space() {
    let mut v = vec![0usize; 4];
    for k in [1usize, 2, 3, 4] {
        let p = UsizeT::find(&v, &k).expect("room left");
        v[p] = k;
    }
    assert!(matches!(UsizeT::find(&v, &9usize).unwrap_err(), Error::NoSpace));
    // Present keys are still found.
    for k in [1usize, 2, 3, 4] {
        let p = UsizeT::find(&v, &k).unwrap();
        assert_eq!(v[p], k);
    }
}

// Wraparound: a key whose start lies at the last slot probes on through
// slot zero.
#[test]
fn probe_wraps_around() {
    let mut v = vec![0usize; 4];
    let p3 = UsizeT::find(&v, &3usize).unwrap();
    assert_eq!(p3, 3);
    v[p3] = 3;
    let p7 = UsizeT::find(&v, &7usize).unwrap();
    assert_eq!(p7, 0);
}
