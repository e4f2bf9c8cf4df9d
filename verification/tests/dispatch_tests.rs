//! Coalescing signal delivery and the dispatcher's port names.

use loom::nagle::{Bus, Dispatcher};
use loom::otp::Port;

#[test]
fn signals_queue_in_order() {
    let mut d = Dispatcher::new();
    let a = d.signal(100);
    let b = d.signal(200);
    assert_eq!(a, 0);
    assert_eq!(b, 1);
    let mut bus = Bus::new();
    bus.add(a);
    bus.add(b);
    bus.set(&mut d);
    assert_eq!(d.pop(), Some(100));
    assert_eq!(d.pop(), Some(200));
    assert_eq!(d.pop(), None);
}

#[test]
fn raising_twice_wakes_once() {
    let mut d = Dispatcher::new();
    let a = d.signal(7);
    let mut bus = Bus::new();
    bus.add(a);
    bus.set(&mut d);
    bus.set(&mut d);
    bus.set(&mut d);
    assert_eq!(d.pop(), Some(7));
    assert_eq!(d.pop(), None);
    // Once consumed, the signal can be raised again.
    bus.set(&mut d);
    assert_eq!(d.pop(), Some(7));
    assert_eq!(d.pop(), None);
}

#[test]
fn buses_share_signals() {
    let mut d = Dispatcher::new();
    let a = d.signal(1);
    let b = d.signal(2);
    let c = d.signal(3);
    let mut ab = Bus::new();
    ab.add(a);
    ab.add(b);
    let mut bc = Bus::new();
    bc.add(b);
    bc.add(c);
    ab.set(&mut d);
    bc.set(&mut d);
    // b was already raised by the first bus: queued once, in its place.
    assert_eq!(d.pop(), Some(1));
    assert_eq!(d.pop(), Some(2));
    assert_eq!(d.pop(), Some(3));
    assert_eq!(d.pop(), None);
}

#[test]
fn empty_dispatcher_pops_nothing() {
    let mut d = Dispatcher::new();
    assert_eq!(d.pop(), None);
}

#[test]
fn port_indexes_are_stable() {
    assert_eq!(Port::Main.to_usize(), 0);
    assert_eq!(Port::Reader.to_usize(), 1);
    assert_eq!(Port::State.to_usize(), 2);
    assert_eq!(Port::Recycle.to_usize(), 3);
    assert_eq!(Port::Sender.to_usize(), 4);
    assert_eq!(loom::otp::PORT_COUNT, 5);
}
