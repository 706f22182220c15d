//! Generational ids and their allocator.

use pm::id::{Id, IdAllocator};

#[test]
fn id_encoding_round_trips() {
    let id = Id::new(7, 12, 54_321);
    assert_eq!(id.peer(), 7);
    assert_eq!(id.generation(), 12);
    assert_eq!(id.index(), 54_321);
    assert_eq!(id.slot(), (7 << 16) | 54_321);
}

#[test]
fn add_allocates_fresh_indices_per_peer() {
    let mut ids = IdAllocator::new();
    let a = ids.add(0);
    let b = ids.add(0);
    let c = ids.add(3);
    assert_eq!((a.index(), b.index()), (0, 1));
    assert_eq!((c.peer(), c.index()), (3, 0));
    assert!(ids.alive(a) && ids.alive(b) && ids.alive(c));
}

#[test]
fn kill_bumps_generation_and_release_recycles_fifo() {
    let mut ids = IdAllocator::new();
    let a = ids.add(0);
    let b = ids.add(0);
    ids.kill(a);
    assert!(!ids.alive(a));
    ids.release(a);
    ids.kill(b);
    ids.release(b);

    let a2 = ids.add(0); // FIFO: a's index comes back first
    assert_eq!(a2.index(), a.index());
    assert_eq!(a2.generation(), a.generation() + 1);
    assert!(ids.alive(a2));
    assert!(!ids.alive(a), "stale handle must fail the gen check");

    let b2 = ids.add(0);
    assert_eq!(b2.index(), b.index());
}

#[test]
fn killed_but_unreleased_index_is_not_reused() {
    let mut ids = IdAllocator::new();
    let a = ids.add(0);
    ids.kill(a); // no release: removal not yet acked by all peers
    let b = ids.add(0);
    assert_ne!(a.index(), b.index());
}

#[test]
fn sync_accepts_remote_ids() {
    let mut ids = IdAllocator::new();
    let remote = Id::new(0, 5, 99); // server-owned id arriving at a client
    assert!(!ids.alive(remote));
    ids.sync(remote);
    assert!(ids.alive(remote));
    let stale = Id::new(0, 4, 99); // previous occupant of the slot
    assert!(!ids.alive(stale));
}

#[test]
fn a_stale_handle_stays_dead_through_recycling() {
    let mut ids = IdAllocator::new();
    let first = ids.add(2);
    let mut last = first;
    for _ in 0..10 {
        ids.kill(last);
        ids.release(last);
        last = ids.add(2);
        assert_eq!(last.index(), first.index());
        assert!(ids.alive(last));
        assert!(!ids.alive(first));
    }
    assert_eq!(last.generation(), 10);
}

#[test]
fn a_killed_handle_stays_dead_whatever_else_happens() {
    let mut ids = IdAllocator::new();
    let (a, b) = (ids.add(2), ids.add(2));
    ids.kill(a);
    assert!(!ids.alive(a));
    // Another index comes first off the free list.
    ids.kill(b);
    ids.release(b);
    ids.release(a);
    let again = ids.add(2);
    assert_eq!((again.index(), ids.alive(a)), (b.index(), false));
    ids.sync(Id::new(3, 9, 0));
    ids.add(4);
    let back = ids.add(2);
    assert_eq!((back.index(), back.generation()), (a.index(), a.generation() + 1));
    assert!(ids.alive(back) && !ids.alive(a) && !ids.alive(b));
}

#[test]
fn generations_wrap_at_eight_bits() {
    let mut ids = IdAllocator::new();
    let mut id = ids.add(0);
    for _ in 0..256 {
        ids.kill(id);
        ids.release(id);
        id = ids.add(0);
    }
    assert_eq!(id.generation(), 0);
    assert_eq!(id.index(), 0);
}

#[test]
fn a_peer_space_has_room_for_65536_indices() {
    let mut ids = IdAllocator::new();
    for _ in 0..65_536u32 {
        assert!(ids.room(1));
        ids.add(1);
    }
    assert!(!ids.room(1));
    assert!(ids.room(2), "another peer's space is its own");
}

#[test]
fn slot_and_generation_identify_a_handle() {
    let a = Id::new(3, 7, 1234);
    let b = Id::new(a.peer(), a.generation(), a.index());
    assert_eq!(a, b);
    assert_eq!(a.0, (3 << 24) | (7 << 16) | 1234);
}
