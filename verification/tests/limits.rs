//! Slots: how many connections there may be, and how many of one peer.
use bare_server::conn::SECOND;
use bare_server::limits::{
    AcceptAction, AcceptEvent, AcceptLoop, Peer, PeerLimiter, Semaphore, Waiting, SLOT_WAIT,
};

#[test]
fn peer_limiter_caps_per_ip_and_frees_on_drop() {
    let ip = Peer::V4(0x0a00_0001);
    let other = Peer::V4(0x0a00_0002);
    let mut lim = PeerLimiter::new(2);
    let p1 = lim.try_acquire(ip);
    let p2 = lim.try_acquire(ip);
    assert!(p1.is_some() && p2.is_some());
    assert!(lim.try_acquire(ip).is_none(), "third from the same IP is refused");
    assert!(lim.try_acquire(other).is_some(), "a different IP is unaffected");
    lim.release(ip, p1.unwrap()); // freeing one slot lets the same IP back in
    assert!(lim.try_acquire(ip).is_some(), "a freed slot is reusable");
    lim.release(ip, p2.unwrap());
}

#[test]
fn peer_limiter_zero_means_unlimited() {
    let ip = Peer::V4(0x0a00_0009);
    let mut lim = PeerLimiter::new(0);
    // Never refuses, never counts.
    assert_eq!(lim.try_acquire(ip), Some(false));
    assert_eq!(lim.try_acquire(ip), Some(false));
    assert!(lim.try_acquire(ip).is_some());
}

#[test]
fn a_slot_is_given_back_the_way_it_was_taken() {
    let ip = Peer::V6(1);
    let mut lim = PeerLimiter::new(0);
    assert_eq!(lim.try_acquire(ip), Some(false));
    lim.set_max(1);
    assert_eq!(lim.max(), 1);
    // Taken while nothing was counted: giving it back frees nothing.
    assert_eq!(lim.try_acquire(ip), Some(true));
    lim.release(ip, false);
    assert_eq!(lim.try_acquire(ip), None);
    lim.release(ip, true);
    assert_eq!(lim.try_acquire(ip), Some(true));
}

#[test]
fn addresses_of_two_families_do_not_share_a_count() {
    let mut lim = PeerLimiter::new(1);
    assert_eq!(lim.try_acquire(Peer::V4(7)), Some(true));
    assert_eq!(lim.try_acquire(Peer::V6(7)), Some(true));
    assert_eq!(lim.try_acquire(Peer::V4(7)), None);
}

#[test]
fn slots_are_conserved() {
    let mut s = Semaphore::new(1);
    assert_eq!(s.acquire_timeout(10, 0), Waiting::Taken);
    assert_eq!(s.acquire_timeout(10, 4), Waiting::Wait(6));
    assert_eq!(s.acquire_timeout(10, 10), Waiting::GiveUp);
    s.release();
    assert_eq!(s.free, 1);
    assert_eq!(s.acquire_timeout(10, 11), Waiting::Taken);
    assert!(SLOT_WAIT < SECOND);
}

#[test]
fn an_accept_loop_goes_round() {
    let mut l = AcceptLoop::new();
    let mut next = |e| l.spawn_accept(e, false, 0);
    assert_eq!(next(AcceptEvent::Idle), AcceptAction::WaitForSlot);
    assert_eq!(next(AcceptEvent::Slot(false)), AcceptAction::WaitForSlot);
    assert_eq!(next(AcceptEvent::Slot(true)), AcceptAction::Accept);
    assert_eq!(next(AcceptEvent::Interrupted), AcceptAction::StartOver);
    assert_eq!(next(AcceptEvent::Accepted), AcceptAction::AskPeer);
    assert_eq!(next(AcceptEvent::NoPeer), AcceptAction::StartOver);
    assert_eq!(next(AcceptEvent::PeerSlot(false)), AcceptAction::StartOver);
    assert_eq!(next(AcceptEvent::PeerSlot(true)), AcceptAction::Spawn);
    assert_eq!(next(AcceptEvent::Spawned(true)), AcceptAction::StartOver);
}

#[test]
fn a_failure_that_repeats_is_said_once_a_second() {
    let mut l = AcceptLoop::new();
    assert_eq!(l.spawn_accept(AcceptEvent::Failed, false, 5), AcceptAction::Pause { log: true });
    assert_eq!(l.spawn_accept(AcceptEvent::Failed, false, 6), AcceptAction::Pause { log: false });
    assert_eq!(l.spawn_accept(AcceptEvent::Spawned(false), false, 6), AcceptAction::Pause { log: true });
    assert_eq!(
        l.spawn_accept(AcceptEvent::Failed, false, 5 + SECOND),
        AcceptAction::Pause { log: true }
    );
}

#[test]
fn a_retired_loop_stops() {
    let mut l = AcceptLoop::new();
    for e in [AcceptEvent::Idle, AcceptEvent::Slot(false), AcceptEvent::Accepted, AcceptEvent::Failed] {
        assert_eq!(l.spawn_accept(e, true, 0), AcceptAction::Stop);
    }
}
