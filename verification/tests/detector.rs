use dominant_speaker::detector::{ActiveSpeakerDetector, Ballot};

fn feed(d: &mut ActiveSpeakerDetector, p: u64, lvl: u8, from_ms: u64, ms: u64) {
    let mut t = from_ms;
    let end = from_ms + ms;
    while t < end {
        d.record_level(p, lvl, t);
        t += 20;
    }
}

#[test]
fn single_peer_wins_then_holds() {
    let mut d = ActiveSpeakerDetector::new();
    d.add_peer(1, 0);
    assert!(matches!(d.begin_tick(300), Ballot::OnlyPeer(1)));
    assert_eq!(d.conclude_tick(Some(1)), Some(1));
    assert_eq!(d.current_dominant(), Some(&1));
    assert!(matches!(d.begin_tick(600), Ballot::OnlyPeer(1)));
    assert_eq!(d.conclude_tick(Some(1)), None);
    assert_eq!(d.current_dominant(), Some(&1));
}

#[test]
fn empty_room_has_nothing_to_decide() {
    let mut d = ActiveSpeakerDetector::new();
    assert!(matches!(d.begin_tick(0), Ballot::NoPeers));
    assert_eq!(d.current_dominant(), None);
}

#[test]
fn removing_dominant_clears_dominance() {
    let mut d = ActiveSpeakerDetector::new();
    d.add_peer(1, 0);
    d.add_peer(2, 0);
    assert!(matches!(d.begin_tick(300), Ballot::Contested));
    assert_eq!(d.conclude_tick(Some(1)), Some(1));
    d.remove_peer(2);
    assert_eq!(d.current_dominant(), Some(&1));
    d.remove_peer(1);
    assert_eq!(d.current_dominant(), None);
    assert!(matches!(d.begin_tick(600), Ballot::NoPeers));
    // Re-adding does not restore dominance.
    d.add_peer(1, 700);
    assert_eq!(d.current_dominant(), None);
}

#[test]
fn remove_unknown_peer_is_noop() {
    let mut d = ActiveSpeakerDetector::new();
    d.add_peer(1, 0);
    d.add_peer(2, 0);
    d.remove_peer(999);
    assert_eq!(d.peer_count(), 2);
}

#[test]
fn add_peer_is_idempotent() {
    let mut d = ActiveSpeakerDetector::new();
    d.add_peer(1, 0);
    d.record_level(1, 20, 20);
    d.add_peer(1, 500);
    assert_eq!(d.peer_count(), 1);
    let snaps = d.peer_snapshots();
    assert_eq!(snaps[0].raw_level_sum, 107);
}

#[test]
fn record_level_registers_and_converts_volume() {
    let mut d = ActiveSpeakerDetector::new();
    assert!(!d.has_peer(99));
    d.record_level(99, 27, 20);
    assert!(d.has_peer(99));
    let snaps = d.peer_snapshots();
    assert_eq!(snaps.len(), 1);
    assert_eq!(snaps[0].peer_id, 99);
    // Volume is 127 - 27 = 100, one slot.
    assert_eq!(snaps[0].raw_level_sum, 100);
}

#[test]
fn levels_above_127_are_silence() {
    let mut d = ActiveSpeakerDetector::new();
    feed(&mut d, 2, 255, 0, 2000);
    feed(&mut d, 3, 127, 0, 2000);
    let snaps = d.peer_snapshots();
    assert_eq!(snaps[0].raw_level_sum, 0);
    assert_eq!(snaps[1].raw_level_sum, 0);
}

#[test]
fn contested_tick_evaluates_every_peer() {
    let mut d = ActiveSpeakerDetector::new();
    d.add_peer(1, 0);
    d.add_peer(2, 0);
    // Peer 1 anchors its floor low, then speaks.
    d.record_level(1, 107, 0);
    feed(&mut d, 1, 7, 20, 1000);
    feed(&mut d, 2, 127, 0, 1000);
    assert!(matches!(d.begin_tick(1010), Ballot::Contested));
    let snaps = d.peer_snapshots();
    assert_eq!(snaps[0].peer_id, 1);
    assert_eq!(snaps[0].immediate_activity, Some(12));
    assert_eq!(snaps[0].medium_activity, Some(5));
    assert_eq!(snaps[0].long_activity, Some(10));
    assert_eq!(snaps[1].peer_id, 2);
    assert_eq!(snaps[1].immediate_activity, None);
}

#[test]
fn single_peer_is_not_evaluated() {
    let mut d = ActiveSpeakerDetector::new();
    d.record_level(1, 107, 0);
    feed(&mut d, 1, 7, 20, 1000);
    assert!(matches!(d.begin_tick(1010), Ballot::OnlyPeer(1)));
    assert_eq!(d.peer_snapshots()[0].immediate_activity, None);
}

#[test]
fn idle_peers_are_paused_but_not_the_dominant_one() {
    let mut d = ActiveSpeakerDetector::new();
    d.add_peer(1, 0);
    d.add_peer(2, 0);
    assert!(matches!(d.begin_tick(0), Ballot::Contested));
    assert_eq!(d.conclude_tick(Some(1)), Some(1));
    let hour = 3_600_000u64;
    assert!(matches!(d.begin_tick(hour + 41), Ballot::Contested));
    let snaps = d.peer_snapshots();
    assert!(!snaps[0].paused);
    assert!(snaps[1].paused);
}

#[test]
fn idle_levels_decay_to_silence() {
    let mut d = ActiveSpeakerDetector::new();
    d.record_level(1, 27, 0); // volume 100 in one slot
    assert!(matches!(d.begin_tick(0), Ballot::OnlyPeer(1)));
    // 1000 ms later, the idle timeout fills the whole ring with silence.
    assert!(matches!(d.begin_tick(1000), Ballot::OnlyPeer(1)));
    assert_eq!(d.peer_snapshots()[0].raw_level_sum, 0);
}

#[test]
fn idle_timeout_waits_40ms() {
    let mut d = ActiveSpeakerDetector::new();
    d.record_level(1, 27, 0);
    assert!(matches!(d.begin_tick(0), Ballot::OnlyPeer(1)));
    assert!(matches!(d.begin_tick(30), Ballot::OnlyPeer(1)));
    assert_eq!(d.peer_snapshots()[0].raw_level_sum, 100);
    // Time going backwards is harmless.
    assert!(matches!(d.begin_tick(10), Ballot::OnlyPeer(1)));
    assert_eq!(d.peer_snapshots()[0].raw_level_sum, 100);
}

#[test]
fn conclude_without_winner_keeps_state() {
    let mut d = ActiveSpeakerDetector::with_subband_count(10);
    assert_eq!(d.subband_count(), 10);
    d.add_peer(1, 0);
    d.add_peer(2, 0);
    assert!(matches!(d.begin_tick(0), Ballot::Contested));
    assert_eq!(d.conclude_tick(None), None);
    assert_eq!(d.current_dominant(), None);
    assert_eq!(d.conclude_tick(Some(2)), Some(2));
    assert_eq!(d.conclude_tick(Some(1)), Some(1));
    assert_eq!(d.current_dominant(), Some(&1));
}

#[test]
fn single_speaker() {
    let mut d = ActiveSpeakerDetector::new();
    d.add_peer(1, 0);
    let change = match d.begin_tick(300) {
        Ballot::OnlyPeer(p) => d.conclude_tick(Some(p)),
        _ => None,
    };
    assert_eq!(change, Some(1));
    let change = match d.begin_tick(600) {
        Ballot::OnlyPeer(p) => d.conclude_tick(Some(p)),
        _ => None,
    };
    assert_eq!(change, None);
}

#[test]
fn idle_removal_clears_dominance() {
    let mut d = ActiveSpeakerDetector::new();
    d.add_peer(1, 0);
    let change = match d.begin_tick(300) {
        Ballot::OnlyPeer(p) => d.conclude_tick(Some(p)),
        _ => None,
    };
    assert_eq!(change, Some(1));
    d.remove_peer(1);
    assert!(matches!(d.begin_tick(600), Ballot::NoPeers));
    assert_eq!(d.current_dominant(), None);
}

#[test]
fn extreme_config_all_ones() {
    let mut d = ActiveSpeakerDetector::with_subband_count(1);
    d.add_peer(1, 0);
    // Single-peer election always succeeds.
    let change = match d.begin_tick(300) {
        Ballot::OnlyPeer(p) => d.conclude_tick(Some(p)),
        _ => None,
    };
    assert_eq!(change, Some(1));
}

#[test]
fn remove_nonexistent_peer_is_noop() {
    let mut d = ActiveSpeakerDetector::new();
    d.add_peer(1, 0);
    d.add_peer(2, 0);
    // Should not panic.
    d.remove_peer(999);
    // Both peers must still be present.
    assert_eq!(d.peer_snapshots().len(), 2);
}

#[test]
fn tick_with_earlier_time_does_not_panic() {
    let mut d = ActiveSpeakerDetector::new();
    let t0: u64 = 10_000;
    d.add_peer(1, t0);
    d.add_peer(2, t0);
    let _ = d.begin_tick(t0);
    let earlier = t0 - 100;
    let _ = d.begin_tick(earlier);
}

#[test]
fn record_level_with_earlier_time_does_not_panic() {
    let mut d = ActiveSpeakerDetector::new();
    let t0: u64 = 10_000;
    d.add_peer(1, t0);
    d.record_level(1, 5, t0 + 100);
    // Backwards in time:
    d.record_level(1, 5, t0);
    let _ = d.begin_tick(t0 + 200);
    // The stale observation was ignored: the first one filled 5 slots.
    assert_eq!(d.peer_snapshots()[0].raw_level_sum, 5 * 122);
}
