//! Room-level dominant-speaker state: one [`Speaker`] per registered peer,
//! idle timeouts, buffer evaluation on every tick, and who is dominant.
//!
//! A tick runs in three steps: [`ActiveSpeakerDetector::begin_tick`] applies
//! the idle timeouts and re-evaluates the activity buffers; the scores that
//! the recorded activity counts stand for are compared (see
//! [`ActiveSpeakerDetector::peer_snapshots`]); and
//! [`ActiveSpeakerDetector::conclude_tick`] installs the winner, reporting a
//! change only when dominance moves.

use vstd::prelude::*;

use crate::speaker::{after_level, evaluated, initial_speaker, level_sum, slots_elapsed, Speaker, SpeakerModel};
use crate::{spec_subunit_len, subunit_len_for, LEVEL_IDLE_TIMEOUT_MS, MAX_LEVEL, MIN_LEVEL, N1,
    SPEAKER_IDLE_TIMEOUT_MS};

verus! {

/// The room as mathematical values.
pub struct DetectorModel {
    /// Immediate subband count.
    pub n1: u8,
    /// Registered peers, in registration order.
    pub peers: Seq<u64>,
    /// `speakers[i]` is the state of `peers[i]`.
    pub speakers: Seq<SpeakerModel>,
    pub current_dominant: Option<u64>,
    pub last_level_idle_time: Option<u64>,
}

impl DetectorModel {
    /// One state per peer, no peer twice, every state well formed, and the
    /// dominant peer (if any) registered.
    pub open spec fn wf(self) -> bool {
        &&& self.peers.len() == self.speakers.len()
        &&& self.peers.no_duplicates()
        &&& forall|i: int| 0 <= i < self.speakers.len() ==> #[trigger] self.speakers[i].wf()
        &&& self.current_dominant matches Some(p) ==> self.peers.contains(p)
    }

    /// The state of registered peer `id`.
    pub open spec fn speaker(self, id: u64) -> SpeakerModel {
        self.speakers[self.peers.index_of(id)]
    }
}

/// An empty room.
pub open spec fn empty_room(n1: u8) -> DetectorModel {
    DetectorModel {
        n1,
        peers: Seq::empty(),
        speakers: Seq::empty(),
        current_dominant: None,
        last_level_idle_time: None,
    }
}

/// The room after registering `id` at `now`; no change if it is registered.
pub open spec fn with_peer(m: DetectorModel, id: u64, now: u64) -> DetectorModel {
    if m.peers.contains(id) {
        m
    } else {
        DetectorModel {
            peers: m.peers.push(id),
            speakers: m.speakers.push(initial_speaker(now)),
            ..m
        }
    }
}

/// The room after removing `id`; dominance is cleared if `id` held it.
pub open spec fn without_peer(m: DetectorModel, id: u64) -> DetectorModel {
    if !m.peers.contains(id) {
        m
    } else {
        let i = m.peers.index_of(id);
        DetectorModel {
            peers: m.peers.remove(i),
            speakers: m.speakers.remove(i),
            current_dominant: if m.current_dominant == Some(id) {
                None
            } else {
                m.current_dominant
            },
            ..m
        }
    }
}

/// The volume of an RFC 6464 level (0 = loudest, 127 = silent, larger
/// values count as silent): `127 - min(level_raw, 127)`.
pub open spec fn volume_of(level_raw: u8) -> u8 {
    if level_raw < MAX_LEVEL {
        (MAX_LEVEL - level_raw) as u8
    } else {
        0
    }
}

/// The room after peer `id` (registered on the spot if needed) reports
/// RFC 6464 level `level_raw` at `now`.
pub open spec fn with_level(m: DetectorModel, id: u64, level_raw: u8, now: u64) -> DetectorModel {
    let m1 = with_peer(m, id, now);
    let i = m1.peers.index_of(id);
    DetectorModel {
        speakers: m1.speakers.update(i, after_level(m1.speakers[i], volume_of(level_raw), now)),
        ..m1
    }
}

/// Milliseconds from `then` to `now`, zero if `now` is earlier.
pub open spec fn elapsed(then: u64, now: u64) -> int {
    if now >= then {
        now - then
    } else {
        0
    }
}

/// The idle timeout applied to one peer: a non-dominant peer silent for
/// over an hour is paused; otherwise a peer with no level for over 40 ms
/// gets a silent observation at `now`.
pub open spec fn idle_step(s: SpeakerModel, id: u64, dominant: Option<u64>, now: u64) -> SpeakerModel {
    let idle = elapsed(s.last_level_change, now);
    if SPEAKER_IDLE_TIMEOUT_MS < idle && dominant != Some(id) {
        SpeakerModel { paused: true, ..s }
    } else if LEVEL_IDLE_TIMEOUT_MS < idle {
        after_level(s, MIN_LEVEL, now)
    } else {
        s
    }
}

/// The idle timeout applied to every peer.
pub open spec fn timed_out(m: DetectorModel, now: u64) -> DetectorModel {
    DetectorModel {
        speakers: Seq::new(
            m.speakers.len(),
            |i: int| idle_step(m.speakers[i], m.peers[i], m.current_dominant, now),
        ),
        ..m
    }
}

/// The first step of a tick: the idle timeouts run when at least 40 ms
/// passed since they last ran; the first tick only starts the clock.
pub open spec fn idle_checked(m: DetectorModel, now: u64) -> DetectorModel {
    match m.last_level_idle_time {
        Some(t) => if elapsed(t, now) >= LEVEL_IDLE_TIMEOUT_MS {
            DetectorModel { last_level_idle_time: Some(now), ..timed_out(m, now) }
        } else {
            m
        },
        None => DetectorModel { last_level_idle_time: Some(now), ..m },
    }
}

/// Every peer that is not paused has its activity buffers re-evaluated.
pub open spec fn scored(m: DetectorModel) -> DetectorModel {
    DetectorModel {
        speakers: Seq::new(
            m.speakers.len(),
            |i: int|
                if m.speakers[i].paused {
                    m.speakers[i]
                } else {
                    evaluated(m.speakers[i], spec_subunit_len(m.n1) as u8)
                },
        ),
        ..m
    }
}

/// What a tick has to decide after its first step.
pub enum Ballot {
    /// No peer is registered: nothing to decide.
    NoPeers,
    /// Exactly one peer is registered: it wins.
    OnlyPeer(u64),
    /// Several peers: the activity buffers were re-evaluated and the scores
    /// decide; the incumbent is `current_dominant`.
    Contested,
}

/// The room and the ballot after the first step of a tick at `now`.
pub open spec fn prepared(m: DetectorModel, now: u64) -> (DetectorModel, Ballot) {
    let m1 = idle_checked(m, now);
    if m1.peers.len() == 0 {
        (m1, Ballot::NoPeers)
    } else if m1.peers.len() == 1 {
        (m1, Ballot::OnlyPeer(m1.peers[0]))
    } else {
        (scored(m1), Ballot::Contested)
    }
}

/// The room after installing the election's `winner`, and the change to
/// report: none when there is no winner or the winner already dominates.
pub open spec fn concluded(m: DetectorModel, winner: Option<u64>) -> (DetectorModel, Option<u64>) {
    match winner {
        Some(n) => if m.current_dominant == Some(n) {
            (m, None)
        } else {
            (DetectorModel { current_dominant: Some(n), ..m }, Some(n))
        },
        None => (m, None),
    }
}

/// What the score comparison needs to know of one peer.
pub struct PeerSnapshot {
    pub peer_id: u64,
    pub paused: bool,
    /// Active-subband count of the immediate score; `None` while the score
    /// is still at its floor value from registration.
    pub immediate_activity: Option<u8>,
    /// Active-subband count of the medium score, as above.
    pub medium_activity: Option<u8>,
    /// Active-subband count of the long score, as above.
    pub long_activity: Option<u8>,
    /// Sum of the raw level ring buffer, the tie-breaker between equal scores.
    pub raw_level_sum: u32,
}

/// `snap` describes peer `id` in state `s`.
pub open spec fn snapshot_of(snap: PeerSnapshot, id: u64, s: SpeakerModel) -> bool {
    &&& snap.peer_id == id
    &&& snap.paused == s.paused
    &&& snap.immediate_activity == s.immediate_activity
    &&& snap.medium_activity == s.medium_activity
    &&& snap.long_activity == s.long_activity
    &&& snap.raw_level_sum == level_sum(s.levels)
}

pub proof fn lemma_index_of_unique(peers: Seq<u64>, i: int)
    requires
        peers.no_duplicates(),
        0 <= i < peers.len(),
    ensures
        peers.index_of(peers[i]) == i,
{
    assert(peers.contains(peers[i]));
}

/// Registering a peer twice is the same as registering it once.
pub proof fn lemma_add_peer_idempotent(m: DetectorModel, id: u64, t1: u64, t2: u64)
    ensures
        with_peer(with_peer(m, id, t1), id, t2) == with_peer(m, id, t1),
{
    if !m.peers.contains(id) {
        assert(with_peer(m, id, t1).peers[m.peers.len() as int] == id);
    }
}

/// RFC 6464 levels above 127 count as silence, exactly like 127.
pub proof fn lemma_levels_above_max_are_silent(m: DetectorModel, id: u64, level_raw: u8, now: u64)
    requires
        level_raw >= MAX_LEVEL,
    ensures
        with_level(m, id, level_raw, now) == with_level(m, id, MAX_LEVEL, now),
{
}

/// Recording a level for a peer is registering it at the time of the
/// observation and then recording: a new peer's state starts at the
/// observation, so its first level fills exactly one ring slot.
pub proof fn lemma_record_registers_at_observation(m: DetectorModel, id: u64, level_raw: u8, now: u64)
    ensures
        with_level(m, id, level_raw, now) == with_level(with_peer(m, id, now), id, level_raw, now),
        !m.peers.contains(id) && m.wf() ==> with_level(m, id, level_raw, now).speaker(id) == after_level(
            initial_speaker(now),
            volume_of(level_raw),
            now,
        ),
        !m.peers.contains(id) && m.wf() ==> with_level(m, id, level_raw, now).speaker(id).levels
            == Seq::new(
            crate::LEVELS_BUFF_LEN as nat,
            |k: int|
                if k == 0 {
                    volume_of(level_raw)
                } else {
                    0u8
                },
        ),
{
    lemma_add_peer_idempotent(m, id, now, now);
    if !m.peers.contains(id) && m.wf() {
        let m1 = with_peer(m, id, now);
        let n = m.peers.len() as int;
        assert(m1.peers[n] == id);
        assert(m1.peers.no_duplicates()) by {
            assert forall|a: int, b: int|
                0 <= a < m1.peers.len() && 0 <= b < m1.peers.len() && a != b implies m1.peers[a]
                != m1.peers[b] by {
                if a == n {
                    assert(m1.peers[b] == m.peers[b]);
                } else if b == n {
                    assert(m1.peers[a] == m.peers[a]);
                }
            }
        }
        lemma_index_of_unique(m1.peers, n);
        let s = after_level(initial_speaker(now), volume_of(level_raw), now);
        assert(slots_elapsed(now, now) == 1);
        assert(s.levels =~= Seq::new(
            crate::LEVELS_BUFF_LEN as nat,
            |k: int|
                if k == 0 {
                    volume_of(level_raw)
                } else {
                    0u8
                },
        ));
    }
}

/// The level timeout applies to every peer, dominant or not: a peer idle
/// for more than 40 ms but at most an hour gets a silent observation at
/// `now`.
pub proof fn lemma_level_timeout_applies_to_all(
    s: SpeakerModel,
    id: u64,
    dominant: Option<u64>,
    now: u64,
)
    requires
        LEVEL_IDLE_TIMEOUT_MS < elapsed(s.last_level_change, now) <= SPEAKER_IDLE_TIMEOUT_MS,
    ensures
        idle_step(s, id, dominant, now) == after_level(s, MIN_LEVEL, now),
{
}

/// Registering peers and recording levels never moves dominance, and a
/// recorded peer is registered afterwards.
pub proof fn lemma_observations_keep_dominance(m: DetectorModel, id: u64, level_raw: u8, now: u64)
    ensures
        with_peer(m, id, now).current_dominant == m.current_dominant,
        with_level(m, id, level_raw, now).current_dominant == m.current_dominant,
        with_level(m, id, level_raw, now).peers.contains(id),
{
    if !m.peers.contains(id) {
        assert(with_peer(m, id, now).peers[m.peers.len() as int] == id);
    }
}

/// Removing a peer unregisters it and keeps every other peer; dominance is
/// cleared exactly when the removed peer held it.
pub proof fn lemma_remove_peer(m: DetectorModel, id: u64, other: u64)
    requires
        m.wf(),
    ensures
        !without_peer(m, id).peers.contains(id),
        other != id ==> without_peer(m, id).peers.contains(other) == m.peers.contains(other),
        without_peer(m, id).current_dominant == (if m.current_dominant == Some(id) {
            None
        } else {
            m.current_dominant
        }),
{
    if m.peers.contains(id) {
        let i = m.peers.index_of(id);
        m.peers.remove_ensures(i);
        let r = m.peers.remove(i);
        if r.contains(id) {
            let k = choose|k: int| 0 <= k < r.len() && r[k] == id;
            if k < i {
                assert(m.peers[k] == id);
            } else {
                assert(m.peers[k + 1] == id);
            }
        }
        if m.peers.contains(other) && other != id {
            let k = choose|k: int| 0 <= k < m.peers.len() && m.peers[k] == other;
            if k < i {
                assert(r[k] == other);
            } else {
                assert(r[k - 1] == other);
            }
        }
        if r.contains(other) && other != id {
            let k = choose|k: int| 0 <= k < r.len() && r[k] == other;
            if k < i {
                assert(m.peers[k] == other);
            } else {
                assert(m.peers[k + 1] == other);
            }
        }
    }
}

/// Removing a peer leaves the state of every other registered peer as it
/// was.
pub proof fn lemma_remove_keeps_other_states(m: DetectorModel, id: u64, other: u64)
    requires
        m.wf(),
        other != id,
        m.peers.contains(other),
    ensures
        without_peer(m, id).peers.contains(other),
        without_peer(m, id).speaker(other) == m.speaker(other),
{
    lemma_remove_peer(m, id, other);
    if m.peers.contains(id) {
        let i = m.peers.index_of(id);
        let k = m.peers.index_of(other);
        assert(0 <= k < m.peers.len() && m.peers[k] == other);
        lemma_index_of_unique(m.peers, k);
        m.peers.remove_ensures(i);
        let r = m.peers.remove(i);
        let rs = m.speakers.remove(i);
        assert(r.no_duplicates()) by {
            assert forall|a: int, b: int| 0 <= a < r.len() && 0 <= b < r.len() && a != b implies r[a]
                != r[b] by {
                let a2 = if a < i {
                    a
                } else {
                    a + 1
                };
                let b2 = if b < i {
                    b
                } else {
                    b + 1
                };
                assert(r[a] == m.peers[a2]);
                assert(r[b] == m.peers[b2]);
            }
        }
        assert(k != i);
        if k < i {
            assert(r[k] == other);
            lemma_index_of_unique(r, k);
            assert(rs[k] == m.speakers[k]);
        } else {
            assert(r[k - 1] == other);
            lemma_index_of_unique(r, k - 1);
            assert(rs[k - 1] == m.speakers[k]);
        }
    }
}

/// Removing the dominant peer and registering it again does not restore
/// its dominance.
pub proof fn lemma_readd_does_not_restore(m: DetectorModel, id: u64, now: u64)
    requires
        m.wf(),
    ensures
        with_peer(without_peer(m, id), id, now).current_dominant != Some(id),
{
    lemma_remove_peer(m, id, id);
    if let Some(p) = m.current_dominant {
        if p != id {
            let m2 = without_peer(m, id);
            assert(m2.current_dominant == Some(p));
        }
    }
}

/// The dominant peer, if any, is always a registered peer.
pub proof fn lemma_dominant_is_registered(m: DetectorModel)
    requires
        m.wf(),
    ensures
        m.current_dominant matches Some(p) ==> m.peers.contains(p),
{
}

/// A tick's first step keeps the registered peers and the dominant peer.
pub proof fn lemma_prepare_keeps_room(m: DetectorModel, now: u64)
    ensures
        prepared(m, now).0.peers == m.peers,
        prepared(m, now).0.current_dominant == m.current_dominant,
{
}

/// In an empty room a tick has nothing to decide and nobody dominates.
pub proof fn lemma_empty_room(m: DetectorModel, now: u64)
    requires
        m.wf(),
        m.peers.len() == 0,
    ensures
        prepared(m, now).1 == Ballot::NoPeers,
        prepared(m, now).0.current_dominant is None,
{
}

/// With a single registered peer, that peer wins the tick.
pub proof fn lemma_single_peer_wins(m: DetectorModel, now: u64)
    requires
        m.peers.len() == 1,
    ensures
        prepared(m, now).1 == Ballot::OnlyPeer(m.peers[0]),
{
}

/// The idle timeouts never pause the dominant peer.
pub proof fn lemma_timeout_spares_dominant(s: SpeakerModel, id: u64, now: u64)
    ensures
        idle_step(s, id, Some(id), now).paused == s.paused,
{
}

/// Concluding a tick reports a change exactly when dominance moves, the
/// reported peer is the new dominant one, and a winner always ends up
/// dominant.
pub proof fn lemma_conclude_reports_moves(m: DetectorModel, winner: Option<u64>)
    ensures
        concluded(m, winner).1 is Some <==> concluded(m, winner).0.current_dominant
            != m.current_dominant,
        concluded(m, winner).1 matches Some(n) ==> concluded(m, winner).0.current_dominant == Some(
            n,
        ),
        winner is Some ==> concluded(m, winner).0.current_dominant == winner,
        winner is None ==> concluded(m, winner).0 == m,
{
}

/// An incumbent that wins again is not reported as a change: concluding
/// twice with the same winner reports nothing the second time.
pub proof fn lemma_conclude_settles(m: DetectorModel, winner: Option<u64>)
    ensures
        concluded(concluded(m, winner).0, winner).1 is None,
        concluded(concluded(m, winner).0, winner).0 == concluded(m, winner).0,
{
}

/// Per-room dominant-speaker state.
pub struct ActiveSpeakerDetector {
    n1: u8,
    peers: Vec<u64>,
    speakers: Vec<Speaker>,
    current_dominant: Option<u64>,
    last_level_idle_time: Option<u64>,
}

impl View for ActiveSpeakerDetector {
    type V = DetectorModel;

    closed spec fn view(&self) -> DetectorModel {
        DetectorModel {
            n1: self.n1,
            peers: self.peers@,
            speakers: Seq::new(self.speakers@.len(), |i: int| self.speakers@[i]@),
            current_dominant: self.current_dominant,
            last_level_idle_time: self.last_level_idle_time,
        }
    }
}

impl ActiveSpeakerDetector {
    /// A new empty room with the default immediate subband count.
    pub fn new() -> (d: Self)
        ensures
            d@ == empty_room(N1),
            d@.wf(),
    {
        Self::with_subband_count(N1)
    }

    /// A new empty room with `n1` immediate subbands.
    pub fn with_subband_count(n1: u8) -> (d: Self)
        ensures
            d@ == empty_room(n1),
            d@.wf(),
    {
        let d = ActiveSpeakerDetector {
            n1,
            peers: Vec::new(),
            speakers: Vec::new(),
            current_dominant: None,
            last_level_idle_time: None,
        };
        assert(d@.speakers =~= Seq::<SpeakerModel>::empty());
        d
    }

    /// The immediate subband count.
    pub fn subband_count(&self) -> (n1: u8)
        ensures
            n1 == self@.n1,
    {
        self.n1
    }

    /// The index of `id` among the registered peers.
    fn find(&self, id: u64) -> (r: Option<usize>)
        requires
            self@.wf(),
        ensures
            r matches Some(i) ==> i < self@.peers.len() && self@.peers[i as int] == id
                && self@.peers.index_of(id) == i,
            r is None ==> !self@.peers.contains(id),
    {
        let mut i: usize = 0;
        while i < self.peers.len()
            invariant
                self@.wf(),
                i <= self@.peers.len(),
                forall|j: int| 0 <= j < i ==> self@.peers[j] != id,
            decreases self@.peers.len() - i,
        {
            if self.peers[i] == id {
                proof {
                    lemma_index_of_unique(self@.peers, i as int);
                }
                return Some(i);
            }
            i += 1;
        }
        None
    }

    /// Whether `id` is registered.
    pub fn has_peer(&self, id: u64) -> (b: bool)
        requires
            self@.wf(),
        ensures
            b == self@.peers.contains(id),
    {
        self.find(id).is_some()
    }

    /// The number of registered peers.
    pub fn peer_count(&self) -> (n: usize)
        requires
            self@.wf(),
        ensures
            n == self@.peers.len(),
    {
        self.peers.len()
    }

    /// Register a peer. Idempotent: calling again for a registered peer
    /// changes nothing.
    pub fn add_peer(&mut self, peer_id: u64, now: u64)
        requires
            old(self)@.wf(),
        ensures
            final(self)@ == with_peer(old(self)@, peer_id, now),
            final(self)@.wf(),
            final(self)@.peers.contains(peer_id),
    {
        if self.find(peer_id).is_none() {
            let ghost prev = self@;
            self.peers.push(peer_id);
            self.speakers.push(Speaker::new(now));
            proof {
                assert(self@.speakers =~= prev.speakers.push(initial_speaker(now)));
                assert(self@.peers =~= prev.peers.push(peer_id));
                assert(self@.peers[prev.peers.len() as int] == peer_id);
                assert forall|i: int, j: int|
                    0 <= i < self@.peers.len() && 0 <= j < self@.peers.len() && i != j implies
                    self@.peers[i] != self@.peers[j] by {
                    if i == prev.peers.len() as int {
                        assert(self@.peers[j] == prev.peers[j]);
                    } else if j == prev.peers.len() as int {
                        assert(self@.peers[i] == prev.peers[i]);
                    }
                }
                if let Some(p) = self@.current_dominant {
                    let k = choose|k: int| 0 <= k < prev.peers.len() && prev.peers[k] == p;
                    assert(self@.peers[k] == p);
                }
            }
        }
    }

    /// Remove a peer. If it was dominant, dominance is cleared and the next
    /// tick elects a new speaker. Removing an unknown peer changes nothing.
    pub fn remove_peer(&mut self, peer_id: u64)
        requires
            old(self)@.wf(),
        ensures
            final(self)@ == without_peer(old(self)@, peer_id),
            final(self)@.wf(),
    {
        match self.find(peer_id) {
            None => {},
            Some(i) => {
                let ghost prev = self@;
                self.peers.remove(i);
                self.speakers.remove(i);
                if self.current_dominant == Some(peer_id) {
                    self.current_dominant = None;
                }
                proof {
                    prev.peers.remove_ensures(i as int);
                    assert(self@.peers =~= prev.peers.remove(i as int));
                    assert(self@.speakers =~= prev.speakers.remove(i as int));
                    if let Some(p) = self@.current_dominant {
                        let k = choose|k: int| 0 <= k < prev.peers.len() && prev.peers[k] == p;
                        assert(k != i);
                        if k < i {
                            assert(self@.peers[k] == p);
                        } else {
                            assert(self@.peers[k - 1] == p);
                        }
                    }
                }
            },
        }
    }

    /// Record an RFC 6464 audio-level observation for a peer.
    ///
    /// `level_raw` is the raw RFC 6464 value: 0 = loudest, 127 = silent;
    /// larger values count as silent. A peer not yet registered is
    /// registered at `now`.
    pub fn record_level(&mut self, peer_id: u64, level_raw: u8, now: u64)
        requires
            old(self)@.wf(),
        ensures
            final(self)@ == with_level(old(self)@, peer_id, level_raw, now),
            final(self)@.wf(),
    {
        let vol = MAX_LEVEL - if level_raw < MAX_LEVEL {
            level_raw
        } else {
            MAX_LEVEL
        };
        self.add_peer(peer_id, now);
        let ghost m1 = self@;
        match self.find(peer_id) {
            None => {
                assert(false);
            },
            Some(i) => {
                assert(self@.speakers[i as int] == self.speakers@[i as int]@);
                self.speakers[i].level_changed(vol, now);
                proof {
                    assert(self@.speakers =~= m1.speakers.update(
                        i as int,
                        after_level(m1.speakers[i as int], volume_of(level_raw), now),
                    ));
                }
            },
        }
    }

    /// The current dominant peer, if any. Dominance only changes on a tick
    /// or when the dominant peer is removed.
    pub fn current_dominant(&self) -> (d: Option<&u64>)
        ensures
            d matches Some(p) ==> self@.current_dominant == Some(*p),
            d is None ==> self@.current_dominant is None,
    {
        self.current_dominant.as_ref()
    }

    /// Apply the idle timeouts to every peer.
    fn timeout_idle_levels(&mut self, now: u64)
        requires
            old(self)@.wf(),
        ensures
            final(self)@ == timed_out(old(self)@, now),
            final(self)@.wf(),
    {
        let ghost orig = self@;
        let dom = self.current_dominant;
        let mut i: usize = 0;
        while i < self.speakers.len()
            invariant
                orig.wf(),
                dom == orig.current_dominant,
                self@.wf(),
                self@ == (DetectorModel { speakers: self@.speakers, ..orig }),
                self@.speakers.len() == orig.speakers.len(),
                i <= self@.speakers.len(),
                forall|j: int|
                    0 <= j < i ==> #[trigger] self@.speakers[j] == idle_step(
                        orig.speakers[j],
                        orig.peers[j],
                        dom,
                        now,
                    ),
                forall|j: int| i <= j < self@.speakers.len() ==> #[trigger] self@.speakers[j] == orig.speakers[j],
            decreases self@.speakers.len() - i,
        {
            let ghost prev = self@;
            let id = self.peers[i];
            let idle = now.saturating_sub(self.speakers[i].last_level_change());
            let is_dominant = match dom {
                Some(d) => d == id,
                None => false,
            };
            assert(is_dominant == (dom == Some(id)));
            assert(prev.speakers[i as int] == self.speakers@[i as int]@);
            assert(prev.speakers[i as int].wf());
            if SPEAKER_IDLE_TIMEOUT_MS < idle && !is_dominant {
                self.speakers[i].pause();
            } else if LEVEL_IDLE_TIMEOUT_MS < idle {
                self.speakers[i].level_changed(MIN_LEVEL, now);
            }
            proof {
                assert(self@.speakers =~= prev.speakers.update(
                    i as int,
                    idle_step(orig.speakers[i as int], orig.peers[i as int], dom, now),
                ));
                assert(self@.speakers[i as int].wf());
                assert forall|j: int| 0 <= j < self@.speakers.len() implies #[trigger] self@.speakers[j].wf() by {
                    if j != i {
                        assert(self@.speakers[j] == prev.speakers[j]);
                    }
                }
            }
            i += 1;
        }
        proof {
            assert(self@.speakers =~= timed_out(orig, now).speakers);
        }
    }

    /// Re-evaluate the activity buffers of every peer that is not paused.
    fn evaluate_speakers(&mut self)
        requires
            old(self)@.wf(),
        ensures
            final(self)@ == scored(old(self)@),
            final(self)@.wf(),
    {
        let ghost orig = self@;
        let sub = subunit_len_for(self.n1);
        let mut i: usize = 0;
        while i < self.speakers.len()
            invariant
                orig.wf(),
                sub == spec_subunit_len(orig.n1),
                1 <= sub,
                self@.wf(),
                self@ == (DetectorModel { speakers: self@.speakers, ..orig }),
                self@.speakers.len() == orig.speakers.len(),
                i <= self@.speakers.len(),
                forall|j: int|
                    0 <= j < i ==> #[trigger] self@.speakers[j] == scored(orig).speakers[j],
                forall|j: int| i <= j < self@.speakers.len() ==> #[trigger] self@.speakers[j] == orig.speakers[j],
            decreases self@.speakers.len() - i,
        {
            let ghost prev = self@;
            assert(prev.speakers[i as int] == self.speakers@[i as int]@);
            if !self.speakers[i].is_paused() {
                self.speakers[i].eval_scores(sub);
            }
            proof {
                assert(self@.speakers =~= prev.speakers.update(
                    i as int,
                    scored(orig).speakers[i as int],
                ));
            }
            i += 1;
        }
        proof {
            assert(self@.speakers =~= scored(orig).speakers);
        }
    }

    /// The first step of a tick at `now`: run the idle timeouts when due,
    /// then say what the election has to decide. With several peers, the
    /// activity buffers of every peer that is not paused are re-evaluated.
    pub fn begin_tick(&mut self, now: u64) -> (ballot: Ballot)
        requires
            old(self)@.wf(),
        ensures
            (final(self)@, ballot) == prepared(old(self)@, now),
            final(self)@.wf(),
    {
        match self.last_level_idle_time {
            Some(t) => {
                if now.saturating_sub(t) >= LEVEL_IDLE_TIMEOUT_MS {
                    self.timeout_idle_levels(now);
                    self.last_level_idle_time = Some(now);
                }
            },
            None => {
                self.last_level_idle_time = Some(now);
            },
        }
        if self.peers.len() == 0 {
            return Ballot::NoPeers;
        }
        if self.peers.len() == 1 {
            return Ballot::OnlyPeer(self.peers[0]);
        }
        self.evaluate_speakers();
        Ballot::Contested
    }

    /// What the score comparison needs to know of each peer, in
    /// registration order.
    pub fn peer_snapshots(&self) -> (snaps: Vec<PeerSnapshot>)
        requires
            self@.wf(),
        ensures
            snaps@.len() == self@.peers.len(),
            forall|i: int|
                0 <= i < snaps@.len() ==> snapshot_of(
                    #[trigger] snaps@[i],
                    self@.peers[i],
                    self@.speakers[i],
                ),
    {
        let mut snaps: Vec<PeerSnapshot> = Vec::new();
        let mut i: usize = 0;
        while i < self.peers.len()
            invariant
                self@.wf(),
                i <= self@.peers.len(),
                snaps@.len() == i,
                forall|j: int|
                    0 <= j < i ==> snapshot_of(#[trigger] snaps@[j], self@.peers[j], self@.speakers[j]),
            decreases self@.peers.len() - i,
        {
            let sp = &self.speakers[i];
            assert(self@.speakers[i as int] == sp@);
            snaps.push(
                PeerSnapshot {
                    peer_id: self.peers[i],
                    paused: sp.is_paused(),
                    immediate_activity: sp.immediate_activity(),
                    medium_activity: sp.medium_activity(),
                    long_activity: sp.long_activity(),
                    raw_level_sum: sp.raw_level_sum(),
                },
            );
            i += 1;
        }
        snaps
    }

    /// The last step of a tick: install `winner` as dominant. Returns the
    /// new dominant peer when dominance changed, `None` when there is no
    /// winner or the winner already held dominance.
    pub fn conclude_tick(&mut self, winner: Option<u64>) -> (change: Option<u64>)
        requires
            old(self)@.wf(),
            winner matches Some(n) ==> old(self)@.peers.contains(n),
        ensures
            (final(self)@, change) == concluded(old(self)@, winner),
            final(self)@.wf(),
    {
        match winner {
            Some(n) => {
                let same = match self.current_dominant {
                    Some(c) => c == n,
                    None => false,
                };
                if same {
                    None
                } else {
                    self.current_dominant = Some(n);
                    Some(n)
                }
            },
            None => None,
        }
    }
}

} // verus!
