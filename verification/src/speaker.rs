//! Per-peer speaker state.
//!
//! Four rolling buffers at different time granularities: `levels` holds raw
//! volume observations (one slot per 20 ms), `immediates` the subband of each
//! of the last 50 levels, `mediums` and `longs` coarser activity counts
//! downsampled from them. Each time a buffer changes on evaluation, the
//! activity count that its score is computed from is recorded.

use vstd::prelude::*;

use crate::numerics::{compute_bigs, downsample};
use crate::{
    IMMEDIATE_BUFF_LEN, LEVELS_BUFF_LEN, LEVEL_SLOT_MS, LONGS_BUFF_LEN, LONG_THRESHOLD, MAX_LEVEL,
    MEDIUMS_BUFF_LEN, MEDIUM_THRESHOLD, MIN_LEVEL, MIN_LEVEL_WINDOW_LEN,
};

verus! {

/// The state of one peer as mathematical values.
pub struct SpeakerModel {
    pub paused: bool,
    pub last_level_change: u64,
    pub min_level: u8,
    pub next_min_level: u8,
    pub next_min_level_window_len: u32,
    pub levels: Seq<u8>,
    pub next_level_index: int,
    pub immediates: Seq<u8>,
    pub mediums: Seq<u8>,
    pub longs: Seq<u8>,
    /// Active-subband count the immediate score was last computed from.
    pub immediate_activity: Option<u8>,
    /// Active-subband count the medium score was last computed from.
    pub medium_activity: Option<u8>,
    /// Active-subband count the long score was last computed from.
    pub long_activity: Option<u8>,
}

impl SpeakerModel {
    /// Buffer lengths, ring position and level ranges.
    pub open spec fn wf(self) -> bool {
        &&& self.levels.len() == LEVELS_BUFF_LEN
        &&& self.immediates.len() == IMMEDIATE_BUFF_LEN
        &&& self.mediums.len() == MEDIUMS_BUFF_LEN
        &&& self.longs.len() == LONGS_BUFF_LEN
        &&& 0 <= self.next_level_index < LEVELS_BUFF_LEN
        &&& forall|k: int| 0 <= k < self.levels.len() ==> #[trigger] self.levels[k] <= MAX_LEVEL
        &&& self.min_level <= MAX_LEVEL
        &&& self.next_min_level <= MAX_LEVEL
        &&& self.next_min_level_window_len < MIN_LEVEL_WINDOW_LEN
    }
}

/// A fresh peer anchored at `now`: silent history, no scores computed yet.
pub open spec fn initial_speaker(now: u64) -> SpeakerModel {
    SpeakerModel {
        paused: false,
        last_level_change: now,
        min_level: MIN_LEVEL,
        next_min_level: MIN_LEVEL,
        next_min_level_window_len: 0,
        levels: Seq::new(LEVELS_BUFF_LEN as nat, |k: int| 0u8),
        next_level_index: 0,
        immediates: Seq::new(IMMEDIATE_BUFF_LEN as nat, |k: int| 0u8),
        mediums: Seq::new(MEDIUMS_BUFF_LEN as nat, |k: int| 0u8),
        longs: Seq::new(LONGS_BUFF_LEN as nat, |k: int| 0u8),
        immediate_activity: None,
        medium_activity: None,
        long_activity: None,
    }
}

/// `r` is the square root of `x`, rounded down.
pub open spec fn is_floor_sqrt(x: int, r: int) -> bool {
    0 <= r && r * r <= x && x < (r + 1) * (r + 1)
}

/// The square root of `x`, rounded down.
pub open spec fn floor_sqrt(x: int) -> int {
    choose|r: int| is_floor_sqrt(x, r)
}

pub proof fn lemma_floor_sqrt_unique(x: int, r1: int, r2: int)
    requires
        is_floor_sqrt(x, r1),
        is_floor_sqrt(x, r2),
    ensures
        r1 == r2,
{
    if r1 < r2 {
        assert((r1 + 1) * (r1 + 1) <= r2 * r2) by (nonlinear_arith)
            requires
                0 <= r1 < r2,
        ;
    } else if r2 < r1 {
        assert((r2 + 1) * (r2 + 1) <= r1 * r1) by (nonlinear_arith)
            requires
                0 <= r2 < r1,
        ;
    }
}

/// The square root of `x`, rounded down: the geometric mean of two levels
/// whose product is `x`.
pub fn floor_sqrt_of(x: u32) -> (r: u32)
    requires
        x <= MAX_LEVEL * MAX_LEVEL,
    ensures
        is_floor_sqrt(x as int, r as int),
        r == floor_sqrt(x as int),
        r <= MAX_LEVEL,
{
    let mut r: u32 = 0;
    loop
        invariant
            x <= MAX_LEVEL * MAX_LEVEL,
            r * r <= x,
            r <= MAX_LEVEL,
        ensures
            r * r <= x < (r + 1) * (r + 1),
            r <= MAX_LEVEL,
        decreases MAX_LEVEL - r,
    {
        let next = r + 1;
        assert(next * next <= 128 * 128) by (nonlinear_arith)
            requires
                next <= 128,
        ;
        if next * next > x {
            break;
        }
        proof {
            assert(next <= MAX_LEVEL) by (nonlinear_arith)
                requires
                    next * next <= x,
                    x <= 127 * 127,
            ;
        }
        r = next;
    }
    proof {
        assert(is_floor_sqrt(x as int, r as int));
        let c = floor_sqrt(x as int);
        lemma_floor_sqrt_unique(x as int, c, r as int);
    }
    r
}

/// One step of the adaptive noise-floor tracking for a non-silent `level`:
/// returns the new `(min_level, next_min_level, next_min_level_window_len)`.
///
/// A level below the floor (or the first non-silent level) becomes the floor
/// at once. Otherwise the smallest level seen since is collected for
/// `MIN_LEVEL_WINDOW_LEN` observations, after which the floor moves to the
/// geometric mean of the old floor and that minimum, rounded down.
pub open spec fn min_level_step(min: u8, next: u8, len: u32, level: u8) -> (u8, u8, u32) {
    if level == MIN_LEVEL {
        (min, next, len)
    } else if min == MIN_LEVEL || min > level {
        (level, MIN_LEVEL, 0)
    } else if next == MIN_LEVEL {
        (min, level, 1)
    } else {
        let nx: u8 = if next < level {
            next
        } else {
            level
        };
        if len + 1 >= MIN_LEVEL_WINDOW_LEN {
            (floor_sqrt(min * nx) as u8, MIN_LEVEL, 0)
        } else {
            (min, nx, (len + 1) as u32)
        }
    }
}

/// `levels` with the `n` ring slots starting at `start` (wrapping around)
/// overwritten by `b`.
pub open spec fn ring_fill(levels: Seq<u8>, start: int, n: int, b: u8) -> Seq<u8> {
    Seq::new(
        levels.len(),
        |k: int|
            if (k - start) % (levels.len() as int) < n {
                b
            } else {
                levels[k]
            },
    )
}

/// The number of 20 ms slots an observation at `now` stands for after one at
/// `last`: at least one, at most the whole ring.
pub open spec fn slots_elapsed(last: u64, now: u64) -> int {
    let n = (now - last) / (LEVEL_SLOT_MS as int);
    if n < 1 {
        1
    } else if n > LEVELS_BUFF_LEN {
        LEVELS_BUFF_LEN as int
    } else {
        n
    }
}

/// The state after observing volume `level` at `now`. An observation older
/// than the last one is ignored; otherwise the level (capped at
/// `MAX_LEVEL`) fills one ring slot per 20 ms elapsed and feeds the
/// noise-floor tracking.
pub open spec fn after_level(s: SpeakerModel, level: u8, now: u64) -> SpeakerModel {
    if now < s.last_level_change {
        s
    } else {
        let b: u8 = if level < MAX_LEVEL {
            level
        } else {
            MAX_LEVEL
        };
        let n = slots_elapsed(s.last_level_change, now);
        let step = min_level_step(s.min_level, s.next_min_level, s.next_min_level_window_len, b);
        SpeakerModel {
            last_level_change: now,
            levels: ring_fill(s.levels, s.next_level_index, n, b),
            next_level_index: (s.next_level_index + n) % (LEVELS_BUFF_LEN as int),
            min_level: step.0,
            next_min_level: step.1,
            next_min_level_window_len: step.2,
            ..s
        }
    }
}

/// The subband of one level: levels below `floor + sub` (saturating) count
/// as silence, others fall into subband `level / sub`.
pub open spec fn subband_of(level: u8, floor: u8, sub: u8) -> u8 {
    let thresh: int = if floor + sub > u8::MAX {
        u8::MAX as int
    } else {
        floor + sub
    };
    if level < thresh {
        0
    } else {
        (level / sub) as u8
    }
}

/// Subbands of the last `IMMEDIATE_BUFF_LEN` levels, most recent first.
pub open spec fn immediates_of(levels: Seq<u8>, next: int, floor: u8, sub: u8) -> Seq<u8> {
    Seq::new(
        IMMEDIATE_BUFF_LEN as nat,
        |i: int|
            subband_of(
                levels[(next + LEVELS_BUFF_LEN - 1 - i) % (LEVELS_BUFF_LEN as int)],
                floor,
                sub,
            ),
    )
}

/// The state after re-evaluating the activity buffers with subband width
/// `sub`. Each stage runs only when the stage before it changed its buffer;
/// a stage whose buffer changes records its first entry as the activity
/// count its score is computed from.
pub open spec fn evaluated(s: SpeakerModel, sub: u8) -> SpeakerModel {
    let imm = immediates_of(s.levels, s.next_level_index, s.min_level, sub);
    if imm == s.immediates {
        s
    } else {
        let s1 = SpeakerModel { immediates: imm, immediate_activity: Some(imm[0]), ..s };
        let med = downsample(imm, MEDIUMS_BUFF_LEN as nat, MEDIUM_THRESHOLD);
        if med == s.mediums {
            s1
        } else {
            let s2 = SpeakerModel { mediums: med, medium_activity: Some(med[0]), ..s1 };
            let lng = downsample(med, LONGS_BUFF_LEN as nat, LONG_THRESHOLD);
            if lng == s.longs {
                s2
            } else {
                SpeakerModel { longs: lng, long_activity: Some(lng[0]), ..s2 }
            }
        }
    }
}

/// The sum of a sequence of levels.
pub open spec fn level_sum(s: Seq<u8>) -> int
    decreases s.len(),
{
    if s.len() == 0 {
        0
    } else {
        level_sum(s.drop_last()) + s.last()
    }
}

/// Subband indices stay below the subband count: with the width
/// `ceil(128 / max(n1, 1))`, every level up to `MAX_LEVEL` falls into one of
/// the first `max(n1, 1)` subbands, whatever the noise floor.
pub proof fn lemma_subband_below_count(level: u8, floor: u8, n1: u8)
    requires
        level <= MAX_LEVEL,
    ensures
        subband_of(level, floor, crate::spec_subunit_len(n1) as u8) < (if n1 == 0 {
            1
        } else {
            n1 as int
        }),
{
    let n: int = if n1 == 0 {
        1
    } else {
        n1 as int
    };
    let w = crate::spec_subunit_len(n1);
    assert(1 <= w <= 128 && n * w >= 128) by (nonlinear_arith)
        requires
            1 <= n <= 255,
            w == (128 + n - 1) / n,
    ;
    assert((level as int) / w < n) by (nonlinear_arith)
        requires
            0 <= level <= 127,
            1 <= w,
            n * w >= 128,
    ;
}

/// An observation older than the last accepted one leaves the peer
/// unchanged.
pub proof fn lemma_stale_level_ignored(s: SpeakerModel, level: u8, now: u64)
    requires
        now < s.last_level_change,
    ensures
        after_level(s, level, now) == s,
{
}

/// Level observations never touch the scores or the paused flag: only an
/// evaluation on a tick moves the scores.
pub proof fn lemma_levels_do_not_score(s: SpeakerModel, level: u8, now: u64)
    ensures
        after_level(s, level, now).immediate_activity == s.immediate_activity,
        after_level(s, level, now).medium_activity == s.medium_activity,
        after_level(s, level, now).long_activity == s.long_activity,
        after_level(s, level, now).paused == s.paused,
        after_level(s, level, now).immediates == s.immediates,
{
}

/// Silence never moves the noise floor.
pub proof fn lemma_silence_keeps_floor(min: u8, next: u8, len: u32)
    ensures
        min_level_step(min, next, len, MIN_LEVEL) == (min, next, len),
{
}

/// The first non-silent level becomes the noise floor at once.
pub proof fn lemma_first_level_sets_floor(next: u8, len: u32, level: u8)
    requires
        level != MIN_LEVEL,
    ensures
        min_level_step(MIN_LEVEL, next, len, level) == (level, MIN_LEVEL, 0u32),
{
}

/// A level quieter than the current (non-zero) floor becomes the floor at
/// once, and the collection of the next minimum starts over.
pub proof fn lemma_quieter_level_lowers_floor(min: u8, next: u8, len: u32, level: u8)
    requires
        MIN_LEVEL < level < min,
    ensures
        min_level_step(min, next, len, level) == (level, MIN_LEVEL, 0u32),
{
}

/// Observed at or after the last observation, a non-silent volume below the
/// peer's floor is the peer's new floor.
pub proof fn lemma_quieter_observation_is_new_floor(s: SpeakerModel, level: u8, now: u64)
    requires
        now >= s.last_level_change,
        MIN_LEVEL < level < s.min_level,
        s.min_level <= MAX_LEVEL,
    ensures
        after_level(s, level, now).min_level == level,
        after_level(s, level, now).next_min_level == MIN_LEVEL,
        after_level(s, level, now).next_min_level_window_len == 0,
{
    lemma_quieter_level_lowers_floor(s.min_level, s.next_min_level, s.next_min_level_window_len, level);
}

/// An observation that takes a single ring slot puts the subband of its
/// level (capped at `MAX_LEVEL`) in front of the immediates and moves every
/// earlier entry one place back: entry `j` of the immediates is always the
/// level observed `j` slots before the newest one, whatever the floor and
/// subband width.
pub proof fn lemma_one_slot_shifts_immediates(
    s: SpeakerModel,
    level: u8,
    now: u64,
    floor: u8,
    sub: u8,
)
    requires
        s.wf(),
        now >= s.last_level_change,
        slots_elapsed(s.last_level_change, now) == 1,
    ensures
        immediates_of(after_level(s, level, now).levels, after_level(s, level, now).next_level_index, floor, sub)[0]
            == subband_of(
            if level < MAX_LEVEL {
                level
            } else {
                MAX_LEVEL
            },
            floor,
            sub,
        ),
        forall|j: int|
            0 <= j < IMMEDIATE_BUFF_LEN - 1 ==> #[trigger] immediates_of(
                after_level(s, level, now).levels,
                after_level(s, level, now).next_level_index,
                floor,
                sub,
            )[j + 1] == immediates_of(s.levels, s.next_level_index, floor, sub)[j],
{
    let t = after_level(s, level, now);
    let p = s.next_level_index;
    let len = LEVELS_BUFF_LEN as int;
    assert(t.next_level_index == (p + 1) % len);
    // The newest slot is the one just written.
    assert((t.next_level_index + len - 1 - 0) % len == p) by {
        if p + 1 < len {
            assert((p + 1) % len == p + 1);
            assert((p + 1 + len - 1) % len == p);
        } else {
            assert((p + 1) % len == 0);
            assert((len - 1) % len == p);
        }
    }
    assert((p - p) % len == 0);
    assert forall|j: int| 0 <= j < IMMEDIATE_BUFF_LEN - 1 implies #[trigger] immediates_of(
        t.levels,
        t.next_level_index,
        floor,
        sub,
    )[j + 1] == immediates_of(s.levels, s.next_level_index, floor, sub)[j] by {
        let k_old = (p + len - 1 - j) % len;
        let k_new = (t.next_level_index + len - 1 - (j + 1)) % len;
        assert(k_new == k_old) by {
            if p + 1 < len {
                assert((p + 1) % len == p + 1);
            } else {
                assert((p + 1) % len == 0);
                assert((0 + len - 1 - (j + 1)) % len == (p + len - 1 - j) % len) by {
                    assert(p == len - 1);
                    assert(0 + len - 1 - (j + 1) == p - 1 - j);
                    assert(p + len - 1 - j == (p - 1 - j) + len);
                }
            }
        }
        // The old slot is not the one just written.
        assert((k_old - p) % len != 0) by {
            assert(0 <= k_old < len);
            if p + len - 1 - j < len {
                assert(k_old == p + len - 1 - j);
                assert(k_old - p == len - 1 - j);
                assert((len - 1 - j) % len == len - 1 - j);
            } else {
                assert(k_old == p - 1 - j);
                assert(k_old - p == -1 - j);
                assert((-1 - j) % len == len - 1 - j);
            }
        }
        assert(t.levels[k_old] == s.levels[k_old]);
    }
}

/// Every observation keeps the peer well formed.
pub proof fn lemma_after_level_wf(s: SpeakerModel, level: u8, now: u64)
    requires
        s.wf(),
    ensures
        after_level(s, level, now).wf(),
{
    if now >= s.last_level_change {
        let b: u8 = if level < MAX_LEVEL {
            level
        } else {
            MAX_LEVEL
        };
        let n = slots_elapsed(s.last_level_change, now);
        let step = min_level_step(s.min_level, s.next_min_level, s.next_min_level_window_len, b);
        let t = after_level(s, level, now);
        assert forall|k: int| 0 <= k < t.levels.len() implies #[trigger] t.levels[k] <= MAX_LEVEL by {
            assert(s.levels[k] <= MAX_LEVEL);
        }
        if b != MIN_LEVEL && !(s.min_level == MIN_LEVEL || s.min_level > b) && s.next_min_level
            != MIN_LEVEL {
            let nx: u8 = if s.next_min_level < b {
                s.next_min_level
            } else {
                b
            };
            if s.next_min_level_window_len + 1 >= MIN_LEVEL_WINDOW_LEN {
                let x = s.min_level * nx;
                assert(0 <= x <= 127 * 127) by (nonlinear_arith)
                    requires
                        x == s.min_level * nx,
                        s.min_level <= 127,
                        nx <= 127,
                ;
                assert(is_floor_sqrt(x, floor_sqrt(x)) && floor_sqrt(x) <= 127) by {
                    lemma_floor_sqrt_exists(x, 0);
                    let c = floor_sqrt(x);
                    assert(c <= 127) by (nonlinear_arith)
                        requires
                            0 <= c,
                            c * c <= x,
                            x <= 127 * 127,
                    ;
                }
            }
        }
    }
}

/// Every `x` in `0..=127 * 127` has a square root rounded down, at least
/// `r` when `r * r <= x`.
pub proof fn lemma_floor_sqrt_exists(x: int, r: int)
    requires
        0 <= r <= 127,
        r * r <= x <= 127 * 127,
    ensures
        exists|q: int| is_floor_sqrt(x, q),
    decreases 127 - r,
{
    if (r + 1) * (r + 1) <= x {
        assert(r + 1 <= 127) by (nonlinear_arith)
            requires
                (r + 1) * (r + 1) <= x,
                x <= 127 * 127,
                0 <= r,
        ;
        lemma_floor_sqrt_exists(x, r + 1);
    } else {
        assert(is_floor_sqrt(x, r));
    }
}

/// Evaluating twice with no observation in between changes nothing the
/// second time: the buffers already hold what the levels give.
pub proof fn lemma_evaluation_settles(s: SpeakerModel, sub: u8)
    ensures
        evaluated(evaluated(s, sub), sub) == evaluated(s, sub),
{
}

/// Per-peer audio state.
pub struct Speaker {
    paused: bool,
    last_level_change: u64,
    min_level: u8,
    next_min_level: u8,
    next_min_level_window_len: u32,
    levels: Vec<u8>,
    next_level_index: usize,
    immediates: Vec<u8>,
    mediums: Vec<u8>,
    longs: Vec<u8>,
    immediate_activity: Option<u8>,
    medium_activity: Option<u8>,
    long_activity: Option<u8>,
}

impl View for Speaker {
    type V = SpeakerModel;

    closed spec fn view(&self) -> SpeakerModel {
        SpeakerModel {
            paused: self.paused,
            last_level_change: self.last_level_change,
            min_level: self.min_level,
            next_min_level: self.next_min_level,
            next_min_level_window_len: self.next_min_level_window_len,
            levels: self.levels@,
            next_level_index: self.next_level_index as int,
            immediates: self.immediates@,
            mediums: self.mediums@,
            longs: self.longs@,
            immediate_activity: self.immediate_activity,
            medium_activity: self.medium_activity,
            long_activity: self.long_activity,
        }
    }
}

impl Speaker {
    /// Create a new speaker state anchored at `now`.
    pub fn new(now: u64) -> (s: Self)
        ensures
            s@ == initial_speaker(now),
            s@.wf(),
    {
        let s = Speaker {
            paused: false,
            last_level_change: now,
            min_level: MIN_LEVEL,
            next_min_level: MIN_LEVEL,
            next_min_level_window_len: 0,
            levels: vec![0u8; LEVELS_BUFF_LEN],
            next_level_index: 0,
            immediates: vec![0u8; IMMEDIATE_BUFF_LEN],
            mediums: vec![0u8; MEDIUMS_BUFF_LEN],
            longs: vec![0u8; LONGS_BUFF_LEN],
            immediate_activity: None,
            medium_activity: None,
            long_activity: None,
        };
        assert(s.levels@ =~= Seq::new(LEVELS_BUFF_LEN as nat, |k: int| 0u8));
        assert(s.immediates@ =~= Seq::new(IMMEDIATE_BUFF_LEN as nat, |k: int| 0u8));
        assert(s.mediums@ =~= Seq::new(MEDIUMS_BUFF_LEN as nat, |k: int| 0u8));
        assert(s.longs@ =~= Seq::new(LONGS_BUFF_LEN as nat, |k: int| 0u8));
        s
    }

    /// Whether the peer has been paused for being idle.
    pub fn is_paused(&self) -> (b: bool)
        ensures
            b == self@.paused,
    {
        self.paused
    }

    /// Mark the peer as paused.
    pub fn pause(&mut self)
        ensures
            final(self)@ == (SpeakerModel { paused: true, ..old(self)@ }),
    {
        self.paused = true;
    }

    /// Time of the last accepted level observation.
    pub fn last_level_change(&self) -> (t: u64)
        ensures
            t == self@.last_level_change,
    {
        self.last_level_change
    }

    /// Active-subband count of the current immediate score, if it was ever
    /// computed.
    pub fn immediate_activity(&self) -> (a: Option<u8>)
        ensures
            a == self@.immediate_activity,
    {
        self.immediate_activity
    }

    /// Active-subband count of the current medium score, if it was ever
    /// computed.
    pub fn medium_activity(&self) -> (a: Option<u8>)
        ensures
            a == self@.medium_activity,
    {
        self.medium_activity
    }

    /// Active-subband count of the current long score, if it was ever
    /// computed.
    pub fn long_activity(&self) -> (a: Option<u8>)
        ensures
            a == self@.long_activity,
    {
        self.long_activity
    }

    /// Record a new volume observation (`level` is 127 − dBov).
    ///
    /// Gaps longer than 20 ms are filled by replaying the sample, capped at
    /// the ring length; observations older than the last one are ignored.
    pub fn level_changed(&mut self, level: u8, now: u64)
        requires
            old(self)@.wf(),
        ensures
            final(self)@ == after_level(old(self)@, level, now),
            final(self)@.wf(),
    {
        if now < self.last_level_change {
            return;
        }
        let ghost start = self.next_level_index as int;
        let ghost old_levels = self.levels@;
        let elapsed_ms = now - self.last_level_change;
        self.last_level_change = now;
        let ghost mid = self@;
        let b = if level < MAX_LEVEL {
            level
        } else {
            MAX_LEVEL
        };
        let slots = elapsed_ms / LEVEL_SLOT_MS;
        let n: usize = if slots < 1 {
            1
        } else if slots > LEVELS_BUFF_LEN as u64 {
            LEVELS_BUFF_LEN
        } else {
            slots as usize
        };
        assert(n == slots_elapsed(old(self)@.last_level_change, now));
        let mut k: usize = 0;
        while k < n
            invariant
                n <= LEVELS_BUFF_LEN,
                0 <= start < LEVELS_BUFF_LEN,
                old_levels.len() == LEVELS_BUFF_LEN,
                self.levels@.len() == LEVELS_BUFF_LEN,
                k <= n,
                self.next_level_index == (start + k) % (LEVELS_BUFF_LEN as int),
                self.levels@ == ring_fill(old_levels, start, k as int, b),
                self@ == (SpeakerModel {
                    levels: self@.levels,
                    next_level_index: self@.next_level_index,
                    ..mid
                }),
            decreases n - k,
        {
            let ghost prev = self.levels@;
            let idx = self.next_level_index;
            self.levels[idx] = b;
            self.next_level_index = (self.next_level_index + 1) % LEVELS_BUFF_LEN;
            proof {
                assert forall|m: int| 0 <= m < LEVELS_BUFF_LEN implies self.levels@[m] == ring_fill(
                    old_levels,
                    start,
                    k + 1,
                    b,
                )[m] by {
                    let d = (m - start) % (LEVELS_BUFF_LEN as int);
                    if m == idx {
                        assert(d == k);
                    } else {
                        assert(d != k);
                    }
                }
                assert(self.levels@ =~= ring_fill(old_levels, start, k + 1, b));
            }
            k += 1;
        }
        self.update_min_level(b);
    }

    /// Adaptive noise-floor tracking using the geometric mean of successive
    /// minima.
    fn update_min_level(&mut self, level: u8)
        requires
            level <= MAX_LEVEL,
            old(self).min_level <= MAX_LEVEL,
            old(self).next_min_level <= MAX_LEVEL,
            old(self).next_min_level_window_len < MIN_LEVEL_WINDOW_LEN,
        ensures
            (final(self).min_level, final(self).next_min_level, final(self).next_min_level_window_len)
                == min_level_step(
                old(self).min_level,
                old(self).next_min_level,
                old(self).next_min_level_window_len,
                level,
            ),
            final(self).min_level <= MAX_LEVEL,
            final(self).next_min_level <= MAX_LEVEL,
            final(self).next_min_level_window_len < MIN_LEVEL_WINDOW_LEN,
            final(self)@ == (SpeakerModel {
                min_level: final(self).min_level,
                next_min_level: final(self).next_min_level,
                next_min_level_window_len: final(self).next_min_level_window_len,
                ..old(self)@
            }),
    {
        if level == MIN_LEVEL {
            return;
        }
        if self.min_level == MIN_LEVEL || self.min_level > level {
            self.min_level = level;
            self.next_min_level = MIN_LEVEL;
            self.next_min_level_window_len = 0;
        } else if self.next_min_level == MIN_LEVEL {
            self.next_min_level = level;
            self.next_min_level_window_len = 1;
        } else {
            if level < self.next_min_level {
                self.next_min_level = level;
            }
            self.next_min_level_window_len += 1;
            if self.next_min_level_window_len >= MIN_LEVEL_WINDOW_LEN {
                let a = self.min_level as u32;
                let c = self.next_min_level as u32;
                assert(a * c <= MAX_LEVEL * MAX_LEVEL) by (nonlinear_arith)
                    requires
                        a <= 127,
                        c <= 127,
                ;
                let product: u32 = a * c;
                let m = floor_sqrt_of(product);
                self.min_level = m as u8;
                self.next_min_level = MIN_LEVEL;
                self.next_min_level_window_len = 0;
            }
        }
    }

    /// Compute the subband of each of the last `IMMEDIATE_BUFF_LEN` levels,
    /// most recent first. Returns `true` if any slot changed.
    fn compute_immediates(&mut self, sub: u8) -> (changed: bool)
        requires
            old(self)@.wf(),
            sub >= 1,
        ensures
            final(self)@ == (SpeakerModel {
                immediates: immediates_of(
                    old(self)@.levels,
                    old(self)@.next_level_index,
                    old(self)@.min_level,
                    sub,
                ),
                ..old(self)@
            }),
            changed == (final(self)@.immediates != old(self)@.immediates),
    {
        let ghost orig = self.immediates@;
        let ghost target = immediates_of(self.levels@, self.next_level_index as int, self.min_level, sub);
        let thresh = self.min_level.saturating_add(sub);
        let mut changed = false;
        let mut i: usize = 0;
        while i < IMMEDIATE_BUFF_LEN
            invariant
                self.levels@.len() == LEVELS_BUFF_LEN,
                self.immediates@.len() == IMMEDIATE_BUFF_LEN,
                orig.len() == IMMEDIATE_BUFF_LEN,
                0 <= self.next_level_index < LEVELS_BUFF_LEN,
                sub >= 1,
                thresh == (if self.min_level + sub > u8::MAX {
                    u8::MAX as int
                } else {
                    self.min_level + sub
                }),
                target == immediates_of(self.levels@, self.next_level_index as int, self.min_level, sub),
                i <= IMMEDIATE_BUFF_LEN,
                forall|x: int| 0 <= x < i ==> self.immediates@[x] == target[x],
                forall|x: int| i <= x < IMMEDIATE_BUFF_LEN ==> self.immediates@[x] == orig[x],
                changed == exists|x: int| 0 <= x < i && orig[x] != self.immediates@[x],
                self@ == (SpeakerModel { immediates: self@.immediates, ..old(self)@ }),
            decreases IMMEDIATE_BUFF_LEN - i,
        {
            let idx = if self.next_level_index > i {
                self.next_level_index - i - 1
            } else {
                self.next_level_index + LEVELS_BUFF_LEN - i - 1
            };
            assert(idx == (self.next_level_index + LEVELS_BUFF_LEN - 1 - i) % (LEVELS_BUFF_LEN as int));
            let mut lvl = self.levels[idx];
            if lvl < thresh {
                lvl = MIN_LEVEL;
            }
            let imm = lvl / sub;
            assert(imm == target[i as int]);
            let ghost prev = self.immediates@;
            let ghost prev_changed = changed;
            if self.immediates[i] != imm {
                self.immediates[i] = imm;
                changed = true;
                assert(orig[i as int] != self.immediates@[i as int]);
            }
            proof {
                assert(forall|x: int| 0 <= x < i ==> self.immediates@[x] == prev[x]);
                if prev_changed {
                    let w = choose|x: int| 0 <= x < i && orig[x] != prev[x];
                    assert(orig[w] != self.immediates@[w]);
                }
            }
            i += 1;
        }
        proof {
            if !changed {
                assert(self.immediates@ =~= orig);
            }
            assert(self.immediates@ =~= target);
        }
        changed
    }

    /// Re-evaluate the activity buffers with subband width `sub`.
    ///
    /// Short-circuits at each stage if its buffer did not change.
    pub fn eval_scores(&mut self, sub: u8)
        requires
            old(self)@.wf(),
            sub >= 1,
        ensures
            final(self)@ == evaluated(old(self)@, sub),
            final(self)@.wf(),
    {
        if !self.compute_immediates(sub) {
            return;
        }
        self.immediate_activity = Some(self.immediates[0]);
        if !compute_bigs(self.immediates.as_slice(), self.mediums.as_mut_slice(), MEDIUM_THRESHOLD) {
            return;
        }
        self.medium_activity = Some(self.mediums[0]);
        if !compute_bigs(self.mediums.as_slice(), self.longs.as_mut_slice(), LONG_THRESHOLD) {
            return;
        }
        self.long_activity = Some(self.longs[0]);
    }

    /// Sum of the raw level ring buffer: a loudness measure used to break
    /// ties between equal scores.
    pub fn raw_level_sum(&self) -> (sum: u32)
        requires
            self@.wf(),
        ensures
            sum == level_sum(self@.levels),
    {
        let mut sum: u32 = 0;
        let mut k: usize = 0;
        while k < self.levels.len()
            invariant
                self@.wf(),
                k <= self.levels@.len(),
                sum == level_sum(self.levels@.subrange(0, k as int)),
                sum <= k * MAX_LEVEL,
            decreases self.levels@.len() - k,
        {
            assert(self.levels@.subrange(0, k + 1).drop_last() =~= self.levels@.subrange(0, k as int));
            assert(self.levels@[k as int] <= MAX_LEVEL);
            sum = sum + self.levels[k] as u32;
            k += 1;
        }
        assert(self.levels@.subrange(0, k as int) =~= self.levels@);
        sum
    }
}

} // verus!
