//! A long shot while it is recorded: what each frame did to it, what the user is told, where the
//! frames come from, and how it ends.

use std::collections::VecDeque;

use vstd::prelude::*;

use crate::capture::{CaptureNotice, CaptureStats};
use crate::preview::elapsed;
use crate::readout::{Hint, StitchDecision};

verus! {

/// How many decisions the track on the panel shows.
pub const SEAM_HISTORY_LEN: usize = 36;

/// How many frames in a row without a match ask the user to slow down.
pub const LOW_RUN_FRAMES: u32 = 12;

/// How long they have to last, in nanoseconds.
pub const LOW_RUN_TIME: u64 = 550_000_000;

/// How many timeouts in a row the fast backend may have before it is given up.
pub const SCREENCOPY_TIMEOUT_TOLERANCE: u32 = 3;

/// The track after one more decision: the oldest gives way if the track is full.
pub open spec fn track(history: Seq<StitchDecision>, decision: StitchDecision) -> Seq<
    StitchDecision,
> {
    if history.len() == SEAM_HISTORY_LEN {
        history.drop_first().push(decision)
    } else {
        history.push(decision)
    }
}

/// Adds a decision to the track.
pub fn push_seam_decision(history: &mut VecDeque<StitchDecision>, decision: StitchDecision)
    ensures
        final(history)@ == track(old(history)@, decision),
        old(history)@.len() <= SEAM_HISTORY_LEN ==> final(history)@.len() <= SEAM_HISTORY_LEN,
{
    let ghost before = history@;
    if history.len() == SEAM_HISTORY_LEN {
        let _ = history.pop_front();
        assert(history@ =~= before.drop_first());
    }
    history.push_back(decision);
}

/// The track shows the newest decisions, in order, and all of them until it is full.
pub open spec fn newest(all: Seq<StitchDecision>) -> Seq<StitchDecision> {
    if all.len() <= SEAM_HISTORY_LEN {
        all
    } else {
        all.skip(all.len() - SEAM_HISTORY_LEN)
    }
}

/// The track always shows the newest decisions.
pub proof fn the_track_shows_the_newest(all: Seq<StitchDecision>, decision: StitchDecision)
    ensures
        track(newest(all), decision) == newest(all.push(decision)),
{
    assert(track(newest(all), decision) =~= newest(all.push(decision)));
}

/// What was counted.
#[derive(Debug, Clone, Copy, PartialEq, Eq, Structural)]
pub struct StitchStats {
    pub processed: u64,
    pub seed: u64,
    pub accepted: u64,
    pub stationary: u64,
    pub revisited: u64,
    pub reanchored: u64,
    pub rejected: u64,
    pub recovered: u64,
}

impl StitchStats {
    /// Every frame was counted once, and none was recovered more often than that.
    pub open spec fn wf(self) -> bool {
        &&& self.processed == self.seed + self.accepted + self.stationary + self.revisited
            + self.reanchored + self.rejected
        &&& self.recovered <= self.processed
    }

    /// The counts after one more frame.
    pub open spec fn plus(self, decision: StitchDecision, recovered: bool) -> StitchStats {
        StitchStats {
            processed: (self.processed + 1) as u64,
            seed: (self.seed + if decision is Seed {
                1int
            } else {
                0
            }) as u64,
            accepted: (self.accepted + if decision is Accepted {
                1int
            } else {
                0
            }) as u64,
            stationary: (self.stationary + if decision is Stationary {
                1int
            } else {
                0
            }) as u64,
            revisited: (self.revisited + if decision is Revisit {
                1int
            } else {
                0
            }) as u64,
            reanchored: (self.reanchored + if decision is Reanchored {
                1int
            } else {
                0
            }) as u64,
            rejected: (self.rejected + if decision is Rejected {
                1int
            } else {
                0
            }) as u64,
            recovered: (self.recovered + if recovered {
                1int
            } else {
                0
            }) as u64,
        }
    }

    /// Nothing was counted yet.
    pub fn new() -> (s: StitchStats)
        ensures
            s == (StitchStats {
                processed: 0,
                seed: 0,
                accepted: 0,
                stationary: 0,
                revisited: 0,
                reanchored: 0,
                rejected: 0,
                recovered: 0,
            }),
            s.wf(),
    {
        StitchStats {
            processed: 0,
            seed: 0,
            accepted: 0,
            stationary: 0,
            revisited: 0,
            reanchored: 0,
            rejected: 0,
            recovered: 0,
        }
    }

    fn count(&mut self, decision: StitchDecision, recovered: bool)
        requires
            old(self).wf(),
            old(self).processed < u64::MAX,
        ensures
            *final(self) == old(self).plus(decision, recovered),
            final(self).wf(),
    {
        self.processed = self.processed + 1;
        match decision {
            StitchDecision::Seed => {
                self.seed = self.seed + 1;
            },
            StitchDecision::Stationary => {
                self.stationary = self.stationary + 1;
            },
            StitchDecision::Accepted => {
                self.accepted = self.accepted + 1;
            },
            StitchDecision::Revisit => {
                self.revisited = self.revisited + 1;
            },
            StitchDecision::Reanchored => {
                self.reanchored = self.reanchored + 1;
            },
            StitchDecision::Rejected => {
                self.rejected = self.rejected + 1;
            },
        }
        if recovered {
            self.recovered = self.recovered + 1;
        }
    }
}

/// One more frame is one more in the count of all frames and in that of its decision, and in no
/// other count. So the count of all frames stays the sum of the others.
pub proof fn a_frame_counts_once(stats: StitchStats, decision: StitchDecision, recovered: bool)
    requires
        stats.wf(),
        stats.processed < u64::MAX,
    ensures
        ({
            let after = stats.plus(decision, recovered);
            &&& after.wf()
            &&& after.processed == stats.processed + 1
            &&& after.seed == stats.seed + if decision is Seed {
                1int
            } else {
                0
            }
            &&& after.accepted == stats.accepted + if decision is Accepted {
                1int
            } else {
                0
            }
            &&& after.stationary == stats.stationary + if decision is Stationary {
                1int
            } else {
                0
            }
            &&& after.revisited == stats.revisited + if decision is Revisit {
                1int
            } else {
                0
            }
            &&& after.reanchored == stats.reanchored + if decision is Reanchored {
                1int
            } else {
                0
            }
            &&& after.rejected == stats.rejected + if decision is Rejected {
                1int
            } else {
                0
            }
            &&& after.processed == after.seed + after.accepted + after.stationary + after.revisited
                + after.reanchored + after.rejected
        }),
{
}

/// What the stitcher says after a frame.
#[derive(Debug, Clone, Copy, PartialEq, Eq, Structural)]
pub struct Stitched {
    /// The decision, if there was one.
    pub decision: Option<StitchDecision>,
    /// How many frames were used before this one.
    pub used_before: usize,
    /// How many are used now.
    pub used: usize,
    /// The frame joined the others again after it was lost.
    pub recovered: bool,
    /// The frame differs from what it was held against by more than is allowed.
    pub unlike: bool,
    /// The height of the canvas.
    pub height: usize,
}

impl Stitched {
    /// Without a decision the frame was not used.
    pub open spec fn verdict(self) -> StitchDecision {
        match self.decision {
            Some(d) => d,
            None => StitchDecision::Rejected,
        }
    }

    /// The frame changed nothing: it was not the first, and it was not used.
    pub open spec fn left_out(self) -> bool {
        self.used_before != 0 && self.used == self.used_before
    }
}

/// A long shot while it is recorded. Times are in nanoseconds.
pub struct Session {
    pub selection_height: i32,
    pub hint: Option<Hint>,
    pub captured_height: usize,
    pub consecutive_low: u32,
    pub low_since: Option<u64>,
    pub finished: bool,
    pub last_processed_sequence: u64,
    pub stats: StitchStats,
    pub seam_history: VecDeque<StitchDecision>,
    pub capture_retry_notified: bool,
}

/// A height that is not below zero.
pub open spec fn not_negative(n: i32) -> usize {
    if n < 0 {
        0
    } else {
        n as usize
    }
}

fn clamped(n: i32) -> (r: usize)
    ensures
        r == not_negative(n),
{
    if n < 0 {
        0
    } else {
        n as usize
    }
}

impl Session {
    /// What always holds of a session.
    pub open spec fn wf(self) -> bool {
        &&& self.stats.wf()
        &&& self.seam_history@.len() <= SEAM_HISTORY_LEN
        &&& self.low_since is Some <==> self.consecutive_low > 0
    }

    /// Before the first frame: the canvas is as high as the selection.
    pub fn new(selection_height: i32) -> (s: Session)
        ensures
            s.wf(),
            s.selection_height == selection_height,
            s.hint is None,
            s.captured_height == not_negative(selection_height),
            s.consecutive_low == 0,
            !s.finished,
            s.last_processed_sequence == 0,
            s.stats.processed == 0,
            s.seam_history@.len() == 0,
            !s.capture_retry_notified,
    {
        Session {
            selection_height,
            hint: None,
            captured_height: clamped(selection_height),
            consecutive_low: 0,
            low_since: None,
            finished: false,
            last_processed_sequence: 0,
            stats: StitchStats::new(),
            seam_history: VecDeque::new(),
            capture_retry_notified: false,
        }
    }

    /// Whether a frame is still to be stitched: frames go in order, and none twice. If so it counts
    /// as stitched from now on.
    pub fn take(&mut self, sequence: u64) -> (r: bool)
        ensures
            r == (sequence > old(self).last_processed_sequence),
            *final(self) == (Session {
                last_processed_sequence: if r {
                    sequence
                } else {
                    old(self).last_processed_sequence
                },
                ..*old(self)
            }),
    {
        if sequence <= self.last_processed_sequence {
            return false;
        }
        self.last_processed_sequence = sequence;
        true
    }

    /// When the frames without a match began.
    pub open spec fn low_start(self, now: u64) -> u64 {
        match self.low_since {
            Some(since) => since,
            None => now,
        }
    }

    /// There have been many frames without a match, for some time.
    pub open spec fn is_sustained(self, now: u64) -> bool {
        self.consecutive_low + 1 >= LOW_RUN_FRAMES && elapsed(self.low_start(now), now)
            >= LOW_RUN_TIME
    }

    /// Takes what the stitcher says of a frame. A frame that is unlike the others asks for patience
    /// and, after many of them, to slow down. One that is like the others but was not used shows
    /// that nothing moved. One that was used ends such a run, and is the only one that changes the
    /// height.
    pub fn record(&mut self, outcome: Stitched, now: u64)
        requires
            old(self).wf(),
            old(self).stats.processed < u64::MAX,
            old(self).consecutive_low < u32::MAX,
        ensures
            final(self).wf(),
            final(self).selection_height == old(self).selection_height,
            final(self).finished == old(self).finished,
            final(self).last_processed_sequence == old(self).last_processed_sequence,
            final(self).capture_retry_notified == old(self).capture_retry_notified,
            final(self).stats == old(self).stats.plus(outcome.verdict(), outcome.recovered),
            final(self).seam_history@ == track(old(self).seam_history@, outcome.verdict()),
            if outcome.left_out() && outcome.unlike {
                &&& final(self).consecutive_low == old(self).consecutive_low + 1
                &&& final(self).low_since == Some(old(self).low_start(now))
                &&& final(self).hint == Some(
                    if old(self).is_sustained(now) {
                        Hint::SlowDown
                    } else {
                        Hint::Recovering
                    },
                )
                &&& final(self).captured_height == old(self).captured_height
            } else if outcome.left_out() {
                &&& final(self).consecutive_low == 0
                &&& final(self).low_since is None
                &&& final(self).hint == Some(Hint::NoMove)
                &&& final(self).captured_height == old(self).captured_height
            } else {
                &&& final(self).consecutive_low == 0
                &&& final(self).low_since is None
                &&& final(self).hint == if outcome.recovered {
                    Some(Hint::Recovered)
                } else {
                    None
                }
                &&& final(self).captured_height == if outcome.height == 0 {
                    not_negative(old(self).selection_height)
                } else {
                    outcome.height
                }
            },
    {
        let decision: StitchDecision = match outcome.decision {
            Some(d) => d,
            None => StitchDecision::Rejected,
        };
        self.stats.count(decision, outcome.recovered);
        push_seam_decision(&mut self.seam_history, decision);
        let left_out: bool = outcome.used_before != 0 && outcome.used == outcome.used_before;
        if left_out {
            if outcome.unlike {
                self.consecutive_low = self.consecutive_low + 1;
                let since: u64 = match self.low_since {
                    Some(s) => s,
                    None => now,
                };
                self.low_since = Some(since);
                let passed: u64 = if now < since {
                    0
                } else {
                    now - since
                };
                if self.consecutive_low >= LOW_RUN_FRAMES && passed >= LOW_RUN_TIME {
                    self.hint = Some(Hint::SlowDown);
                } else {
                    self.hint = Some(Hint::Recovering);
                }
            } else {
                self.consecutive_low = 0;
                self.low_since = None;
                self.hint = Some(Hint::NoMove);
            }
        } else {
            self.consecutive_low = 0;
            self.low_since = None;
            if outcome.recovered {
                self.hint = Some(Hint::Recovered);
            } else {
                self.hint = None;
            }
            if outcome.height == 0 {
                self.captured_height = clamped(self.selection_height);
            } else {
                self.captured_height = outcome.height;
            }
        }
    }

    /// Takes what the capture thread has to say. A single failure is not worth a word, unless it
    /// was a timeout. Says whether the panel has to be renewed.
    pub fn process_capture_notice(&mut self, notice: CaptureNotice) -> (changed: bool)
        ensures
            changed == (worth_telling(notice) || notice is Resumed),
            *final(self) == (Session {
                hint: if worth_telling(notice) {
                    Some(Hint::CaptureRetry)
                } else if notice is Resumed {
                    Some(Hint::CaptureResumed)
                } else {
                    old(self).hint
                },
                ..*old(self)
            }),
    {
        match notice {
            CaptureNotice::Retrying { consecutive, timed_out } => {
                if timed_out || consecutive >= 3 {
                    self.hint = Some(Hint::CaptureRetry);
                    true
                } else {
                    false
                }
            },
            CaptureNotice::Resumed => {
                self.hint = Some(Hint::CaptureResumed);
                true
            },
        }
    }

    /// What is logged of a notice if there is no panel to show it: the first that is worth telling,
    /// and that it is over.
    pub fn hidden_notice(&mut self, panel_available: bool, notice: CaptureNotice) -> (r: Option<
        &'static str,
    >)
        ensures
            match r {
                None => panel_available || if worth_telling(notice) {
                    old(self).capture_retry_notified
                } else {
                    notice is Resumed ==> !old(self).capture_retry_notified
                },
                Some(s) => !panel_available && if worth_telling(notice) {
                    s@ == "retrying"@ && !old(self).capture_retry_notified
                } else {
                    s@ == "resumed"@ && notice is Resumed && old(self).capture_retry_notified
                },
            },
            *final(self) == (Session {
                capture_retry_notified: if panel_available {
                    old(self).capture_retry_notified
                } else if worth_telling(notice) {
                    true
                } else if notice is Resumed {
                    false
                } else {
                    old(self).capture_retry_notified
                },
                ..*old(self)
            }),
    {
        if panel_available {
            return None;
        }
        let before: bool = self.capture_retry_notified;
        match notice {
            CaptureNotice::Retrying { consecutive, timed_out } => {
                if timed_out || consecutive >= 3 {
                    self.capture_retry_notified = true;
                    if !before {
                        return Some("retrying");
                    }
                }
                None
            },
            CaptureNotice::Resumed => {
                self.capture_retry_notified = false;
                if before {
                    Some("resumed")
                } else {
                    None
                }
            },
        }
    }

    /// Ends the recording. Only the first end counts.
    pub fn finish(&mut self, cancel: bool) -> (r: Finish)
        ensures
            final(self).finished,
            *final(self) == (Session { finished: true, ..*old(self) }),
            r == if old(self).finished {
                Finish::Ignore
            } else if cancel {
                Finish::Cancel
            } else {
                Finish::Collect
            },
    {
        if self.finished {
            return Finish::Ignore;
        }
        self.finished = true;
        if cancel {
            Finish::Cancel
        } else {
            Finish::Collect
        }
    }

    /// The recording failed. Says whether it was still going on.
    pub fn fail(&mut self) -> (r: bool)
        ensures
            r == !old(self).finished,
            *final(self) == (Session { finished: true, ..*old(self) }),
    {
        let running: bool = !self.finished;
        self.finished = true;
        running
    }
}

/// A failure that the user hears of: a timeout, or the third in a row.
pub open spec fn worth_telling(notice: CaptureNotice) -> bool {
    notice matches CaptureNotice::Retrying { consecutive, timed_out } && (timed_out || consecutive
        >= 3)
}

/// How a recording is ended.
#[derive(Debug, Clone, Copy, PartialEq, Eq, Structural)]
pub enum Finish {
    /// It was ended before.
    Ignore,
    /// Nothing is kept.
    Cancel,
    /// What was captured is stitched to the end.
    Collect,
}

/// How a recording ended.
#[derive(Debug, Clone, Copy, PartialEq, Eq, Structural)]
pub enum Outcome {
    Completed,
    Cancelled,
    Failed,
}

impl Outcome {
    /// The outcome as it is logged.
    pub fn as_str(self) -> (r: &'static str)
        ensures
            r@ == match self {
                Outcome::Completed => "completed"@,
                Outcome::Cancelled => "cancelled"@,
                Outcome::Failed => "failed"@,
            },
    {
        match self {
            Outcome::Completed => "completed",
            Outcome::Cancelled => "cancelled",
            Outcome::Failed => "failed",
        }
    }
}

/// How a recording ended that was not called off. Without an image it failed, unless it was ended
/// before there was a frame, which is the same as calling it off.
pub fn conclude(image: bool, worker_joined: bool, stats: CaptureStats) -> (r: Outcome)
    ensures
        r == if image {
            Outcome::Completed
        } else if worker_joined && stats.is_untouched() {
            Outcome::Cancelled
        } else {
            Outcome::Failed
        },
{
    if image {
        Outcome::Completed
    } else if worker_joined && stats.ended_before_the_first_stitched_frame() {
        Outcome::Cancelled
    } else {
        Outcome::Failed
    }
}

/// Where the frames come from.
#[derive(Debug, Clone, Copy, PartialEq, Eq, Structural)]
pub enum FrameSource {
    /// A lasting connection to the compositor.
    Screencopy { consecutive_timeouts: u32 },
    /// A program that is started for each frame.
    Grim,
}

/// What came of a grab through the lasting connection.
#[derive(Debug, Clone, Copy, PartialEq, Eq, Structural)]
pub enum Attempt {
    Frame,
    Cancelled,
    Timeout,
    Broken,
}

/// What follows from it.
#[derive(Debug, Clone, Copy, PartialEq, Eq, Structural)]
pub enum Verdict {
    /// There is a frame.
    Frame,
    /// The grab was called off.
    Cancelled,
    /// There was no frame in time. The connection is kept.
    Timeout,
    /// The frame is to be grabbed in the other way.
    UseGrim,
}

impl FrameSource {
    /// Few timeouts in a row are borne.
    pub open spec fn wf(self) -> bool {
        self matches FrameSource::Screencopy { consecutive_timeouts } ==> consecutive_timeouts
            < SCREENCOPY_TIMEOUT_TOLERANCE
    }

    /// Chooses the source: the lasting connection if it could be made, unless the other one was
    /// asked for.
    pub fn select(grim_forced: bool, connected: bool) -> (s: FrameSource)
        ensures
            s.wf(),
            s == if !grim_forced && connected {
                FrameSource::Screencopy { consecutive_timeouts: 0 }
            } else {
                FrameSource::Grim
            },
    {
        if !grim_forced && connected {
            FrameSource::Screencopy { consecutive_timeouts: 0 }
        } else {
            FrameSource::Grim
        }
    }

    /// Whether the first frame only warms up the source.
    pub fn discard_first_frame(&self) -> (r: bool)
        ensures
            r == (*self is Grim),
    {
        match self {
            FrameSource::Grim => true,
            _ => false,
        }
    }

    /// Takes what came of a grab through the lasting connection. A frame starts the count of
    /// timeouts anew. Few timeouts in a row are borne; after more of them, or if the connection is
    /// broken, it is given up for good.
    pub fn attempted(&mut self, attempt: Attempt, sampling: bool, aborting: bool) -> (r: Verdict)
        requires
            old(self).wf(),
            *old(self) is Screencopy,
        ensures
            final(self).wf(),
            ({
                let timeouts = old(self)->consecutive_timeouts;
                let borne = attempt is Timeout && timeouts + 1 < SCREENCOPY_TIMEOUT_TOLERANCE;
                if attempt is Frame {
                    r == Verdict::Frame && *final(self) == (FrameSource::Screencopy {
                        consecutive_timeouts: 0,
                    })
                } else if attempt is Cancelled && aborting {
                    r == Verdict::Cancelled && *final(self) == *old(self)
                } else if borne {
                    r == Verdict::Timeout && *final(self) == (FrameSource::Screencopy {
                        consecutive_timeouts: (timeouts + 1) as u32,
                    })
                } else {
                    *final(self) == FrameSource::Grim && r == if sampling {
                        Verdict::UseGrim
                    } else {
                        Verdict::Cancelled
                    }
                }
            }),
    {
        let timeouts: u32 = match self {
            FrameSource::Screencopy { consecutive_timeouts } => *consecutive_timeouts,
            FrameSource::Grim => 0,
        };
        match attempt {
            Attempt::Frame => {
                *self = FrameSource::Screencopy { consecutive_timeouts: 0 };
                return Verdict::Frame;
            },
            Attempt::Cancelled => {
                if aborting {
                    return Verdict::Cancelled;
                }
            },
            Attempt::Timeout => {
                if timeouts + 1 < SCREENCOPY_TIMEOUT_TOLERANCE {
                    *self = FrameSource::Screencopy { consecutive_timeouts: timeouts + 1 };
                    return Verdict::Timeout;
                }
            },
            Attempt::Broken => {},
        }
        *self = FrameSource::Grim;
        if sampling {
            Verdict::UseGrim
        } else {
            Verdict::Cancelled
        }
    }
}

/// A frame is taken only if it is newer than the last one that was, so none is taken twice.
pub proof fn no_frame_is_taken_twice(
    s: &mut Session,
    sequence: u64,
    r: bool,
    t: &mut Session,
    other: u64,
    q: bool,
)
    requires
        call_ensures(Session::take, (s, sequence), r),
        *old(t) == *final(s),
        call_ensures(Session::take, (t, other), q),
    ensures
        r <==> sequence > old(s).last_processed_sequence,
        r && q ==> other > sequence,
        r && other == sequence ==> !q,
        !r ==> *final(s) == *old(s),
{
}

/// A frame that was left out because it does not fit asks for a slower scroll once twelve in a row
/// did so for at least 550 milliseconds; before that a place for it is being sought. Any other frame
/// ends the row.
pub proof fn a_row_of_lost_frames_asks_for_patience(s: &mut Session, outcome: Stitched, now: u64)
    requires
        old(s).wf(),
        old(s).stats.processed < u64::MAX,
        old(s).consecutive_low < u32::MAX,
        call_ensures(Session::record, (s, outcome, now), ()),
    ensures
        ({
            let left_out = outcome.used_before != 0 && outcome.used == outcome.used_before;
            &&& left_out && outcome.unlike ==> {
                &&& final(s).consecutive_low == old(s).consecutive_low + 1
                &&& final(s).low_since is Some
                &&& old(s).low_since is Some ==> final(s).low_since == old(s).low_since
                &&& old(s).low_since is None ==> final(s).low_since == Some(now)
                &&& final(s).hint == Some(Hint::SlowDown) <==> final(s).consecutive_low >= 12 && now
                    - final(s).low_since->0 >= 550_000_000
                &&& final(s).hint == Some(Hint::SlowDown) || final(s).hint == Some(Hint::Recovering)
            }
            &&& !(left_out && outcome.unlike) ==> final(s).consecutive_low == 0 && final(s).low_since is None
            &&& left_out && !outcome.unlike ==> final(s).hint == Some(Hint::NoMove)
            &&& left_out ==> final(s).captured_height == old(s).captured_height
            &&& !left_out && outcome.height > 0 ==> final(s).captured_height == outcome.height
            &&& !left_out ==> (final(s).hint == Some(Hint::Recovered) <==> outcome.recovered)
        }),
        final(s).stats.processed == old(s).stats.processed + 1,
        final(s).seam_history@.len() > 0,
        outcome.decision matches Some(d) ==> final(s).seam_history@.last() == d,
        outcome.decision is None ==> final(s).seam_history@.last() is Rejected,
        final(s).seam_history@.len() <= 36,
{
}

/// A decision counts where it belongs: the counter of its kind and the one of all frames grow by one,
/// the others stay. A frame without a decision counts as rejected.
pub proof fn a_decision_is_counted(s: &mut Session, outcome: Stitched, now: u64)
    requires
        old(s).wf(),
        old(s).stats.processed < u64::MAX,
        old(s).consecutive_low < u32::MAX,
        call_ensures(Session::record, (s, outcome, now), ()),
    ensures
        ({
            let (a, b) = (old(s).stats, final(s).stats);
            let one = |is: bool|
                if is {
                    1int
                } else {
                    0
                };
            &&& b.processed == a.processed + 1
            &&& b.seed == a.seed + one(outcome.decision == Some(StitchDecision::Seed))
            &&& b.accepted == a.accepted + one(outcome.decision == Some(StitchDecision::Accepted))
            &&& b.stationary == a.stationary + one(
                outcome.decision == Some(StitchDecision::Stationary),
            )
            &&& b.revisited == a.revisited + one(outcome.decision == Some(StitchDecision::Revisit))
            &&& b.reanchored == a.reanchored + one(
                outcome.decision == Some(StitchDecision::Reanchored),
            )
            &&& b.rejected == a.rejected + one(
                outcome.decision is None || outcome.decision == Some(StitchDecision::Rejected),
            )
            &&& b.recovered == a.recovered + one(outcome.recovered)
        }),
{
    a_frame_counts_once(old(s).stats, outcome.verdict(), outcome.recovered);
}

/// The history ends with the newest decision, holds at most 36, and drops only the oldest one.
pub proof fn the_history_ends_with_the_newest(
    history: &mut VecDeque<StitchDecision>,
    decision: StitchDecision,
)
    requires
        call_ensures(push_seam_decision, (history, decision), ()),
        old(history)@.len() <= 36,
    ensures
        final(history)@.len() > 0,
        final(history)@.last() == decision,
        final(history)@.len() <= 36,
        old(history)@.len() < 36 ==> final(history)@.drop_last() == old(history)@,
        old(history)@.len() == 36 ==> final(history)@.drop_last() == old(history)@.skip(1),
{
    assert(final(history)@.drop_last() =~= if old(history)@.len() < 36 {
        old(history)@
    } else {
        old(history)@.skip(1)
    });
}

/// A session ends once: what ends it first decides how, and what comes later is ignored.
pub proof fn a_session_ends_once(
    s: &mut Session,
    cancel: bool,
    r: Finish,
    t: &mut Session,
    again: bool,
    q: Finish,
    u: &mut Session,
    failed: bool,
)
    requires
        !old(s).finished,
        call_ensures(Session::finish, (s, cancel), r),
        *old(t) == *final(s),
        call_ensures(Session::finish, (t, again), q),
        *old(u) == *final(s),
        call_ensures(Session::fail, (u,), failed),
    ensures
        r is Cancel <==> cancel,
        r is Collect <==> !cancel,
        q is Ignore,
        !failed,
        final(s).finished && final(t).finished && final(u).finished,
{
}

/// Without a panel a trouble of the capture is told once, and its end is told once if it was.
pub proof fn a_trouble_is_told_once(
    s: &mut Session,
    panel_available: bool,
    notice: CaptureNotice,
    r: Option<&str>,
    t: &mut Session,
    again: CaptureNotice,
    q: Option<&str>,
)
    requires
        call_ensures(Session::hidden_notice, (s, panel_available, notice), r),
        *old(t) == *final(s),
        call_ensures(Session::hidden_notice, (t, panel_available, again), q),
        notice is Retrying,
    ensures
        panel_available ==> r is None && q is None,
        r is Some ==> (notice matches CaptureNotice::Retrying { consecutive, timed_out } && (
        timed_out || consecutive >= 3)) && !old(s).capture_retry_notified,
        r is Some && again is Retrying ==> q is None,
        r is Some && again is Resumed ==> q is Some,
        !old(s).capture_retry_notified && !panel_available && (
        notice matches CaptureNotice::Retrying { consecutive, timed_out } && (timed_out
            || consecutive >= 3)) ==> r is Some,
{
}

/// The hint of a trouble that lasts, and of its end.
pub proof fn a_lasting_trouble_is_shown(s: &mut Session, notice: CaptureNotice, changed: bool)
    requires
        call_ensures(Session::process_capture_notice, (s, notice), changed),
    ensures
        notice is Resumed ==> changed && final(s).hint == Some(Hint::CaptureResumed),
        (notice matches CaptureNotice::Retrying { consecutive, timed_out } && (timed_out
            || consecutive >= 3)) ==> changed && final(s).hint == Some(Hint::CaptureRetry),
        (notice matches CaptureNotice::Retrying { consecutive, timed_out } && !timed_out
            && consecutive < 3) ==> !changed && *final(s) == *old(s),
{
}

/// A recording with a picture is complete. Without one it was cancelled if nothing was captured yet
/// and nothing failed, and has failed otherwise.
pub proof fn a_picture_completes_a_recording(
    image: bool,
    worker_joined: bool,
    stats: CaptureStats,
    r: Outcome,
)
    requires
        call_ensures(conclude, (image, worker_joined, stats), r),
    ensures
        r is Completed <==> image,
        r is Cancelled <==> !image && worker_joined && stats.failures == 0 && stats.successful
            == stats.warmup_discarded,
{
}

/// The compositor is asked for frames until it times out three times in a row or fails; from then on
/// the other program is. A frame starts the count anew.
pub proof fn a_source_is_given_up(
    source: &mut FrameSource,
    attempt: Attempt,
    sampling: bool,
    aborting: bool,
    r: Verdict,
)
    requires
        old(source).wf(),
        *old(source) is Screencopy,
        call_ensures(FrameSource::attempted, (source, attempt, sampling, aborting), r),
    ensures
        attempt is Frame ==> r is Frame && *final(source) == (FrameSource::Screencopy {
            consecutive_timeouts: 0,
        }),
        r is Frame ==> attempt is Frame,
        attempt is Timeout ==> (*final(source) is Grim <==> old(source)->consecutive_timeouts == 2),
        attempt is Timeout && old(source)->consecutive_timeouts < 2 ==> r is Timeout && *final(source) == (FrameSource::Screencopy {
            consecutive_timeouts: (old(source)->consecutive_timeouts + 1) as u32,
        }),
        attempt is Broken ==> *final(source) is Grim,
        attempt is Cancelled && aborting ==> r is Cancelled && *final(source) == *old(source),
        r is UseGrim ==> sampling && *final(source) is Grim,
{
}

/// A session starts with nothing: as high as the selection, nothing taken, nothing told.
pub proof fn a_session_starts_empty(selection_height: i32, s: Session)
    requires
        call_ensures(Session::new, (selection_height,), s),
    ensures
        selection_height >= 0 ==> s.captured_height == selection_height,
        s.hint is None && !s.finished && s.last_processed_sequence == 0,
        s.stats.processed == 0 && s.seam_history@.len() == 0 && s.consecutive_low == 0,
{
}

/// The compositor is asked only if it is connected and the other program is not demanded. The first
/// frame of the other program is not used.
pub proof fn the_source_is_chosen(grim_forced: bool, connected: bool, s: FrameSource, r: bool)
    requires
        call_ensures(FrameSource::select, (grim_forced, connected), s),
        call_ensures(FrameSource::discard_first_frame, (&s,), r),
    ensures
        s is Screencopy <==> connected && !grim_forced,
        s is Screencopy ==> s->consecutive_timeouts == 0,
        r <==> s is Grim,
{
}

} // verus!
