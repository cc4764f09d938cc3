//! Frames on their way from the capture thread to the stitcher.
//!
//! The capture thread grabs one frame after the other. Each one that differs from the one before
//! enters an ordered queue; where the queue is full the thread waits, because a dropped frame could
//! be the one that joins two others.

use std::collections::VecDeque;

use vstd::prelude::*;

use crate::gray::Rgb8;

verus! {

/// How many frames may wait.
pub const QUEUE_CAPACITY: usize = 48;

/// Why a grab failed.
#[derive(Debug)]
pub enum CaptureError {
    NotFound,
    Failed(String),
    Decode(String),
    Timeout,
    Cancelled,
}

/// The sort of a failed grab, as it is logged.
pub fn capture_error_kind(error: &CaptureError) -> (r: &'static str)
    ensures
        r@ == match error {
            CaptureError::NotFound => "not_found"@,
            CaptureError::Failed(_) => "backend_failed"@,
            CaptureError::Decode(_) => "decode_failed"@,
            CaptureError::Timeout => "timeout"@,
            CaptureError::Cancelled => "cancelled"@,
        },
{
    match error {
        CaptureError::NotFound => "not_found",
        CaptureError::Failed(_) => "backend_failed",
        CaptureError::Decode(_) => "decode_failed",
        CaptureError::Timeout => "timeout",
        CaptureError::Cancelled => "cancelled",
    }
}

/// What the capture thread has to say.
#[derive(Debug, Clone, Copy, PartialEq, Eq, Structural)]
pub enum CaptureNotice {
    Retrying { consecutive: u32, timed_out: bool },
    Resumed,
}

/// A frame and its number among all frames that were grabbed.
pub struct CapturedFrame {
    pub sequence: u64,
    pub image: Rgb8,
}

/// A frame as a value.
pub struct FrameModel {
    pub sequence: u64,
    pub width: usize,
    pub height: usize,
    pub data: Seq<u8>,
}

impl FrameModel {
    /// The two show the same picture.
    pub open spec fn shows_the_same(self, other: FrameModel) -> bool {
        self.width == other.width && self.height == other.height && self.data == other.data
    }
}

/// A picture as a numbered frame.
pub open spec fn frame_of(sequence: u64, image: Rgb8) -> FrameModel {
    FrameModel { sequence, width: image.width, height: image.height, data: image.data@ }
}

impl CapturedFrame {
    /// The frame as a value.
    pub open spec fn model(self) -> FrameModel {
        frame_of(self.sequence, self.image)
    }

    fn copy(&self) -> (r: CapturedFrame)
        ensures
            r.model() == self.model(),
    {
        CapturedFrame {
            sequence: self.sequence,
            image: self.image.copy(),
        }
    }
}

fn same_bytes(a: &[u8], b: &[u8]) -> (r: bool)
    ensures
        r == (a@ == b@),
{
    if a.len() != b.len() {
        return false;
    }
    let mut i: usize = 0;
    while i < a.len()
        invariant
            a@.len() == b@.len(),
            i <= a@.len(),
            forall|k: int| 0 <= k < i ==> a@[k] == b@[k],
        decreases a.len() - i,
    {
        if a[i] != b[i] {
            assert(a@[i as int] != b@[i as int]);
            return false;
        }
        i = i + 1;
    }
    assert(a@ =~= b@);
    true
}

fn same_picture(a: &Rgb8, b: &Rgb8) -> (r: bool)
    ensures
        r == (a.width == b.width && a.height == b.height && a.data@ == b.data@),
{
    a.width == b.width && a.height == b.height && same_bytes(a.data.as_slice(), b.data.as_slice())
}

/// What was counted.
#[derive(Debug, Clone, Copy, PartialEq, Eq, Structural)]
pub struct CaptureStats {
    pub successful: u64,
    pub warmup_discarded: u64,
    pub exact_duplicates: u64,
    pub failures: u64,
    pub enqueued: u64,
    pub dequeued: u64,
    pub max_queue_depth: usize,
}

impl CaptureStats {
    /// Nothing was counted.
    pub open spec fn zero() -> CaptureStats {
        CaptureStats {
            successful: 0,
            warmup_discarded: 0,
            exact_duplicates: 0,
            failures: 0,
            enqueued: 0,
            dequeued: 0,
            max_queue_depth: 0,
        }
    }

    /// There was no frame to stitch, and nothing failed.
    pub open spec fn is_untouched(self) -> bool {
        self.failures == 0 && self.successful == self.warmup_discarded
    }

    /// Nothing was counted yet.
    pub fn new() -> (r: CaptureStats)
        ensures
            r == CaptureStats::zero(),
    {
        CaptureStats {
            successful: 0,
            warmup_discarded: 0,
            exact_duplicates: 0,
            failures: 0,
            enqueued: 0,
            dequeued: 0,
            max_queue_depth: 0,
        }
    }

    /// Whether the session ended before there was a frame to stitch, with nothing failed: every
    /// grab that succeeded was still one that warmed up the backend.
    pub fn ended_before_the_first_stitched_frame(self) -> (r: bool)
        ensures
            r == self.is_untouched(),
    {
        self.failures == 0 && self.successful == self.warmup_discarded
    }
}

/// The frames that wait, and what goes with them. The newest frame is kept aside, so that the end
/// of a session can use it though it never entered the queue.
pub struct Queue {
    pub frames: VecDeque<CapturedFrame>,
    pub latest: Option<CapturedFrame>,
    pub notice: Option<CaptureNotice>,
    pub idle_queued: bool,
    pub stats: CaptureStats,
}

/// The queue as a value.
#[verifier::ext_equal]
pub struct QueueModel {
    pub frames: Seq<FrameModel>,
    pub latest: Option<FrameModel>,
    pub notice: Option<CaptureNotice>,
    pub idle_queued: bool,
    pub stats: CaptureStats,
}

impl QueueModel {
    /// What always holds of a queue. The frames wait in the order in which they were grabbed, no
    /// more of them than there is room for. Every frame that entered has left or is still waiting.
    /// No frame is counted twice.
    pub open spec fn wf(self) -> bool {
        &&& self.frames.len() <= QUEUE_CAPACITY
        &&& forall|i: int, j: int|
            0 <= i < j < self.frames.len() ==> (#[trigger] self.frames[i]).sequence < (
            #[trigger] self.frames[j]).sequence
        &&& forall|i: int|
            0 <= i < self.frames.len() ==> (#[trigger] self.frames[i]).sequence
                <= self.stats.successful
        &&& self.latest matches Some(latest) ==> latest.sequence <= self.stats.successful
        &&& self.stats.enqueued == self.stats.dequeued + self.frames.len()
        &&& self.stats.warmup_discarded + self.stats.exact_duplicates + self.stats.enqueued
            <= self.stats.successful
        &&& self.frames.len() <= self.stats.max_queue_depth <= QUEUE_CAPACITY
    }

    /// One more grab succeeded.
    pub open spec fn counted(self) -> QueueModel {
        QueueModel {
            stats: CaptureStats { successful: (self.stats.successful + 1) as u64, ..self.stats },
            ..self
        }
    }

    /// The frame only warmed up the backend.
    pub open spec fn discarded(self) -> QueueModel {
        QueueModel {
            stats: CaptureStats {
                warmup_discarded: (self.stats.warmup_discarded + 1) as u64,
                ..self.stats
            },
            ..self
        }
    }

    /// One more grab failed, which is reported.
    pub open spec fn failed(self, consecutive: u32, timed_out: bool) -> QueueModel {
        QueueModel {
            notice: Some(CaptureNotice::Retrying { consecutive, timed_out }),
            idle_queued: true,
            stats: CaptureStats { failures: (self.stats.failures + 1) as u64, ..self.stats },
            ..self
        }
    }

    /// The first frame after a failure says so.
    pub open spec fn told(self, resumed: bool) -> QueueModel {
        if resumed {
            QueueModel { notice: Some(CaptureNotice::Resumed), ..self }
        } else {
            self
        }
    }

    /// The frame shows what the newest one shows.
    pub open spec fn repeats(self, frame: FrameModel) -> bool {
        self.latest matches Some(latest) && latest.shows_the_same(frame)
    }

    /// A frame that shows nothing new is only counted.
    pub open spec fn seen_again(self, resumed: bool) -> QueueModel {
        QueueModel {
            idle_queued: self.idle_queued || resumed,
            stats: CaptureStats {
                exact_duplicates: (self.stats.exact_duplicates + 1) as u64,
                ..self.stats
            },
            ..self
        }
    }

    /// The frame is the newest.
    pub open spec fn kept(self, frame: FrameModel) -> QueueModel {
        QueueModel { latest: Some(frame), ..self }
    }

    /// The frame waits behind all others.
    pub open spec fn pushed(self, frame: FrameModel) -> QueueModel {
        QueueModel {
            frames: self.frames.push(frame),
            idle_queued: true,
            stats: CaptureStats {
                enqueued: (self.stats.enqueued + 1) as u64,
                max_queue_depth: if self.stats.max_queue_depth < self.frames.len() + 1 {
                    (self.frames.len() + 1) as usize
                } else {
                    self.stats.max_queue_depth
                },
                ..self.stats
            },
            ..self
        }
    }

    /// The frame that has waited longest leaves.
    pub open spec fn popped(self) -> QueueModel {
        if self.frames.len() == 0 {
            self
        } else {
            QueueModel {
                frames: self.frames.drop_first(),
                stats: CaptureStats { dequeued: (self.stats.dequeued + 1) as u64, ..self.stats },
                ..self
            }
        }
    }

    /// The frame that has waited longest.
    pub open spec fn oldest(self) -> Option<FrameModel> {
        if self.frames.len() == 0 {
            None
        } else {
            Some(self.frames[0])
        }
    }
}

/// A frame that may be there, as a value.
pub open spec fn frame_model(frame: Option<CapturedFrame>) -> Option<FrameModel> {
    match frame {
        None => None,
        Some(f) => Some(f.model()),
    }
}

impl Queue {
    /// The queue as a value.
    pub open spec fn model(self) -> QueueModel {
        QueueModel {
            frames: self.frames@.map_values(|f: CapturedFrame| f.model()),
            latest: frame_model(self.latest),
            notice: self.notice,
            idle_queued: self.idle_queued,
            stats: self.stats,
        }
    }

    /// Nothing waits.
    pub fn new() -> (q: Queue)
        ensures
            q.model().wf(),
            q.model() == (QueueModel {
                frames: Seq::empty(),
                latest: None,
                notice: None,
                idle_queued: false,
                stats: CaptureStats::zero(),
            }),
    {
        let q = Queue {
            frames: VecDeque::new(),
            latest: None,
            notice: None,
            idle_queued: false,
            stats: CaptureStats::new(),
        };
        assert(q.model().frames =~= Seq::empty());
        q
    }

    fn push(&mut self, frame: CapturedFrame) -> (notify: bool)
        requires
            old(self).model().wf(),
            old(self).model().frames.len() < QUEUE_CAPACITY,
            forall|i: int|
                0 <= i < old(self).model().frames.len() ==> (#[trigger] old(
                    self,
                ).model().frames[i]).sequence < frame.sequence,
            frame.sequence <= old(self).stats.successful,
            old(self).stats.warmup_discarded + old(self).stats.exact_duplicates + old(
                self,
            ).stats.enqueued < old(self).stats.successful,
        ensures
            final(self).model() == old(self).model().pushed(frame.model()),
            final(self).model().wf(),
            notify == !old(self).idle_queued,
    {
        let ghost before = self.model();
        self.frames.push_back(frame);
        self.stats.enqueued = self.stats.enqueued + 1;
        let depth: usize = self.frames.len();
        if self.stats.max_queue_depth < depth {
            self.stats.max_queue_depth = depth;
        }
        let notify: bool = !self.idle_queued;
        self.idle_queued = true;
        assert(self.model().frames =~= before.frames.push(frame.model()));
        notify
    }

    fn pop(&mut self) -> (frame: Option<CapturedFrame>)
        requires
            old(self).model().wf(),
        ensures
            final(self).model() == old(self).model().popped(),
            final(self).model().wf(),
            frame_model(frame) == old(self).model().oldest(),
    {
        let ghost before = self.model();
        assert(before.frames.len() == self.frames@.len());
        let frame = self.frames.pop_front();
        match frame {
            None => {
                assert(self.model().frames =~= before.frames);
                None
            },
            Some(f) => {
                assert(before.frames[0] == f.model());
                self.stats.dequeued = self.stats.dequeued + 1;
                assert(self.model().frames =~= before.frames.drop_first());
                Some(f)
            },
        }
    }

    /// Takes the frame that has waited longest, and what there is to say, for the main loop.
    pub fn consume(&mut self) -> (r: (Option<CapturedFrame>, Option<CaptureNotice>))
        requires
            old(self).model().wf(),
        ensures
            final(self).model().wf(),
            final(self).model() == (QueueModel {
                idle_queued: false,
                notice: None,
                ..old(self).model().popped()
            }),
            frame_model(r.0) == old(self).model().oldest(),
            r.1 == old(self).notice,
    {
        self.idle_queued = false;
        let frame = self.pop();
        let notice = self.notice;
        self.notice = None;
        (frame, notice)
    }

    /// Whether the main loop has to come back: there is something to take, sampling goes on and no
    /// visit is due already. If so one is due now.
    pub fn more(&mut self, sampling: bool) -> (r: bool)
        ensures
            r == ((old(self).model().frames.len() > 0 || old(self).notice is Some) && !old(
                self,
            ).idle_queued && sampling),
            final(self).model() == (QueueModel {
                idle_queued: old(self).idle_queued || r,
                ..old(self).model()
            }),
    {
        assert(self.model().frames.len() == self.frames@.len());
        if (self.frames.len() == 0 && self.notice.is_none()) || self.idle_queued || !sampling {
            false
        } else {
            self.idle_queued = true;
            true
        }
    }

    /// Nobody comes for the frames any more.
    pub fn release(&mut self)
        ensures
            final(self).model() == (QueueModel { idle_queued: false, ..old(self).model() }),
    {
        self.idle_queued = false;
    }

    /// Takes the frame that has waited longest, at the end of a session.
    pub fn drain_next(&mut self) -> (frame: Option<CapturedFrame>)
        requires
            old(self).model().wf(),
        ensures
            final(self).model() == old(self).model().popped(),
            final(self).model().wf(),
            frame_model(frame) == old(self).model().oldest(),
    {
        self.pop()
    }
}

/// Takes the newest frame, if it is newer than the last one that was stitched. It is gone either
/// way.
pub fn take_unprocessed_latest(queue: &mut Queue, last_processed: u64) -> (frame: Option<
    CapturedFrame,
>)
    ensures
        frame_model(frame) == match old(queue).model().latest {
            Some(latest) => if latest.sequence > last_processed {
                Some(latest)
            } else {
                None
            },
            None => None,
        },
        final(queue).model() == (QueueModel { latest: None, ..old(queue).model() }),
{
    let latest = queue.latest.take();
    match latest {
        Some(f) => if f.sequence > last_processed {
            Some(f)
        } else {
            None
        },
        None => None,
    }
}

/// What the capture thread does next.
#[derive(Debug, Clone, Copy, PartialEq, Eq, Structural)]
pub enum Command {
    /// Grab the next frame.
    Grab,
    /// Wait for room in the queue.
    AwaitRoom,
    /// Wait for the usual time. The main loop is woken if `notify` says so.
    Rest { notify: bool },
    /// Wait before the next try. The main loop is woken if `notify` says so, and the failure is
    /// logged if `log` says so.
    Retry { notify: bool, log: bool },
    /// End.
    Stop,
}

/// The capture thread between two grabs.
pub struct Capture {
    /// The first frame of this backend is not used.
    pub discard_first: bool,
    /// The first grab is over.
    pub warm: bool,
    pub consecutive_failures: u32,
    /// A frame that waits for room in the queue.
    pub held: Option<CapturedFrame>,
}

/// One failure more.
pub open spec fn one_more(failures: u32) -> u32 {
    if failures == u32::MAX {
        u32::MAX
    } else {
        (failures + 1) as u32
    }
}

/// The failure is one that is logged: the first of a run and every tenth.
pub open spec fn is_logged(failures: u32) -> bool {
    failures == 1 || failures % 10 == 0
}

impl Capture {
    /// A frame that waits for room is newer than all in the queue, and was not counted as one that
    /// entered it.
    pub open spec fn agrees(self, queue: QueueModel) -> bool {
        self.held matches Some(held) ==> {
            &&& held.sequence <= queue.stats.successful
            &&& forall|i: int|
                0 <= i < queue.frames.len() ==> (#[trigger] queue.frames[i]).sequence
                    < held.sequence
            &&& queue.stats.warmup_discarded + queue.stats.exact_duplicates + queue.stats.enqueued
                < queue.stats.successful
        }
    }

    /// Before the first grab.
    pub fn new(discard_first: bool) -> (c: Capture)
        ensures
            c.discard_first == discard_first,
            !c.warm,
            c.consecutive_failures == 0,
            c.held is None,
    {
        Capture { discard_first, warm: false, consecutive_failures: 0, held: None }
    }

    /// What to do after a pause, or at the beginning.
    pub fn awake(&self, sampling: bool) -> (r: Command)
        ensures
            r == if sampling {
                Command::Grab
            } else {
                Command::Stop
            },
    {
        if sampling {
            Command::Grab
        } else {
            Command::Stop
        }
    }

    fn failed(&mut self, queue: &mut Queue, timed_out: bool) -> (r: Command)
        requires
            old(queue).stats.failures < u64::MAX,
        ensures
            final(self).consecutive_failures == one_more(old(self).consecutive_failures),
            final(self).warm,
            final(self).discard_first == old(self).discard_first,
            final(self).held == old(self).held,
            final(queue).model() == old(queue).model().failed(
                one_more(old(self).consecutive_failures),
                timed_out,
            ),
            r == (Command::Retry {
                notify: !old(queue).idle_queued,
                log: is_logged(one_more(old(self).consecutive_failures)),
            }),
    {
        self.warm = true;
        if self.consecutive_failures < u32::MAX {
            self.consecutive_failures = self.consecutive_failures + 1;
        }
        queue.stats.failures = queue.stats.failures + 1;
        queue.notice = Some(
            CaptureNotice::Retrying { consecutive: self.consecutive_failures, timed_out },
        );
        let notify: bool = !queue.idle_queued;
        queue.idle_queued = true;
        let log: bool = self.consecutive_failures == 1 || self.consecutive_failures % 10 == 0;
        Command::Retry { notify, log }
    }

    /// Takes the outcome of a grab. `sampling` says whether frames are still wanted, and `aborting`
    /// whether the grab was called off.
    ///
    /// A grab that was called off ends the thread. Any other failure is counted and reported, and
    /// tried again. The first frame of a backend that needs to warm up is not used. A frame that
    /// repeats the newest one is counted. Any other is now the newest, though frames are wanted no
    /// longer, and enters the queue if they still are, as soon as there is room.
    pub fn grabbed(
        &mut self,
        queue: &mut Queue,
        result: Result<Rgb8, CaptureError>,
        sampling: bool,
        aborting: bool,
    ) -> (r: Command)
        requires
            old(self).held is None,
            old(queue).model().wf(),
            old(queue).stats.successful < u64::MAX,
            old(queue).stats.failures < u64::MAX,
        ensures
            final(queue).model().wf(),
            final(self).agrees(final(queue).model()),
            final(self).discard_first == old(self).discard_first,
            match result {
                Err(error) => if error is Cancelled && (aborting || !sampling) {
                    &&& r == Command::Stop
                    &&& final(queue).model() == old(queue).model()
                    &&& *final(self) == *old(self)
                } else {
                    let failures = one_more(old(self).consecutive_failures);
                    &&& r == (Command::Retry {
                        notify: !old(queue).idle_queued,
                        log: is_logged(failures),
                    })
                    &&& final(queue).model() == old(queue).model().failed(
                        failures,
                        error is Timeout,
                    )
                    &&& final(self).warm
                    &&& final(self).consecutive_failures == failures
                    &&& final(self).held is None
                },
                Ok(image) => {
                    let frame = frame_of((old(queue).stats.successful + 1) as u64, image);
                    let counted = old(queue).model().counted();
                    let resumed = old(self).consecutive_failures > 0;
                    let told = counted.told(resumed);
                    &&& final(self).warm
                    &&& if !old(self).warm && old(self).discard_first {
                        &&& r == if sampling {
                            Command::Grab
                        } else {
                            Command::Stop
                        }
                        &&& final(queue).model() == counted.discarded()
                        &&& final(self).consecutive_failures == old(self).consecutive_failures
                        &&& final(self).held is None
                    } else {
                        &&& final(self).consecutive_failures == 0
                        &&& if told.repeats(frame) {
                            &&& r == (Command::Rest {
                                notify: resumed && !old(queue).idle_queued,
                            })
                            &&& final(queue).model() == told.seen_again(resumed)
                            &&& final(self).held is None
                        } else if !sampling {
                            &&& r == Command::Stop
                            &&& final(queue).model() == told.kept(frame)
                            &&& final(self).held is None
                        } else if told.frames.len() >= QUEUE_CAPACITY {
                            &&& r == Command::AwaitRoom
                            &&& final(queue).model() == told.kept(frame)
                            &&& frame_model(final(self).held) == Some(frame)
                        } else {
                            &&& r == (Command::Rest { notify: !old(queue).idle_queued })
                            &&& final(queue).model() == told.kept(frame).pushed(frame)
                            &&& final(self).held is None
                        }
                    }
                },
            },
    {
        let image: Rgb8 = match result {
            Err(error) => {
                match error {
                    CaptureError::Cancelled => {
                        if aborting || !sampling {
                            return Command::Stop;
                        }
                        return self.failed(queue, false);
                    },
                    CaptureError::Timeout => return self.failed(queue, true),
                    _ => return self.failed(queue, false),
                }
            },
            Ok(image) => image,
        };
        let ghost before = queue.model();
        queue.stats.successful = queue.stats.successful + 1;
        let frame = CapturedFrame { sequence: queue.stats.successful, image };
        let ghost model = frame.model();
        assert(queue.model() == before.counted());
        let first: bool = !self.warm;
        self.warm = true;
        if first && self.discard_first {
            queue.stats.warmup_discarded = queue.stats.warmup_discarded + 1;
            return self.awake(sampling);
        }
        let resumed: bool = self.consecutive_failures > 0;
        self.consecutive_failures = 0;
        if resumed {
            queue.notice = Some(CaptureNotice::Resumed);
        }
        assert(queue.model() == before.counted().told(resumed));
        let repeats: bool = match &queue.latest {
            Some(latest) => same_picture(&latest.image, &frame.image),
            None => false,
        };
        if repeats {
            queue.stats.exact_duplicates = queue.stats.exact_duplicates + 1;
            let notify: bool = resumed && !queue.idle_queued;
            if notify {
                queue.idle_queued = true;
            }
            return Command::Rest { notify };
        }
        queue.latest = Some(frame.copy());
        assert(queue.model().frames.len() == queue.frames@.len());
        if !sampling {
            return Command::Stop;
        }
        if queue.frames.len() >= QUEUE_CAPACITY {
            self.held = Some(frame);
            return Command::AwaitRoom;
        }
        let notify: bool = queue.push(frame);
        Command::Rest { notify }
    }

    /// Looks for room again, for a frame that waits for it.
    pub fn room(&mut self, queue: &mut Queue, sampling: bool) -> (r: Command)
        requires
            old(self).held is Some,
            old(queue).model().wf(),
            old(self).agrees(old(queue).model()),
        ensures
            final(queue).model().wf(),
            final(self).agrees(final(queue).model()),
            final(self).discard_first == old(self).discard_first,
            final(self).warm == old(self).warm,
            final(self).consecutive_failures == old(self).consecutive_failures,
            if !sampling {
                &&& r == Command::Stop
                &&& final(queue).model() == old(queue).model()
                &&& final(self).held is None
            } else if old(queue).model().frames.len() >= QUEUE_CAPACITY {
                &&& r == Command::AwaitRoom
                &&& final(queue).model() == old(queue).model()
                &&& final(self).held == old(self).held
            } else {
                &&& r == (Command::Rest { notify: !old(queue).idle_queued })
                &&& final(queue).model() == old(queue).model().pushed((old(self).held->0).model())
                &&& final(self).held is None
            },
    {
        assert(queue.model().frames.len() == queue.frames@.len());
        if sampling && queue.frames.len() >= QUEUE_CAPACITY {
            return Command::AwaitRoom;
        }
        let held = self.held.take();
        if !sampling {
            return Command::Stop;
        }
        match held {
            Some(frame) => {
                let notify: bool = queue.push(frame);
                Command::Rest { notify }
            },
            None => Command::Stop,
        }
    }
}

/// A frame that waits for room still may once the main loop has taken others.
pub proof fn taking_frames_keeps_the_held_one(capture: Capture, queue: QueueModel)
    requires
        queue.wf(),
        capture.agrees(queue),
    ensures
        capture.agrees(queue.popped()),
        queue.popped().wf(),
{
    if queue.frames.len() > 0 {
        let rest = queue.frames.drop_first();
        assert forall|i: int| 0 <= i < rest.len() implies #[trigger] rest[i] == queue.frames[i
            + 1] by {}
    }
}

/// Every frame that is still to be stitched is newer than the one that was stitched last: those in
/// the queue, and `held`, which waits to enter it.
pub open spec fn is_ahead(queue: QueueModel, held: Option<FrameModel>, last: u64) -> bool {
    &&& last <= queue.stats.successful
    &&& forall|i: int|
        0 <= i < queue.frames.len() ==> (#[trigger] queue.frames[i]).sequence > last
    &&& held matches Some(h) ==> h.sequence > last && forall|i: int|
        0 <= i < queue.frames.len() ==> (#[trigger] queue.frames[i]).sequence < h.sequence
}

/// No frame of the queue is skipped and none is stitched twice: the one that leaves the queue is
/// newer than the last one that was stitched, and once it was stitched the same holds of the rest.
pub proof fn the_oldest_frame_is_next(queue: QueueModel, held: Option<FrameModel>, last: u64)
    requires
        queue.wf(),
        is_ahead(queue, held, last),
        queue.frames.len() > 0,
    ensures
        queue.frames[0].sequence > last,
        is_ahead(queue.popped(), held, queue.frames[0].sequence),
{
    let rest = queue.frames.drop_first();
    assert forall|i: int| 0 <= i < rest.len() implies #[trigger] rest[i] == queue.frames[i + 1] by {}
}

/// The capture thread keeps all that is to be stitched ahead of what was: a new frame is newer than
/// every other, whether it enters the queue at once, waits for room or is left out.
pub proof fn a_new_frame_is_ahead(queue: QueueModel, last: u64, image: Rgb8)
    requires
        queue.wf(),
        queue.stats.successful < u64::MAX,
        is_ahead(queue, None, last),
    ensures
        ({
            let frame = frame_of((queue.stats.successful + 1) as u64, image);
            &&& is_ahead(queue.counted(), Some(frame), last)
            &&& is_ahead(queue.counted().pushed(frame), None, last)
        }),
{
}

/// A frame that waited for room enters the queue behind all others, still ahead of what was
/// stitched.
pub proof fn a_held_frame_enters_ahead(queue: QueueModel, held: FrameModel, last: u64)
    requires
        queue.wf(),
        is_ahead(queue, Some(held), last),
    ensures
        is_ahead(queue.pushed(held), None, last),
{
}

/// A picture that is new and finds an empty queue while sampling is what is taken from it next, with
/// its number: one more than the frames before.
pub proof fn a_new_picture_is_handed_on(
    c: &mut Capture,
    q: &mut Queue,
    image: Rgb8,
    r: Command,
    p: &mut Queue,
    taken: (Option<CapturedFrame>, Option<CaptureNotice>),
)
    requires
        old(c).held is None,
        old(c).warm || !old(c).discard_first,
        old(q).model().wf(),
        old(q).frames@.len() == 0,
        old(q).latest is None,
        call_ensures(
            Capture::grabbed,
            (c, q, Ok::<Rgb8, CaptureError>(image), true, false),
            r,
        ),
        *old(p) == *final(q),
        old(q).stats.successful < u64::MAX,
        call_ensures(Queue::consume, (p,), taken),
    ensures
        r is Rest,
        taken.0 matches Some(frame) && frame.image.data@ == image.data@ && frame.image.width
            == image.width && frame.image.height == image.height && frame.sequence == old(
            q,
        ).stats.successful + 1,
        final(p).frames@.len() == 0,
{
    assert(old(q).model().frames.len() == 0);
    let frames = final(q).model().frames;
    assert(frames.len() == 1);
    assert(final(p).model().frames.len() == 0);
}

/// A picture like the one before is not queued again; it is only counted.
pub proof fn a_repeated_picture_is_not_queued(
    c: &mut Capture,
    q: &mut Queue,
    image: Rgb8,
    sampling: bool,
    aborting: bool,
    r: Command,
)
    requires
        old(c).held is None,
        old(c).warm || !old(c).discard_first,
        old(q).model().wf(),
        old(q).stats.successful < u64::MAX,
        old(q).latest is Some,
        (old(q).latest->0).image.data@ == image.data@,
        (old(q).latest->0).image.width == image.width,
        (old(q).latest->0).image.height == image.height,
        call_ensures(
            Capture::grabbed,
            (c, q, Ok::<Rgb8, CaptureError>(image), sampling, aborting),
            r,
        ),
    ensures
        r is Rest,
        final(q).frames@.len() == old(q).frames@.len(),
        final(q).stats.exact_duplicates == old(q).stats.exact_duplicates + 1,
        final(q).stats.enqueued == old(q).stats.enqueued,
        final(c).consecutive_failures == 0,
{
    assert(final(q).model().frames.len() == final(q).frames@.len());
    assert(old(q).model().frames.len() == old(q).frames@.len());
}

/// A picture that differs from the one before is queued while sampling, as the last one, unless the
/// queue is full; in that case it waits.
pub proof fn a_new_picture_is_queued_last(
    c: &mut Capture,
    q: &mut Queue,
    image: Rgb8,
    aborting: bool,
    r: Command,
)
    requires
        old(c).held is None,
        old(c).warm || !old(c).discard_first,
        old(q).model().wf(),
        old(q).stats.successful < u64::MAX,
        old(q).latest matches Some(l) ==> l.image.data@ != image.data@,
        call_ensures(
            Capture::grabbed,
            (c, q, Ok::<Rgb8, CaptureError>(image), true, aborting),
            r,
        ),
    ensures
        old(q).frames@.len() < 48 ==> {
            &&& r is Rest
            &&& final(q).frames@.len() == old(q).frames@.len() + 1
            &&& final(q).frames@.last().image.data@ == image.data@
            &&& final(c).held is None
        },
        old(q).frames@.len() >= 48 ==> {
            &&& r is AwaitRoom
            &&& final(q).frames@.len() == old(q).frames@.len()
            &&& final(c).held matches Some(h) && h.image.data@ == image.data@
        },
        final(q).latest matches Some(l) && l.image.data@ == image.data@,
        final(q).stats.successful == old(q).stats.successful + 1,
{
    let (a, b) = (old(q).model().frames, final(q).model().frames);
    assert(a.len() == old(q).frames@.len() && b.len() == final(q).frames@.len());
    if old(q).frames@.len() < 48 {
        assert(b[b.len() - 1] == final(q).frames@[b.len() - 1].model());
    }
}

/// A picture that waits enters the queue as soon as there is room, as the last one. Without sampling
/// it is given up.
pub proof fn a_waiting_picture_enters(c: &mut Capture, q: &mut Queue, sampling: bool, r: Command)
    requires
        old(c).held is Some,
        old(q).model().wf(),
        old(c).agrees(old(q).model()),
        call_ensures(Capture::room, (c, q, sampling), r),
    ensures
        sampling && old(q).frames@.len() < 48 ==> {
            &&& r is Rest
            &&& final(q).frames@.len() == old(q).frames@.len() + 1
            &&& final(q).frames@.last().sequence == (old(c).held->0).sequence
            &&& final(q).frames@.last().image.data@ == (old(c).held->0).image.data@
            &&& final(c).held is None
        },
        sampling && old(q).frames@.len() >= 48 ==> r is AwaitRoom && final(c).held == old(c).held,
        !sampling ==> r is Stop && final(q).frames@.len() == old(q).frames@.len(),
{
    let (a, b) = (old(q).model().frames, final(q).model().frames);
    assert(a.len() == old(q).frames@.len() && b.len() == final(q).frames@.len());
    if sampling && old(q).frames@.len() < 48 {
        assert(b[b.len() - 1] == final(q).frames@[b.len() - 1].model());
    }
}

/// The first picture of a source that shows its own overlay is thrown away, and only that one.
pub proof fn only_the_first_picture_is_thrown_away(
    c: &mut Capture,
    q: &mut Queue,
    image: Rgb8,
    sampling: bool,
    aborting: bool,
    r: Command,
)
    requires
        old(c).held is None,
        old(q).model().wf(),
        old(q).stats.successful < u64::MAX,
        call_ensures(
            Capture::grabbed,
            (c, q, Ok::<Rgb8, CaptureError>(image), sampling, aborting),
            r,
        ),
    ensures
        final(c).warm,
        final(q).stats.warmup_discarded == old(q).stats.warmup_discarded + if !old(c).warm && old(
            c,
        ).discard_first {
            1int
        } else {
            0
        },
        !old(c).warm && old(c).discard_first ==> final(q).frames@.len() == old(q).frames@.len()
            && final(q).latest is Some == old(q).latest is Some,
{
    assert(final(q).model().frames.len() == final(q).frames@.len());
    assert(old(q).model().frames.len() == old(q).frames@.len());
}

/// Failures in a row are counted and told, and no picture gets lost by them. A picture ends the row.
/// Only a cancellation that was asked for stops the capture.
pub proof fn failures_are_counted(
    c: &mut Capture,
    q: &mut Queue,
    error: CaptureError,
    sampling: bool,
    aborting: bool,
    r: Command,
)
    requires
        old(c).held is None,
        old(q).model().wf(),
        old(q).stats.successful < u64::MAX,
        old(q).stats.failures < u64::MAX,
        call_ensures(
            Capture::grabbed,
            (c, q, Err::<Rgb8, CaptureError>(error), sampling, aborting),
            r,
        ),
    ensures
        r is Stop <==> error is Cancelled && (aborting || !sampling),
        final(q).frames@.len() == old(q).frames@.len(),
        !(r is Stop) ==> {
            &&& final(q).stats.failures == old(q).stats.failures + 1
            &&& old(c).consecutive_failures < u32::MAX ==> final(c).consecutive_failures == old(
                c,
            ).consecutive_failures + 1
            &&& final(q).notice == Some(
                CaptureNotice::Retrying {
                    consecutive: final(c).consecutive_failures,
                    timed_out: error is Timeout,
                },
            )
            &&& r matches Command::Retry { notify, log } && (log <==> final(c).consecutive_failures
                == 1 || final(c).consecutive_failures % 10 == 0)
        },
{
    assert(final(q).model().frames.len() == final(q).frames@.len());
    assert(old(q).model().frames.len() == old(q).frames@.len());
}

/// Frames leave the queue in the order of their numbers, oldest first, one at a time.
pub proof fn frames_leave_in_order(
    q: &mut Queue,
    r: (Option<CapturedFrame>, Option<CaptureNotice>),
    p: &mut Queue,
    s: Option<CapturedFrame>,
)
    requires
        old(q).model().wf(),
        call_ensures(Queue::consume, (q,), r),
        *old(p) == *final(q),
        call_ensures(Queue::drain_next, (p,), s),
    ensures
        r.0 is None <==> old(q).frames@.len() == 0,
        s is None <==> old(q).frames@.len() <= 1,
        r.0 is Some && s is Some ==> (r.0->0).sequence < (s->0).sequence,
        r.0 matches Some(f) ==> f.image.data@ == old(q).frames@[0].image.data@,
        s matches Some(f) ==> f.image.data@ == old(q).frames@[1].image.data@,
        r.1 == old(q).notice,
        final(q).notice is None,
{
    let a = old(q).model().frames;
    let b = final(q).model().frames;
    assert(a.len() == old(q).frames@.len() && b.len() == final(q).frames@.len());
    if a.len() > 0 {
        assert(a[0] == old(q).frames@[0].model());
    }
    if a.len() > 1 {
        assert(a[1] == old(q).frames@[1].model());
        assert(b[0] == a[1]);
        assert(a[0].sequence < a[1].sequence);
    }
}

/// At the end the last picture is taken if it was not processed yet, and only once.
pub proof fn the_last_picture_is_taken_once(
    q: &mut Queue,
    last: u64,
    r: Option<CapturedFrame>,
    p: &mut Queue,
    other: u64,
    s: Option<CapturedFrame>,
)
    requires
        call_ensures(take_unprocessed_latest, (q, last), r),
        *old(p) == *final(q),
        call_ensures(take_unprocessed_latest, (p, other), s),
    ensures
        r is Some <==> (old(q).latest matches Some(l) && l.sequence > last),
        r is Some ==> (r->0).sequence == (old(q).latest->0).sequence && (r->0).image.data@ == (old(
            q,
        ).latest->0).image.data@,
        s is None,
{
}

/// The consumer is called again exactly if there is something for it, nobody called it yet, and
/// sampling goes on.
pub proof fn the_consumer_is_called_once(q: &mut Queue, sampling: bool, r: bool, p: &mut Queue, s: bool)
    requires
        call_ensures(Queue::more, (q, sampling), r),
        *old(p) == *final(q),
        call_ensures(Queue::more, (p, sampling), s),
    ensures
        r <==> (old(q).frames@.len() > 0 || old(q).notice is Some) && !old(q).idle_queued
            && sampling,
        r ==> !s,
{
    assert(old(q).model().frames.len() == old(q).frames@.len());
}

/// A capture ended before its first picture exactly if nothing failed and nothing but the first
/// picture that is thrown away came.
pub proof fn nothing_was_captured(stats: CaptureStats, r: bool)
    requires
        call_ensures(CaptureStats::ended_before_the_first_stitched_frame, (stats,), r),
    ensures
        r <==> stats.failures == 0 && stats.successful == stats.warmup_discarded,
{
}

/// A capture that wakes up goes on only while sampling does.
pub proof fn a_capture_goes_on_while_sampling(c: &Capture, sampling: bool, r: Command)
    requires
        call_ensures(Capture::awake, (c, sampling), r),
    ensures
        r is Grab <==> sampling,
        r is Stop <==> !sampling,
{
}

} // verus!
