//! The loop in which the dump display consumes frames.
//!
//! [`Consumer`] decides; its caller receives the messages, keeps the
//! descriptors, imports the frames and signals the release syncobjs, and
//! reports what came of each.
use crate::display_proto::{BindBuffers, Event, Received};
use crate::dump::Frame;
use vstd::prelude::*;

verus! {

/// The buffers that frames come in at present.
#[derive(Debug)]
pub struct BoundPool {
    pub fourcc: u32,
    pub modifier: u64,
    pub width: u32,
    pub height: u32,
    pub stride: Vec<u32>,
    pub plane_offset: Vec<u32>,
    pub size: Vec<u64>,
    pub fd_count: usize,
}

/// [`BoundPool`] over sequences.
pub struct PoolView {
    pub fourcc: u32,
    pub modifier: u64,
    pub width: u32,
    pub height: u32,
    pub stride: Seq<u32>,
    pub plane_offset: Seq<u32>,
    pub size: Seq<u64>,
    pub fd_count: int,
}

impl View for BoundPool {
    type V = PoolView;

    open spec fn view(&self) -> PoolView {
        PoolView {
            fourcc: self.fourcc,
            modifier: self.modifier,
            width: self.width,
            height: self.height,
            stride: self.stride@,
            plane_offset: self.plane_offset@,
            size: self.size@,
            fd_count: self.fd_count as int,
        }
    }
}

impl PoolView {
    /// Whether the layout of a buffer was given.
    pub open spec fn has_layout(self, index: u32) -> bool {
        &&& index < self.stride.len()
        &&& index < self.plane_offset.len()
        &&& index < self.size.len()
    }

    /// The frame that a buffer holds.
    pub open spec fn frame(self, index: u32, seq: u64) -> Frame {
        Frame {
            fourcc: self.fourcc,
            modifier: self.modifier,
            width: self.width,
            height: self.height,
            stride: self.stride[index as int],
            plane_offset: self.plane_offset[index as int],
            size: self.size[index as int],
            seq,
        }
    }
}

/// What to do next. [`descriptor`] says which descriptor of the last message a
/// step is about.
#[derive(Debug, Clone, PartialEq, Eq)]
pub enum ConsumerStep {
    /// Receive a message.
    Receive,
    /// Keep the descriptors of the last message as the pool, in place of an
    /// earlier one, and then receive a message.
    KeepAndReceive,
    /// Wait for the acquire fence and read the frame back from this buffer of
    /// the pool.
    ReadBack { index: u32, frame: Frame },
    /// Signal the release syncobj of the last message.
    Release,
    Done,
    Failed { error: ConsumerError },
}

/// Why consuming frames failed.
#[derive(Debug, Clone, PartialEq, Eq)]
pub enum ConsumerError {
    Receive,
    /// A pool came with another number of descriptors than it announced.
    PoolFds { expected: u64, got: usize, count: u32, planes_per_buffer: u32 },
    /// A frame did not come with one acquire and one release descriptor.
    FrameFds { got: usize },
    FrameWithoutPool,
    OutOfPool { index: u32, pool: usize },
    /// The daemon reported an error, in these words.
    Daemon { code: u32, message: String },
    ReadBack,
    Release,
}

/// Which descriptor of the message that brought a frame a step is about: the
/// first is the acquire fence, the second the release syncobj.
pub open spec fn descriptor_of(step: ConsumerStep) -> Option<usize> {
    match step {
        ConsumerStep::ReadBack { .. } => Some(0usize),
        ConsumerStep::Release => Some(1usize),
        _ => None,
    }
}

/// Tells [`descriptor_of`] a step.
pub fn descriptor(step: &ConsumerStep) -> (at: Option<usize>)
    ensures
        at == descriptor_of(*step),
{
    match step {
        ConsumerStep::ReadBack { .. } => Some(0),
        ConsumerStep::Release => Some(1),
        _ => None,
    }
}

/// [`Consumer`] in a contract.
pub struct ConsumerView {
    /// How many frames are wanted.
    pub frames: u32,
    /// Whether frames are read back.
    pub dumping: bool,
    pub pool: Option<PoolView>,
    /// How many frames were consumed.
    pub seen: u32,
    /// Whether the frame at hand could not be read back.
    pub read_failed: bool,
    pub step: ConsumerStep,
}

/// How many descriptors a pool has to come with.
pub open spec fn expected_fds(bind: BindBuffers) -> int {
    bind.count * bind.planes_per_buffer
}

/// The pool that a message binds.
pub open spec fn bound(bind: BindBuffers, fd_count: usize) -> PoolView {
    PoolView {
        fourcc: bind.fourcc,
        modifier: bind.modifier,
        width: bind.width,
        height: bind.height,
        stride: bind.stride@,
        plane_offset: bind.plane_offset@,
        size: bind.size@,
        fd_count: fd_count as int,
    }
}

impl ConsumerView {
    pub open spec fn to(self, step: ConsumerStep) -> ConsumerView {
        ConsumerView { step, ..self }
    }

    pub open spec fn fail(self, error: ConsumerError) -> ConsumerView {
        self.to(ConsumerStep::Failed { error })
    }

    /// On to the next message, unless enough frames were consumed.
    pub open spec fn look(self) -> ConsumerView {
        self.to(
            if self.seen < self.frames {
                ConsumerStep::Receive
            } else {
                ConsumerStep::Done
            },
        )
    }

    pub open spec fn receiving(self) -> bool {
        self.step is Receive || self.step is KeepAndReceive
    }

    /// What a frame leads to.
    pub open spec fn on_frame(self, index: u32, seq: u64, fd_count: usize) -> ConsumerView {
        if fd_count != 2 {
            self.fail(ConsumerError::FrameFds { got: fd_count })
        } else {
            match self.pool {
                None => self.fail(ConsumerError::FrameWithoutPool),
                Some(pool) => if index >= pool.fd_count {
                    self.fail(ConsumerError::OutOfPool { index, pool: pool.fd_count as usize })
                } else if self.dumping {
                    self.to(ConsumerStep::ReadBack { index, frame: pool.frame(index, seq) })
                } else {
                    self.to(ConsumerStep::Release)
                },
            }
        }
    }

    /// What a message leads to, or that none came.
    pub open spec fn on_message(self, message: Option<Received>) -> ConsumerView {
        match message {
            None => self.fail(ConsumerError::Receive),
            Some(m) => match m.event {
                Event::BindBuffers(bind) => if m.fd_count != expected_fds(bind) {
                    self.fail(
                        ConsumerError::PoolFds {
                            expected: expected_fds(bind) as u64,
                            got: m.fd_count,
                            count: bind.count,
                            planes_per_buffer: bind.planes_per_buffer,
                        },
                    )
                } else {
                    ConsumerView {
                        pool: Some(bound(bind, m.fd_count)),
                        step: ConsumerStep::KeepAndReceive,
                        ..self
                    }
                },
                Event::FrameReady { buffer_index, seq } => self.on_frame(
                    buffer_index,
                    seq,
                    m.fd_count,
                ),
                Event::Error { code, message } => self.fail(
                    ConsumerError::Daemon { code, message },
                ),
                Event::Bye => self.to(ConsumerStep::Done),
                _ => self.to(ConsumerStep::Receive),
            },
        }
    }

    /// What the outcome of a reading leads to: either way the release is due.
    pub open spec fn on_read_back(self, ok: bool) -> ConsumerView {
        ConsumerView { read_failed: !ok, step: ConsumerStep::Release, ..self }
    }

    /// What the outcome of a release leads to. After a failed reading it does
    /// not matter.
    pub open spec fn on_release(self, ok: bool) -> ConsumerView {
        if self.read_failed {
            self.fail(ConsumerError::ReadBack)
        } else if !ok {
            self.fail(ConsumerError::Release)
        } else {
            (ConsumerView { seen: (self.seen + 1) as u32, ..self }).look()
        }
    }

    /// No message asks for a buffer whose layout was never given.
    pub open spec fn layout_known(self, message: Option<Received>) -> bool {
        match message {
            Some(m) => match m.event {
                Event::FrameReady { buffer_index, seq } => self.on_frame(
                    buffer_index,
                    seq,
                    m.fd_count,
                ).step is ReadBack ==> self.pool->0.has_layout(buffer_index),
                _ => true,
            },
            None => true,
        }
    }

    /// Frames are counted no further than wanted, more are wanted while the
    /// loop goes on, and only a frame at hand can have failed.
    pub open spec fn wf(self) -> bool {
        &&& self.seen <= self.frames
        &&& self.receiving() || self.step is ReadBack || self.step is Release ==> self.seen
            < self.frames
        &&& self.receiving() || self.step is ReadBack ==> !self.read_failed
        &&& self.step is ReadBack ==> self.dumping
        &&& (match self.step {
            ConsumerStep::ReadBack { index, frame } => {
                &&& self.pool is Some
                &&& index < self.pool->0.fd_count
            },
            ConsumerStep::Release => self.pool is Some,
            ConsumerStep::KeepAndReceive => self.pool is Some,
            _ => true,
        })
    }
}

/// Where a run over frames begins.
pub open spec fn first_state(frames: u32, dumping: bool) -> ConsumerView {
    (ConsumerView {
        frames,
        dumping,
        pool: None,
        seen: 0,
        read_failed: false,
        step: ConsumerStep::Receive,
    }).look()
}

/// A run over frames.
#[derive(Debug)]
pub struct Consumer {
    frames: u32,
    dumping: bool,
    pool: Option<BoundPool>,
    seen: u32,
    read_failed: bool,
    step: ConsumerStep,
}

impl View for Consumer {
    type V = ConsumerView;

    closed spec fn view(&self) -> ConsumerView {
        ConsumerView {
            frames: self.frames,
            dumping: self.dumping,
            pool: match self.pool {
                Some(p) => Some(p@),
                None => None,
            },
            seen: self.seen,
            read_failed: self.read_failed,
            step: self.step,
        }
    }
}

impl Consumer {
    /// Begins to consume `frames` frames; they are read back if `dumping`.
    pub fn begin(frames: u32, dumping: bool) -> (c: Self)
        ensures
            c@ == first_state(frames, dumping),
            c@.wf(),
    {
        Consumer {
            frames,
            dumping,
            pool: None,
            seen: 0,
            read_failed: false,
            step: if 0 < frames {
                ConsumerStep::Receive
            } else {
                ConsumerStep::Done
            },
        }
    }

    pub fn step(&self) -> (step: &ConsumerStep)
        ensures
            *step == self@.step,
    {
        &self.step
    }

    /// How many frames were consumed.
    pub fn frames_seen(&self) -> (n: u32)
        ensures
            n == self@.seen,
    {
        self.seen
    }

    /// Whether a message asks for no buffer whose layout was never given.
    pub fn knows_layout(&self, message: &Option<Received>) -> (known: bool)
        ensures
            known == self@.layout_known(*message),
    {
        match message {
            Some(m) => match &m.event {
                Event::FrameReady { buffer_index, seq: _ } => {
                    if m.fd_count != 2 || !self.dumping {
                        return true;
                    }
                    match &self.pool {
                        None => true,
                        Some(p) => {
                            let index: u64 = *buffer_index as u64;
                            index >= p.fd_count as u64 || (index < p.stride.len() as u64 && index
                                < p.plane_offset.len() as u64 && index < p.size.len() as u64)
                        },
                    }
                },
                _ => true,
            },
            None => true,
        }
    }

    fn frame_step(&self, index: u32, seq: u64, fd_count: usize) -> (step: ConsumerStep)
        requires
            self@.on_frame(index, seq, fd_count).step is ReadBack ==> self@.pool->0.has_layout(
                index,
            ),
        ensures
            step == self@.on_frame(index, seq, fd_count).step,
    {
        if fd_count != 2 {
            return ConsumerStep::Failed { error: ConsumerError::FrameFds { got: fd_count } };
        }
        match &self.pool {
            None => ConsumerStep::Failed { error: ConsumerError::FrameWithoutPool },
            Some(p) => {
                if index as u64 >= p.fd_count as u64 {
                    return ConsumerStep::Failed {
                        error: ConsumerError::OutOfPool { index, pool: p.fd_count },
                    };
                }
                if !self.dumping {
                    return ConsumerStep::Release;
                }
                assert(p@.has_layout(index));
                let i: usize = index as usize;
                ConsumerStep::ReadBack {
                    index,
                    frame: Frame {
                        fourcc: p.fourcc,
                        modifier: p.modifier,
                        width: p.width,
                        height: p.height,
                        stride: p.stride[i],
                        plane_offset: p.plane_offset[i],
                        size: p.size[i],
                        seq,
                    },
                }
            },
        }
    }

    /// Goes on after a message was received, or none could be.
    pub fn received(&mut self, message: Option<Received>)
        requires
            old(self)@.wf(),
            old(self)@.receiving(),
            old(self)@.layout_known(message),
        ensures
            final(self)@ == old(self)@.on_message(message),
            final(self)@.wf(),
    {
        match message {
            None => {
                self.step = ConsumerStep::Failed { error: ConsumerError::Receive };
            },
            Some(m) => match m.event {
                Event::BindBuffers(bind) => {
                    proof {
                        assert(0 <= bind.count * bind.planes_per_buffer <= 0xffff_ffff
                            * 0xffff_ffff) by (nonlinear_arith)
                            requires
                                0 <= bind.count <= 0xffff_ffff,
                                0 <= bind.planes_per_buffer <= 0xffff_ffff,
                        ;
                    }
                    let expected: u64 = bind.count as u64 * bind.planes_per_buffer as u64;
                    if m.fd_count as u64 != expected {
                        self.step = ConsumerStep::Failed {
                            error: ConsumerError::PoolFds {
                                expected,
                                got: m.fd_count,
                                count: bind.count,
                                planes_per_buffer: bind.planes_per_buffer,
                            },
                        };
                    } else {
                        self.pool = Some(
                            BoundPool {
                                fourcc: bind.fourcc,
                                modifier: bind.modifier,
                                width: bind.width,
                                height: bind.height,
                                stride: bind.stride,
                                plane_offset: bind.plane_offset,
                                size: bind.size,
                                fd_count: m.fd_count,
                            },
                        );
                        self.step = ConsumerStep::KeepAndReceive;
                    }
                },
                Event::FrameReady { buffer_index, seq } => {
                    self.step = self.frame_step(buffer_index, seq, m.fd_count);
                },
                Event::Error { code, message } => {
                    self.step = ConsumerStep::Failed {
                        error: ConsumerError::Daemon { code, message },
                    };
                },
                Event::Bye => {
                    self.step = ConsumerStep::Done;
                },
                _ => {
                    self.step = ConsumerStep::Receive;
                },
            },
        }
    }

    /// Goes on after the frame at hand was read back, or could not be.
    pub fn read_back(&mut self, ok: bool)
        requires
            old(self)@.wf(),
            old(self)@.step is ReadBack,
        ensures
            final(self)@ == old(self)@.on_read_back(ok),
            final(self)@.wf(),
    {
        self.read_failed = !ok;
        self.step = ConsumerStep::Release;
    }

    /// Goes on after the release syncobj was signalled, or could not be.
    pub fn released(&mut self, ok: bool)
        requires
            old(self)@.wf(),
            old(self)@.step is Release,
        ensures
            final(self)@ == old(self)@.on_release(ok),
            final(self)@.wf(),
    {
        if self.read_failed {
            self.step = ConsumerStep::Failed { error: ConsumerError::ReadBack };
        } else if !ok {
            self.step = ConsumerStep::Failed { error: ConsumerError::Release };
        } else {
            self.seen = self.seen + 1;
            self.step = if self.seen < self.frames {
                ConsumerStep::Receive
            } else {
                ConsumerStep::Done
            };
        }
    }
}

// ---------------------------------------------------------------------------
// Laws
// ---------------------------------------------------------------------------

/// What a caller reports.
pub enum ConsumerInput {
    Message(Option<Received>),
    ReadBack(bool),
    Release(bool),
}

impl ConsumerView {
    /// The state after a report; one that was not asked for changes nothing.
    pub open spec fn after(self, input: ConsumerInput) -> ConsumerView {
        match input {
            ConsumerInput::Message(message) => if self.receiving() {
                self.on_message(message)
            } else {
                self
            },
            ConsumerInput::ReadBack(ok) => if self.step is ReadBack {
                self.on_read_back(ok)
            } else {
                self
            },
            ConsumerInput::Release(ok) => if self.step is Release {
                self.on_release(ok)
            } else {
                self
            },
        }
    }

    /// Whether a frame is at hand.
    pub open spec fn holds_frame(self) -> bool {
        self.step is ReadBack || self.step is Release
    }

    /// Whether a report brings a frame.
    pub open spec fn takes_frame(self, input: ConsumerInput) -> bool {
        self.receiving() && self.after(input).holds_frame()
    }

    /// Whether a report says that the release syncobj was dealt with.
    pub open spec fn lets_go(self, input: ConsumerInput) -> bool {
        self.step is Release && input is Release
    }
}

/// The state after all reports.
pub open spec fn run(frames: u32, dumping: bool, inputs: Seq<ConsumerInput>) -> ConsumerView
    decreases inputs.len(),
{
    if inputs.len() == 0 {
        first_state(frames, dumping)
    } else {
        run(frames, dumping, inputs.drop_last()).after(inputs.last())
    }
}

/// How many frames were taken up.
pub open spec fn frames_taken(frames: u32, dumping: bool, inputs: Seq<ConsumerInput>) -> nat
    decreases inputs.len(),
{
    if inputs.len() == 0 {
        0
    } else {
        let head = inputs.drop_last();
        frames_taken(frames, dumping, head) + if run(frames, dumping, head).takes_frame(
            inputs.last(),
        ) {
            1nat
        } else {
            0nat
        }
    }
}

/// How many times the release syncobj was signalled, or that was tried.
pub open spec fn releases_tried(frames: u32, dumping: bool, inputs: Seq<ConsumerInput>) -> nat
    decreases inputs.len(),
{
    if inputs.len() == 0 {
        0
    } else {
        let head = inputs.drop_last();
        releases_tried(frames, dumping, head) + if run(frames, dumping, head).lets_go(
            inputs.last(),
        ) {
            1nat
        } else {
            0nat
        }
    }
}

/// Every frame that was taken up is released once, also where it could not be
/// read back: a run that is over has released as many frames as it took up,
/// and one that goes on holds at most one that it still has to release.
pub proof fn law_every_frame_is_released(
    frames: u32,
    dumping: bool,
    inputs: Seq<ConsumerInput>,
)
    ensures
        frames_taken(frames, dumping, inputs) == releases_tried(frames, dumping, inputs) + if run(
            frames,
            dumping,
            inputs,
        ).holds_frame() {
            1nat
        } else {
            0nat
        },
    decreases inputs.len(),
{
    if inputs.len() > 0 {
        law_every_frame_is_released(frames, dumping, inputs.drop_last());
    }
}

/// Every state that a run reaches is sound; in particular no more frames are
/// counted than were wanted, and while messages are received more are wanted.
pub proof fn law_run_stays_sound(frames: u32, dumping: bool, inputs: Seq<ConsumerInput>)
    ensures
        run(frames, dumping, inputs).wf(),
        run(frames, dumping, inputs).frames == frames,
        run(frames, dumping, inputs).dumping == dumping,
    decreases inputs.len(),
{
    if inputs.len() > 0 {
        law_run_stays_sound(frames, dumping, inputs.drop_last());
    }
}

/// A run ends well exactly where the last frame that was wanted is released,
/// or the daemon says goodbye.
pub proof fn law_run_ends_after_the_frames_or_on_goodbye(v: ConsumerView, input: ConsumerInput)
    requires
        v.wf(),
        !(v.step is Done),
    ensures
        v.after(input).step is Done <==> {
            ||| v.receiving() && input is Message && input->Message_0 is Some
                && input->Message_0->0.event is Bye
            ||| v.lets_go(input) && input->Release_0 && !v.read_failed && v.seen + 1 == v.frames
        },
{
}

/// A frame counts exactly if it was read back, where that was asked for, and
/// then released.
pub proof fn law_only_released_frames_count(v: ConsumerView, input: ConsumerInput)
    requires
        v.wf(),
    ensures
        v.after(input).seen == v.seen + if v.lets_go(input) && input->Release_0 && !v.read_failed {
            1int
        } else {
            0int
        },
{
}

/// A reading that failed is reported, but not before the release was dealt
/// with; whether that worked changes nothing.
pub proof fn law_failed_reading_is_released_first(v: ConsumerView, released: bool)
    requires
        v.step is ReadBack,
    ensures
        v.after(ConsumerInput::ReadBack(false)).step == ConsumerStep::Release,
        v.after(ConsumerInput::ReadBack(false)).after(ConsumerInput::Release(released)).step == (
        ConsumerStep::Failed { error: ConsumerError::ReadBack }),
{
}

/// A frame that is taken up came with the two descriptors that its steps are
/// about.
pub proof fn law_frame_brings_its_descriptors(v: ConsumerView, message: Option<Received>)
    requires
        v.receiving(),
        v.on_message(message).holds_frame(),
    ensures
        message is Some,
        message->0.event is FrameReady,
        message->0.fd_count == 2,
{
}

/// What ends a run stands: no report changes a state that is done or failed.
pub proof fn law_end_stands(v: ConsumerView, input: ConsumerInput)
    requires
        v.step is Done || v.step is Failed,
    ensures
        v.after(input) == v,
{
}

/// Report `b` binds a pool: it is a message that was asked for, with as many
/// descriptors as buffers times planes.
pub open spec fn binds_pool(
    frames: u32,
    dumping: bool,
    inputs: Seq<ConsumerInput>,
    b: int,
) -> bool {
    &&& 0 <= b < inputs.len()
    &&& run(frames, dumping, inputs.take(b)).receiving()
    &&& inputs[b] is Message && inputs[b]->Message_0 is Some
    &&& inputs[b]->Message_0->0.event is BindBuffers
    &&& inputs[b]->Message_0->0.fd_count == bind_at(inputs, b).count * bind_at(
        inputs,
        b,
    ).planes_per_buffer
}

/// The pool that report `b` announces.
pub open spec fn bind_at(inputs: Seq<ConsumerInput>, b: int) -> BindBuffers {
    inputs[b]->Message_0->0.event->BindBuffers_0
}

/// That pool with the descriptors that came with it.
pub open spec fn pool_at(inputs: Seq<ConsumerInput>, b: int) -> PoolView {
    let bind = bind_at(inputs, b);
    PoolView {
        fourcc: bind.fourcc,
        modifier: bind.modifier,
        width: bind.width,
        height: bind.height,
        stride: bind.stride@,
        plane_offset: bind.plane_offset@,
        size: bind.size@,
        fd_count: inputs[b]->Message_0->0.fd_count as int,
    }
}

/// Report `b` binds a pool, and no later one does.
pub open spec fn is_latest_pool(
    frames: u32,
    dumping: bool,
    inputs: Seq<ConsumerInput>,
    b: int,
) -> bool {
    &&& binds_pool(frames, dumping, inputs, b)
    &&& forall|c: int| b < c < inputs.len() ==> !binds_pool(frames, dumping, inputs, c)
}

proof fn lemma_pool_comes_from_the_latest_bind(
    frames: u32,
    dumping: bool,
    inputs: Seq<ConsumerInput>,
)
    ensures
        match run(frames, dumping, inputs).pool {
            None => forall|b: int| !binds_pool(frames, dumping, inputs, b),
            Some(p) => exists|b: int| #[trigger]
                is_latest_pool(frames, dumping, inputs, b) && p == pool_at(inputs, b),
        },
    decreases inputs.len(),
{
    if inputs.len() > 0 {
        let head = inputs.drop_last();
        let last = inputs.len() - 1;
        lemma_pool_comes_from_the_latest_bind(frames, dumping, head);
        assert(inputs.take(last) =~= head);
        assert forall|b: int|
            #![trigger binds_pool(frames, dumping, inputs, b)]
            #![trigger binds_pool(frames, dumping, head, b)]
            b < last implies binds_pool(frames, dumping, inputs, b) == binds_pool(
            frames,
            dumping,
            head,
            b,
        ) by {
            if 0 <= b {
                assert(inputs.take(b) =~= head.take(b));
                assert(inputs[b] == head[b]);
            }
        }
        if binds_pool(frames, dumping, inputs, last) {
            assert(is_latest_pool(frames, dumping, inputs, last));
        } else {
            assert(run(frames, dumping, inputs).pool == run(frames, dumping, head).pool);
            if run(frames, dumping, head).pool is Some {
                let b = choose|b: int| #[trigger]
                    is_latest_pool(frames, dumping, head, b) && run(frames, dumping, head).pool->0
                        == pool_at(head, b);
                assert(binds_pool(frames, dumping, inputs, b));
                assert forall|c: int| b < c < inputs.len() implies !binds_pool(
                    frames,
                    dumping,
                    inputs,
                    c,
                ) by {
                    if c < last {
                        assert(!binds_pool(frames, dumping, head, c));
                    }
                }
                assert(inputs[b] == head[b]);
                assert(is_latest_pool(frames, dumping, inputs, b));
            }
        }
    }
}

/// Whatever was reported before, and whatever pools were bound: a frame that
/// comes in is read back with the format and the extent of the pool that was
/// bound last, with the layout that this pool lists for the frame's buffer, and
/// under the frame's own number.
pub proof fn law_frame_has_the_layout_of_the_latest_pool(
    frames: u32,
    dumping: bool,
    inputs: Seq<ConsumerInput>,
    message: Option<Received>,
)
    requires
        run(frames, dumping, inputs).receiving(),
        run(frames, dumping, inputs).on_message(message).step is ReadBack,
    ensures
        dumping,
        message is Some,
        message->0.fd_count == 2,
        message->0.event is FrameReady,
        exists|b: int| #[trigger]
            is_latest_pool(frames, dumping, inputs, b) && ({
                let bind = bind_at(inputs, b);
                let index = message->0.event->buffer_index;
                let step = run(frames, dumping, inputs).on_message(message).step;
                &&& index < bind.count * bind.planes_per_buffer
                &&& step->index == index
                &&& step->frame.seq == message->0.event->seq
                &&& step->frame.fourcc == bind.fourcc
                &&& step->frame.modifier == bind.modifier
                &&& step->frame.width == bind.width
                &&& step->frame.height == bind.height
                &&& step->frame.stride == bind.stride@[index as int]
                &&& step->frame.plane_offset == bind.plane_offset@[index as int]
                &&& step->frame.size == bind.size@[index as int]
            }),
{
    law_run_stays_sound(frames, dumping, inputs);
    lemma_pool_comes_from_the_latest_bind(frames, dumping, inputs);
}

/// A frame that comes in is taken up exactly if it brings two descriptors and
/// names a buffer of the pool that was bound last; it is then read back, or
/// only released where nothing is dumped.
pub proof fn law_frame_is_taken_up_exactly_if_it_fits_the_pool(
    frames: u32,
    dumping: bool,
    inputs: Seq<ConsumerInput>,
    message: Received,
)
    requires
        run(frames, dumping, inputs).receiving(),
        message.event is FrameReady,
    ensures
        ({
            let step = run(frames, dumping, inputs).on_message(Some(message)).step;
            let index = message.event->buffer_index;
            &&& (step is ReadBack || step is Release) <==> message.fd_count == 2 && exists|b: int|
                #[trigger]
                is_latest_pool(frames, dumping, inputs, b) && index < bind_at(inputs, b).count
                    * bind_at(inputs, b).planes_per_buffer
            &&& step is ReadBack ==> dumping
            &&& step is Release ==> !dumping
            &&& !(step is ReadBack || step is Release) ==> step is Failed
            &&& message.fd_count != 2 ==> step == (ConsumerStep::Failed {
                error: ConsumerError::FrameFds { got: message.fd_count },
            })
            &&& message.fd_count == 2 && (forall|b: int|
                !binds_pool(frames, dumping, inputs, b)) ==> step == (ConsumerStep::Failed {
                error: ConsumerError::FrameWithoutPool,
            })
            &&& forall|b: int| #[trigger]
                is_latest_pool(frames, dumping, inputs, b) && message.fd_count == 2 && index
                    >= bind_at(inputs, b).count * bind_at(inputs, b).planes_per_buffer ==> (
                step matches ConsumerStep::Failed { error } && error matches
                    ConsumerError::OutOfPool { index: named, pool } && named == index && pool
                    == bind_at(inputs, b).count * bind_at(inputs, b).planes_per_buffer)
        }),
{
    law_run_stays_sound(frames, dumping, inputs);
    lemma_pool_comes_from_the_latest_bind(frames, dumping, inputs);
    let v = run(frames, dumping, inputs);
    if v.pool is Some {
        let b = choose|b: int| #[trigger]
            is_latest_pool(frames, dumping, inputs, b) && v.pool->0 == pool_at(inputs, b);
        assert forall|c: int| #[trigger] is_latest_pool(frames, dumping, inputs, c) implies c
            == b by {
            if c < b {
                assert(!binds_pool(frames, dumping, inputs, b));
            }
            if b < c {
                assert(!binds_pool(frames, dumping, inputs, c));
            }
        }
    }
}

/// What every other message leads to: a pool with the right number of
/// descriptors is kept and one with another number is refused with the numbers
/// at hand, an error ends the run with the daemon's code and words, a goodbye
/// ends it well, and anything else is passed over.
pub proof fn law_other_messages(v: ConsumerView, message: Option<Received>)
    requires
        v.receiving(),
        message is Some ==> !(message->0.event is FrameReady),
    ensures
        ({
            let next = v.on_message(message);
            &&& next.seen == v.seen && next.frames == v.frames && next.dumping == v.dumping
            &&& message is None ==> next.step == (ConsumerStep::Failed {
                error: ConsumerError::Receive,
            })
            &&& message matches Some(m) ==> match m.event {
                Event::BindBuffers(bind) => if m.fd_count == bind.count * bind.planes_per_buffer {
                    next.step is KeepAndReceive
                } else {
                    next.step matches ConsumerStep::Failed { error } && error matches
                        ConsumerError::PoolFds { expected, got, count, planes_per_buffer }
                        && expected == bind.count * bind.planes_per_buffer && got == m.fd_count
                        && count == bind.count && planes_per_buffer == bind.planes_per_buffer
                        && next.pool == v.pool
                },
                Event::Error { code, message } => next.step == (ConsumerStep::Failed {
                    error: ConsumerError::Daemon { code, message },
                }),
                Event::Bye => next.step is Done && next.pool == v.pool,
                _ => next.step is Receive && next.pool == v.pool,
            }
        }),
{
    if message is Some && message->0.event is BindBuffers {
        let bind = message->0.event->BindBuffers_0;
        assert(0 <= bind.count * bind.planes_per_buffer <= 0xffff_ffff * 0xffff_ffff)
            by (nonlinear_arith)
            requires
                0 <= bind.count <= 0xffff_ffff,
                0 <= bind.planes_per_buffer <= 0xffff_ffff,
        ;
    }
}

/// A run asks for a message first, unless no frame is wanted: then it is over
/// before it begins. Nothing is counted or bound yet.
pub proof fn law_run_begins_with_a_message(frames: u32, dumping: bool)
    ensures
        ({
            let v = run(frames, dumping, Seq::empty());
            &&& frames == 0 ==> v.step is Done
            &&& frames > 0 ==> v.step is Receive
            &&& v.seen == 0 && v.pool is None
            &&& v.frames == frames && v.dumping == dumping
        }),
{
}

/// A reading is about the first descriptor and a release about the second; no
/// other step is about any.
pub proof fn law_steps_have_their_descriptors(step: ConsumerStep)
    ensures
        descriptor_of(step) is Some <==> step is ReadBack || step is Release,
        step is ReadBack ==> descriptor_of(step)->0 == 0,
        step is Release ==> descriptor_of(step)->0 == 1,
{
}

/// Only a frame that is to be read back, from a buffer of the pool that the
/// lists of the pool do not reach, asks for a layout that was never given.
pub proof fn law_layout_is_unknown_exactly_if_a_list_is_too_short(
    v: ConsumerView,
    message: Option<Received>,
)
    ensures
        !v.layout_known(message) <==> {
            &&& message is Some && message->0.event is FrameReady && message->0.fd_count == 2
            &&& v.dumping && v.pool is Some
            &&& message->0.event->buffer_index < v.pool->0.fd_count
            &&& {
                ||| message->0.event->buffer_index >= v.pool->0.stride.len()
                ||| message->0.event->buffer_index >= v.pool->0.plane_offset.len()
                ||| message->0.event->buffer_index >= v.pool->0.size.len()
            }
        },
{
}

/// After a reading the release is due, and what the reading came to is kept.
/// After the release the run goes on with the next message as long as frames are
/// wanted; a release that failed ends it. The pool stays bound all the while.
pub proof fn law_release_follows_the_reading(v: ConsumerView, ok: bool)
    requires
        v.wf(),
    ensures
        v.step is ReadBack ==> ({
            let next = v.after(ConsumerInput::ReadBack(ok));
            &&& next.step is Release
            &&& next.read_failed == !ok
            &&& next.pool == v.pool && next.seen == v.seen && next.frames == v.frames
        }),
        v.step is Release && !v.read_failed ==> ({
            let next = v.after(ConsumerInput::Release(ok));
            &&& !ok ==> next.step == (ConsumerStep::Failed { error: ConsumerError::Release })
            &&& ok && v.seen + 1 < v.frames ==> next.step is Receive
            &&& ok && v.seen + 1 == v.frames ==> next.step is Done
            &&& next.pool == v.pool && next.frames == v.frames && next.read_failed == v.read_failed
        }),
{
}

/// A frame that comes in leaves the pool and all counts as they are.
pub proof fn law_frame_changes_the_step_alone(v: ConsumerView, message: Received)
    requires
        v.receiving(),
        message.event is FrameReady,
    ensures
        v.on_message(Some(message)) == (ConsumerView {
            step: v.on_message(Some(message)).step,
            ..v
        }),
{
}

/// A pool is seen as it is.
pub proof fn law_pool_is_seen_as_it_is(pool: BoundPool)
    ensures
        (pool@.fourcc, pool@.modifier) == (pool.fourcc, pool.modifier),
        (pool@.width, pool@.height) == (pool.width, pool.height),
        pool@.stride == pool.stride@,
        pool@.plane_offset == pool.plane_offset@,
        pool@.size == pool.size@,
        pool@.fd_count == pool.fd_count,
{
}

} // verus!
