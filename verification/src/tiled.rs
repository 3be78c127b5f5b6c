//! Reading a frame with a tiled modifier back: import the buffer as an image,
//! let the device copy it to a staging buffer, write that.
//!
//! [`TiledImport`] says what to do next and is told how it went. It keeps
//! account of the device objects that exist and of the descriptors that are
//! still the caller's to close, so that a failure anywhere gives all of them
//! back.
use crate::dump::{self, Frame};
use crate::vk_consumer::{self, VkContext};
use vstd::prelude::*;

verus! {

/// A device object that lives during an import.
#[derive(Debug, Clone, Copy, PartialEq, Eq, Structural)]
pub enum Resource {
    Image,
    ImageMemory,
    StagingBuffer,
    StagingMemory,
    CommandBuffer,
    Semaphore,
    Fence,
}

/// The order in which the objects are made.
pub open spec fn creation_order() -> Seq<Resource> {
    seq![
        Resource::Image,
        Resource::ImageMemory,
        Resource::StagingBuffer,
        Resource::StagingMemory,
        Resource::CommandBuffer,
        Resource::Semaphore,
        Resource::Fence,
    ]
}

/// What to do next.
#[derive(Debug, Clone, Copy, PartialEq, Eq, Structural)]
pub enum TiledStep {
    /// Create the image, in this format.
    CreateImage { format: i32 },
    /// Duplicate the buffer's descriptor for a query.
    DupProbe,
    /// Ask which memory types take the image and which take the descriptor.
    Probe,
    /// Close the descriptor of the query.
    CloseProbe,
    /// Duplicate the buffer's descriptor for an allocation.
    DupCandidate { memory_type: u32 },
    /// Import the duplicate as memory of this type.
    Allocate { memory_type: u32 },
    /// Close the duplicate that the driver did not take.
    CloseCandidate { memory_type: u32 },
    BindImage,
    /// Create a host-readable buffer of this size.
    CreateStaging { size: u64 },
    AllocateStaging { memory_type: u32 },
    BindStaging,
    AllocateCommand,
    /// Begin the command buffer, and record the copy once it has begun.
    BeginCommand,
    EndCommand,
    CreateSemaphore,
    /// Duplicate the acquire fence's descriptor.
    DupAcquire,
    /// Import the duplicate into the semaphore.
    ImportSemaphore,
    /// Close the duplicate that the driver did not take.
    CloseAcquire,
    CreateFence,
    Submit,
    /// Wait for the fence, this many nanoseconds.
    Wait { timeout_ns: u64 },
    /// Map this many bytes of the staging memory.
    MapStaging { size: u64 },
    CreateFile,
    WriteDump,
    UnmapStaging,
    WriteSidecar,
    /// Destroy this object.
    Release { resource: Resource },
    Finished,
}

/// How a step went.
#[derive(Debug, Clone, Copy, PartialEq, Eq, Structural)]
pub enum StepOutcome {
    Done,
    Failed,
    /// The query's answer.
    Probed { image_bits: u32, fd_bits: u32 },
    /// The staging buffer exists and takes these memory types.
    Sized { type_bits: u32 },
}

/// Why an import failed.
#[derive(Debug, Clone, Copy, PartialEq, Eq, Structural)]
pub enum TiledError {
    /// The fourcc has no Vulkan format.
    NoFormat,
    /// No memory type takes both the image and the descriptor.
    NoSharedMemoryType { image_bits: u32, fd_bits: u32 },
    /// Every candidate failed to allocate, this one last.
    MemoryExhausted { last: u32 },
    /// No memory type can be read by the host.
    NoStagingType,
    /// This step failed.
    At { step: TiledStep },
}

/// How long to wait for the device, in nanoseconds.
pub const FENCE_TIMEOUT_NS: u64 = 5_000_000_000;

/// The state of an import.
pub struct TiledView {
    pub frame: Frame,
    pub step: TiledStep,
    /// How many objects exist: the first so many of [`creation_order`].
    pub held: nat,
    /// Whether a duplicated descriptor is still the caller's to close.
    pub owns_fd: bool,
    /// The memory types that take the image.
    pub image_bits: u32,
    /// The memory types that take the descriptor.
    pub fd_bits: u32,
    /// What went wrong, if anything did.
    pub error: Option<TiledError>,
}

/// The outcomes that a step can have.
pub open spec fn outcome_fits(step: TiledStep, outcome: StepOutcome) -> bool {
    match step {
        TiledStep::Probe => outcome is Probed || outcome is Failed,
        TiledStep::CreateStaging { .. } => outcome is Sized || outcome is Failed,
        _ => outcome is Done || outcome is Failed,
    }
}

impl TiledView {
    /// Destroy what exists, the newest first.
    pub open spec fn unwind(self) -> TiledView {
        TiledView {
            step: if self.held == 0 {
                TiledStep::Finished
            } else {
                TiledStep::Release { resource: creation_order()[self.held - 1] }
            },
            ..self
        }
    }

    pub open spec fn fail(self, error: TiledError) -> TiledView {
        TiledView { error: Some(error), ..self }.unwind()
    }

    /// The step failed.
    pub open spec fn fail_here(self) -> TiledView {
        self.fail(TiledError::At { step: self.step })
    }

    pub open spec fn to(self, step: TiledStep) -> TiledView {
        TiledView { step, ..self }
    }

    pub open spec fn made(self, step: TiledStep) -> TiledView {
        TiledView { step, held: self.held + 1, ..self }
    }

    /// The memory types that take both the image and the descriptor.
    pub open spec fn mask(self) -> u32 {
        self.image_bits & self.fd_bits
    }

    /// Try the next candidate from memory type `from` on.
    pub open spec fn try_from(self, from: int, error: TiledError) -> TiledView {
        match vk_consumer::next_bit(self.mask(), from) {
            Some(memory_type) => self.to(TiledStep::DupCandidate { memory_type }),
            None => self.fail(error),
        }
    }

    /// The state after a step. `types` are the property flags of the device's
    /// memory types.
    pub open spec fn next(self, types: Seq<u32>, outcome: StepOutcome) -> TiledView {
        let ok = !(outcome is Failed);
        match self.step {
            TiledStep::CreateImage { .. } => if ok {
                self.made(TiledStep::DupProbe)
            } else {
                self.fail_here()
            },
            TiledStep::DupProbe => if ok {
                TiledView { owns_fd: true, ..self.to(TiledStep::Probe) }
            } else {
                self.fail_here()
            },
            TiledStep::Probe => match outcome {
                StepOutcome::Probed { image_bits, fd_bits } => TiledView {
                    step: TiledStep::CloseProbe,
                    image_bits,
                    fd_bits,
                    ..self
                },
                _ => TiledView {
                    step: TiledStep::CloseProbe,
                    error: Some(TiledError::At { step: TiledStep::Probe }),
                    ..self
                },
            },
            TiledStep::CloseProbe => {
                let closed = TiledView { owns_fd: false, ..self };
                match self.error {
                    Some(_) => closed.unwind(),
                    None => closed.try_from(
                        0,
                        TiledError::NoSharedMemoryType {
                            image_bits: self.image_bits,
                            fd_bits: self.fd_bits,
                        },
                    ),
                }
            },
            TiledStep::DupCandidate { memory_type } => if ok {
                TiledView { owns_fd: true, ..self.to(TiledStep::Allocate { memory_type }) }
            } else {
                self.fail_here()
            },
            TiledStep::Allocate { memory_type } => if ok {
                TiledView { owns_fd: false, ..self.made(TiledStep::BindImage) }
            } else {
                self.to(TiledStep::CloseCandidate { memory_type })
            },
            TiledStep::CloseCandidate { memory_type } => TiledView {
                owns_fd: false,
                ..self
            }.try_from(memory_type + 1, TiledError::MemoryExhausted { last: memory_type }),
            TiledStep::BindImage => if ok {
                self.to(TiledStep::CreateStaging { size: self.frame.packed_bytes() as u64 })
            } else {
                self.fail_here()
            },
            TiledStep::CreateStaging { .. } => match outcome {
                StepOutcome::Sized { type_bits } => {
                    let made = TiledView { held: self.held + 1, ..self };
                    match vk_consumer::first_fit(types, type_bits, 6, 0) {
                        Some(memory_type) => made.to(TiledStep::AllocateStaging { memory_type }),
                        None => made.fail(TiledError::NoStagingType),
                    }
                },
                _ => self.fail_here(),
            },
            TiledStep::AllocateStaging { .. } => if ok {
                self.made(TiledStep::BindStaging)
            } else {
                self.fail_here()
            },
            TiledStep::BindStaging => if ok {
                self.to(TiledStep::AllocateCommand)
            } else {
                self.fail_here()
            },
            TiledStep::AllocateCommand => if ok {
                self.made(TiledStep::BeginCommand)
            } else {
                self.fail_here()
            },
            TiledStep::BeginCommand => if ok {
                self.to(TiledStep::EndCommand)
            } else {
                self.fail_here()
            },
            TiledStep::EndCommand => if ok {
                self.to(TiledStep::CreateSemaphore)
            } else {
                self.fail_here()
            },
            TiledStep::CreateSemaphore => if ok {
                self.made(TiledStep::DupAcquire)
            } else {
                self.fail_here()
            },
            TiledStep::DupAcquire => if ok {
                TiledView { owns_fd: true, ..self.to(TiledStep::ImportSemaphore) }
            } else {
                self.fail_here()
            },
            TiledStep::ImportSemaphore => if ok {
                TiledView { owns_fd: false, ..self.to(TiledStep::CreateFence) }
            } else {
                TiledView {
                    step: TiledStep::CloseAcquire,
                    error: Some(TiledError::At { step: TiledStep::ImportSemaphore }),
                    ..self
                }
            },
            TiledStep::CloseAcquire => TiledView { owns_fd: false, ..self }.unwind(),
            TiledStep::CreateFence => if ok {
                self.made(TiledStep::Submit)
            } else {
                self.fail_here()
            },
            TiledStep::Submit => if ok {
                self.to(TiledStep::Wait { timeout_ns: FENCE_TIMEOUT_NS })
            } else {
                self.fail_here()
            },
            TiledStep::Wait { .. } => if ok {
                self.to(TiledStep::MapStaging { size: self.frame.packed_bytes() as u64 })
            } else {
                self.fail_here()
            },
            TiledStep::MapStaging { .. } => if ok {
                self.to(TiledStep::CreateFile)
            } else {
                self.fail_here()
            },
            TiledStep::CreateFile => if ok {
                self.to(TiledStep::WriteDump)
            } else {
                self.fail_here()
            },
            TiledStep::WriteDump => if ok {
                self.to(TiledStep::UnmapStaging)
            } else {
                self.fail_here()
            },
            TiledStep::UnmapStaging => self.to(TiledStep::WriteSidecar),
            TiledStep::WriteSidecar => if ok {
                self.unwind()
            } else {
                self.fail_here()
            },
            TiledStep::Release { .. } => TiledView {
                held: (self.held - 1) as nat,
                ..self
            }.unwind(),
            TiledStep::Finished => self,
        }
    }

    /// How many objects exist when a step is due, and whether a duplicate is
    /// open then.
    pub open spec fn account(step: TiledStep) -> (nat, bool) {
        match step {
            TiledStep::CreateImage { .. } => (0, false),
            TiledStep::DupProbe => (1, false),
            TiledStep::Probe => (1, true),
            TiledStep::CloseProbe => (1, true),
            TiledStep::DupCandidate { .. } => (1, false),
            TiledStep::Allocate { .. } => (1, true),
            TiledStep::CloseCandidate { .. } => (1, true),
            TiledStep::BindImage => (2, false),
            TiledStep::CreateStaging { .. } => (2, false),
            TiledStep::AllocateStaging { .. } => (3, false),
            TiledStep::BindStaging => (4, false),
            TiledStep::AllocateCommand => (4, false),
            TiledStep::BeginCommand => (5, false),
            TiledStep::EndCommand => (5, false),
            TiledStep::CreateSemaphore => (5, false),
            TiledStep::DupAcquire => (6, false),
            TiledStep::ImportSemaphore => (6, true),
            TiledStep::CloseAcquire => (6, true),
            TiledStep::CreateFence => (6, false),
            TiledStep::Submit => (7, false),
            TiledStep::Wait { .. } => (7, false),
            TiledStep::MapStaging { .. } => (7, false),
            TiledStep::CreateFile => (7, false),
            TiledStep::WriteDump => (7, false),
            TiledStep::UnmapStaging => (7, false),
            TiledStep::WriteSidecar => (7, false),
            TiledStep::Release { .. } => (0, false),
            TiledStep::Finished => (0, false),
        }
    }

    /// The account of objects and descriptors fits the step that is due.
    pub open spec fn wf(self) -> bool {
        match self.step {
            TiledStep::Release { resource } => 1 <= self.held <= 7 && resource
                == creation_order()[self.held - 1] && !self.owns_fd,
            TiledStep::CloseProbe => (self.held, self.owns_fd) == TiledView::account(self.step),
            TiledStep::CloseAcquire => (self.held, self.owns_fd) == TiledView::account(self.step)
                && self.error is Some,
            TiledStep::DupCandidate { memory_type } => {
                &&& (self.held, self.owns_fd) == TiledView::account(self.step)
                &&& self.error is None
                &&& memory_type < 32
            },
            TiledStep::Allocate { memory_type } => {
                &&& (self.held, self.owns_fd) == TiledView::account(self.step)
                &&& self.error is None
                &&& memory_type < 32
            },
            TiledStep::CloseCandidate { memory_type } => {
                &&& (self.held, self.owns_fd) == TiledView::account(self.step)
                &&& self.error is None
                &&& memory_type < 32
            },
            TiledStep::Finished => self.held == 0 && !self.owns_fd,
            _ => {
                &&& (self.held, self.owns_fd) == TiledView::account(self.step)
                &&& self.error is None
                &&& self.held >= 2 && !(self.step is BindImage) ==> self.frame.packed_bytes()
                    <= u64::MAX
            },
        }
    }
}

/// The object at a place of [`creation_order`].
fn resource_at(i: usize) -> (r: Resource)
    requires
        i < 7,
    ensures
        r == creation_order()[i as int],
{
    match i {
        0 => Resource::Image,
        1 => Resource::ImageMemory,
        2 => Resource::StagingBuffer,
        3 => Resource::StagingMemory,
        4 => Resource::CommandBuffer,
        5 => Resource::Semaphore,
        _ => Resource::Fence,
    }
}

/// What is said of a frame that the device copied: it counts the bytes of the
/// pixels.
pub open spec fn describes_copied(s: dump::Sidecar, f: Frame) -> bool {
    dump::describes(
        s,
        f,
        f.packed_bytes() as u64,
        dump::ImportPath::VulkanCopyImageToBuffer,
    )
}

/// Reads one tiled frame back, step by step.
#[derive(Debug)]
pub struct TiledImport {
    frame: Frame,
    step: TiledStep,
    held: usize,
    owns_fd: bool,
    image_bits: u32,
    fd_bits: u32,
    error: Option<TiledError>,
}

impl View for TiledImport {
    type V = TiledView;

    closed spec fn view(&self) -> TiledView {
        TiledView {
            frame: self.frame,
            step: self.step,
            held: self.held as nat,
            owns_fd: self.owns_fd,
            image_bits: self.image_bits,
            fd_bits: self.fd_bits,
            error: self.error,
        }
    }
}

/// The state in which an import begins.
pub open spec fn first_state(frame: Frame, format: i32) -> TiledView {
    TiledView {
        frame,
        step: TiledStep::CreateImage { format },
        held: 0,
        owns_fd: false,
        image_bits: 0,
        fd_bits: 0,
        error: None,
    }
}

impl TiledImport {
    /// Begins with a frame whose fourcc has a Vulkan format.
    pub fn begin(frame: &Frame) -> (r: Result<Self, TiledError>)
        ensures
            match r {
                Ok(import) => vk_consumer::vk_format_of(frame.fourcc) matches Some(format)
                    && import@ == first_state(*frame, format) && import@.wf(),
                Err(e) => vk_consumer::vk_format_of(frame.fourcc) is None && e
                    == TiledError::NoFormat,
            },
    {
        match vk_consumer::drm_fourcc_to_vk(frame.fourcc) {
            Some(format) => Ok(
                TiledImport {
                    frame: *frame,
                    step: TiledStep::CreateImage { format },
                    held: 0,
                    owns_fd: false,
                    image_bits: 0,
                    fd_bits: 0,
                    error: None,
                },
            ),
            None => Err(TiledError::NoFormat),
        }
    }

    /// What to do next.
    pub fn step(&self) -> (step: TiledStep)
        ensures
            step == self@.step,
    {
        self.step
    }

    /// What went wrong, if anything did.
    pub fn error(&self) -> (error: Option<TiledError>)
        ensures
            error == self@.error,
    {
        self.error
    }

    fn unwind(&mut self)
        requires
            old(self)@.held <= 7,
        ensures
            final(self)@ == old(self)@.unwind(),
    {
        self.step = if self.held == 0 {
            TiledStep::Finished
        } else {
            TiledStep::Release { resource: resource_at(self.held - 1) }
        };
    }

    fn fail(&mut self, error: TiledError)
        requires
            old(self)@.held <= 7,
        ensures
            final(self)@ == old(self)@.fail(error),
    {
        self.error = Some(error);
        self.unwind();
    }

    fn try_from(&mut self, from: u32, error: TiledError)
        requires
            old(self)@.held <= 7,
        ensures
            final(self)@ == old(self)@.try_from(from as int, error),
    {
        match vk_consumer::find_bit(self.image_bits & self.fd_bits, from) {
            Some(memory_type) => {
                self.step = TiledStep::DupCandidate { memory_type };
            },
            None => {
                self.fail(error);
            },
        }
    }

    /// Goes to `step`, or fails.
    fn proceed(&mut self, ok: bool, step: TiledStep)
        requires
            old(self)@.held <= 7,
        ensures
            final(self)@ == if ok {
                old(self)@.to(step)
            } else {
                old(self)@.fail_here()
            },
    {
        if ok {
            self.step = step;
        } else {
            let at: TiledStep = self.step;
            self.fail(TiledError::At { step: at });
        }
    }

    /// Counts a new object and goes to `step`, or fails.
    fn create(&mut self, ok: bool, step: TiledStep)
        requires
            old(self)@.held < 7,
        ensures
            final(self)@ == if ok {
                old(self)@.made(step)
            } else {
                old(self)@.fail_here()
            },
    {
        if ok {
            self.held = self.held + 1;
            self.step = step;
        } else {
            let at: TiledStep = self.step;
            self.fail(TiledError::At { step: at });
        }
    }

    /// Goes on after a step. The staging buffer's size must be a 64-bit number
    /// by the time it is needed.
    #[verifier::rlimit(40)]
    pub fn advance(&mut self, ctx: &VkContext, outcome: StepOutcome)
        requires
            old(self)@.wf(),
            ctx.wf(),
            outcome_fits(old(self)@.step, outcome),
            old(self)@.step is BindImage && outcome is Done ==> old(self)@.frame.packed_bytes()
                <= u64::MAX,
        ensures
            final(self)@.wf(),
            final(self)@ == old(self)@.next(ctx.memory_types@, outcome),
    {
        let ok: bool = match outcome {
            StepOutcome::Failed => false,
            _ => true,
        };
        proof {
            law_step_keeps_the_account(self@, ctx.memory_types@, outcome);
        }
        match self.step {
            TiledStep::CreateImage { .. } => {
                self.create(ok, TiledStep::DupProbe);
            },
            TiledStep::DupProbe => {
                self.proceed(ok, TiledStep::Probe);
                self.owns_fd = ok;
            },
            TiledStep::Probe => {
                match outcome {
                    StepOutcome::Probed { image_bits, fd_bits } => {
                        self.image_bits = image_bits;
                        self.fd_bits = fd_bits;
                    },
                    _ => {
                        self.error = Some(TiledError::At { step: TiledStep::Probe });
                    },
                }
                self.step = TiledStep::CloseProbe;
            },
            TiledStep::CloseProbe => {
                self.owns_fd = false;
                match self.error {
                    Some(_) => {
                        self.unwind();
                    },
                    None => {
                        let error = TiledError::NoSharedMemoryType {
                            image_bits: self.image_bits,
                            fd_bits: self.fd_bits,
                        };
                        self.try_from(0, error);
                    },
                }
            },
            TiledStep::DupCandidate { memory_type } => {
                self.proceed(ok, TiledStep::Allocate { memory_type });
                self.owns_fd = ok;
            },
            TiledStep::Allocate { memory_type } => {
                if ok {
                    self.owns_fd = false;
                    self.create(true, TiledStep::BindImage);
                } else {
                    self.step = TiledStep::CloseCandidate { memory_type };
                }
            },
            TiledStep::CloseCandidate { memory_type } => {
                self.owns_fd = false;
                self.try_from(memory_type + 1, TiledError::MemoryExhausted { last: memory_type });
            },
            TiledStep::BindImage => {
                let size: u64 = if ok {
                    staging_size(&self.frame)
                } else {
                    0
                };
                self.proceed(ok, TiledStep::CreateStaging { size });
            },
            TiledStep::CreateStaging { .. } => {
                match outcome {
                    StepOutcome::Sized { type_bits } => {
                        self.held = self.held + 1;
                        match ctx.find_staging_type(type_bits) {
                            Some(memory_type) => {
                                self.step = TiledStep::AllocateStaging { memory_type };
                            },
                            None => {
                                self.fail(TiledError::NoStagingType);
                            },
                        }
                    },
                    _ => {
                        self.proceed(false, TiledStep::Finished);
                    },
                }
            },
            TiledStep::AllocateStaging { .. } => {
                self.create(ok, TiledStep::BindStaging);
            },
            TiledStep::BindStaging => {
                self.proceed(ok, TiledStep::AllocateCommand);
            },
            TiledStep::AllocateCommand => {
                self.create(ok, TiledStep::BeginCommand);
            },
            TiledStep::BeginCommand => {
                self.proceed(ok, TiledStep::EndCommand);
            },
            TiledStep::EndCommand => {
                self.proceed(ok, TiledStep::CreateSemaphore);
            },
            TiledStep::CreateSemaphore => {
                self.create(ok, TiledStep::DupAcquire);
            },
            TiledStep::DupAcquire => {
                self.proceed(ok, TiledStep::ImportSemaphore);
                self.owns_fd = ok;
            },
            TiledStep::ImportSemaphore => {
                if ok {
                    self.owns_fd = false;
                    self.step = TiledStep::CreateFence;
                } else {
                    self.error = Some(TiledError::At { step: TiledStep::ImportSemaphore });
                    self.step = TiledStep::CloseAcquire;
                }
            },
            TiledStep::CloseAcquire => {
                self.owns_fd = false;
                self.unwind();
            },
            TiledStep::CreateFence => {
                self.create(ok, TiledStep::Submit);
            },
            TiledStep::Submit => {
                self.proceed(ok, TiledStep::Wait { timeout_ns: FENCE_TIMEOUT_NS });
            },
            TiledStep::Wait { .. } => {
                let size: u64 = if ok {
                    staging_size(&self.frame)
                } else {
                    0
                };
                self.proceed(ok, TiledStep::MapStaging { size });
            },
            TiledStep::MapStaging { .. } => {
                self.proceed(ok, TiledStep::CreateFile);
            },
            TiledStep::CreateFile => {
                self.proceed(ok, TiledStep::WriteDump);
            },
            TiledStep::WriteDump => {
                self.proceed(ok, TiledStep::UnmapStaging);
            },
            TiledStep::UnmapStaging => {
                self.step = TiledStep::WriteSidecar;
            },
            TiledStep::WriteSidecar => {
                if ok {
                    self.unwind();
                } else {
                    self.proceed(false, TiledStep::Finished);
                }
            },
            TiledStep::Release { .. } => {
                self.held = self.held - 1;
                self.unwind();
            },
            TiledStep::Finished => {},
        }
    }

    /// The description of the dump.
    pub fn sidecar(&self) -> (s: dump::Sidecar)
        requires
            self@.frame.packed_bytes() <= u64::MAX,
        ensures
            describes_copied(s, self@.frame),
    {
        dump::sidecar(
            &self.frame,
            staging_size(&self.frame),
            dump::ImportPath::VulkanCopyImageToBuffer,
        )
    }
}

/// How many bytes all pixels of a frame have.
pub fn staging_size(f: &Frame) -> (size: u64)
    requires
        f.packed_bytes() <= u64::MAX,
    ensures
        size == f.packed_bytes(),
{
    assert(0 <= f.width * f.height <= f.packed_bytes()) by (nonlinear_arith)
        requires
            f.packed_bytes() == f.width * f.height * 4,
            f.width >= 0,
            f.height >= 0,
    ;
    f.width as u64 * f.height as u64 * 4
}

proof fn lemma_next_bit_bound(word: u32, from: int)
    ensures
        vk_consumer::next_bit(word, from) matches Some(i) ==> from <= i < 32
            && vk_consumer::has_bit(word, i),
    decreases 32 - from,
{
    if 0 <= from < 32 && !vk_consumer::has_bit(word, from as u32) {
        lemma_next_bit_bound(word, from + 1);
    }
}

// ---------------------------------------------------------------------------
// Laws
// ---------------------------------------------------------------------------

/// Every step keeps the account of objects and descriptors.
pub proof fn law_step_keeps_the_account(v: TiledView, types: Seq<u32>, outcome: StepOutcome)
    requires
        v.wf(),
        outcome_fits(v.step, outcome),
        v.step is BindImage && outcome is Done ==> v.frame.packed_bytes() <= u64::MAX,
    ensures
        v.next(types, outcome).wf(),
        v.next(types, outcome).frame == v.frame,
{
    match v.step {
        TiledStep::CloseProbe => {
            lemma_next_bit_bound(v.mask(), 0);
        },
        TiledStep::CloseCandidate { memory_type } => {
            lemma_next_bit_bound(v.mask(), memory_type + 1);
        },
        _ => {},
    }
}

/// When an import is over, well or badly, no object exists and no duplicated
/// descriptor is left open.
pub proof fn law_nothing_is_left_behind(v: TiledView)
    requires
        v.wf(),
        v.step is Finished,
    ensures
        v.held == 0,
        !v.owns_fd,
{
}

/// Objects are destroyed one at a time, the newest first.
pub proof fn law_newest_object_goes_first(v: TiledView, types: Seq<u32>, outcome: StepOutcome)
    requires
        v.wf(),
        v.step is Release,
    ensures
        v.step == (TiledStep::Release { resource: creation_order()[v.held - 1] }),
        v.next(types, outcome).held == v.held - 1,
        v.next(types, outcome).error == v.error,
{
}

/// A descriptor that was duplicated is taken by the driver or closed, in the
/// step after the driver was asked.
pub proof fn law_duplicates_are_taken_or_closed(
    v: TiledView,
    types: Seq<u32>,
    outcome: StepOutcome,
)
    requires
        v.wf(),
        outcome_fits(v.step, outcome),
        v.owns_fd,
        v.next(types, outcome).owns_fd,
    ensures
        v.next(types, outcome).step is CloseProbe || v.next(types, outcome).step is CloseCandidate
            || v.next(types, outcome).step is CloseAcquire,
{
}

/// What went wrong first is what is reported.
pub proof fn law_first_error_is_kept(v: TiledView, types: Seq<u32>, outcome: StepOutcome)
    requires
        v.wf(),
        v.error is Some,
    ensures
        v.next(types, outcome).error == v.error,
{
}

/// An import ends without an error only by way of a description that was
/// written.
pub proof fn law_success_means_all_was_written(
    v: TiledView,
    types: Seq<u32>,
    outcome: StepOutcome,
)
    requires
        v.wf(),
        outcome_fits(v.step, outcome),
        !(v.step is Release || v.step is Finished),
        v.next(types, outcome).step is Release || v.next(types, outcome).step is Finished,
        v.next(types, outcome).error is None,
    ensures
        v.step is WriteSidecar,
        outcome is Done,
{
}

/// A bound on how many steps are left.
pub open spec fn steps_left(v: TiledView) -> nat {
    match v.step {
        TiledStep::CreateImage { .. } => 204,
        TiledStep::DupProbe => 203,
        TiledStep::Probe => 202,
        TiledStep::CloseProbe => 201,
        TiledStep::DupCandidate { memory_type } => (102 + 3 * (32 - memory_type)) as nat,
        TiledStep::Allocate { memory_type } => (101 + 3 * (32 - memory_type)) as nat,
        TiledStep::CloseCandidate { memory_type } => (100 + 3 * (32 - memory_type)) as nat,
        TiledStep::BindImage => 30,
        TiledStep::CreateStaging { .. } => 29,
        TiledStep::AllocateStaging { .. } => 28,
        TiledStep::BindStaging => 27,
        TiledStep::AllocateCommand => 26,
        TiledStep::BeginCommand => 25,
        TiledStep::EndCommand => 24,
        TiledStep::CreateSemaphore => 23,
        TiledStep::DupAcquire => 22,
        TiledStep::ImportSemaphore => 21,
        TiledStep::CloseAcquire => 20,
        TiledStep::CreateFence => 19,
        TiledStep::Submit => 18,
        TiledStep::Wait { .. } => 17,
        TiledStep::MapStaging { .. } => 16,
        TiledStep::CreateFile => 15,
        TiledStep::WriteDump => 14,
        TiledStep::UnmapStaging => 13,
        TiledStep::WriteSidecar => 12,
        TiledStep::Release { .. } => v.held,
        TiledStep::Finished => 0,
    }
}

/// Every import ends: each step leaves fewer steps to take.
pub proof fn law_import_ends(v: TiledView, types: Seq<u32>, outcome: StepOutcome)
    requires
        v.wf(),
        outcome_fits(v.step, outcome),
        !(v.step is Finished),
    ensures
        steps_left(v.next(types, outcome)) < steps_left(v),
{
    match v.step {
        TiledStep::CloseProbe => {
            lemma_next_bit_bound(v.mask(), 0);
        },
        TiledStep::CloseCandidate { memory_type } => {
            lemma_next_bit_bound(v.mask(), memory_type + 1);
        },
        _ => {},
    }
}

/// No bit below the next one is set.
proof fn lemma_next_bit_is_first(word: u32, from: int, i: int)
    requires
        0 <= from <= i < 32,
        match vk_consumer::next_bit(word, from) {
            Some(b) => i < b,
            None => true,
        },
    ensures
        !vk_consumer::has_bit(word, i as u32),
    decreases 32 - from,
{
    if from < i {
        lemma_next_bit_is_first(word, from + 1, i);
    }
}

/// When a candidate fails, the next one is tried: the lowest memory type above
/// it that takes both the image and the descriptor. Only when there is none
/// does the import fail for lack of memory.
pub proof fn law_candidates_are_tried_in_order(
    v: TiledView,
    types: Seq<u32>,
    outcome: StepOutcome,
    i: int,
)
    requires
        v.wf(),
        v.step matches TiledStep::CloseCandidate { memory_type } && memory_type < i < 32,
        vk_consumer::has_bit(v.mask(), i as u32),
    ensures
        v.next(types, outcome).step matches TiledStep::DupCandidate { memory_type } && memory_type
            <= i && vk_consumer::has_bit(v.mask(), memory_type) && memory_type
            > v.step->CloseCandidate_memory_type,
{
    let from = v.step->CloseCandidate_memory_type + 1;
    lemma_next_bit_bound(v.mask(), from);
    match vk_consumer::next_bit(v.mask(), from) {
        Some(b) => {
            if i < b {
                lemma_next_bit_is_first(v.mask(), from, i);
            }
        },
        None => {
            lemma_next_bit_is_first(v.mask(), from, i);
        },
    }
}

/// Once the memory types are known, the import fails for want of a shared one
/// exactly if the two sets have none in common.
pub proof fn law_no_shared_memory_type(v: TiledView, types: Seq<u32>, outcome: StepOutcome)
    requires
        v.wf(),
        v.step is CloseProbe,
        v.error is None,
    ensures
        v.image_bits & v.fd_bits == 0 <==> v.next(types, outcome).error == Some(
            TiledError::NoSharedMemoryType { image_bits: v.image_bits, fd_bits: v.fd_bits },
        ),
        v.image_bits & v.fd_bits != 0 <==> v.next(types, outcome).step is DupCandidate,
{
    let mask = v.mask();
    lemma_next_bit_bound(mask, 0);
    match vk_consumer::next_bit(mask, 0) {
        Some(b) => {
            assert((0u32 >> b) & 1 == 0) by (bit_vector);
        },
        None => {
            lemma_no_bits(mask);
        },
    }
}

/// A word without set bits is zero.
proof fn lemma_no_bits(word: u32)
    requires
        vk_consumer::next_bit(word, 0) is None,
    ensures
        word == 0,
{
    reveal_with_fuel(vk_consumer::next_bit, 34);
    assert(word == 0) by (bit_vector)
        requires
            (word >> 0u32) & 1 != 1,
            (word >> 1u32) & 1 != 1,
            (word >> 2u32) & 1 != 1,
            (word >> 3u32) & 1 != 1,
            (word >> 4u32) & 1 != 1,
            (word >> 5u32) & 1 != 1,
            (word >> 6u32) & 1 != 1,
            (word >> 7u32) & 1 != 1,
            (word >> 8u32) & 1 != 1,
            (word >> 9u32) & 1 != 1,
            (word >> 10u32) & 1 != 1,
            (word >> 11u32) & 1 != 1,
            (word >> 12u32) & 1 != 1,
            (word >> 13u32) & 1 != 1,
            (word >> 14u32) & 1 != 1,
            (word >> 15u32) & 1 != 1,
            (word >> 16u32) & 1 != 1,
            (word >> 17u32) & 1 != 1,
            (word >> 18u32) & 1 != 1,
            (word >> 19u32) & 1 != 1,
            (word >> 20u32) & 1 != 1,
            (word >> 21u32) & 1 != 1,
            (word >> 22u32) & 1 != 1,
            (word >> 23u32) & 1 != 1,
            (word >> 24u32) & 1 != 1,
            (word >> 25u32) & 1 != 1,
            (word >> 26u32) & 1 != 1,
            (word >> 27u32) & 1 != 1,
            (word >> 28u32) & 1 != 1,
            (word >> 29u32) & 1 != 1,
            (word >> 30u32) & 1 != 1,
            (word >> 31u32) & 1 != 1,
    ;
}

// ---------------------------------------------------------------------------
// Laws on whole imports
// ---------------------------------------------------------------------------

/// The state after a series of outcomes.
pub open spec fn run(v: TiledView, types: Seq<u32>, outcomes: Seq<StepOutcome>) -> TiledView
    decreases outcomes.len(),
{
    if outcomes.len() == 0 {
        v
    } else {
        run(v, types, outcomes.drop_last()).next(types, outcomes.last())
    }
}

/// The memory types that an import finds and the size that it asks for.
pub struct Plan {
    pub format: i32,
    pub memory_type: u32,
    pub staging_type: u32,
    pub size: u64,
}

/// The newest of so many objects.
pub open spec fn newest(held: nat) -> Resource {
    if held == 1 {
        Resource::Image
    } else if held == 2 {
        Resource::ImageMemory
    } else if held == 3 {
        Resource::StagingBuffer
    } else if held == 4 {
        Resource::StagingMemory
    } else if held == 5 {
        Resource::CommandBuffer
    } else if held == 6 {
        Resource::Semaphore
    } else {
        Resource::Fence
    }
}

/// The steps of an import in which nothing fails.
pub open spec fn step_in_order(plan: Plan, n: int) -> TiledStep {
    if n <= 11 {
        if n == 0 {
            TiledStep::CreateImage { format: plan.format }
        } else if n == 1 {
            TiledStep::DupProbe
        } else if n == 2 {
            TiledStep::Probe
        } else if n == 3 {
            TiledStep::CloseProbe
        } else if n == 4 {
            TiledStep::DupCandidate { memory_type: plan.memory_type }
        } else if n == 5 {
            TiledStep::Allocate { memory_type: plan.memory_type }
        } else if n == 6 {
            TiledStep::BindImage
        } else if n == 7 {
            TiledStep::CreateStaging { size: plan.size }
        } else if n == 8 {
            TiledStep::AllocateStaging { memory_type: plan.staging_type }
        } else if n == 9 {
            TiledStep::BindStaging
        } else if n == 10 {
            TiledStep::AllocateCommand
        } else {
            TiledStep::BeginCommand
        }
    } else if n <= 23 {
        if n == 12 {
            TiledStep::EndCommand
        } else if n == 13 {
            TiledStep::CreateSemaphore
        } else if n == 14 {
            TiledStep::DupAcquire
        } else if n == 15 {
            TiledStep::ImportSemaphore
        } else if n == 16 {
            TiledStep::CreateFence
        } else if n == 17 {
            TiledStep::Submit
        } else if n == 18 {
            TiledStep::Wait { timeout_ns: 5_000_000_000 }
        } else if n == 19 {
            TiledStep::MapStaging { size: plan.size }
        } else if n == 20 {
            TiledStep::CreateFile
        } else if n == 21 {
            TiledStep::WriteDump
        } else if n == 22 {
            TiledStep::UnmapStaging
        } else {
            TiledStep::WriteSidecar
        }
    } else if n <= 30 {
        TiledStep::Release { resource: newest((31 - n) as nat) }
    } else {
        TiledStep::Finished
    }
}

/// How many objects exist when step `n` of such an import is due.
pub open spec fn made_before(n: int) -> nat {
    if n <= 0 {
        0
    } else if n <= 5 {
        1
    } else if n <= 7 {
        2
    } else if n == 8 {
        3
    } else if n <= 10 {
        4
    } else if n <= 13 {
        5
    } else if n <= 16 {
        6
    } else if n <= 23 {
        7
    } else if n <= 30 {
        (31 - n) as nat
    } else {
        0
    }
}

/// Step `n` must go well: all but closing, unmapping and destroying.
pub open spec fn matters(n: int) -> bool {
    0 <= n < 24 && n != 3 && n != 22
}

/// The lowest memory type that takes the image and the descriptor.
pub open spec fn is_lowest_shared(image_bits: u32, fd_bits: u32, m: u32) -> bool {
    &&& m < 32
    &&& vk_consumer::has_bit(image_bits, m) && vk_consumer::has_bit(fd_bits, m)
    &&& forall|i: u32|
        i < m ==> !(#[trigger] vk_consumer::has_bit(image_bits, i) && vk_consumer::has_bit(
            fd_bits,
            i,
        ))
}

/// The host sees memory of this type, and sees it without flushing.
pub open spec fn is_host_readable(flags: u32) -> bool {
    vk_consumer::has_bit(flags, 1) && vk_consumer::has_bit(flags, 2)
}

/// The lowest memory type that takes the staging buffer and that the host can
/// read.
pub open spec fn is_lowest_readable(types: Seq<u32>, type_bits: u32, m: u32) -> bool {
    &&& m < types.len()
    &&& vk_consumer::has_bit(type_bits, m) && is_host_readable(types[m as int])
    &&& forall|i: int|
        0 <= i < m ==> !(vk_consumer::has_bit(type_bits, i as u32) && is_host_readable(
            #[trigger] types[i],
        ))
}

/// The outcomes of steps that all go well, for a plan that fits what the device
/// answers.
pub open spec fn goes_well(
    f: Frame,
    types: Seq<u32>,
    plan: Plan,
    outcomes: Seq<StepOutcome>,
) -> bool {
    &&& plan.size == f.width * f.height * 4
    &&& forall|j: int|
        0 <= j < outcomes.len() ==> #[trigger] outcome_fits(step_in_order(plan, j), outcomes[j])
    &&& forall|j: int|
        0 <= j < outcomes.len() && #[trigger] matters(j) ==> !(outcomes[j] is Failed)
    &&& outcomes.len() > 2 ==> is_lowest_shared(
        outcomes[2]->image_bits,
        outcomes[2]->fd_bits,
        plan.memory_type,
    )
    &&& outcomes.len() > 7 ==> is_lowest_readable(
        types,
        outcomes[7]->type_bits,
        plan.staging_type,
    )
}

proof fn lemma_shared_bit(a: u32, b: u32, i: u32)
    requires
        i < 32,
    ensures
        vk_consumer::has_bit(a & b, i) <==> vk_consumer::has_bit(a, i) && vk_consumer::has_bit(b, i),
{
    assert((((a & b) >> i) & 1 == 1) == ((a >> i) & 1 == 1 && (b >> i) & 1 == 1)) by (bit_vector)
        requires
            i < 32,
    ;
}

proof fn lemma_lowest_shared(a: u32, b: u32, m: u32)
    requires
        is_lowest_shared(a, b, m),
    ensures
        vk_consumer::next_bit(a & b, 0) == Some(m),
{
    lemma_shared_bit(a, b, m);
    lemma_next_bit_bound(a & b, 0);
    match vk_consumer::next_bit(a & b, 0) {
        Some(i) => {
            lemma_shared_bit(a, b, i);
            if m < i {
                lemma_next_bit_is_first(a & b, 0, m as int);
            }
        },
        None => {
            lemma_next_bit_is_first(a & b, 0, m as int);
        },
    }
}

proof fn lemma_host_readable(flags: u32)
    ensures
        is_host_readable(flags) <==> flags & 6 == 6,
{
    assert((flags & 6 == 6) == ((flags >> 1u32) & 1 == 1 && (flags >> 2u32) & 1 == 1))
        by (bit_vector);
}

proof fn lemma_lowest_readable(types: Seq<u32>, type_bits: u32, m: u32, from: int)
    requires
        is_lowest_readable(types, type_bits, m),
        types.len() <= 32,
        0 <= from <= m,
    ensures
        vk_consumer::first_fit(types, type_bits, 6, from) == Some(m),
    decreases m - from,
{
    lemma_host_readable(types[from]);
    if from < m {
        lemma_lowest_readable(types, type_bits, m, from + 1);
    }
}

/// As long as every step that matters goes well, the steps come in order: the
/// image first and the lowest memory that both sides take, then a staging buffer
/// for all pixels in the lowest memory that the host can read, then the copy
/// after the acquire fence, then the files; and at last everything is destroyed,
/// the newest first.
#[verifier::rlimit(60)]
pub proof fn law_steps_come_in_order(
    f: Frame,
    types: Seq<u32>,
    plan: Plan,
    outcomes: Seq<StepOutcome>,
)
    requires
        types.len() <= 32,
        goes_well(f, types, plan, outcomes),
    ensures
        ({
            let v = run(first_state(f, plan.format), types, outcomes);
            let n = outcomes.len() as int;
            &&& v.step == step_in_order(plan, n)
            &&& v.error is None
            &&& v.frame == f
            &&& v.held == made_before(n)
            &&& v.owns_fd <==> n == 2 || n == 3 || n == 5 || n == 15
            &&& n > 2 ==> v.image_bits == outcomes[2]->image_bits && v.fd_bits
                == outcomes[2]->fd_bits
        }),
    decreases outcomes.len(),
{
    if outcomes.len() > 0 {
        let head = outcomes.drop_last();
        let k = head.len() as int;
        assert forall|j: int| 0 <= j < head.len() implies #[trigger] outcome_fits(
            step_in_order(plan, j),
            head[j],
        ) by {
            assert(outcome_fits(step_in_order(plan, j), outcomes[j]));
        }
        assert forall|j: int| 0 <= j < head.len() && #[trigger] matters(j) implies !(
        head[j] is Failed) by {
            assert(!(outcomes[j] is Failed));
        }
        law_steps_come_in_order(f, types, plan, head);
        assert(outcome_fits(step_in_order(plan, k), outcomes[k]));
        assert(matters(k) ==> !(outcomes[k] is Failed));
        let v = run(first_state(f, plan.format), types, head);
        if k == 3 {
            lemma_lowest_shared(v.image_bits, v.fd_bits, plan.memory_type);
        }
        if k == 7 {
            lemma_lowest_readable(types, outcomes[7]->type_bits, plan.staging_type, 0);
        }
    }
}

/// The first step that matters and fails is what is reported, but for the
/// allocation of image memory, which may be tried again. Unless a duplicated
/// descriptor must be closed first, what exists is destroyed at once, the newest
/// first.
pub proof fn law_first_failure_is_reported(
    f: Frame,
    types: Seq<u32>,
    plan: Plan,
    outcomes: Seq<StepOutcome>,
)
    requires
        types.len() <= 32,
        goes_well(f, types, plan, outcomes),
        matters(outcomes.len() as int),
    ensures
        ({
            let n = outcomes.len() as int;
            let v = run(
                first_state(f, plan.format),
                types,
                outcomes.push(StepOutcome::Failed),
            );
            &&& v.frame == f
            &&& n != 5 ==> v.error == Some(TiledError::At { step: step_in_order(plan, n) })
            &&& n == 0 ==> v.step is Finished
            &&& n == 2 ==> v.step is CloseProbe
            &&& n == 5 ==> v.error is None && v.step == (TiledStep::CloseCandidate {
                memory_type: plan.memory_type,
            })
            &&& n == 15 ==> v.step is CloseAcquire
            &&& n != 0 && n != 2 && n != 5 && n != 15 ==> v.step == (TiledStep::Release {
                resource: newest(made_before(n)),
            })
        }),
{
    law_steps_come_in_order(f, types, plan, outcomes);
    let longer = outcomes.push(StepOutcome::Failed);
    assert(longer.drop_last() =~= outcomes);
}

/// Once something has gone wrong, or all is done, every object that exists is
/// destroyed: the newest first, the image last.
pub proof fn law_objects_go_in_reverse(v: TiledView, types: Seq<u32>, outcome: StepOutcome)
    requires
        v.wf(),
    ensures
        v.step is Release ==> v.step == (TiledStep::Release { resource: newest(v.held) }),
        v.step is Release && v.held > 1 ==> v.next(types, outcome).step == (TiledStep::Release {
            resource: newest((v.held - 1) as nat),
        }),
        v.step is Release && v.held == 1 ==> v.next(types, outcome).step is Finished,
        v.step is CloseAcquire ==> v.next(types, outcome).step == (TiledStep::Release {
            resource: Resource::Semaphore,
        }),
        v.step is CloseProbe && v.error is Some ==> v.next(types, outcome).step
            == (TiledStep::Release { resource: Resource::Image }),
        v.step is Finished ==> v.next(types, outcome) == v,
{
}

/// A memory type that fails is never tried again, and when no later one takes
/// both the image and the descriptor, the last one tried is reported.
pub proof fn law_last_candidate_is_reported(
    v: TiledView,
    types: Seq<u32>,
    outcome: StepOutcome,
    m: u32,
)
    requires
        v.wf(),
        v.step == (TiledStep::CloseCandidate { memory_type: m }),
    ensures
        ({
            let w = v.next(types, outcome);
            let none = forall|i: u32|
                m < i < 32 ==> !(#[trigger] vk_consumer::has_bit(v.image_bits, i)
                    && vk_consumer::has_bit(v.fd_bits, i));
            &&& w.error == Some(TiledError::MemoryExhausted { last: m }) <==> none
            &&& none ==> w.step == (TiledStep::Release { resource: Resource::Image })
            &&& !none ==> w.error is None && w.step is DupCandidate
            &&& w.image_bits == v.image_bits && w.fd_bits == v.fd_bits
        }),
{
    let mask = v.mask();
    lemma_next_bit_bound(mask, m + 1);
    match vk_consumer::next_bit(mask, m + 1) {
        Some(b) => {
            lemma_shared_bit(v.image_bits, v.fd_bits, b);
        },
        None => {
            assert forall|i: u32| m < i < 32 implies !(#[trigger] vk_consumer::has_bit(
                v.image_bits,
                i,
            ) && vk_consumer::has_bit(v.fd_bits, i)) by {
                lemma_next_bit_is_first(mask, m + 1, i as int);
                lemma_shared_bit(v.image_bits, v.fd_bits, i);
            }
        },
    }
}

/// Without memory for the staging buffer that the host can read, the import
/// fails for that reason, and the buffer is the first object to go.
pub proof fn law_no_readable_memory(v: TiledView, types: Seq<u32>, type_bits: u32)
    requires
        v.wf(),
        v.step is CreateStaging,
        types.len() <= 32,
        forall|i: int|
            0 <= i < types.len() ==> !(vk_consumer::has_bit(type_bits, i as u32)
                && is_host_readable(#[trigger] types[i])),
    ensures
        ({
            let w = v.next(types, StepOutcome::Sized { type_bits });
            &&& w.error == Some(TiledError::NoStagingType)
            &&& w.step == (TiledStep::Release { resource: Resource::StagingBuffer })
        }),
{
    lemma_none_readable(types, type_bits, 0);
}

proof fn lemma_none_readable(types: Seq<u32>, type_bits: u32, from: int)
    requires
        types.len() <= 32,
        0 <= from,
        forall|i: int|
            0 <= i < types.len() ==> !(vk_consumer::has_bit(type_bits, i as u32)
                && is_host_readable(#[trigger] types[i])),
    ensures
        vk_consumer::first_fit(types, type_bits, 6, from) is None,
    decreases types.len() - from,
{
    if from < types.len() {
        lemma_host_readable(types[from]);
        lemma_none_readable(types, type_bits, from + 1);
    }
}

/// The description of a copied frame says so, and how many bytes its pixels
/// have.
pub proof fn law_description_of_a_copied_frame(s: dump::Sidecar, f: Frame)
    requires
        describes_copied(s, f),
        f.width * f.height * 4 <= u64::MAX,
    ensures
        s.size == f.width * f.height * 4,
        s.import_path@ == "vulkan_copy_image_to_buffer"@,
        s.seq == f.seq,
        s.width == f.width && s.row_bytes == 4 * f.width,
        s.height == f.height && s.row_count == f.height,
{
    assert(f.width * f.height * 4 >= 0) by (nonlinear_arith)
        requires
            f.width >= 0,
            f.height >= 0,
    ;
}

/// From the first candidate on, and whichever candidate is tried, a step that
/// goes well is followed by the next one in order, and one that fails is
/// reported; what was found out before stays known.
#[verifier::rlimit(40)]
pub proof fn law_every_step_leads_to_the_next(
    v: TiledView,
    types: Seq<u32>,
    plan: Plan,
    outcome: StepOutcome,
    k: int,
)
    requires
        v.wf(),
        types.len() <= 32,
        4 <= k < 24,
        v.step == step_in_order(plan, k),
        outcome_fits(v.step, outcome),
        plan.size == v.frame.width * v.frame.height * 4,
        k == 7 && outcome is Sized ==> is_lowest_readable(
            types,
            outcome->type_bits,
            plan.staging_type,
        ),
    ensures
        ({
            let w = v.next(types, outcome);
            &&& w.frame == v.frame && w.image_bits == v.image_bits && w.fd_bits == v.fd_bits
            &&& !(outcome is Failed) || k == 22 ==> w.step == step_in_order(plan, k + 1) && w.error
                == v.error
            &&& outcome is Failed && k != 22 && k != 5 ==> w.error == Some(
                TiledError::At { step: v.step },
            )
            &&& outcome is Failed && k == 5 ==> w.error is None && w.step
                == (TiledStep::CloseCandidate { memory_type: plan.memory_type })
        }),
{
    if k == 7 && outcome is Sized {
        lemma_lowest_readable(types, outcome->type_bits, plan.staging_type, 0);
    }
}

} // verus!
