//! Reading a frame with the linear modifier back: wait, map, copy the rows
//! out, describe.
use crate::dump::{self, Frame};
use vstd::prelude::*;

verus! {

// ---------------------------------------------------------------------------
// Layout
// ---------------------------------------------------------------------------

/// Why a layout was refused.
#[derive(Debug, Clone, Copy, PartialEq, Eq, Structural)]
pub enum LinearError {
    /// A row of pixels does not fit in the stride.
    StrideTooSmall,
    /// The rows do not fit in the buffer, which needs this many bytes.
    BufferTooSmall { needed: u64 },
}

/// How many bytes the buffer must have.
pub open spec fn needed_bytes(f: Frame) -> int {
    f.stride * f.height + f.plane_offset
}

/// What is wrong with a layout, if anything. The stride is looked at first.
pub open spec fn layout_error(f: Frame) -> Option<LinearError> {
    if f.stride < f.row_bytes() {
        Some(LinearError::StrideTooSmall)
    } else if f.size < needed_bytes(f) {
        Some(LinearError::BufferTooSmall { needed: needed_bytes(f) as u64 })
    } else {
        None
    }
}

proof fn lemma_needed_fits(f: Frame)
    ensures
        0 <= f.stride * f.height <= needed_bytes(f) <= u64::MAX,
{
    assert(0 <= f.stride * f.height <= 0xffff_ffff * 0xffff_ffff) by (nonlinear_arith)
        requires
            0 <= f.stride <= 0xffff_ffff,
            0 <= f.height <= 0xffff_ffff,
    ;
}

/// Checks a layout.
pub fn check_layout(f: &Frame) -> (r: Result<(), LinearError>)
    ensures
        match r {
            Ok(()) => layout_error(*f) is None,
            Err(e) => layout_error(*f) == Some(e),
        },
{
    if (f.stride as u64) < f.width as u64 * 4 {
        return Err(LinearError::StrideTooSmall);
    }
    proof {
        lemma_needed_fits(*f);
    }
    let needed: u64 = f.stride as u64 * f.height as u64 + f.plane_offset as u64;
    if f.size < needed {
        return Err(LinearError::BufferTooSmall { needed });
    }
    Ok(())
}

/// The first `k` rows of a buffer, tightly packed.
pub open spec fn packed_rows(bytes: Seq<u8>, f: Frame, k: int) -> Seq<u8>
    decreases k,
{
    if k <= 0 {
        Seq::empty()
    } else {
        let start = f.plane_offset + (k - 1) * f.stride;
        packed_rows(bytes, f, k - 1) + bytes.subrange(start, start + f.row_bytes())
    }
}

/// Row `y` of a buffer with a sound layout lies inside the buffer.
pub proof fn law_rows_lie_in_the_buffer(f: Frame, y: int)
    requires
        layout_error(f) is None,
        0 <= y < f.height,
    ensures
        0 <= f.plane_offset + y * f.stride,
        f.plane_offset + y * f.stride + f.row_bytes() <= f.size,
{
    assert(y * f.stride >= 0 && y * f.stride + f.stride <= f.stride * f.height) by (nonlinear_arith)
        requires
            0 <= y < f.height,
            f.stride >= 0,
    ;
}

/// Copies the rows out of a mapped buffer, without the padding after each.
pub fn pack_rows(bytes: &[u8], f: &Frame) -> (out: Vec<u8>)
    requires
        layout_error(*f) is None,
        bytes@.len() == f.size,
    ensures
        out@ == packed_rows(bytes@, *f, f.height as int),
{
    let total: usize = bytes.len();
    let mut out: Vec<u8> = Vec::new();
    let mut y: u32 = 0;
    while y < f.height
        invariant
            y <= f.height,
            layout_error(*f) is None,
            bytes@.len() == f.size,
            total == bytes@.len(),
            out@ == packed_rows(bytes@, *f, y as int),
        decreases f.height - y,
    {
        proof {
            law_rows_lie_in_the_buffer(*f, y as int);
            assert(0 <= y * f.stride <= f.size) by {
                assert(y * f.stride >= 0) by (nonlinear_arith)
                    requires
                        y >= 0,
                        f.stride >= 0,
                ;
            }
        }
        let start: usize = (f.plane_offset as u64 + y as u64 * f.stride as u64) as usize;
        let len: usize = (f.width as u64 * 4) as usize;
        let ghost before = out@;
        let mut x: usize = 0;
        while x < len
            invariant
                x <= len,
                len == f.row_bytes(),
                start == f.plane_offset + y * f.stride,
                start + len <= total,
                total == bytes@.len(),
                out@ == before + bytes@.subrange(start as int, start + x),
            decreases len - x,
        {
            out.push(bytes[start + x]);
            assert(bytes@.subrange(start as int, start + x + 1) =~= bytes@.subrange(
                start as int,
                start + x,
            ).push(bytes@[start + x]));
            assert(out@ =~= before + bytes@.subrange(start as int, start + x + 1));
            x += 1;
        }
        y += 1;
    }
    out
}

/// A dump is tightly packed: it has as many bytes as its pixels.
pub proof fn law_dump_is_tightly_packed(bytes: Seq<u8>, f: Frame, k: int)
    requires
        layout_error(f) is None,
        bytes.len() == f.size,
        0 <= k <= f.height,
    ensures
        packed_rows(bytes, f, k).len() == k * f.row_bytes(),
    decreases k,
{
    if k > 0 {
        law_dump_is_tightly_packed(bytes, f, k - 1);
        law_rows_lie_in_the_buffer(f, k - 1);
        assert((k - 1) * f.row_bytes() + f.row_bytes() == k * f.row_bytes()) by (nonlinear_arith);
    } else {
        assert(0 * f.row_bytes() == 0);
    }
}

/// Byte `b` of row `y` of the dump is byte `b` of row `y` of the buffer.
pub proof fn law_dump_keeps_every_byte(bytes: Seq<u8>, f: Frame, k: int, y: int, b: int)
    requires
        layout_error(f) is None,
        bytes.len() == f.size,
        0 <= y < k <= f.height,
        0 <= b < f.row_bytes(),
    ensures
        0 <= y * f.row_bytes() + b < packed_rows(bytes, f, k).len(),
        packed_rows(bytes, f, k)[y * f.row_bytes() + b] == bytes[f.plane_offset + y * f.stride + b],
    decreases k,
{
    law_dump_is_tightly_packed(bytes, f, k - 1);
    law_rows_lie_in_the_buffer(f, k - 1);
    assert(0 <= y * f.row_bytes() + b < k * f.row_bytes()) by (nonlinear_arith)
        requires
            0 <= y < k,
            0 <= b < f.row_bytes(),
    ;
    if y < k - 1 {
        law_dump_keeps_every_byte(bytes, f, k - 1, y, b);
    }
}

// ---------------------------------------------------------------------------
// Waiting for the acquire fence
// ---------------------------------------------------------------------------

/// How long to wait for a frame, in milliseconds.
pub const ACQUIRE_TIMEOUT_MS: i32 = 5000;

/// Why waiting failed.
#[derive(Debug, Clone, Copy, PartialEq, Eq, Structural)]
pub enum PollError {
    Failed,
    TimedOut,
    /// Something else than readiness was reported.
    NotReadable { revents: i16 },
}

/// What follows from `count` ready descriptors and the events of this one.
pub open spec fn polled(count: i32, revents: i16, wanted: i16) -> Result<(), PollError> {
    if count < 0 {
        Err(PollError::Failed)
    } else if count == 0 {
        Err(PollError::TimedOut)
    } else if revents & wanted == 0 {
        Err(PollError::NotReadable { revents })
    } else {
        Ok(())
    }
}

/// Judges what `poll` returned for one descriptor: `count` ready descriptors
/// and the events of this one, of which `wanted` is the readable one.
pub fn poll_in(count: i32, revents: i16, wanted: i16) -> (r: Result<(), PollError>)
    ensures
        r == polled(count, revents, wanted),
{
    if count < 0 {
        Err(PollError::Failed)
    } else if count == 0 {
        Err(PollError::TimedOut)
    } else if revents & wanted == 0 {
        Err(PollError::NotReadable { revents })
    } else {
        Ok(())
    }
}

// ---------------------------------------------------------------------------
// Steps
// ---------------------------------------------------------------------------

/// The CPU access that a sync brackets is a read.
pub const DMA_BUF_SYNC_READ: u64 = 1;

/// The access begins.
pub const DMA_BUF_SYNC_START: u64 = 0;

/// The access ends.
pub const DMA_BUF_SYNC_END: u64 = 4;

/// What to do next.
#[derive(Debug, Clone, Copy, PartialEq, Eq, Structural)]
pub enum LinearStep {
    /// Wait for the acquire fence, this long.
    Wait { timeout_ms: i32 },
    /// Map this many bytes of the buffer for reading.
    MapBuffer { len: u64 },
    /// Begin CPU access with these flags.
    SyncStart { flags: u64 },
    CreateFile,
    /// Write what [`pack_rows`] returns.
    WriteRows,
    /// End CPU access with these flags; a failure is of no consequence.
    SyncEnd { flags: u64 },
    Unmap,
    WriteSidecar,
    Done,
    /// Give up: this step failed.
    Failed { at: LinearFailure },
}

/// The step that failed.
#[derive(Debug, Clone, Copy, PartialEq, Eq, Structural)]
pub enum LinearFailure {
    Wait,
    MapBuffer,
    SyncStart,
    CreateFile,
    WriteRows,
    WriteSidecar,
}

/// The first step for a frame.
pub open spec fn first_step() -> LinearStep {
    LinearStep::Wait { timeout_ms: ACQUIRE_TIMEOUT_MS }
}

/// The step after `step` went well, or failed.
pub open spec fn linear_next(f: Frame, step: LinearStep, ok: bool) -> LinearStep {
    match step {
        LinearStep::Wait { .. } => if ok {
            LinearStep::MapBuffer { len: f.size }
        } else {
            LinearStep::Failed { at: LinearFailure::Wait }
        },
        LinearStep::MapBuffer { .. } => if ok {
            LinearStep::SyncStart { flags: 1 }
        } else {
            LinearStep::Failed { at: LinearFailure::MapBuffer }
        },
        LinearStep::SyncStart { .. } => if ok {
            LinearStep::CreateFile
        } else {
            LinearStep::Failed { at: LinearFailure::SyncStart }
        },
        LinearStep::CreateFile => if ok {
            LinearStep::WriteRows
        } else {
            LinearStep::Failed { at: LinearFailure::CreateFile }
        },
        LinearStep::WriteRows => if ok {
            LinearStep::SyncEnd { flags: 5 }
        } else {
            LinearStep::Failed { at: LinearFailure::WriteRows }
        },
        LinearStep::SyncEnd { .. } => LinearStep::Unmap,
        LinearStep::Unmap => LinearStep::WriteSidecar,
        LinearStep::WriteSidecar => if ok {
            LinearStep::Done
        } else {
            LinearStep::Failed { at: LinearFailure::WriteSidecar }
        },
        LinearStep::Done => LinearStep::Done,
        LinearStep::Failed { at } => LinearStep::Failed { at },
    }
}

/// What is said of a frame that was mapped: it counts the bytes of the buffer.
pub open spec fn describes_mapped(s: dump::Sidecar, f: Frame) -> bool {
    dump::describes(s, f, f.size, dump::ImportPath::MmapLinear)
}

/// Reads one linear frame back, step by step.
#[derive(Debug)]
pub struct LinearImport {
    frame: Frame,
    step: LinearStep,
}

impl LinearImport {
    pub closed spec fn frame_view(&self) -> Frame {
        self.frame
    }

    pub closed spec fn step_view(&self) -> LinearStep {
        self.step
    }

    /// Begins with a frame whose layout is sound.
    pub fn begin(frame: &Frame) -> (r: Result<Self, LinearError>)
        ensures
            match r {
                Ok(import) => layout_error(*frame) is None && import.frame_view() == *frame
                    && import.step_view() == first_step(),
                Err(e) => layout_error(*frame) == Some(e),
            },
    {
        match check_layout(frame) {
            Ok(()) => Ok(
                LinearImport {
                    frame: *frame,
                    step: LinearStep::Wait { timeout_ms: ACQUIRE_TIMEOUT_MS },
                },
            ),
            Err(e) => Err(e),
        }
    }

    /// What to do next.
    pub fn step(&self) -> (step: LinearStep)
        ensures
            step == self.step_view(),
    {
        self.step
    }

    /// Goes on after a step.
    pub fn advance(&mut self, ok: bool)
        ensures
            final(self).frame_view() == old(self).frame_view(),
            final(self).step_view() == linear_next(
                old(self).frame_view(),
                old(self).step_view(),
                ok,
            ),
    {
        assert(0u64 | 1u64 == 1u64) by (bit_vector);
        assert(4u64 | 1u64 == 5u64) by (bit_vector);
        self.step = match self.step {
            LinearStep::Wait { .. } => if ok {
                LinearStep::MapBuffer { len: self.frame.size }
            } else {
                LinearStep::Failed { at: LinearFailure::Wait }
            },
            LinearStep::MapBuffer { .. } => if ok {
                LinearStep::SyncStart { flags: DMA_BUF_SYNC_START | DMA_BUF_SYNC_READ }
            } else {
                LinearStep::Failed { at: LinearFailure::MapBuffer }
            },
            LinearStep::SyncStart { .. } => if ok {
                LinearStep::CreateFile
            } else {
                LinearStep::Failed { at: LinearFailure::SyncStart }
            },
            LinearStep::CreateFile => if ok {
                LinearStep::WriteRows
            } else {
                LinearStep::Failed { at: LinearFailure::CreateFile }
            },
            LinearStep::WriteRows => if ok {
                LinearStep::SyncEnd { flags: DMA_BUF_SYNC_END | DMA_BUF_SYNC_READ }
            } else {
                LinearStep::Failed { at: LinearFailure::WriteRows }
            },
            LinearStep::SyncEnd { .. } => LinearStep::Unmap,
            LinearStep::Unmap => LinearStep::WriteSidecar,
            LinearStep::WriteSidecar => if ok {
                LinearStep::Done
            } else {
                LinearStep::Failed { at: LinearFailure::WriteSidecar }
            },
            LinearStep::Done => LinearStep::Done,
            LinearStep::Failed { at } => LinearStep::Failed { at },
        };
    }

    /// The description of the dump.
    pub fn sidecar(&self) -> (s: dump::Sidecar)
        ensures
            describes_mapped(s, self.frame_view()),
    {
        dump::sidecar(&self.frame, self.frame.size, dump::ImportPath::MmapLinear)
    }
}

/// The step after a series of outcomes.
pub open spec fn linear_run(f: Frame, outcomes: Seq<bool>) -> LinearStep
    decreases outcomes.len(),
{
    if outcomes.len() == 0 {
        first_step()
    } else {
        linear_next(f, linear_run(f, outcomes.drop_last()), outcomes.last())
    }
}

/// An import ends after at most eight steps, well or badly.
pub proof fn law_linear_import_ends(f: Frame, outcomes: Seq<bool>)
    requires
        outcomes.len() >= 8,
    ensures
        linear_run(f, outcomes) is Done || linear_run(f, outcomes) is Failed,
    decreases outcomes.len(),
{
    if outcomes.len() > 8 {
        law_linear_import_ends(f, outcomes.drop_last());
    } else {
        reveal_with_fuel(linear_run, 9);
    }
}

/// The dump is described only after the buffer was unmapped, that only after
/// CPU access was ended, and that only after all rows were written.
pub proof fn law_access_is_ended_before_the_sidecar(f: Frame, step: LinearStep, ok: bool)
    ensures
        linear_next(f, step, ok) is WriteSidecar ==> step is Unmap,
        linear_next(f, step, ok) is Unmap ==> step is SyncEnd,
        linear_next(f, step, ok) is SyncEnd ==> step is WriteRows && ok,
        linear_next(f, step, ok) is Done ==> step is Done || step is WriteSidecar && ok,
{
}

/// A layout is refused exactly if four bytes to a pixel do not fit in a row, or
/// else the rows and what comes before them do not fit in the buffer.
pub proof fn law_layout_is_refused_exactly_if_it_does_not_fit(f: Frame)
    ensures
        layout_error(f) == Some(LinearError::StrideTooSmall) <==> f.stride < 4 * f.width,
        layout_error(f) matches Some(LinearError::BufferTooSmall { needed }) ==> needed
            == f.plane_offset + f.height * f.stride,
        (layout_error(f) matches Some(LinearError::BufferTooSmall { .. })) <==> f.stride >= 4 * f.width
            && f.plane_offset + f.height * f.stride > f.size,
{
    lemma_needed_fits(f);
    assert(f.stride * f.height == f.height * f.stride) by (nonlinear_arith);
}

/// Byte `c` of pixel `x` in row `y` of the dump is that of the buffer; the dump
/// holds these bytes and no others.
pub proof fn law_dump_keeps_every_pixel(bytes: Seq<u8>, f: Frame, x: int, y: int, c: int)
    requires
        f.stride >= 4 * f.width,
        f.size >= f.plane_offset + f.height * f.stride,
        bytes.len() == f.size,
        0 <= x < f.width,
        0 <= y < f.height,
        0 <= c < 4,
    ensures
        packed_rows(bytes, f, f.height as int).len() == 4 * (f.height * f.width),
        packed_rows(bytes, f, f.height as int)[4 * (y * f.width + x) + c]
            == bytes[f.plane_offset + y * f.stride + 4 * x + c],
{
    law_layout_is_refused_exactly_if_it_does_not_fit(f);
    law_dump_is_tightly_packed(bytes, f, f.height as int);
    law_dump_keeps_every_byte(bytes, f, f.height as int, y, 4 * x + c);
    assert(f.height * (f.width * 4) == 4 * (f.height * f.width)) by (nonlinear_arith);
    assert(y * (f.width * 4) + (4 * x + c) == 4 * (y * f.width + x) + c) by (nonlinear_arith);
}

/// Waiting succeeds exactly if a descriptor is ready and one of its events is
/// wanted; otherwise the reason is told apart.
pub proof fn law_waiting_succeeds_exactly_if_readable(count: i32, revents: i16, wanted: i16)
    ensures
        polled(count, revents, wanted) is Ok <==> count >= 1 && revents & wanted != 0,
        polled(count, revents, wanted) == Err::<(), PollError>(PollError::TimedOut) <==> count == 0,
        polled(count, revents, wanted) == Err::<(), PollError>(PollError::Failed) <==> count <= -1,
        polled(count, revents, wanted) matches Err(PollError::NotReadable { revents: told }) ==> told
            == revents,
{
}

/// The steps of an import in which nothing fails.
pub open spec fn step_in_order(f: Frame, n: int) -> LinearStep {
    if n == 0 {
        LinearStep::Wait { timeout_ms: 5000 }
    } else if n == 1 {
        LinearStep::MapBuffer { len: f.size }
    } else if n == 2 {
        LinearStep::SyncStart { flags: 1 }
    } else if n == 3 {
        LinearStep::CreateFile
    } else if n == 4 {
        LinearStep::WriteRows
    } else if n == 5 {
        LinearStep::SyncEnd { flags: 5 }
    } else if n == 6 {
        LinearStep::Unmap
    } else if n == 7 {
        LinearStep::WriteSidecar
    } else {
        LinearStep::Done
    }
}

/// Step `n` must go well: all but the end of the access and the unmapping.
pub open spec fn matters(n: int) -> bool {
    0 <= n < 8 && n != 5 && n != 6
}

/// As long as every step that matters goes well, the steps come in order.
pub proof fn law_steps_come_in_order(f: Frame, outcomes: Seq<bool>)
    requires
        forall|j: int| 0 <= j < outcomes.len() && #[trigger] matters(j) ==> outcomes[j],
    ensures
        linear_run(f, outcomes) == step_in_order(f, outcomes.len() as int),
    decreases outcomes.len(),
{
    if outcomes.len() > 0 {
        let head = outcomes.drop_last();
        assert forall|j: int| 0 <= j < head.len() && #[trigger] matters(j) implies head[j] by {
            assert(outcomes[j]);
        }
        law_steps_come_in_order(f, head);
        assert(matters(outcomes.len() - 1) ==> outcomes.last());
    }
}

/// The first step that matters and fails is what is reported, from then on.
pub proof fn law_first_failure_is_reported(f: Frame, outcomes: Seq<bool>, k: int)
    requires
        0 <= k < outcomes.len(),
        matters(k),
        !outcomes[k],
        forall|j: int| 0 <= j < k && #[trigger] matters(j) ==> outcomes[j],
    ensures
        linear_run(f, outcomes) == (LinearStep::Failed {
            at: if k == 0 {
                LinearFailure::Wait
            } else if k == 1 {
                LinearFailure::MapBuffer
            } else if k == 2 {
                LinearFailure::SyncStart
            } else if k == 3 {
                LinearFailure::CreateFile
            } else if k == 4 {
                LinearFailure::WriteRows
            } else {
                LinearFailure::WriteSidecar
            },
        }),
    decreases outcomes.len(),
{
    let head = outcomes.drop_last();
    if k == outcomes.len() - 1 {
        assert forall|j: int| 0 <= j < head.len() && #[trigger] matters(j) implies head[j] by {
            assert(outcomes[j]);
        }
        law_steps_come_in_order(f, head);
    } else {
        assert forall|j: int| 0 <= j < k && #[trigger] matters(j) implies head[j] by {
            assert(outcomes[j]);
        }
        law_first_failure_is_reported(f, head, k);
    }
}

/// The description of a mapped frame says so, and how large the whole buffer
/// is.
pub proof fn law_description_of_a_mapped_frame(s: dump::Sidecar, f: Frame)
    requires
        describes_mapped(s, f),
    ensures
        s.size == f.size,
        s.import_path@ == "mmap_linear"@,
        s.seq == f.seq,
        s.width == f.width && s.row_bytes == 4 * f.width,
        s.height == f.height && s.row_count == f.height,
{
}

} // verus!
