use waywallen::dump::{dump_file_name, sidecar, sidecar_file_name, Frame, ImportPath};
use waywallen::linear::{
    check_layout, pack_rows, poll_in, LinearError, LinearFailure, LinearImport, LinearStep,
    PollError,
};
use waywallen::tiled::{
    staging_size, Resource, StepOutcome, TiledError, TiledImport, TiledStep,
};
use waywallen::vk_consumer::{DeviceIdentity, DevicePlan, VkContext, DRM_FORMAT_ABGR8888};

fn frame() -> Frame {
    Frame {
        fourcc: DRM_FORMAT_ABGR8888,
        modifier: 0x0100_0000_0000_0001,
        width: 2,
        height: 3,
        stride: 10,
        plane_offset: 5,
        size: 40,
        seq: 42,
    }
}

fn context() -> VkContext {
    VkContext::new(
        &DevicePlan {
            queue_family: 0,
            have_drm: false,
            extensions: Vec::new(),
        },
        &DeviceIdentity {
            device_uuid: [0; 16],
            driver_uuid: [0; 16],
            has_render: 0,
            render_major: 0,
            render_minor: 0,
        },
        vec![1, 6, 7],
    )
}

#[test]
fn file_names() {
    assert_eq!(
        dump_file_name(&frame()),
        "consumer-000042-0x34324241-0x0100000000000001.bin"
    );
    assert_eq!(
        sidecar_file_name(&frame()),
        "consumer-000042-0x34324241-0x0100000000000001.json"
    );
    let mut late = frame();
    late.seq = 12_345_678;
    assert_eq!(
        dump_file_name(&late),
        "consumer-12345678-0x34324241-0x0100000000000001.bin"
    );
}

#[test]
fn names_tell_frames_apart() {
    let mut other = frame();
    other.modifier = 0;
    assert_ne!(dump_file_name(&frame()), dump_file_name(&other));
    let mut next = frame();
    next.seq += 1;
    assert_ne!(dump_file_name(&frame()), dump_file_name(&next));
}

#[test]
fn descriptions() {
    let s = sidecar(&frame(), 99, ImportPath::MmapLinear);
    assert_eq!(s.kind, "consumer");
    assert_eq!(s.seq, 42);
    assert_eq!(s.fourcc, "0x34324241");
    assert_eq!(s.modifier, "0x0100000000000001");
    assert_eq!((s.width, s.height, s.stride, s.plane_offset), (2, 3, 10, 5));
    assert_eq!((s.size, s.row_bytes, s.row_count), (99, 8, 3));
    assert_eq!(s.dump_layout, "tightly_packed_rgba8");
    assert_eq!(s.import_path, "mmap_linear");
    let s = sidecar(&frame(), 1, ImportPath::VulkanCopyImageToBuffer);
    assert_eq!(s.import_path, "vulkan_copy_image_to_buffer");
}

#[test]
fn layouts() {
    assert_eq!(check_layout(&frame()), Ok(()));
    let mut f = frame();
    f.stride = 7;
    f.size = 0;
    assert_eq!(check_layout(&f), Err(LinearError::StrideTooSmall));
    let mut f = frame();
    f.size = 34;
    assert_eq!(
        check_layout(&f),
        Err(LinearError::BufferTooSmall { needed: 35 })
    );
    f.size = 35;
    assert_eq!(check_layout(&f), Ok(()));
    let wide = Frame {
        width: 0x4000_0000,
        stride: u32::MAX,
        ..frame()
    };
    assert_eq!(check_layout(&wide), Err(LinearError::StrideTooSmall));
    let large = Frame {
        stride: u32::MAX,
        height: u32::MAX,
        plane_offset: u32::MAX,
        ..frame()
    };
    assert_eq!(
        check_layout(&large),
        Err(LinearError::BufferTooSmall {
            needed: 0xffff_ffff_0000_0000
        })
    );
}

#[test]
fn rows_are_packed_without_padding() {
    let bytes: Vec<u8> = (0..40).collect();
    let out = pack_rows(&bytes, &frame());
    let expected: Vec<u8> = (5..13).chain(15..23).chain(25..33).collect();
    assert_eq!(out, expected);
}

#[test]
fn poll_results() {
    let wanted = libc::POLLIN;
    assert_eq!(poll_in(-1, 0, wanted), Err(PollError::Failed));
    assert_eq!(poll_in(0, wanted, wanted), Err(PollError::TimedOut));
    assert_eq!(
        poll_in(1, libc::POLLERR, wanted),
        Err(PollError::NotReadable {
            revents: libc::POLLERR
        })
    );
    assert_eq!(poll_in(1, wanted | libc::POLLHUP, wanted), Ok(()));
}

#[test]
fn linear_import_runs_in_order() {
    let mut import = LinearImport::begin(&frame()).unwrap();
    let mut steps = Vec::new();
    while import.step() != LinearStep::Done {
        steps.push(import.step());
        import.advance(true);
    }
    assert_eq!(
        steps,
        vec![
            LinearStep::Wait { timeout_ms: 5000 },
            LinearStep::MapBuffer { len: 40 },
            LinearStep::SyncStart { flags: 1 },
            LinearStep::CreateFile,
            LinearStep::WriteRows,
            LinearStep::SyncEnd { flags: 5 },
            LinearStep::Unmap,
            LinearStep::WriteSidecar,
        ]
    );
    assert_eq!(import.sidecar().size, 40);
    assert_eq!(import.sidecar().import_path, "mmap_linear");
}

fn linear_failure(at: usize) -> LinearStep {
    let mut import = LinearImport::begin(&frame()).unwrap();
    for _ in 0..at {
        import.advance(true);
    }
    import.advance(false);
    import.step()
}

#[test]
fn linear_failures() {
    let failed = |at: LinearFailure| LinearStep::Failed { at };
    assert_eq!(linear_failure(0), failed(LinearFailure::Wait));
    assert_eq!(linear_failure(1), failed(LinearFailure::MapBuffer));
    assert_eq!(linear_failure(2), failed(LinearFailure::SyncStart));
    assert_eq!(linear_failure(3), failed(LinearFailure::CreateFile));
    assert_eq!(linear_failure(4), failed(LinearFailure::WriteRows));
    assert_eq!(linear_failure(5), LinearStep::Unmap);
    assert_eq!(linear_failure(7), failed(LinearFailure::WriteSidecar));
    let mut import = LinearImport::begin(&frame()).unwrap();
    import.advance(false);
    import.advance(true);
    assert_eq!(import.step(), failed(LinearFailure::Wait));
}

/// Answers a step as a device would that takes memory types 1 and 2.
fn answer(step: TiledStep) -> StepOutcome {
    match step {
        TiledStep::Probe => StepOutcome::Probed {
            image_bits: 0b0111,
            fd_bits: 0b1110,
        },
        TiledStep::CreateStaging { .. } => StepOutcome::Sized { type_bits: 0b111 },
        _ => StepOutcome::Done,
    }
}

#[test]
fn tiled_import_runs_in_order() {
    let ctx = context();
    let mut import = TiledImport::begin(&frame()).unwrap();
    let mut steps = Vec::new();
    while import.step() != TiledStep::Finished {
        steps.push(import.step());
        import.advance(&ctx, answer(import.step()));
    }
    assert_eq!(import.error(), None);
    assert_eq!(
        steps,
        vec![
            TiledStep::CreateImage { format: 37 },
            TiledStep::DupProbe,
            TiledStep::Probe,
            TiledStep::CloseProbe,
            TiledStep::DupCandidate { memory_type: 1 },
            TiledStep::Allocate { memory_type: 1 },
            TiledStep::BindImage,
            TiledStep::CreateStaging { size: 24 },
            TiledStep::AllocateStaging { memory_type: 1 },
            TiledStep::BindStaging,
            TiledStep::AllocateCommand,
            TiledStep::BeginCommand,
            TiledStep::EndCommand,
            TiledStep::CreateSemaphore,
            TiledStep::DupAcquire,
            TiledStep::ImportSemaphore,
            TiledStep::CreateFence,
            TiledStep::Submit,
            TiledStep::Wait {
                timeout_ns: 5_000_000_000
            },
            TiledStep::MapStaging { size: 24 },
            TiledStep::CreateFile,
            TiledStep::WriteDump,
            TiledStep::UnmapStaging,
            TiledStep::WriteSidecar,
            TiledStep::Release {
                resource: Resource::Fence
            },
            TiledStep::Release {
                resource: Resource::Semaphore
            },
            TiledStep::Release {
                resource: Resource::CommandBuffer
            },
            TiledStep::Release {
                resource: Resource::StagingMemory
            },
            TiledStep::Release {
                resource: Resource::StagingBuffer
            },
            TiledStep::Release {
                resource: Resource::ImageMemory
            },
            TiledStep::Release {
                resource: Resource::Image
            },
        ]
    );
    assert_eq!(import.sidecar().size, 24);
    assert_eq!(import.sidecar().import_path, "vulkan_copy_image_to_buffer");
}

#[test]
fn fourcc_without_a_format() {
    let mut f = frame();
    f.fourcc = 1;
    assert_eq!(TiledImport::begin(&f).err(), Some(TiledError::NoFormat));
}

#[test]
fn staging_holds_all_pixels() {
    assert_eq!(staging_size(&frame()), 24);
    let mut f = frame();
    f.width = 8192;
    f.height = 8192;
    assert_eq!(staging_size(&f), 268_435_456);
}

#[test]
fn candidates_are_tried_in_order() {
    let ctx = context();
    let mut import = TiledImport::begin(&frame()).unwrap();
    let mut tried = Vec::new();
    let mut closed = Vec::new();
    while import.step() != TiledStep::Finished {
        let outcome = match import.step() {
            TiledStep::Allocate { memory_type } => {
                tried.push(memory_type);
                StepOutcome::Failed
            }
            TiledStep::CloseCandidate { memory_type } => {
                closed.push(memory_type);
                StepOutcome::Done
            }
            step => answer(step),
        };
        import.advance(&ctx, outcome);
    }
    assert_eq!(tried, vec![1, 2]);
    assert_eq!(closed, tried);
    assert_eq!(
        import.error(),
        Some(TiledError::MemoryExhausted { last: 2 })
    );
}

#[test]
fn no_shared_memory_type() {
    let ctx = context();
    let mut import = TiledImport::begin(&frame()).unwrap();
    while import.step() != TiledStep::Finished {
        let outcome = match import.step() {
            TiledStep::Probe => StepOutcome::Probed {
                image_bits: 0b01,
                fd_bits: 0b10,
            },
            step => answer(step),
        };
        import.advance(&ctx, outcome);
    }
    assert_eq!(
        import.error(),
        Some(TiledError::NoSharedMemoryType {
            image_bits: 1,
            fd_bits: 2
        })
    );
}

#[test]
fn no_staging_type() {
    let ctx = context();
    let mut import = TiledImport::begin(&frame()).unwrap();
    while import.step() != TiledStep::Finished {
        let outcome = match import.step() {
            TiledStep::CreateStaging { .. } => StepOutcome::Sized { type_bits: 0b001 },
            step => answer(step),
        };
        import.advance(&ctx, outcome);
    }
    assert_eq!(import.error(), Some(TiledError::NoStagingType));
}

fn creates(step: TiledStep) -> bool {
    matches!(
        step,
        TiledStep::CreateImage { .. }
            | TiledStep::Allocate { .. }
            | TiledStep::CreateStaging { .. }
            | TiledStep::AllocateStaging { .. }
            | TiledStep::AllocateCommand
            | TiledStep::CreateSemaphore
            | TiledStep::CreateFence
    )
}

fn closes(step: TiledStep) -> bool {
    matches!(
        step,
        TiledStep::CloseProbe | TiledStep::CloseCandidate { .. } | TiledStep::CloseAcquire
    )
}

#[test]
fn failure_anywhere_gives_everything_back() {
    let ctx = context();
    for fail_at in 0..24 {
        let mut import = TiledImport::begin(&frame()).unwrap();
        let mut n = 0;
        let mut held = 0;
        let mut open = 0;
        let mut failed = None;
        while import.step() != TiledStep::Finished {
            let step = import.step();
            let releasing = matches!(step, TiledStep::Release { .. });
            let ok = n != fail_at || releasing;
            if !ok {
                failed = Some(step);
            }
            if releasing {
                held -= 1;
            } else if closes(step) {
                open -= 1;
            } else if ok {
                if creates(step) {
                    held += 1;
                }
                match step {
                    TiledStep::DupProbe | TiledStep::DupCandidate { .. } | TiledStep::DupAcquire => {
                        open += 1
                    }
                    TiledStep::Allocate { .. } | TiledStep::ImportSemaphore => open -= 1,
                    _ => {}
                }
            }
            import.advance(&ctx, if ok { answer(step) } else { StepOutcome::Failed });
            n += 1;
        }
        assert_eq!((held, open), (0, 0), "failed at {failed:?}");
        match failed {
            Some(step) if closes(step) || matches!(step, TiledStep::UnmapStaging) => {
                assert_eq!(import.error(), None)
            }
            Some(TiledStep::Allocate { .. }) => assert_eq!(import.error(), None),
            Some(step) => assert_eq!(import.error(), Some(TiledError::At { step })),
            None => panic!("every step is tried"),
        }
    }
}
