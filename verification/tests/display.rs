use waywallen::cli::Cli;
use waywallen::consumer::{descriptor, Consumer, ConsumerError, ConsumerStep};
use waywallen::display_proto::{BindBuffers, Event, Received, Request};
use waywallen::dump::Frame;
use waywallen::handshake::{
    consumer_caps, hello, received, register_display, sent, HandshakeError, HandshakeStep,
    ProtocolInfo,
};
use waywallen::vk_consumer::{DeviceIdentity, DevicePlan, NegotiateWords, VkContext};

fn cli(advertise: Vec<(u32, u64)>) -> Cli {
    Cli {
        socket: None,
        advertise,
        dump_dir: None,
        frames: 1,
        print_caps: false,
        name: "probe".to_string(),
    }
}

fn context() -> VkContext {
    VkContext::new(
        &DevicePlan {
            queue_family: 0,
            have_drm: true,
            extensions: Vec::new(),
        },
        &DeviceIdentity {
            device_uuid: [1, 0, 0, 0, 2, 0, 0, 0, 3, 0, 0, 0, 4, 0, 0, 0],
            driver_uuid: [0, 1, 0, 0, 0, 0, 0, 0, 0, 0, 0, 0, 0, 0, 0, 0],
            has_render: 1,
            render_major: 226,
            render_minor: 129,
        },
        Vec::new(),
    )
}

fn message(event: Event, fd_count: usize) -> Option<Received> {
    Some(Received {
        opcode: 7,
        event,
        fd_count,
    })
}

#[test]
fn first_request() {
    let info = ProtocolInfo {
        protocol: "waywallen-display-v3".to_string(),
        protocol_version: 3,
        client_version: "0.1.0".to_string(),
    };
    match hello(&cli(vec![]), &info) {
        Request::Hello {
            protocol,
            client_name,
            client_version,
            client_protocol_version,
        } => {
            assert_eq!(protocol, "waywallen-display-v3");
            assert_eq!(client_name, "probe");
            assert_eq!(client_version, "0.1.0");
            assert_eq!(client_protocol_version, 3);
        }
        _ => panic!("the first request says hello"),
    }
}

#[test]
fn second_request() {
    match register_display(&cli(vec![]), &context()) {
        Request::RegisterDisplay {
            name,
            instance_id,
            width,
            height,
            refresh_mhz,
            drm_render_major,
            drm_render_minor,
            properties,
        } => {
            assert_eq!(name, "probe");
            assert_eq!(instance_id, "");
            assert_eq!((width, height, refresh_mhz), (1920, 1080, 60_000));
            assert_eq!((drm_render_major, drm_render_minor), (226, 129));
            assert!(properties.is_empty());
        }
        _ => panic!("the second request registers"),
    }
}

#[test]
fn advertised_pairs_are_grouped_by_fourcc() {
    let words = NegotiateWords {
        usage_sampled: 1,
        usage_transfer_dst: 4,
        sync_syncobj_binary: 2,
        sync_syncobj_timeline: 8,
        default_color: 9,
        mem_hint_host_visible: 3,
    };
    let pairs = vec![(20, 5), (10, 7), (20, 1), (10, 7), (30, 0)];
    let caps = consumer_caps(&cli(pairs), &context(), &words);
    assert_eq!(caps.fourccs, vec![10, 20, 30]);
    assert_eq!(caps.mod_counts, vec![2, 2, 1]);
    assert_eq!(caps.modifiers, vec![7, 7, 5, 1, 0]);
    assert_eq!(caps.usages, vec![5; 5]);
    assert_eq!(caps.plane_counts, vec![1; 5]);
    assert_eq!(caps.device_uuid, vec![1, 2, 3, 4]);
    assert_eq!(caps.driver_uuid, vec![256, 0, 0, 0]);
    assert_eq!((caps.drm_render_major, caps.drm_render_minor), (226, 129));
    assert_eq!((caps.mem_hints, caps.sync_caps, caps.color_caps), (3, 10, 9));
    assert_eq!((caps.extent_max_w, caps.extent_max_h), (8192, 8192));
}

#[test]
fn nothing_advertised_sends_empty_lists() {
    let words = NegotiateWords {
        usage_sampled: 0,
        usage_transfer_dst: 0,
        sync_syncobj_binary: 0,
        sync_syncobj_timeline: 0,
        default_color: 0,
        mem_hint_host_visible: 0,
    };
    let caps = consumer_caps(&cli(vec![]), &context(), &words);
    assert!(caps.fourccs.is_empty() && caps.mod_counts.is_empty() && caps.modifiers.is_empty());
}

fn welcome() -> Option<Received> {
    message(
        Event::Welcome {
            server_version: "1".to_string(),
        },
        0,
    )
}

#[test]
fn handshake_that_is_answered() {
    let step = sent(HandshakeStep::SendHello, true);
    assert_eq!(step, HandshakeStep::AwaitWelcome);
    let step = received(step, welcome());
    assert_eq!(step, HandshakeStep::SendRegister);
    let step = sent(step, true);
    assert_eq!(step, HandshakeStep::AwaitAccepted);
    let step = received(step, message(Event::DisplayAccepted { display_id: 12 }, 0));
    assert_eq!(step, HandshakeStep::SendCaps { display_id: 12 });
    assert_eq!(sent(step, true), HandshakeStep::Done { display_id: 12 });
}

#[test]
fn handshake_errors() {
    let failed = |error: HandshakeError| HandshakeStep::Failed { error };
    assert_eq!(
        sent(HandshakeStep::SendHello, false),
        failed(HandshakeError::SendHello)
    );
    assert_eq!(
        received(HandshakeStep::AwaitWelcome, None),
        failed(HandshakeError::ReceiveWelcome)
    );
    assert_eq!(
        received(HandshakeStep::AwaitWelcome, message(Event::SetConfig, 0)),
        failed(HandshakeError::NoWelcome { opcode: 7 })
    );
    assert_eq!(
        sent(HandshakeStep::SendRegister, false),
        failed(HandshakeError::SendRegister)
    );
    assert_eq!(
        received(HandshakeStep::AwaitAccepted, None),
        failed(HandshakeError::ReceiveAccepted)
    );
    assert_eq!(
        received(
            HandshakeStep::AwaitAccepted,
            message(
                Event::Error {
                    code: 4,
                    message: "full".to_string()
                },
                0
            )
        ),
        failed(HandshakeError::Refused {
            code: 4,
            message: "full".to_string()
        })
    );
    assert_eq!(
        received(HandshakeStep::AwaitAccepted, welcome()),
        failed(HandshakeError::NotAccepted { opcode: 7 })
    );
    assert_eq!(
        sent(HandshakeStep::SendCaps { display_id: 1 }, false),
        failed(HandshakeError::SendCaps)
    );
    let end = failed(HandshakeError::SendHello);
    assert_eq!(received(sent(end.clone(), true), welcome()), end);
}

fn bind(count: u32, planes: u32) -> Event {
    Event::BindBuffers(BindBuffers {
        count,
        width: 64,
        height: 32,
        fourcc: 11,
        modifier: 22,
        planes_per_buffer: planes,
        stride: vec![256, 512],
        plane_offset: vec![0, 16],
        size: vec![8192, 16400],
    })
}

fn frame_ready(buffer_index: u32, seq: u64) -> Event {
    Event::FrameReady { buffer_index, seq }
}

#[test]
fn frames_are_read_back_and_released() {
    let mut c = Consumer::begin(2, true);
    assert_eq!(*c.step(), ConsumerStep::Receive);
    c.received(message(bind(2, 1), 2));
    assert_eq!(*c.step(), ConsumerStep::KeepAndReceive);
    c.received(message(Event::SetConfig, 0));
    assert_eq!(*c.step(), ConsumerStep::Receive);
    c.received(message(frame_ready(1, 5), 2));
    assert_eq!(
        *c.step(),
        ConsumerStep::ReadBack {
            index: 1,
            frame: Frame {
                fourcc: 11,
                modifier: 22,
                width: 64,
                height: 32,
                stride: 512,
                plane_offset: 16,
                size: 16400,
                seq: 5,
            }
        }
    );
    c.read_back(true);
    assert_eq!(*c.step(), ConsumerStep::Release);
    assert_eq!(c.frames_seen(), 0);
    c.released(true);
    assert_eq!(c.frames_seen(), 1);
    assert_eq!(*c.step(), ConsumerStep::Receive);
    c.received(message(Event::Other, 1));
    c.received(message(frame_ready(0, 6), 2));
    c.read_back(true);
    c.released(true);
    assert_eq!(*c.step(), ConsumerStep::Done);
    assert_eq!(c.frames_seen(), 2);
}

#[test]
fn without_a_dump_frames_are_only_released() {
    let mut c = Consumer::begin(1, false);
    c.received(message(bind(3, 1), 3));
    let beyond = message(frame_ready(2, 1), 2);
    assert!(c.knows_layout(&beyond));
    c.received(beyond);
    assert_eq!(*c.step(), ConsumerStep::Release);
    c.released(true);
    assert_eq!(*c.step(), ConsumerStep::Done);
}

#[test]
fn acquire_comes_before_release() {
    let mut c = Consumer::begin(1, true);
    assert_eq!(descriptor(c.step()), None);
    c.received(message(bind(1, 1), 1));
    assert_eq!(descriptor(c.step()), None);
    c.received(message(frame_ready(0, 1), 2));
    assert_eq!(descriptor(c.step()), Some(0));
    c.read_back(true);
    assert_eq!(descriptor(c.step()), Some(1));
    c.released(true);
    assert_eq!(descriptor(c.step()), None);
}

#[test]
fn no_frames_wanted() {
    assert_eq!(*Consumer::begin(0, true).step(), ConsumerStep::Done);
}

#[test]
fn goodbye_ends_the_run_well() {
    let mut c = Consumer::begin(3, true);
    c.received(message(Event::Bye, 0));
    assert_eq!(*c.step(), ConsumerStep::Done);
    assert_eq!(c.frames_seen(), 0);
}

#[test]
fn failed_reading_is_released_before_it_is_reported() {
    for released in [true, false] {
        let mut c = Consumer::begin(1, true);
        c.received(message(bind(1, 1), 1));
        c.received(message(frame_ready(0, 1), 2));
        c.read_back(false);
        assert_eq!(*c.step(), ConsumerStep::Release);
        c.released(released);
        assert_eq!(
            *c.step(),
            ConsumerStep::Failed {
                error: ConsumerError::ReadBack
            }
        );
        assert_eq!(c.frames_seen(), 0);
    }
}

fn after(first: Option<Event>, next: Option<Received>) -> ConsumerStep {
    let mut c = Consumer::begin(1, true);
    if let Some(event) = first {
        c.received(message(event, 2));
    }
    c.received(next);
    c.step().clone()
}

#[test]
fn consumer_errors() {
    let failed = |error: ConsumerError| ConsumerStep::Failed { error };
    assert_eq!(after(None, None), failed(ConsumerError::Receive));
    assert_eq!(
        after(None, message(bind(2, 2), 3)),
        failed(ConsumerError::PoolFds {
            expected: 4,
            got: 3,
            count: 2,
            planes_per_buffer: 2
        })
    );
    assert_eq!(
        after(None, message(bind(u32::MAX, u32::MAX), 1)),
        failed(ConsumerError::PoolFds {
            expected: 0xffff_fffe_0000_0001,
            got: 1,
            count: u32::MAX,
            planes_per_buffer: u32::MAX
        })
    );
    assert_eq!(
        after(None, message(frame_ready(0, 1), 1)),
        failed(ConsumerError::FrameFds { got: 1 })
    );
    assert_eq!(
        after(None, message(frame_ready(0, 1), 2)),
        failed(ConsumerError::FrameWithoutPool)
    );
    assert_eq!(
        after(Some(bind(2, 1)), message(frame_ready(2, 1), 2)),
        failed(ConsumerError::OutOfPool { index: 2, pool: 2 })
    );
    assert_eq!(
        after(
            None,
            message(
                Event::Error {
                    code: 3,
                    message: "gone".to_string()
                },
                0
            )
        ),
        failed(ConsumerError::Daemon {
            code: 3,
            message: "gone".to_string()
        })
    );
    let mut c = Consumer::begin(1, false);
    c.received(message(bind(1, 1), 1));
    c.received(message(frame_ready(0, 1), 2));
    c.released(false);
    assert_eq!(*c.step(), failed(ConsumerError::Release));
}

#[test]
fn buffer_without_a_layout_is_noticed() {
    let mut c = Consumer::begin(1, true);
    c.received(message(bind(3, 1), 3));
    assert!(c.knows_layout(&message(frame_ready(1, 1), 2)));
    assert!(!c.knows_layout(&message(frame_ready(2, 1), 2)));
    assert!(c.knows_layout(&message(frame_ready(3, 1), 2)));
    assert!(c.knows_layout(&message(frame_ready(2, 1), 1)));
    assert!(c.knows_layout(&None));
}

#[test]
fn later_pool_replaces_an_earlier_one() {
    let mut c = Consumer::begin(1, true);
    c.received(message(bind(2, 1), 2));
    c.received(message(bind(1, 1), 1));
    c.received(message(frame_ready(1, 1), 2));
    assert_eq!(
        *c.step(),
        ConsumerStep::Failed {
            error: ConsumerError::OutOfPool { index: 1, pool: 1 }
        }
    );
}
