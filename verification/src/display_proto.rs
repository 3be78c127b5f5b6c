//! The messages of the display protocol that the dump display sends and
//! reads.
use vstd::prelude::*;

verus! {

/// What the dump display sends.
#[derive(Debug)]
pub enum Request {
    Hello {
        protocol: String,
        client_name: String,
        client_version: String,
        client_protocol_version: u32,
    },
    RegisterDisplay {
        name: String,
        instance_id: String,
        width: u32,
        height: u32,
        refresh_mhz: u32,
        drm_render_major: u32,
        drm_render_minor: u32,
        properties: Vec<(String, String)>,
    },
    ConsumerCaps(ConsumerCaps),
    Bye,
}

/// The pairs of fourcc and modifier that a consumer takes, as parallel lists:
/// `mod_counts` says how many of the modifiers belong to each fourcc, and
/// `usages` and `plane_counts` go with the modifiers.
#[derive(Debug)]
pub struct ConsumerCaps {
    pub fourccs: Vec<u32>,
    pub mod_counts: Vec<u32>,
    pub modifiers: Vec<u64>,
    pub usages: Vec<u32>,
    pub plane_counts: Vec<u32>,
    pub device_uuid: Vec<u32>,
    pub driver_uuid: Vec<u32>,
    pub drm_render_major: u32,
    pub drm_render_minor: u32,
    pub mem_hints: u32,
    pub sync_caps: u32,
    pub color_caps: u32,
    pub extent_max_w: u32,
    pub extent_max_h: u32,
}

/// What the daemon sends, as far as the dump display tells it apart.
#[derive(Debug)]
pub enum Event {
    Welcome { server_version: String },
    DisplayAccepted { display_id: u64 },
    BindBuffers(BindBuffers),
    SetConfig,
    FrameReady { buffer_index: u32, seq: u64 },
    Error { code: u32, message: String },
    Bye,
    Other,
}

/// A pool of buffers that frames will come in.
#[derive(Debug)]
pub struct BindBuffers {
    pub count: u32,
    pub width: u32,
    pub height: u32,
    pub fourcc: u32,
    pub modifier: u64,
    pub planes_per_buffer: u32,
    pub stride: Vec<u32>,
    pub plane_offset: Vec<u32>,
    pub size: Vec<u64>,
}

/// One message with its opcode and the number of descriptors that came with
/// it.
#[derive(Debug)]
pub struct Received {
    pub opcode: u32,
    pub event: Event,
    pub fd_count: usize,
}

} // verus!
