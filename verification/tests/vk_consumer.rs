use waywallen::dump::Frame;
use waywallen::linear::LinearError;
use waywallen::tiled::TiledError;
use waywallen::vk_consumer::{
    bit_is_set, bytes16_to_u32x4, choose_device, drm_fourcc_to_vk, find_bit, formats_to_query,
    modifiers_for, plan_device, query_caps, required_names,
    uuid_str, CapsError, DeviceIdentity, DevicePlan,
    DrmModifierProps, Import, ImportError, NegotiateWords, SetupError, VkContext,
};

const ABGR: u32 = u32::from_le_bytes(*b"AB24");
const XBGR: u32 = u32::from_le_bytes(*b"XB24");
const ARGB: u32 = u32::from_le_bytes(*b"AR24");
const XRGB: u32 = u32::from_le_bytes(*b"XR24");

const WORDS: NegotiateWords = NegotiateWords {
    usage_sampled: 1,
    usage_transfer_dst: 8,
    sync_syncobj_binary: 2,
    sync_syncobj_timeline: 4,
    default_color: 77,
    mem_hint_host_visible: 5,
};

fn required() -> Vec<String> {
    [
        ash::khr::external_memory_fd::NAME,
        ash::ext::external_memory_dma_buf::NAME,
        ash::ext::image_drm_format_modifier::NAME,
        ash::khr::external_semaphore_fd::NAME,
    ]
    .iter()
    .map(|n| n.to_str().unwrap().to_string())
    .collect()
}

fn drm_name() -> String {
    ash::ext::physical_device_drm::NAME
        .to_str()
        .unwrap()
        .to_string()
}

fn identity() -> DeviceIdentity {
    DeviceIdentity {
        device_uuid: [1, 2, 3, 4, 5, 6, 7, 8, 9, 10, 11, 12, 13, 14, 15, 16],
        driver_uuid: [0xff; 16],
        has_render: 1,
        render_major: 226,
        render_minor: 128,
    }
}

fn plan(have_drm: bool) -> DevicePlan {
    DevicePlan {
        queue_family: 3,
        have_drm,
        extensions: Vec::new(),
    }
}

fn props(modifier: u64, plane_count: u32, features: u32) -> DrmModifierProps {
    DrmModifierProps {
        modifier,
        plane_count,
        tiling_features: features,
    }
}

fn frame(fourcc: u32, modifier: u64) -> Frame {
    Frame {
        fourcc,
        modifier,
        width: 4,
        height: 2,
        stride: 16,
        plane_offset: 0,
        size: 32,
        seq: 1,
    }
}

#[test]
fn formats_are_those_of_vulkan() {
    let rgba = ash::vk::Format::R8G8B8A8_UNORM.as_raw();
    let bgra = ash::vk::Format::B8G8R8A8_UNORM.as_raw();
    assert_eq!((rgba, bgra), (37, 44));
    assert_eq!(drm_fourcc_to_vk(ABGR), Some(rgba));
    assert_eq!(drm_fourcc_to_vk(XBGR), Some(rgba));
    assert_eq!(drm_fourcc_to_vk(ARGB), Some(bgra));
    assert_eq!(drm_fourcc_to_vk(XRGB), Some(bgra));
    assert_eq!(drm_fourcc_to_vk(0), None);
    let list = formats_to_query();
    assert_eq!(list, vec![(ABGR, 37), (XBGR, 37), (ARGB, 44), (XRGB, 44)]);
}

#[test]
fn only_copyable_modifiers_are_kept() {
    let src = ash::vk::FormatFeatureFlags::TRANSFER_SRC.as_raw();
    let sampled = ash::vk::FormatFeatureFlags::SAMPLED_IMAGE.as_raw();
    let mods = modifiers_for(
        &vec![props(7, 1, src), props(8, 2, sampled), props(9, 3, src | sampled)],
        &WORDS,
    );
    assert_eq!(mods.len(), 2);
    assert_eq!(
        (mods[0].modifier, mods[0].usage, mods[0].plane_count),
        (7, 9, 1)
    );
    assert_eq!(
        (mods[1].modifier, mods[1].usage, mods[1].plane_count),
        (9, 9, 3)
    );
}

#[test]
fn caps_add_linear_and_leave_empty_formats_out() {
    let src = 0x4000;
    let reports = vec![
        vec![props(7, 2, src)],
        vec![props(8, 1, 1)],
        vec![props(0, 1, src), props(5, 1, src)],
        vec![],
    ];
    let caps = query_caps(&plan(true), &identity(), &reports, &WORDS).unwrap();
    assert_eq!(caps.by_fourcc.len(), 2);
    assert_eq!(caps.by_fourcc[0].0, "0x34324241");
    let first: Vec<(u64, u32)> = caps.by_fourcc[0]
        .1
        .iter()
        .map(|m| (m.modifier, m.plane_count))
        .collect();
    assert_eq!(first, vec![(7, 2), (0, 1)]);
    assert_eq!(caps.by_fourcc[1].0, "0x34325241");
    let second: Vec<u64> = caps.by_fourcc[1].1.iter().map(|m| m.modifier).collect();
    assert_eq!(second, vec![0, 5]);
    assert_eq!((caps.sync, caps.color, caps.mem_hint), (6, 77, 5));
    assert_eq!((caps.extent_max_w, caps.extent_max_h), (8192, 8192));
    assert_eq!((caps.drm_render_major, caps.drm_render_minor), (226, 128));
    assert_eq!(caps.device_uuid, identity().device_uuid);
    assert_eq!(caps.driver_uuid, identity().driver_uuid);
}

#[test]
fn caps_keys_ascend() {
    let reports = vec![
        vec![props(1, 1, 0x4000)],
        vec![props(1, 1, 0x4000)],
        vec![props(1, 1, 0x4000)],
        vec![props(1, 1, 0x4000)],
    ];
    let caps = query_caps(&plan(true), &identity(), &reports, &WORDS).unwrap();
    let keys: Vec<&String> = caps.by_fourcc.iter().map(|e| &e.0).collect();
    assert_eq!(keys.len(), 4);
    assert!(keys.windows(2).all(|w| w[0] < w[1]));
}

#[test]
fn nothing_to_advertise_is_an_error() {
    let reports = vec![vec![], vec![], vec![props(1, 1, 0)], vec![]];
    let caps = query_caps(&plan(true), &identity(), &reports, &WORDS);
    assert_eq!(caps.err(), Some(CapsError::NoSupportedPair));
}

#[test]
fn first_suitable_device_is_chosen() {
    let mut lacking = required();
    lacking.remove(2);
    let mut plenty = required();
    plenty.insert(0, "VK_KHR_other".to_string());
    assert_eq!(choose_device(&vec![]), Err(SetupError::NoDevice));
    assert_eq!(
        choose_device(&vec![None, Some(lacking)]),
        Err(SetupError::NoSuitableDevice)
    );
    assert_eq!(
        choose_device(&vec![None, Some(plenty), Some(required())]),
        Ok(1)
    );
}

#[test]
fn every_required_extension_matters() {
    assert_eq!(required_names(), required());
    for missing in 0..4 {
        let mut names = required();
        names.remove(missing);
        assert_eq!(
            choose_device(&vec![Some(names)]),
            Err(SetupError::NoSuitableDevice)
        );
    }
}

#[test]
fn plan_takes_the_first_capable_queue_family() {
    let graphics = ash::vk::QueueFlags::GRAPHICS.as_raw();
    let compute = ash::vk::QueueFlags::COMPUTE.as_raw();
    let transfer = ash::vk::QueueFlags::TRANSFER.as_raw();
    let sparse = ash::vk::QueueFlags::SPARSE_BINDING.as_raw();
    for capable in [graphics, compute, transfer] {
        let p = plan_device(&Some(required()), &vec![sparse, capable | sparse, 7]).unwrap();
        assert_eq!(p.queue_family, 1);
        assert!(!p.have_drm);
        assert_eq!(p.extensions, required());
    }
    assert_eq!(
        plan_device(&Some(required()), &vec![0, sparse]).err(),
        Some(SetupError::NoQueueFamily)
    );
}

#[test]
fn render_node_extension_is_enabled_where_offered() {
    let mut names = required();
    names.push(drm_name());
    let p = plan_device(&Some(names.clone()), &vec![7]).unwrap();
    assert!(p.have_drm);
    assert_eq!(p.extensions, names);
}

#[test]
fn render_node_is_zero_where_unknown() {
    let ctx = VkContext::new(&plan(true), &identity(), vec![]);
    assert_eq!((ctx.drm_render_major, ctx.drm_render_minor), (226, 128));
    assert_eq!(ctx.queue_family, 3);
    let ctx = VkContext::new(&plan(false), &identity(), vec![]);
    assert_eq!((ctx.drm_render_major, ctx.drm_render_minor), (0, 0));
    let mut hidden = identity();
    hidden.has_render = 0;
    let ctx = VkContext::new(&plan(true), &hidden, vec![]);
    assert_eq!((ctx.drm_render_major, ctx.drm_render_minor), (0, 0));
    let mut wide = identity();
    wide.render_major = 0x1_0000_0005;
    wide.render_minor = -1;
    let ctx = VkContext::new(&plan(true), &wide, vec![]);
    assert_eq!((ctx.drm_render_major, ctx.drm_render_minor), (5, u32::MAX));
}

#[test]
fn memory_type_is_the_first_that_fits() {
    let visible = ash::vk::MemoryPropertyFlags::HOST_VISIBLE.as_raw();
    let coherent = ash::vk::MemoryPropertyFlags::HOST_COHERENT.as_raw();
    let local = ash::vk::MemoryPropertyFlags::DEVICE_LOCAL.as_raw();
    let types = vec![local, visible, visible | coherent, visible | coherent | local];
    let ctx = VkContext::new(&plan(true), &identity(), types);
    assert_eq!(ctx.find_memory_type(0b1111, visible), Some(1));
    assert_eq!(ctx.find_memory_type(0b1000, visible), Some(3));
    assert_eq!(ctx.find_memory_type(0b0001, visible), None);
    assert_eq!(ctx.find_memory_type(0, 0), None);
    assert_eq!(ctx.find_staging_type(0b1111), Some(2));
    assert_eq!(ctx.find_staging_type(0b1011), Some(3));
    assert_eq!(ctx.find_staging_type(0b0011), None);
}

#[test]
fn bits() {
    assert!(bit_is_set(0x8000_0001, 31));
    assert!(bit_is_set(0x8000_0001, 0));
    assert!(!bit_is_set(0x8000_0001, 1));
    assert_eq!(find_bit(0x8000_0010, 0), Some(4));
    assert_eq!(find_bit(0x8000_0010, 5), Some(31));
    assert_eq!(find_bit(0x8000_0010, 32), None);
    assert_eq!(find_bit(0, 0), None);
}

#[test]
fn uuid_goes_over_the_wire_in_little_endian_words() {
    let uuid = identity().device_uuid;
    let words = bytes16_to_u32x4(&uuid);
    assert_eq!(words, vec![0x04030201, 0x08070605, 0x0c0b0a09, 0x100f0e0d]);
    let back: Vec<u8> = words.iter().flat_map(|w| w.to_le_bytes()).collect();
    assert_eq!(back, uuid);
}

#[test]
fn uuid_text() {
    assert_eq!(
        uuid_str(&identity().device_uuid),
        "01020304-0506-0708-090a-0b0c0d0e0f10"
    );
    assert_eq!(uuid_str(&[0; 16]).len(), 36);
}

#[test]
fn modifier_decides_how_a_frame_is_read_back() {
    let ctx = VkContext::new(&plan(true), &identity(), vec![6]);
    assert!(matches!(
        ctx.import_and_dump(&frame(ABGR, 0)),
        Ok(Import::Linear(_))
    ));
    assert!(matches!(
        ctx.import_and_dump(&frame(0, 0)),
        Ok(Import::Linear(_))
    ));
    assert!(matches!(
        ctx.import_and_dump(&frame(ABGR, 1)),
        Ok(Import::Tiled(_))
    ));
    assert!(matches!(
        ctx.import_and_dump(&frame(0, 1)),
        Err(ImportError::Tiled(TiledError::NoFormat))
    ));
    let mut narrow = frame(ABGR, 0);
    narrow.stride = 15;
    assert!(matches!(
        ctx.import_and_dump(&narrow),
        Err(ImportError::Linear(LinearError::StrideTooSmall))
    ));
}
