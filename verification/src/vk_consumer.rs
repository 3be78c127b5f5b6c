//! What the dump display decides about its Vulkan device and about reading
//! frames back.
//!
//! Frames with the linear modifier are read straight from the mapped buffer
//! (see [`crate::linear`]); all others are imported as an image and copied out
//! by the device (see [`crate::tiled`]). [`VkContext`] holds as plain values
//! what these decisions read of the device.
use crate::dump::Frame;
use crate::linear::{self, LinearError, LinearImport};
use crate::text;
use crate::tiled::{self, TiledError, TiledImport};
use crate::vulkan;
use vstd::prelude::*;

verus! {

// ---------------------------------------------------------------------------
// Formats
// ---------------------------------------------------------------------------

/// The modifier of the linear layout.
pub const DRM_FORMAT_MOD_LINEAR: u64 = 0;

/// `AB24`.
pub const DRM_FORMAT_ABGR8888: u32 = 0x34324241;

/// `XB24`.
pub const DRM_FORMAT_XBGR8888: u32 = 0x34324258;

/// `AR24`.
pub const DRM_FORMAT_ARGB8888: u32 = 0x34325241;

/// `XR24`.
pub const DRM_FORMAT_XRGB8888: u32 = 0x34325258;

/// The Vulkan format of a fourcc, as Vulkan numbers it. All four are 32-bit
/// packings whose byte order in memory is R-G-B-A (37) or B-G-R-A (44).
pub open spec fn vk_format_of(fourcc: u32) -> Option<i32> {
    if fourcc == DRM_FORMAT_ABGR8888 || fourcc == DRM_FORMAT_XBGR8888 {
        Some(37i32)
    } else if fourcc == DRM_FORMAT_ARGB8888 || fourcc == DRM_FORMAT_XRGB8888 {
        Some(44i32)
    } else {
        None
    }
}

/// Maps a fourcc to its Vulkan format.
pub fn drm_fourcc_to_vk(fourcc: u32) -> (format: Option<i32>)
    ensures
        format == vk_format_of(fourcc),
{
    if fourcc == DRM_FORMAT_ABGR8888 || fourcc == DRM_FORMAT_XBGR8888 {
        Some(vulkan::format_r8g8b8a8_unorm())
    } else if fourcc == DRM_FORMAT_ARGB8888 || fourcc == DRM_FORMAT_XRGB8888 {
        Some(vulkan::format_b8g8r8a8_unorm())
    } else {
        None
    }
}

/// The fourccs that a producer might emit, in the order they are asked for.
pub open spec fn fourccs() -> Seq<u32> {
    seq![
        DRM_FORMAT_ABGR8888,
        DRM_FORMAT_XBGR8888,
        DRM_FORMAT_ARGB8888,
        DRM_FORMAT_XRGB8888,
    ]
}

/// The fourccs with their Vulkan formats, in the order of [`fourccs`].
pub fn formats_to_query() -> (list: Vec<(u32, i32)>)
    ensures
        list@.len() == fourccs().len(),
        forall|i: int|
            0 <= i < list@.len() ==> (#[trigger] list@[i]).0 == fourccs()[i] && vk_format_of(
                list@[i].0,
            ) == Some(list@[i].1),
{
    let all: Vec<u32> = all_fourccs();
    let mut list: Vec<(u32, i32)> = Vec::new();
    let mut i: usize = 0;
    while i < all.len()
        invariant
            all@ == fourccs(),
            i <= all@.len(),
            list@.len() == i,
            forall|k: int|
                0 <= k < i ==> (#[trigger] list@[k]).0 == fourccs()[k] && vk_format_of(list@[k].0)
                    == Some(list@[k].1),
        decreases all@.len() - i,
    {
        match drm_fourcc_to_vk(all[i]) {
            Some(format) => {
                list.push((all[i], format));
            },
            None => {},
        }
        i += 1;
    }
    list
}

fn all_fourccs() -> (all: Vec<u32>)
    ensures
        all@ == fourccs(),
{
    let mut all: Vec<u32> = Vec::new();
    all.push(DRM_FORMAT_ABGR8888);
    all.push(DRM_FORMAT_XBGR8888);
    all.push(DRM_FORMAT_ARGB8888);
    all.push(DRM_FORMAT_XRGB8888);
    assert(all@ =~= fourccs());
    all
}

// ---------------------------------------------------------------------------
// Capabilities
// ---------------------------------------------------------------------------

/// One modifier that a peer can take, with what it can be used for.
#[derive(Debug, Clone, Copy, PartialEq, Eq, Structural)]
pub struct ModCapJson {
    pub modifier: u64,
    pub usage: u32,
    pub plane_count: u32,
}

/// What a peer can take. The keys of `by_fourcc` are fourccs as `0x` and
/// eight hex digits, each once and in ascending order.
#[derive(Debug, Clone)]
pub struct PeerCapsJson {
    pub by_fourcc: Vec<(String, Vec<ModCapJson>)>,
    pub device_uuid: [u8; 16],
    pub driver_uuid: [u8; 16],
    pub drm_render_major: u32,
    pub drm_render_minor: u32,
    pub sync: u32,
    pub color: u32,
    pub mem_hint: u32,
    pub extent_max_w: u32,
    pub extent_max_h: u32,
}

/// The bits and words of the negotiation protocol that the dump display
/// sends.
#[derive(Debug, Clone, Copy)]
pub struct NegotiateWords {
    pub usage_sampled: u32,
    pub usage_transfer_dst: u32,
    pub sync_syncobj_binary: u32,
    pub sync_syncobj_timeline: u32,
    pub default_color: u32,
    pub mem_hint_host_visible: u32,
}

impl NegotiateWords {
    /// What every buffer is used for: sampling, and as a copy's target.
    pub open spec fn usage_view(self) -> u32 {
        self.usage_sampled | self.usage_transfer_dst
    }

    /// Both kinds of syncobj.
    pub open spec fn sync_view(self) -> u32 {
        self.sync_syncobj_binary | self.sync_syncobj_timeline
    }

    pub fn usage(&self) -> (word: u32)
        ensures
            word == self.usage_view(),
    {
        self.usage_sampled | self.usage_transfer_dst
    }

    pub fn sync(&self) -> (word: u32)
        ensures
            word == self.sync_view(),
    {
        self.sync_syncobj_binary | self.sync_syncobj_timeline
    }
}

/// The largest extent that the dump display takes, in either direction.
pub const EXTENT_MAX: u32 = 8192;

/// What the driver reports of one modifier of a format.
#[derive(Debug, Clone, Copy)]
pub struct DrmModifierProps {
    pub modifier: u64,
    pub plane_count: u32,
    pub tiling_features: u32,
}

/// Whether frames with this modifier can be copied out: its features hold the
/// transfer-source bit.
pub open spec fn can_copy_from(p: DrmModifierProps) -> bool {
    p.tiling_features & 0x4000 == 0x4000
}

/// The modifiers of a report that can be copied from, in order.
pub open spec fn usable_modifiers(
    props: Seq<DrmModifierProps>,
    words: NegotiateWords,
) -> Seq<ModCapJson>
    decreases props.len(),
{
    if props.len() == 0 {
        Seq::empty()
    } else {
        let head = usable_modifiers(props.drop_last(), words);
        let p = props.last();
        if can_copy_from(p) {
            head.push(
                ModCapJson {
                    modifier: p.modifier,
                    usage: words.usage_view(),
                    plane_count: p.plane_count,
                },
            )
        } else {
            head
        }
    }
}

/// Whether a list holds the linear modifier.
pub open spec fn has_linear(mods: Seq<ModCapJson>) -> bool {
    exists|i: int| 0 <= i < mods.len() && (#[trigger] mods[i]).modifier == DRM_FORMAT_MOD_LINEAR
}

/// A list with the linear modifier at the end if it was missing: reading a
/// linear buffer needs no driver.
pub open spec fn with_linear(mods: Seq<ModCapJson>, words: NegotiateWords) -> Seq<ModCapJson> {
    if has_linear(mods) {
        mods
    } else {
        mods.push(
            ModCapJson {
                modifier: DRM_FORMAT_MOD_LINEAR,
                usage: words.usage_view(),
                plane_count: 1,
            },
        )
    }
}

/// The entries for the first `k` fourccs: those for which the driver reports
/// a modifier that can be copied from.
pub open spec fn caps_entries(
    reports: Seq<Vec<DrmModifierProps>>,
    words: NegotiateWords,
    k: int,
) -> Seq<(Seq<char>, Seq<ModCapJson>)>
    decreases k,
{
    if k <= 0 {
        Seq::empty()
    } else {
        let head = caps_entries(reports, words, k - 1);
        let mods = usable_modifiers(reports[k - 1]@, words);
        if mods.len() == 0 {
            head
        } else {
            head.push((text::hex_text(fourccs()[k - 1] as nat, 8), with_linear(mods, words)))
        }
    }
}

/// A capability list over sequences.
pub open spec fn entries_view(list: Seq<(String, Vec<ModCapJson>)>) -> Seq<
    (Seq<char>, Seq<ModCapJson>),
> {
    Seq::new(list.len(), |i: int| (list[i].0@, list[i].1@))
}

/// Keeps the modifiers of a report that can be copied from.
pub fn modifiers_for(props: &Vec<DrmModifierProps>, words: &NegotiateWords) -> (mods: Vec<
    ModCapJson,
>)
    ensures
        mods@ == usable_modifiers(props@, *words),
{
    let wanted: u32 = vulkan::feature_transfer_src();
    let mut mods: Vec<ModCapJson> = Vec::new();
    let mut i: usize = 0;
    while i < props.len()
        invariant
            i <= props@.len(),
            wanted == 0x4000,
            mods@ == usable_modifiers(props@.take(i as int), *words),
        decreases props@.len() - i,
    {
        let p: DrmModifierProps = props[i];
        assert(props@.take(i + 1).drop_last() =~= props@.take(i as int));
        if vulkan::features_contain(p.tiling_features, wanted) {
            mods.push(
                ModCapJson {
                    modifier: p.modifier,
                    usage: words.usage(),
                    plane_count: p.plane_count,
                },
            );
        }
        i += 1;
    }
    assert(props@.take(i as int) =~= props@);
    mods
}

fn add_linear(mods: Vec<ModCapJson>, words: &NegotiateWords) -> (out: Vec<ModCapJson>)
    ensures
        out@ == with_linear(mods@, *words),
{
    let mut out: Vec<ModCapJson> = mods;
    let mut i: usize = 0;
    while i < out.len()
        invariant
            i <= out@.len(),
            out@ == mods@,
            forall|k: int|
                0 <= k < i ==> (#[trigger] out@[k]).modifier != DRM_FORMAT_MOD_LINEAR,
        decreases out@.len() - i,
    {
        if out[i].modifier == DRM_FORMAT_MOD_LINEAR {
            assert(mods@[i as int].modifier == DRM_FORMAT_MOD_LINEAR);
            return out;
        }
        i += 1;
    }
    out.push(
        ModCapJson { modifier: DRM_FORMAT_MOD_LINEAR, usage: words.usage(), plane_count: 1 },
    );
    out
}

// ---------------------------------------------------------------------------
// UUIDs
// ---------------------------------------------------------------------------

/// The 32-bit numbers whose little-endian bytes a UUID holds, four bytes each.
pub open spec fn uuid_words(uuid: Seq<u8>) -> Seq<u32> {
    Seq::new(4, |i: int| crate::cli::le_u32(uuid.subrange(4 * i, 4 * i + 4)) as u32)
}

/// Packs a 16-byte UUID into its wire form of four 32-bit numbers, each
/// little-endian.
pub fn bytes16_to_u32x4(uuid: &[u8; 16]) -> (words: Vec<u32>)
    ensures
        words@ == uuid_words(uuid@),
{
    let mut words: Vec<u32> = Vec::new();
    let mut i: usize = 0;
    while i < 4
        invariant
            i <= 4,
            words@ == uuid_words(uuid@).take(i as int),
        decreases 4 - i,
    {
        let n: u32 = uuid[4 * i] as u32 + uuid[4 * i + 1] as u32 * 0x100 + uuid[4 * i + 2] as u32
            * 0x1_0000 + uuid[4 * i + 3] as u32 * 0x100_0000;
        words.push(n);
        assert(n == uuid_words(uuid@)[i as int]);
        assert(uuid_words(uuid@).take(i + 1) =~= uuid_words(uuid@).take(i as int).push(n));
        i += 1;
    }
    assert(uuid_words(uuid@).take(4) =~= uuid_words(uuid@));
    words
}

/// The text of the first `k` bytes of a UUID: two hex digits each, and a dash
/// before the fifth, the seventh, the ninth and the eleventh byte.
pub open spec fn uuid_text(u: Seq<u8>, k: int) -> Seq<char>
    decreases k,
{
    if k <= 0 {
        Seq::empty()
    } else {
        let head = uuid_text(u, k - 1);
        let dash = if k == 5 || k == 7 || k == 9 || k == 11 {
            seq!['-']
        } else {
            Seq::empty()
        };
        head + dash + text::zero_padded(text::digits(u[k - 1] as nat, 16), 2)
    }
}

/// Shows a UUID in its usual form.
pub fn uuid_str(u: &[u8; 16]) -> (out: String)
    ensures
        out@ == uuid_text(u@, 16),
{
    let mut out: String = String::new();
    let mut i: usize = 0;
    while i < 16
        invariant
            i <= 16,
            out@ == uuid_text(u@, i as int),
        decreases 16 - i,
    {
        if i == 4 || i == 6 || i == 8 || i == 10 {
            out.push('-');
        }
        let byte: String = text::show_padded(u[i] as u64, 16, 2);
        out.append(byte.as_str());
        assert(out@ =~= uuid_text(u@, i + 1));
        i += 1;
    }
    out
}

// ---------------------------------------------------------------------------
// Choosing a device
// ---------------------------------------------------------------------------

/// Why no device could be set up.
#[derive(Debug, Clone, Copy, PartialEq, Eq, Structural)]
pub enum SetupError {
    /// There is no physical device at all.
    NoDevice,
    /// No physical device offers the required extensions.
    NoSuitableDevice,
    /// No queue family can transfer.
    NoQueueFamily,
}

/// The extensions that a device must offer.
pub open spec fn required_extensions() -> Seq<Seq<char>> {
    seq![
        "VK_KHR_external_memory_fd"@,
        "VK_EXT_external_memory_dma_buf"@,
        "VK_EXT_image_drm_format_modifier"@,
        "VK_KHR_external_semaphore_fd"@,
    ]
}

/// The extension that tells the device's render node.
pub open spec fn drm_extension() -> Seq<char> {
    "VK_EXT_physical_device_drm"@
}

/// Whether a report of a device's extensions names `name`. A report that
/// could not be had names none.
pub open spec fn offers(report: Option<Vec<String>>, name: Seq<char>) -> bool {
    match report {
        Some(names) => exists|i: int| 0 <= i < names@.len() && (#[trigger] names@[i])@ == name,
        None => false,
    }
}

/// Whether a report names every required extension.
pub open spec fn is_suitable(report: Option<Vec<String>>) -> bool {
    report is Some && forall|i: int|
        0 <= i < required_extensions().len() ==> offers(
            report,
            #[trigger] required_extensions()[i],
        )
}

fn names_contain(names: &Vec<String>, name: &String) -> (yes: bool)
    ensures
        yes == exists|i: int| 0 <= i < names@.len() && (#[trigger] names@[i])@ == name@,
{
    let mut i: usize = 0;
    while i < names.len()
        invariant
            i <= names@.len(),
            forall|k: int| 0 <= k < i ==> (#[trigger] names@[k])@ != name@,
        decreases names@.len() - i,
    {
        if names[i] == *name {
            assert(names@[i as int]@ == name@);
            return true;
        }
        i += 1;
    }
    false
}

fn report_offers(report: &Option<Vec<String>>, name: &String) -> (yes: bool)
    ensures
        yes == offers(*report, name@),
{
    match report {
        Some(names) => names_contain(names, name),
        None => false,
    }
}

/// The names of the extensions that a device must offer.
pub fn required_names() -> (names: Vec<String>)
    ensures
        text::texts(names@) == required_extensions(),
{
    let mut names: Vec<String> = Vec::new();
    names.push(vulkan::name_external_memory_fd());
    names.push(vulkan::name_external_memory_dma_buf());
    names.push(vulkan::name_image_drm_format_modifier());
    names.push(vulkan::name_external_semaphore_fd());
    assert(text::texts(names@) =~= required_extensions());
    names
}

/// The first device whose report names all required extensions, or why there
/// is none.
pub open spec fn is_device_choice(
    reports: Seq<Option<Vec<String>>>,
    choice: Result<usize, SetupError>,
) -> bool {
    match choice {
        Ok(i) => i < reports.len() && is_suitable(reports[i as int]) && forall|k: int|
            0 <= k < i ==> !is_suitable(#[trigger] reports[k]),
        Err(e) => if reports.len() == 0 {
            e == SetupError::NoDevice
        } else {
            e == SetupError::NoSuitableDevice && forall|k: int|
                0 <= k < reports.len() ==> !is_suitable(#[trigger] reports[k])
        },
    }
}

/// Picks the first physical device whose report names all required
/// extensions.
pub fn choose_device(reports: &Vec<Option<Vec<String>>>) -> (choice: Result<usize, SetupError>)
    ensures
        is_device_choice(reports@, choice),
{
    if reports.len() == 0 {
        return Err(SetupError::NoDevice);
    }
    let required: Vec<String> = required_names();
    let mut i: usize = 0;
    while i < reports.len()
        invariant
            i <= reports@.len(),
            reports@.len() > 0,
            text::texts(required@) == required_extensions(),
            forall|k: int| 0 <= k < i ==> !is_suitable(#[trigger] reports@[k]),
        decreases reports@.len() - i,
    {
        let report: &Option<Vec<String>> = &reports[i];
        let mut all: bool = report.is_some();
        let mut j: usize = 0;
        while j < required.len() && all
            invariant
                j <= required@.len(),
                text::texts(required@) == required_extensions(),
                all ==> *report is Some && forall|k: int|
                    0 <= k < j ==> offers(*report, #[trigger] required_extensions()[k]),
                !all ==> !is_suitable(*report),
            decreases required@.len() - j,
        {
            assert(required_extensions()[j as int] == required@[j as int]@);
            all = report_offers(report, &required[j]);
            j += 1;
        }
        assert(required_extensions().len() == required@.len());
        if all {
            assert(is_suitable(*report));
            return Ok(i);
        }
        i += 1;
    }
    Err(SetupError::NoSuitableDevice)
}

/// The first queue family that can do graphics, compute or transfer.
pub open spec fn is_queue_choice(flags: Seq<u32>, i: int) -> bool {
    &&& 0 <= i < flags.len()
    &&& flags[i] & 7 != 0
    &&& forall|k: int| 0 <= k < i ==> #[trigger] flags[k] & 7 == 0
}

/// How to create the logical device.
#[derive(Debug)]
pub struct DevicePlan {
    pub queue_family: u32,
    pub have_drm: bool,
    pub extensions: Vec<String>,
}

/// A plan for a device with these extensions and queue families, or why there
/// is none.
pub open spec fn is_plan_for(
    report: Option<Vec<String>>,
    queue_flags: Seq<u32>,
    plan: Result<DevicePlan, SetupError>,
) -> bool {
    match plan {
        Ok(p) => {
            &&& exists|i: int| #[trigger]
                is_queue_choice(queue_flags, i) && p.queue_family == i as u32
            &&& p.have_drm == offers(report, drm_extension())
            &&& text::texts(p.extensions@) == if p.have_drm {
                required_extensions().push(drm_extension())
            } else {
                required_extensions()
            }
        },
        Err(e) => e == SetupError::NoQueueFamily && forall|i: int|
            0 <= i < queue_flags.len() ==> #[trigger] queue_flags[i] & 7 == 0,
    }
}

/// Plans the logical device from a report of the chosen device's extensions
/// and from the flags of its queue families. The render-node extension is
/// enabled where it is offered.
pub fn plan_device(report: &Option<Vec<String>>, queue_flags: &Vec<u32>) -> (plan: Result<
    DevicePlan,
    SetupError,
>)
    ensures
        is_plan_for(*report, queue_flags@, plan),
{
    let drm: String = vulkan::name_physical_device_drm();
    let have_drm: bool = report_offers(report, &drm);
    let wanted: u32 = vulkan::queue_graphics() | vulkan::queue_compute()
        | vulkan::queue_transfer();
    assert(1u32 | 2u32 | 4u32 == 7u32) by (bit_vector);
    let mut i: usize = 0;
    while i < queue_flags.len() && !vulkan::queue_flags_intersect(queue_flags[i], wanted)
        invariant
            i <= queue_flags@.len(),
            wanted == 7,
            forall|k: int| 0 <= k < i ==> #[trigger] queue_flags@[k] & 7 == 0,
        decreases queue_flags@.len() - i,
    {
        i += 1;
    }
    if i == queue_flags.len() {
        return Err(SetupError::NoQueueFamily);
    }
    let mut extensions: Vec<String> = required_names();
    let ghost required = extensions@;
    if have_drm {
        extensions.push(drm);
        assert(text::texts(extensions@) =~= text::texts(required).push(drm@));
    }
    assert(is_queue_choice(queue_flags@, i as int));
    Ok(DevicePlan { queue_family: i as u32, have_drm, extensions })
}

/// What the driver says of a device's identity.
#[derive(Debug, Clone, Copy)]
pub struct DeviceIdentity {
    pub device_uuid: [u8; 16],
    pub driver_uuid: [u8; 16],
    pub has_render: u32,
    pub render_major: i64,
    pub render_minor: i64,
}

/// The render node as two 32-bit numbers, or zeros where it is not known.
pub open spec fn render_node(have_drm: bool, id: DeviceIdentity) -> (u32, u32) {
    if have_drm && id.has_render != 0 {
        (id.render_major as u32, id.render_minor as u32)
    } else {
        (0, 0)
    }
}

// ---------------------------------------------------------------------------
// The context
// ---------------------------------------------------------------------------

/// What the dump display knows of its device.
#[derive(Debug)]
pub struct VkContext {
    pub queue_family: u32,
    /// The property flags of each memory type.
    pub memory_types: Vec<u32>,
    pub device_uuid: [u8; 16],
    pub driver_uuid: [u8; 16],
    pub drm_render_major: u32,
    pub drm_render_minor: u32,
}

/// Whether bit `i` of `word` is set.
pub open spec fn has_bit(word: u32, i: u32) -> bool {
    (word >> i) & 1 == 1
}

/// Decides [`has_bit`].
pub fn bit_is_set(word: u32, i: u32) -> (set: bool)
    requires
        i < 32,
    ensures
        set == has_bit(word, i),
{
    let low: u32 = (word >> i) & 1;
    assert(low == 0 || low == 1) by (bit_vector)
        requires
            low == (word >> i) & 1,
    ;
    low != 0
}

/// The first set bit of `word` at `from` or above.
pub open spec fn next_bit(word: u32, from: int) -> Option<u32>
    decreases 32 - from,
{
    if from < 0 || from >= 32 {
        None
    } else if has_bit(word, from as u32) {
        Some(from as u32)
    } else {
        next_bit(word, from + 1)
    }
}

/// Finds [`next_bit`].
pub fn find_bit(word: u32, from: u32) -> (bit: Option<u32>)
    ensures
        bit == next_bit(word, from as int),
{
    let mut i: u32 = from;
    while i < 32
        invariant
            next_bit(word, from as int) == next_bit(word, i as int),
        decreases 32 - i,
    {
        if bit_is_set(word, i) {
            return Some(i);
        }
        i += 1;
    }
    None
}

/// The first memory type, from `from` on, that is among `type_bits` and has
/// all of `flags`.
pub open spec fn first_fit(types: Seq<u32>, type_bits: u32, flags: u32, from: int) -> Option<u32>
    decreases types.len() - from,
{
    if from < 0 || from >= types.len() {
        None
    } else if has_bit(type_bits, from as u32) && types[from] & flags == flags {
        Some(from as u32)
    } else {
        first_fit(types, type_bits, flags, from + 1)
    }
}

/// Why a device has nothing to advertise.
#[derive(Debug, Clone, Copy, PartialEq, Eq, Structural)]
pub enum CapsError {
    NoSupportedPair,
}

/// What a device with these UUIDs and this render node can advertise, or why
/// nothing.
pub open spec fn are_caps_of(
    device_uuid: [u8; 16],
    driver_uuid: [u8; 16],
    node: (u32, u32),
    reports: Seq<Vec<DrmModifierProps>>,
    words: NegotiateWords,
    caps: Result<PeerCapsJson, CapsError>,
) -> bool {
    match caps {
        Ok(c) => {
            &&& entries_view(c.by_fourcc@) == caps_entries(reports, words, 4)
            &&& c.by_fourcc@.len() > 0
            &&& c.device_uuid == device_uuid
            &&& c.driver_uuid == driver_uuid
            &&& (c.drm_render_major, c.drm_render_minor) == node
            &&& c.sync == words.sync_view()
            &&& c.color == words.default_color
            &&& c.mem_hint == words.mem_hint_host_visible
            &&& c.extent_max_w == EXTENT_MAX
            &&& c.extent_max_h == EXTENT_MAX
        },
        Err(e) => e == CapsError::NoSupportedPair && caps_entries(reports, words, 4).len() == 0,
    }
}

impl VkContext {
    /// No device has more memory types than a word has bits.
    pub open spec fn wf(&self) -> bool {
        self.memory_types@.len() <= 32
    }

    /// What was learned of a device that was set up by `plan`.
    pub open spec fn knows(
        &self,
        plan: DevicePlan,
        id: DeviceIdentity,
        memory_types: Vec<u32>,
    ) -> bool {
        &&& self.queue_family == plan.queue_family
        &&& self.memory_types == memory_types
        &&& self.device_uuid == id.device_uuid
        &&& self.driver_uuid == id.driver_uuid
        &&& (self.drm_render_major, self.drm_render_minor) == render_node(plan.have_drm, id)
    }

    /// Keeps what was learned of a device that was set up by `plan`.
    pub fn new(plan: &DevicePlan, id: &DeviceIdentity, memory_types: Vec<u32>) -> (ctx: Self)
        ensures
            ctx.knows(*plan, *id, memory_types),
    {
        let known: bool = plan.have_drm && id.has_render != 0;
        VkContext {
            queue_family: plan.queue_family,
            memory_types,
            device_uuid: id.device_uuid,
            driver_uuid: id.driver_uuid,
            drm_render_major: if known {
                #[verifier::truncate]
                (id.render_major as u32)
            } else {
                0
            },
            drm_render_minor: if known {
                #[verifier::truncate]
                (id.render_minor as u32)
            } else {
                0
            },
        }
    }

    /// Lists every pair of fourcc and modifier that the device can copy from.
    /// `reports` holds the driver's modifiers for each fourcc, in the order of
    /// [`formats_to_query`].
    pub fn query_caps(
        &self,
        reports: &Vec<Vec<DrmModifierProps>>,
        words: &NegotiateWords,
    ) -> (caps: Result<PeerCapsJson, CapsError>)
        requires
            reports@.len() == fourccs().len(),
        ensures
            are_caps_of(
                self.device_uuid,
                self.driver_uuid,
                (self.drm_render_major, self.drm_render_minor),
                reports@,
                *words,
                caps,
            ),
    {
        let all: Vec<u32> = all_fourccs();
        let mut by_fourcc: Vec<(String, Vec<ModCapJson>)> = Vec::new();
        let mut i: usize = 0;
        assert(entries_view(by_fourcc@) =~= caps_entries(reports@, *words, 0));
        while i < all.len()
            invariant
                all@ == fourccs(),
                reports@.len() == fourccs().len(),
                i <= all@.len(),
                entries_view(by_fourcc@) == caps_entries(reports@, *words, i as int),
            decreases all@.len() - i,
        {
            let mods: Vec<ModCapJson> = modifiers_for(&reports[i], words);
            if mods.len() > 0 {
                let key: String = text::show_hex(all[i] as u64, 8);
                by_fourcc.push((key, add_linear(mods, words)));
                assert(entries_view(by_fourcc@) =~= caps_entries(reports@, *words, i + 1));
            }
            i += 1;
        }
        if by_fourcc.len() == 0 {
            return Err(CapsError::NoSupportedPair);
        }
        Ok(
            PeerCapsJson {
                by_fourcc,
                device_uuid: self.device_uuid,
                driver_uuid: self.driver_uuid,
                drm_render_major: self.drm_render_major,
                drm_render_minor: self.drm_render_minor,
                sync: words.sync(),
                color: words.default_color,
                mem_hint: words.mem_hint_host_visible,
                extent_max_w: EXTENT_MAX,
                extent_max_h: EXTENT_MAX,
            },
        )
    }

    /// Whether memory type `i` is among `type_bits` and has all of `flags`.
    pub open spec fn memory_type_fits(&self, type_bits: u32, flags: u32, i: int) -> bool {
        &&& 0 <= i < self.memory_types@.len()
        &&& has_bit(type_bits, i as u32)
        &&& self.memory_types@[i] & flags == flags
    }

    /// The first memory type among `type_bits` that has all of `flags`.
    pub fn find_memory_type(&self, type_bits: u32, flags: u32) -> (choice: Option<u32>)
        requires
            self.wf(),
        ensures
            choice == first_fit(self.memory_types@, type_bits, flags, 0),
            match choice {
                Some(i) => self.memory_type_fits(type_bits, flags, i as int) && forall|k: int|
                    0 <= k < i ==> !self.memory_type_fits(type_bits, flags, k),
                None => forall|k: int| !self.memory_type_fits(type_bits, flags, k),
            },
    {
        let mut i: usize = 0;
        while i < self.memory_types.len()
            invariant
                self.wf(),
                i <= self.memory_types@.len(),
                first_fit(self.memory_types@, type_bits, flags, 0) == first_fit(
                    self.memory_types@,
                    type_bits,
                    flags,
                    i as int,
                ),
                forall|k: int| 0 <= k < i ==> !self.memory_type_fits(type_bits, flags, k),
            decreases self.memory_types@.len() - i,
        {
            if bit_is_set(type_bits, i as u32) {
                if vulkan::memory_flags_contain(self.memory_types[i], flags) {
                    return Some(i as u32);
                }
            }
            i += 1;
        }
        None
    }

    /// The memory type for a buffer that the host reads.
    pub fn find_staging_type(&self, type_bits: u32) -> (choice: Option<u32>)
        requires
            self.wf(),
        ensures
            choice == first_fit(self.memory_types@, type_bits, 6, 0),
    {
        let flags: u32 = vulkan::memory_host_visible() | vulkan::memory_host_coherent();
        assert(2u32 | 4u32 == 6u32) by (bit_vector);
        self.find_memory_type(type_bits, flags)
    }
}

/// An import that has begun.
#[derive(Debug)]
pub enum Import {
    Linear(LinearImport),
    Tiled(TiledImport),
}

/// Why an import could not begin.
#[derive(Debug, Clone, Copy, PartialEq, Eq, Structural)]
pub enum ImportError {
    Linear(LinearError),
    Tiled(TiledError),
}

/// How reading a frame back begins, or why it cannot.
pub open spec fn is_import_of(frame: Frame, r: Result<Import, ImportError>) -> bool {
    match r {
        Ok(Import::Linear(import)) => frame.modifier == DRM_FORMAT_MOD_LINEAR
            && linear::layout_error(frame) is None && import.frame_view() == frame
            && import.step_view() == linear::first_step(),
        Ok(Import::Tiled(import)) => frame.modifier != DRM_FORMAT_MOD_LINEAR && vk_format_of(
            frame.fourcc,
        ) is Some && import@ == tiled::first_state(frame, vk_format_of(frame.fourcc)->0)
            && import@.wf(),
        Err(ImportError::Linear(error)) => frame.modifier == DRM_FORMAT_MOD_LINEAR
            && linear::layout_error(frame) == Some(error),
        Err(ImportError::Tiled(error)) => frame.modifier != DRM_FORMAT_MOD_LINEAR && vk_format_of(
            frame.fourcc,
        ) is None && error == TiledError::NoFormat,
    }
}

impl VkContext {
    /// Begins to read a frame back: straight from the buffer where it is
    /// linear, by way of the device where it is not.
    pub fn import_and_dump(&self, frame: &Frame) -> (r: Result<Import, ImportError>)
        ensures
            is_import_of(*frame, r),
    {
        if frame.modifier == DRM_FORMAT_MOD_LINEAR {
            match LinearImport::begin(frame) {
                Ok(import) => Ok(Import::Linear(import)),
                Err(error) => Err(ImportError::Linear(error)),
            }
        } else {
            match TiledImport::begin(frame) {
                Ok(import) => Ok(Import::Tiled(import)),
                Err(error) => Err(ImportError::Tiled(error)),
            }
        }
    }
}

/// Sets a context up for one question only: what can be advertised.
pub fn query_caps(
    plan: &DevicePlan,
    id: &DeviceIdentity,
    reports: &Vec<Vec<DrmModifierProps>>,
    words: &NegotiateWords,
) -> (caps: Result<PeerCapsJson, CapsError>)
    requires
        reports@.len() == fourccs().len(),
    ensures
        are_caps_of(
            id.device_uuid,
            id.driver_uuid,
            render_node(plan.have_drm, *id),
            reports@,
            *words,
            caps,
        ),
{
    VkContext::new(plan, id, Vec::new()).query_caps(reports, words)
}

// ---------------------------------------------------------------------------
// Laws
// ---------------------------------------------------------------------------

/// The linear modifier is advertised with every fourcc that is advertised.
pub proof fn law_linear_is_always_advertised(
    reports: Seq<Vec<DrmModifierProps>>,
    words: NegotiateWords,
    k: int,
    i: int,
)
    requires
        0 <= i < caps_entries(reports, words, k).len(),
    ensures
        has_linear(caps_entries(reports, words, k)[i].1),
    decreases k,
{
    let head = caps_entries(reports, words, k - 1);
    if i < head.len() {
        law_linear_is_always_advertised(reports, words, k - 1, i);
    } else {
        let mods = usable_modifiers(reports[k - 1]@, words);
        if !has_linear(mods) {
            assert(with_linear(mods, words)[mods.len() as int].modifier == DRM_FORMAT_MOD_LINEAR);
        }
    }
}

/// A modifier that the driver reports is kept exactly if frames with it can
/// be copied from, and nothing else is kept.
pub proof fn law_kept_modifiers_can_be_copied_from(
    props: Seq<DrmModifierProps>,
    words: NegotiateWords,
    modifier: u64,
)
    ensures
        (exists|i: int|
            0 <= i < usable_modifiers(props, words).len() && (#[trigger] usable_modifiers(
                props,
                words,
            )[i]).modifier == modifier) <==> (exists|j: int|
            0 <= j < props.len() && can_copy_from(#[trigger] props[j]) && props[j].modifier
                == modifier),
    decreases props.len(),
{
    if props.len() > 0 {
        let rest = props.drop_last();
        law_kept_modifiers_can_be_copied_from(rest, words, modifier);
        let kept = usable_modifiers(props, words);
        let head = usable_modifiers(rest, words);
        if exists|i: int| 0 <= i < kept.len() && (#[trigger] kept[i]).modifier == modifier {
            let i = choose|i: int| 0 <= i < kept.len() && (#[trigger] kept[i]).modifier == modifier;
            if i < head.len() {
                assert(head[i].modifier == modifier);
                let j = choose|j: int|
                    0 <= j < rest.len() && can_copy_from(#[trigger] rest[j]) && rest[j].modifier
                        == modifier;
                assert(props[j] == rest[j]);
            } else {
                assert(props[props.len() - 1].modifier == modifier);
            }
        }
        if exists|j: int|
            0 <= j < props.len() && can_copy_from(#[trigger] props[j]) && props[j].modifier
                == modifier {
            let j = choose|j: int|
                0 <= j < props.len() && can_copy_from(#[trigger] props[j]) && props[j].modifier
                    == modifier;
            if j < rest.len() {
                assert(rest[j] == props[j]);
                let i = choose|i: int|
                    0 <= i < head.len() && (#[trigger] head[i]).modifier == modifier;
                assert(kept[i] == head[i]);
            } else {
                assert(kept[head.len() as int].modifier == modifier);
            }
        }
    }
}

proof fn lemma_fourcc_keys()
    ensures
        text::hex_text(DRM_FORMAT_ABGR8888 as nat, 8) == seq!['0', 'x', '3', '4', '3', '2', '4', '2', '4', '1'],
        text::hex_text(DRM_FORMAT_XBGR8888 as nat, 8) == seq!['0', 'x', '3', '4', '3', '2', '4', '2', '5', '8'],
        text::hex_text(DRM_FORMAT_ARGB8888 as nat, 8) == seq!['0', 'x', '3', '4', '3', '2', '5', '2', '4', '1'],
        text::hex_text(DRM_FORMAT_XRGB8888 as nat, 8) == seq!['0', 'x', '3', '4', '3', '2', '5', '2', '5', '8'],
{
    reveal_with_fuel(text::digits, 9);
    assert(text::digits(0x34324241, 16) =~= seq!['3', '4', '3', '2', '4', '2', '4', '1']);
    assert(text::digits(0x34324258, 16) =~= seq!['3', '4', '3', '2', '4', '2', '5', '8']);
    assert(text::digits(0x34325241, 16) =~= seq!['3', '4', '3', '2', '5', '2', '4', '1']);
    assert(text::digits(0x34325258, 16) =~= seq!['3', '4', '3', '2', '5', '2', '5', '8']);
    assert(text::hex_text(0x34324241, 8) =~= seq!['0', 'x', '3', '4', '3', '2', '4', '2', '4', '1']);
    assert(text::hex_text(0x34324258, 8) =~= seq!['0', 'x', '3', '4', '3', '2', '4', '2', '5', '8']);
    assert(text::hex_text(0x34325241, 8) =~= seq!['0', 'x', '3', '4', '3', '2', '5', '2', '4', '1']);
    assert(text::hex_text(0x34325258, 8) =~= seq!['0', 'x', '3', '4', '3', '2', '5', '2', '5', '8']);
}

/// The keys come in ascending order of their fourccs.
proof fn lemma_key_order(a: int, b: int)
    requires
        0 <= a < b < 4,
    ensures
        text::text_before(
            text::hex_text(fourccs()[a] as nat, 8),
            text::hex_text(fourccs()[b] as nat, 8),
        ),
{
    lemma_fourcc_keys();
    reveal_with_fuel(text::text_before, 11);
}

/// The place among the fourccs of entry `i`.
spec fn fourcc_place(
    reports: Seq<Vec<DrmModifierProps>>,
    words: NegotiateWords,
    k: int,
    i: int,
) -> int
    decreases k,
{
    if k <= 0 {
        0
    } else if i < caps_entries(reports, words, k - 1).len() {
        fourcc_place(reports, words, k - 1, i)
    } else {
        k - 1
    }
}

proof fn lemma_fourcc_place(
    reports: Seq<Vec<DrmModifierProps>>,
    words: NegotiateWords,
    k: int,
    i: int,
)
    requires
        k <= 4,
        0 <= i < caps_entries(reports, words, k).len(),
    ensures
        0 <= fourcc_place(reports, words, k, i) < k,
        caps_entries(reports, words, k)[i].0 == text::hex_text(
            fourccs()[fourcc_place(reports, words, k, i)] as nat,
            8,
        ),
    decreases k,
{
    if i < caps_entries(reports, words, k - 1).len() {
        lemma_fourcc_place(reports, words, k - 1, i);
    }
}

proof fn lemma_fourcc_places_ascend(
    reports: Seq<Vec<DrmModifierProps>>,
    words: NegotiateWords,
    k: int,
    i: int,
    j: int,
)
    requires
        k <= 4,
        0 <= i < j < caps_entries(reports, words, k).len(),
    ensures
        fourcc_place(reports, words, k, i) < fourcc_place(reports, words, k, j),
    decreases k,
{
    let head = caps_entries(reports, words, k - 1);
    if j < head.len() {
        lemma_fourcc_places_ascend(reports, words, k - 1, i, j);
    } else {
        lemma_fourcc_place(reports, words, k - 1, i);
    }
}

/// The keys of a capability list ascend, so no fourcc occurs twice.
pub proof fn law_caps_keys_ascend(
    reports: Seq<Vec<DrmModifierProps>>,
    words: NegotiateWords,
    i: int,
    j: int,
)
    requires
        0 <= i < j < caps_entries(reports, words, 4).len(),
    ensures
        text::text_before(
            caps_entries(reports, words, 4)[i].0,
            caps_entries(reports, words, 4)[j].0,
        ),
{
    lemma_fourcc_place(reports, words, 4, i);
    lemma_fourcc_place(reports, words, 4, j);
    lemma_fourcc_places_ascend(reports, words, 4, i, j);
    lemma_key_order(fourcc_place(reports, words, 4, i), fourcc_place(reports, words, 4, j));
}

/// The bytes that four 32-bit numbers hold, least significant first.
pub open spec fn unpack_words(words: Seq<u32>) -> Seq<u8> {
    Seq::new(
        4 * words.len(),
        |i: int|
            {
                let w = words[i / 4] as int;
                (if i % 4 == 0 {
                    w % 0x100
                } else if i % 4 == 1 {
                    w / 0x100 % 0x100
                } else if i % 4 == 2 {
                    w / 0x1_0000 % 0x100
                } else {
                    w / 0x100_0000
                }) as u8
            },
    )
}

proof fn lemma_le_bytes(b0: int, b1: int, b2: int, b3: int)
    requires
        0 <= b0 < 0x100,
        0 <= b1 < 0x100,
        0 <= b2 < 0x100,
        0 <= b3 < 0x100,
    ensures
        ({
            let w = b0 + b1 * 0x100 + b2 * 0x1_0000 + b3 * 0x100_0000;
            &&& 0 <= w <= u32::MAX
            &&& w % 0x100 == b0
            &&& w / 0x100 % 0x100 == b1
            &&& w / 0x1_0000 % 0x100 == b2
            &&& w / 0x100_0000 == b3
        }),
{
    let w = b0 + b1 * 0x100 + b2 * 0x1_0000 + b3 * 0x100_0000;
    assert(w / 0x100 == b1 + b2 * 0x100 + b3 * 0x1_0000);
    assert(w / 0x1_0000 == b2 + b3 * 0x100);
}

/// The wire form of a UUID loses nothing: unpacking gives the bytes back.
pub proof fn law_uuid_survives_the_wire(uuid: Seq<u8>)
    requires
        uuid.len() == 16,
    ensures
        unpack_words(uuid_words(uuid)) == uuid,
{
    assert forall|i: int| 0 <= i < 16 implies unpack_words(uuid_words(uuid))[i] == uuid[i] by {
        let k = i / 4;
        let part = uuid.subrange(4 * k, 4 * k + 4);
        lemma_le_bytes(part[0] as int, part[1] as int, part[2] as int, part[3] as int);
        assert(uuid_words(uuid)[k] == crate::cli::le_u32(part));
        assert(uuid[i] == part[i % 4]);
    }
    assert(unpack_words(uuid_words(uuid)) =~= uuid);
}

/// A UUID's text is 36 characters long.
pub proof fn law_uuid_text_length(u: Seq<u8>)
    requires
        u.len() == 16,
    ensures
        uuid_text(u, 16).len() == 36,
{
    lemma_uuid_text_length(u, 16);
}

proof fn lemma_uuid_text_length(u: Seq<u8>, k: int)
    requires
        0 <= k <= 16,
    ensures
        uuid_text(u, k).len() == 2 * k + if k < 5 {
            0int
        } else if k < 7 {
            1
        } else if k < 9 {
            2
        } else if k < 11 {
            3
        } else {
            4
        },
    decreases k,
{
    if k > 0 {
        lemma_uuid_text_length(u, k - 1);
        let n = u[k - 1] as nat;
        reveal_with_fuel(text::digits, 3);
        assert(text::digits(n, 16).len() <= 2);
        assert(text::zero_padded(text::digits(n, 16), 2).len() == 2);
    }
}

// ---------------------------------------------------------------------------
// Laws on formats, devices and capabilities
// ---------------------------------------------------------------------------

/// A fourcc is four characters, the first in the lowest byte.
pub open spec fn spells(fourcc: u32, text: Seq<char>) -> bool {
    &&& text.len() == 4
    &&& fourcc == text[0] as int + text[1] as int * 0x100 + text[2] as int * 0x1_0000 + text[3] as int
        * 0x100_0000
}

/// The four packings of red, green, blue and alpha or filler are the only ones
/// that have a Vulkan format: red comes first where the letters before `24`
/// end in `B`, and blue where they end in `R`.
pub proof fn law_formats_by_spelling(fourcc: u32)
    ensures
        vk_format_of(fourcc) == Some(37i32) <==> spells(fourcc, "AB24"@) || spells(fourcc, "XB24"@),
        vk_format_of(fourcc) == Some(44i32) <==> spells(fourcc, "AR24"@) || spells(fourcc, "XR24"@),
        vk_format_of(fourcc) is Some ==> vk_format_of(fourcc) == Some(37i32) || vk_format_of(fourcc)
            == Some(44i32),
        fourccs().contains(fourcc) <==> vk_format_of(fourcc) is Some,
        fourccs().len() == 4,
        forall|a: int, b: int|
            0 <= a < b < 4 ==> #[trigger] fourccs()[a] < #[trigger] fourccs()[b],
{
    reveal_strlit("AB24");
    reveal_strlit("XB24");
    reveal_strlit("AR24");
    reveal_strlit("XR24");
    assert(fourccs()[0] == 0x34324241 && fourccs()[1] == 0x34324258);
    assert(fourccs()[2] == 0x34325241 && fourccs()[3] == 0x34325258);
}

/// Whether a report holds a name.
pub open spec fn reports_name(report: Option<Vec<String>>, name: Seq<char>) -> bool {
    report is Some && exists|i: int| 0 <= i < report->0@.len() && (#[trigger] report->0@[i])@ == name
}

/// A device is suitable exactly if it reports the four extensions by which
/// buffers and sync files are imported; the names that are enabled are these,
/// and the fifth where the device reports it.
pub proof fn law_suitable_devices_report_four_extensions(report: Option<Vec<String>>)
    ensures
        is_suitable(report) <==> reports_name(report, "VK_KHR_external_memory_fd"@) && reports_name(
            report,
            "VK_EXT_external_memory_dma_buf"@,
        ) && reports_name(report, "VK_EXT_image_drm_format_modifier"@) && reports_name(
            report,
            "VK_KHR_external_semaphore_fd"@,
        ),
        offers(report, drm_extension()) <==> reports_name(report, "VK_EXT_physical_device_drm"@),
        required_extensions() == seq![
            "VK_KHR_external_memory_fd"@,
            "VK_EXT_external_memory_dma_buf"@,
            "VK_EXT_image_drm_format_modifier"@,
            "VK_KHR_external_semaphore_fd"@,
        ],
{
    let all = required_extensions();
    assert(all[0] == "VK_KHR_external_memory_fd"@ && all[1] == "VK_EXT_external_memory_dma_buf"@);
    assert(all[2] == "VK_EXT_image_drm_format_modifier"@ && all[3]
        == "VK_KHR_external_semaphore_fd"@);
    if is_suitable(report) {
        assert(offers(report, all[0]) && offers(report, all[1]));
        assert(offers(report, all[2]) && offers(report, all[3]));
    }
}

/// The queue family is the first that can do graphics, compute or transfer.
pub proof fn law_queue_family_is_the_first_capable(flags: Seq<u32>, i: int)
    ensures
        is_queue_choice(flags, i) <==> {
            &&& 0 <= i < flags.len()
            &&& has_bit(flags[i], 0) || has_bit(flags[i], 1) || has_bit(flags[i], 2)
            &&& forall|k: int|
                0 <= k < i ==> !has_bit(#[trigger] flags[k], 0) && !has_bit(flags[k], 1)
                    && !has_bit(flags[k], 2)
        },
{
    assert forall|k: int| (#[trigger] flags[k] & 7 != 0) == (has_bit(flags[k], 0) || has_bit(
        flags[k],
        1,
    ) || has_bit(flags[k], 2)) by {
        let f = flags[k];
        assert((f & 7 != 0) == ((f >> 0u32) & 1 == 1 || (f >> 1u32) & 1 == 1 || (f >> 2u32) & 1
            == 1)) by (bit_vector);
    }
}

/// The render node is what the driver says, counted in 32 bits, exactly where
/// the driver can be asked and knows one; it is zero otherwise.
pub proof fn law_render_node_is_reported_or_zero(have_drm: bool, id: DeviceIdentity)
    ensures
        have_drm && id.has_render != 0 ==> render_node(have_drm, id).0 as int == id.render_major as int
            % 0x1_0000_0000 && render_node(have_drm, id).1 as int == id.render_minor as int
            % 0x1_0000_0000,
        !have_drm || id.has_render == 0 ==> render_node(have_drm, id) == (0u32, 0u32),
{
    let (a, b) = (id.render_major, id.render_minor);
    lemma_low_word(a);
    lemma_low_word(b);
}

proof fn lemma_low_word(x: i64)
    ensures
        x as u32 as int == x as int % 0x1_0000_0000,
{
    let y = x as u64;
    assert(x >= 0 ==> x as u64 == x) by (bit_vector);
    assert(x < 0 ==> x as u64 == x + 0x1_0000_0000_0000_0000) by (bit_vector);
    assert(x as u32 == (x as u64) as u32) by (bit_vector);
    assert(y as u32 == y % 0x1_0000_0000) by (bit_vector);
    assert((x + 0x1_0000_0000_0000_0000) % 0x1_0000_0000 == x as int % 0x1_0000_0000);
}

/// A bit is set exactly if its power of two is in the word.
pub proof fn law_bit_is_its_power(word: u32, i: u32)
    requires
        i < 32,
    ensures
        has_bit(word, i) <==> word & (1u32 << i) != 0,
{
    assert(((word >> i) & 1 == 1) == (word & (1u32 << i) != 0)) by (bit_vector)
        requires
            i < 32,
    ;
}

/// The next bit is the lowest set one from the given place on.
pub proof fn law_next_bit_is_the_lowest(word: u32, from: int)
    requires
        0 <= from,
    ensures
        match next_bit(word, from) {
            Some(b) => from <= b < 32 && has_bit(word, b) && forall|i: int|
                from <= i < b ==> !has_bit(word, #[trigger] (i as u32)),
            None => forall|i: int| from <= i < 32 ==> !has_bit(word, #[trigger] (i as u32)),
        },
    decreases 32 - from,
{
    if from < 32 && !has_bit(word, from as u32) {
        law_next_bit_is_the_lowest(word, from + 1);
    }
}

/// The memory type that fits first is among the allowed ones, has every flag
/// that is asked for, and none before it is and has; without one none is and
/// has.
pub proof fn law_first_fit_is_the_first(
    types: Seq<u32>,
    type_bits: u32,
    flags: u32,
    from: int,
)
    requires
        0 <= from,
        types.len() <= 32,
    ensures
        match first_fit(types, type_bits, flags, from) {
            Some(b) => from <= b < types.len() && has_bit(type_bits, b) && types[b as int] & flags
                == flags && forall|i: int|
                from <= i < b ==> !(has_bit(type_bits, i as u32) && #[trigger] types[i] & flags
                    == flags),
            None => forall|i: int|
                from <= i < types.len() ==> !(has_bit(type_bits, i as u32) && #[trigger] types[i]
                    & flags == flags),
        },
    decreases types.len() - from,
{
    if from < types.len() && !(has_bit(type_bits, from as u32) && types[from] & flags == flags) {
        law_first_fit_is_the_first(types, type_bits, flags, from + 1);
    }
}

/// Whether frames with a reported modifier can be a copy's source.
pub open spec fn is_copy_source(p: DrmModifierProps) -> bool {
    has_bit(p.tiling_features, 14)
}

/// A capability repeats a report: its modifier and its number of planes, with
/// both usages.
pub open spec fn repeats(cap: ModCapJson, p: DrmModifierProps, words: NegotiateWords) -> bool {
    &&& cap.modifier == p.modifier
    &&& cap.plane_count == p.plane_count
    &&& cap.usage == words.usage_sampled | words.usage_transfer_dst
}

/// `places` are those of the reported modifiers that can be a copy's source, in
/// order.
pub open spec fn are_copy_sources(places: Seq<int>, props: Seq<DrmModifierProps>) -> bool {
    &&& forall|i: int| 0 <= i < places.len() ==> 0 <= #[trigger] places[i] < props.len()
    &&& forall|i: int, j: int|
        0 <= i < j < places.len() ==> #[trigger] places[i] < #[trigger] places[j]
    &&& forall|k: int|
        0 <= k < props.len() ==> (places.contains(k) <==> is_copy_source(#[trigger] props[k]))
}

/// A list of capabilities repeats the reported modifiers that can be a copy's
/// source, in order; where none of them is linear, the linear one with a single
/// plane follows.
pub open spec fn lists_copy_sources(
    caps: Seq<ModCapJson>,
    props: Seq<DrmModifierProps>,
    words: NegotiateWords,
    places: Seq<int>,
) -> bool {
    let linear = exists|i: int|
        0 <= i < places.len() && props[#[trigger] places[i]].modifier == 0;
    &&& are_copy_sources(places, props)
    &&& caps.len() == places.len() + if linear {
        0int
    } else {
        1
    }
    &&& forall|i: int| 0 <= i < places.len() ==> repeats(#[trigger] caps[i], props[places[i]], words)
    &&& !linear ==> caps.last().modifier == 0 && caps.last().plane_count == 1 && caps.last().usage
        == words.usage_sampled | words.usage_transfer_dst
}

proof fn lemma_usable_places(props: Seq<DrmModifierProps>, words: NegotiateWords) -> (places: Seq<
    int,
>)
    ensures
        are_copy_sources(places, props),
        usable_modifiers(props, words).len() == places.len(),
        forall|i: int|
            0 <= i < places.len() ==> repeats(
                #[trigger] usable_modifiers(props, words)[i],
                props[places[i]],
                words,
            ),
    decreases props.len(),
{
    if props.len() == 0 {
        Seq::empty()
    } else {
        let head = props.drop_last();
        let last = props.len() - 1;
        let before = lemma_usable_places(head, words);
        let kept = usable_modifiers(props, words);
        let features = props[last].tiling_features;
        assert((features & 0x4000 == 0x4000) == ((features >> 14u32) & 1 == 1)) by (bit_vector);
        let places = if is_copy_source(props[last]) {
            before.push(last)
        } else {
            before
        };
        assert forall|i: int| 0 <= i < places.len() implies 0 <= #[trigger] places[i]
            < props.len() by {
            if i < before.len() {
                assert(before[i] < head.len());
            }
        }
        assert forall|i: int| 0 <= i < places.len() implies repeats(
            #[trigger] kept[i],
            props[places[i]],
            words,
        ) by {
            if i < before.len() {
                assert(0 <= before[i] < head.len());
                assert(kept[i] == usable_modifiers(head, words)[i]);
                assert(head[before[i]] == props[before[i]]);
            }
        }
        assert forall|k: int| 0 <= k < props.len() implies (places.contains(k) <==> is_copy_source(
            #[trigger] props[k],
        )) by {
            if k < last {
                assert(head[k] == props[k]);
                if before.contains(k) {
                    assert(places[before.index_of(k)] == k);
                }
                if places.contains(k) {
                    assert(before[places.index_of(k)] == k);
                }
            } else {
                if is_copy_source(props[k]) {
                    assert(places[before.len() as int] == k);
                }
                if places.contains(k) {
                    let i = places.index_of(k);
                    if i < before.len() {
                        assert(before[i] < head.len());
                    }
                }
            }
        }
        places
    }
}

proof fn lemma_entry_of_its_fourcc(
    reports: Seq<Vec<DrmModifierProps>>,
    words: NegotiateWords,
    n: int,
    e: int,
)
    requires
        n <= 4,
        0 <= e < caps_entries(reports, words, n).len(),
    ensures
        ({
            let k = fourcc_place(reports, words, n, e);
            let mods = usable_modifiers(reports[k]@, words);
            &&& 0 <= k < n
            &&& mods.len() > 0
            &&& caps_entries(reports, words, n)[e].1 == with_linear(mods, words)
        }),
    decreases n,
{
    if e < caps_entries(reports, words, n - 1).len() {
        lemma_entry_of_its_fourcc(reports, words, n - 1, e);
    }
}

proof fn lemma_fourcc_has_its_entry(
    reports: Seq<Vec<DrmModifierProps>>,
    words: NegotiateWords,
    n: int,
    k: int,
) -> (e: int)
    requires
        0 <= k < n <= 4,
        usable_modifiers(reports[k]@, words).len() > 0,
    ensures
        0 <= e < caps_entries(reports, words, n).len(),
        fourcc_place(reports, words, n, e) == k,
    decreases n,
{
    let head = caps_entries(reports, words, n - 1);
    if k == n - 1 {
        head.len() as int
    } else {
        lemma_fourcc_has_its_entry(reports, words, n - 1, k)
    }
}

/// A fourcc is advertised exactly if the driver reports a modifier for it that
/// can be a copy's source; it is advertised with all of these and, where it is
/// missing, the linear one.
pub proof fn law_caps_hold_what_the_driver_reports(
    reports: Seq<Vec<DrmModifierProps>>,
    words: NegotiateWords,
    k: int,
)
    requires
        0 <= k < 4,
    ensures
        ({
            let entries = caps_entries(reports, words, 4);
            let key = text::hex_text(fourccs()[k] as nat, 8);
            &&& (exists|e: int| 0 <= e < entries.len() && (#[trigger] entries[e]).0 == key) <==> (
            exists|j: int|
                0 <= j < reports[k]@.len() && is_copy_source(#[trigger] reports[k]@[j]))
            &&& forall|e: int|
                0 <= e < entries.len() && (#[trigger] entries[e]).0 == key ==> exists|
                    places: Seq<int>,
                |
                    #[trigger] lists_copy_sources(entries[e].1, reports[k]@, words, places)
            &&& forall|e: int|
                0 <= e < entries.len() ==> exists|f: int|
                    0 <= f < 4 && (#[trigger] entries[e]).0 == text::hex_text(
                        #[trigger] fourccs()[f] as nat,
                        8,
                    )
        }),
{
    let entries = caps_entries(reports, words, 4);
    let key = text::hex_text(fourccs()[k] as nat, 8);
    let props = reports[k]@;
    let mods = usable_modifiers(props, words);
    let places = lemma_usable_places(props, words);
    lemma_fourcc_keys();
    assert(fourccs()[0] == DRM_FORMAT_ABGR8888 && fourccs()[1] == DRM_FORMAT_XBGR8888);
    assert(fourccs()[2] == DRM_FORMAT_ARGB8888 && fourccs()[3] == DRM_FORMAT_XRGB8888);
    assert(seq!['0', 'x', '3', '4', '3', '2', '4', '2', '4', '1'][9] == '1');
    assert forall|e: int| 0 <= e < entries.len() && (#[trigger] entries[e]).0 == key implies
        fourcc_place(reports, words, 4, e) == k by {
        lemma_fourcc_place(reports, words, 4, e);
        let f = fourcc_place(reports, words, 4, e);
        if f != k {
            if f < k {
                lemma_key_order(f, k);
            } else {
                lemma_key_order(k, f);
            }
            text::lemma_text_irreflexive(key);
        }
    }
    if exists|j: int| 0 <= j < props.len() && is_copy_source(#[trigger] props[j]) {
        let j = choose|j: int| 0 <= j < props.len() && is_copy_source(#[trigger] props[j]);
        assert(places.contains(j));
        let e = lemma_fourcc_has_its_entry(reports, words, 4, k);
        lemma_fourcc_place(reports, words, 4, e);
        assert(entries[e].0 == key);
    }
    assert forall|e: int| 0 <= e < entries.len() && (#[trigger] entries[e]).0 == key implies exists|
        places: Seq<int>,
    | #[trigger] lists_copy_sources(entries[e].1, props, words, places) by {
        lemma_entry_of_its_fourcc(reports, words, 4, e);
        let caps = entries[e].1;
        if has_linear(mods) {
            let i = choose|i: int| 0 <= i < mods.len() && (#[trigger] mods[i]).modifier == 0;
            assert(props[places[i]].modifier == 0);
        } else {
            assert forall|i: int| 0 <= i < places.len() implies props[
            #[trigger] places[i]].modifier != 0 by {
                assert(mods[i].modifier != 0);
            }
        }
        assert forall|i: int| 0 <= i < places.len() implies repeats(
            #[trigger] caps[i],
            props[places[i]],
            words,
        ) by {
            assert(caps[i] == mods[i]);
        }
        assert(lists_copy_sources(caps, props, words, places));
    }
    if exists|e: int| 0 <= e < entries.len() && (#[trigger] entries[e]).0 == key {
        let e = choose|e: int| 0 <= e < entries.len() && (#[trigger] entries[e]).0 == key;
        lemma_entry_of_its_fourcc(reports, words, 4, e);
        assert(places.contains(places[0]));
        assert(is_copy_source(props[places[0]]));
    }
    assert forall|e: int| 0 <= e < entries.len() implies exists|f: int|
        0 <= f < 4 && (#[trigger] entries[e]).0 == text::hex_text(
            #[trigger] fourccs()[f] as nat,
            8,
        ) by {
        lemma_fourcc_place(reports, words, 4, e);
        let f = fourcc_place(reports, words, 4, e);
        assert(entries[e].0 == text::hex_text(fourccs()[f] as nat, 8));
    }
}

/// Where the digits of byte `k` of a UUID stand in its text.
pub open spec fn uuid_offset(k: int) -> int {
    2 * k + (if k >= 4 {
        1int
    } else {
        0
    }) + (if k >= 6 {
        1int
    } else {
        0
    }) + (if k >= 8 {
        1int
    } else {
        0
    }) + (if k >= 10 {
        1int
    } else {
        0
    })
}

proof fn lemma_uuid_prefix(u: Seq<u8>, k: int, n: int)
    requires
        0 <= k <= n,
    ensures
        uuid_text(u, k).len() <= uuid_text(u, n).len(),
        uuid_text(u, n).take(uuid_text(u, k).len() as int) == uuid_text(u, k),
    decreases n - k,
{
    if k < n {
        lemma_uuid_prefix(u, k, n - 1);
        let short = uuid_text(u, n - 1);
        let long = uuid_text(u, n);
        assert(long.take(short.len() as int) =~= short);
        assert(long.take(uuid_text(u, k).len() as int) =~= short.take(uuid_text(u, k).len() as int));
    } else {
        assert(uuid_text(u, n).take(uuid_text(u, k).len() as int) =~= uuid_text(u, k));
    }
}

/// A UUID shows the two hexadecimal digits of every byte in order, the high one
/// first, with a dash after the fourth, the sixth, the eighth and the tenth
/// byte.
pub proof fn law_uuid_shows_every_byte(u: Seq<u8>, k: int)
    requires
        u.len() == 16,
        0 <= k < 16,
    ensures
        ({
            let text = uuid_text(u, 16);
            let hex = "0123456789abcdef"@;
            &&& text.len() == 36
            &&& text[uuid_offset(k)] == hex[u[k] as int / 16]
            &&& text[uuid_offset(k) + 1] == hex[u[k] as int % 16]
            &&& text[8] == '-' && text[13] == '-' && text[18] == '-' && text[23] == '-'
        }),
{
    reveal_strlit("0123456789abcdef");
    lemma_uuid_text_length(u, 16);
    lemma_uuid_text_length(u, k);
    lemma_uuid_text_length(u, k + 1);
    lemma_uuid_prefix(u, k + 1, 16);
    let n = u[k] as nat;
    let whole = uuid_text(u, 16);
    let upto = uuid_text(u, k + 1);
    reveal_with_fuel(text::digits, 3);
    let shown = text::zero_padded(text::digits(n, 16), 2);
    assert(shown =~= seq![text::digit_char((n / 16) as int), text::digit_char((n % 16) as int)]);
    let o = uuid_offset(k);
    assert(upto[o] == shown[0]);
    assert(upto[o + 1] == shown[1]);
    assert(whole.take(upto.len() as int)[o] == whole[o]);
    assert(whole.take(upto.len() as int)[o + 1] == whole[o + 1]);
    lemma_uuid_dash(u, 5, 8);
    lemma_uuid_dash(u, 7, 13);
    lemma_uuid_dash(u, 9, 18);
    lemma_uuid_dash(u, 11, 23);
}

proof fn lemma_uuid_dash(u: Seq<u8>, n: int, at: int)
    requires
        n == 5 && at == 8 || n == 7 && at == 13 || n == 9 && at == 18 || n == 11 && at == 23,
    ensures
        uuid_text(u, 16)[at] == '-',
{
    lemma_uuid_text_length(u, n - 1);
    lemma_uuid_text_length(u, n);
    lemma_uuid_text_length(u, 16);
    lemma_uuid_prefix(u, n, 16);
    let upto = uuid_text(u, n);
    assert(upto[at] == '-');
    assert(uuid_text(u, 16).take(upto.len() as int)[at] == uuid_text(u, 16)[at]);
}

/// A UUID goes over the wire as four numbers, each from four bytes with the
/// first in the lowest place.
pub proof fn law_uuid_words_are_little_endian(uuid: Seq<u8>, k: int)
    requires
        uuid.len() == 16,
        0 <= k < 4,
    ensures
        uuid_words(uuid).len() == 4,
        uuid_words(uuid)[k] == uuid[4 * k] + uuid[4 * k + 1] * 0x100 + uuid[4 * k + 2] * 0x1_0000
            + uuid[4 * k + 3] * 0x100_0000,
{
    let part = uuid.subrange(4 * k, 4 * k + 4);
    lemma_le_bytes(part[0] as int, part[1] as int, part[2] as int, part[3] as int);
}

/// What is used, and what is synchronised on, is both of what the protocol has
/// words for.
pub proof fn law_words_hold_both_bits(words: NegotiateWords, i: u32)
    requires
        i < 32,
    ensures
        has_bit(words.usage_view(), i) <==> has_bit(words.usage_sampled, i) || has_bit(
            words.usage_transfer_dst,
            i,
        ),
        has_bit(words.sync_view(), i) <==> has_bit(words.sync_syncobj_binary, i) || has_bit(
            words.sync_syncobj_timeline,
            i,
        ),
{
    let (a, b) = (words.usage_sampled, words.usage_transfer_dst);
    let (c, d) = (words.sync_syncobj_binary, words.sync_syncobj_timeline);
    assert((((a | b) >> i) & 1 == 1) == ((a >> i) & 1 == 1 || (b >> i) & 1 == 1)) by (bit_vector)
        requires
            i < 32,
    ;
    assert((((c | d) >> i) & 1 == 1) == ((c >> i) & 1 == 1 || (d >> i) & 1 == 1)) by (bit_vector)
        requires
            i < 32,
    ;
}

/// The report holds all four names by which buffers and sync files are
/// imported.
pub open spec fn reports_all_four(report: Option<Vec<String>>) -> bool {
    &&& reports_name(report, "VK_KHR_external_memory_fd"@)
    &&& reports_name(report, "VK_EXT_external_memory_dma_buf"@)
    &&& reports_name(report, "VK_EXT_image_drm_format_modifier"@)
    &&& reports_name(report, "VK_KHR_external_semaphore_fd"@)
}

/// Some device is chosen exactly if one reports all four names, and it is the
/// first that does. Without devices the reason is another than with unsuitable
/// ones.
pub proof fn law_first_suitable_device_is_chosen(
    reports: Seq<Option<Vec<String>>>,
    choice: Result<usize, SetupError>,
    k: int,
)
    requires
        is_device_choice(reports, choice),
        0 <= k < reports.len(),
    ensures
        reports_all_four(reports[k]) ==> choice is Ok && choice->Ok_0 <= k,
        choice is Ok ==> choice->Ok_0 < reports.len() && reports_all_four(
            reports[choice->Ok_0 as int],
        ),
        choice is Err ==> choice->Err_0 == SetupError::NoSuitableDevice,
{
    law_suitable_devices_report_four_extensions(reports[k]);
    if choice is Ok {
        law_suitable_devices_report_four_extensions(reports[choice->Ok_0 as int]);
    }
}

/// Without devices there is none to choose.
pub proof fn law_no_device_no_choice(
    reports: Seq<Option<Vec<String>>>,
    choice: Result<usize, SetupError>,
)
    requires
        is_device_choice(reports, choice),
        reports.len() == 0,
    ensures
        choice == Err::<usize, SetupError>(SetupError::NoDevice),
{
}

/// A queue family that can do graphics, compute or transfer.
pub open spec fn is_capable(flags: u32) -> bool {
    has_bit(flags, 0) || has_bit(flags, 1) || has_bit(flags, 2)
}

/// A device is planned exactly if some queue family is capable; the first such
/// one is used, the four required extensions are enabled in order, and the one
/// that tells the render node after them exactly if it is reported.
pub proof fn law_plan_uses_what_is_there(
    report: Option<Vec<String>>,
    flags: Seq<u32>,
    plan: Result<DevicePlan, SetupError>,
    k: int,
)
    requires
        is_plan_for(report, flags, plan),
        flags.len() <= u32::MAX,
        0 <= k < flags.len(),
    ensures
        is_capable(flags[k]) ==> plan is Ok && plan->Ok_0.queue_family <= k,
        plan is Ok ==> plan->Ok_0.queue_family < flags.len() && is_capable(
            flags[plan->Ok_0.queue_family as int],
        ),
        plan is Err ==> plan->Err_0 == SetupError::NoQueueFamily,
        plan is Ok ==> ({
            let p = plan->Ok_0;
            let drm = reports_name(report, "VK_EXT_physical_device_drm"@);
            &&& p.have_drm <==> drm
            &&& p.extensions@.len() == if drm {
                5int
            } else {
                4
            }
            &&& p.extensions@[0]@ == "VK_KHR_external_memory_fd"@
            &&& p.extensions@[1]@ == "VK_EXT_external_memory_dma_buf"@
            &&& p.extensions@[2]@ == "VK_EXT_image_drm_format_modifier"@
            &&& p.extensions@[3]@ == "VK_KHR_external_semaphore_fd"@
            &&& drm ==> p.extensions@[4]@ == "VK_EXT_physical_device_drm"@
        }),
{
    let f = flags[k];
    assert((f & 7 != 0) == ((f >> 0u32) & 1 == 1 || (f >> 1u32) & 1 == 1 || (f >> 2u32) & 1 == 1))
        by (bit_vector);
    law_suitable_devices_report_four_extensions(report);
    if plan is Ok {
        let p = plan->Ok_0;
        let i = choose|i: int| #[trigger] is_queue_choice(flags, i) && p.queue_family == i as u32;
        law_queue_family_is_the_first_capable(flags, i);
        let names = text::texts(p.extensions@);
        assert(names.len() == p.extensions@.len());
        assert(names[0] == p.extensions@[0]@ && names[1] == p.extensions@[1]@);
        assert(names[2] == p.extensions@[2]@ && names[3] == p.extensions@[3]@);
        if p.have_drm {
            assert(names[4] == p.extensions@[4]@);
        }
    }
}

/// The device tells a peer who it is, and that it takes frames of up to 8192 by
/// 8192; its list is the one of the driver's reports. There is nothing to tell
/// exactly if no report holds a modifier that can be a copy's source.
pub proof fn law_caps_tell_who_takes_what(
    device_uuid: [u8; 16],
    driver_uuid: [u8; 16],
    node: (u32, u32),
    reports: Seq<Vec<DrmModifierProps>>,
    words: NegotiateWords,
    caps: Result<PeerCapsJson, CapsError>,
    k: int,
    j: int,
)
    requires
        are_caps_of(device_uuid, driver_uuid, node, reports, words, caps),
        0 <= k < 4,
        0 <= j < reports[k]@.len(),
    ensures
        is_copy_source(reports[k]@[j]) ==> caps is Ok,
        caps is Ok ==> ({
            let c = caps->Ok_0;
            &&& c.by_fourcc@.len() > 0
            &&& c.device_uuid == device_uuid && c.driver_uuid == driver_uuid
            &&& c.drm_render_major == node.0 && c.drm_render_minor == node.1
            &&& (c.extent_max_w, c.extent_max_h) == (8192u32, 8192u32)
            &&& c.color == words.default_color && c.mem_hint == words.mem_hint_host_visible
            &&& c.sync == words.sync_syncobj_binary | words.sync_syncobj_timeline
            &&& forall|e: int|
                0 <= e < c.by_fourcc@.len() ==> (#[trigger] c.by_fourcc@[e]).0@ == caps_entries(
                    reports,
                    words,
                    4,
                )[e].0 && c.by_fourcc@[e].1@ == caps_entries(reports, words, 4)[e].1
            &&& c.by_fourcc@.len() == caps_entries(reports, words, 4).len()
        }),
{
    let entries = caps_entries(reports, words, 4);
    law_caps_hold_what_the_driver_reports(reports, words, k);
    if is_copy_source(reports[k]@[j]) {
        let e = choose|e: int|
            0 <= e < entries.len() && (#[trigger] entries[e]).0 == text::hex_text(
                fourccs()[k] as nat,
                8,
            );
        assert(entries.len() > 0);
    }
    if caps is Ok {
        let c = caps->Ok_0;
        assert forall|e: int| 0 <= e < c.by_fourcc@.len() implies (#[trigger] c.by_fourcc@[e]).0@
            == entries[e].0 && c.by_fourcc@[e].1@ == entries[e].1 by {
            assert(entries_view(c.by_fourcc@)[e] == entries[e]);
        }
    }
}

/// A context keeps what the plan and the driver say.
pub proof fn law_context_keeps_what_was_learned(
    ctx: VkContext,
    plan: DevicePlan,
    id: DeviceIdentity,
    memory_types: Vec<u32>,
)
    requires
        ctx.knows(plan, id, memory_types),
    ensures
        ctx.queue_family == plan.queue_family,
        ctx.memory_types@ == memory_types@,
        ctx.device_uuid@ == id.device_uuid@,
        ctx.driver_uuid@ == id.driver_uuid@,
        plan.have_drm && id.has_render != 0 ==> ctx.drm_render_major as int == id.render_major as int
            % 0x1_0000_0000 && ctx.drm_render_minor as int == id.render_minor as int % 0x1_0000_0000,
        !plan.have_drm || id.has_render == 0 ==> ctx.drm_render_major == 0 && ctx.drm_render_minor
            == 0,
{
    law_render_node_is_reported_or_zero(plan.have_drm, id);
}

/// A frame is mapped exactly if its modifier is zero, and then only if its rows
/// fit in the buffer; any other frame is imported exactly if its fourcc is one
/// of the four. The first step is to wait for the frame, or to create an image
/// in its format.
pub proof fn law_frame_is_mapped_exactly_if_linear(frame: Frame, r: Result<Import, ImportError>)
    requires
        is_import_of(frame, r),
    ensures
        frame.modifier == 0 <==> r matches Ok(Import::Linear(_)) || r matches Err(
            ImportError::Linear(_),
        ),
        frame.modifier == 0 ==> (r is Ok <==> 4 * frame.width <= frame.stride && frame.plane_offset
            + frame.height * frame.stride <= frame.size),
        frame.modifier != 0 ==> (r is Ok <==> spells(frame.fourcc, "AB24"@) || spells(
            frame.fourcc,
            "XB24"@,
        ) || spells(frame.fourcc, "AR24"@) || spells(frame.fourcc, "XR24"@)),
        r matches Ok(Import::Linear(import)) ==> import.frame_view() == frame
            && import.step_view() == (linear::LinearStep::Wait { timeout_ms: 5000 }),
        r matches Ok(Import::Tiled(import)) ==> import@.frame == frame && import@.error is None
            && import@.step == (tiled::TiledStep::CreateImage {
            format: if spells(frame.fourcc, "AB24"@) || spells(frame.fourcc, "XB24"@) {
                37
            } else {
                44
            },
        }),
        r matches Err(ImportError::Tiled(error)) ==> error == TiledError::NoFormat,
        r matches Err(ImportError::Linear(error)) ==> (error == LinearError::StrideTooSmall
            <==> frame.stride < 4 * frame.width),
{
    law_formats_by_spelling(frame.fourcc);
    linear::law_layout_is_refused_exactly_if_it_does_not_fit(frame);
}

} // verus!
