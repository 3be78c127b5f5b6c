//! The Vulkan numbers and names the library reasons about, as `ash` defines
//! them.
//!
//! The library holds formats and flag words as plain integers and extension
//! names as strings; everything here asks `ash` for a value or for a test on
//! such words.
use vstd::prelude::*;

verus! {

/// `ash::vk::Format::R8G8B8A8_UNORM`: its numeric value is 37.
#[verifier::external_body]
pub(crate) fn format_r8g8b8a8_unorm() -> (raw: i32)
    ensures
        raw == 37,
{
    ash::vk::Format::R8G8B8A8_UNORM.as_raw()
}

/// `ash::vk::Format::B8G8R8A8_UNORM`: its numeric value is 44.
#[verifier::external_body]
pub(crate) fn format_b8g8r8a8_unorm() -> (raw: i32)
    ensures
        raw == 44,
{
    ash::vk::Format::B8G8R8A8_UNORM.as_raw()
}

/// `ash::vk::FormatFeatureFlags::TRANSFER_SRC`: bit 14.
#[verifier::external_body]
pub(crate) fn feature_transfer_src() -> (raw: u32)
    ensures
        raw == 0x4000,
{
    ash::vk::FormatFeatureFlags::TRANSFER_SRC.as_raw()
}

/// `ash::vk::FormatFeatureFlags::contains`: every bit of `wanted` is set in
/// `features`.
#[verifier::external_body]
pub(crate) fn features_contain(features: u32, wanted: u32) -> (all: bool)
    ensures
        all == (features & wanted == wanted),
{
    ash::vk::FormatFeatureFlags::from_raw(features).contains(
        ash::vk::FormatFeatureFlags::from_raw(wanted),
    )
}

/// `ash::vk::QueueFlags::GRAPHICS`: bit 0.
#[verifier::external_body]
pub(crate) fn queue_graphics() -> (raw: u32)
    ensures
        raw == 1,
{
    ash::vk::QueueFlags::GRAPHICS.as_raw()
}

/// `ash::vk::QueueFlags::COMPUTE`: bit 1.
#[verifier::external_body]
pub(crate) fn queue_compute() -> (raw: u32)
    ensures
        raw == 2,
{
    ash::vk::QueueFlags::COMPUTE.as_raw()
}

/// `ash::vk::QueueFlags::TRANSFER`: bit 2.
#[verifier::external_body]
pub(crate) fn queue_transfer() -> (raw: u32)
    ensures
        raw == 4,
{
    ash::vk::QueueFlags::TRANSFER.as_raw()
}

/// `ash::vk::QueueFlags::intersects`: the two words share a set bit.
#[verifier::external_body]
pub(crate) fn queue_flags_intersect(flags: u32, other: u32) -> (shared: bool)
    ensures
        shared == (flags & other != 0),
{
    ash::vk::QueueFlags::from_raw(flags).intersects(ash::vk::QueueFlags::from_raw(other))
}

/// `ash::vk::MemoryPropertyFlags::HOST_VISIBLE`: bit 1.
#[verifier::external_body]
pub(crate) fn memory_host_visible() -> (raw: u32)
    ensures
        raw == 2,
{
    ash::vk::MemoryPropertyFlags::HOST_VISIBLE.as_raw()
}

/// `ash::vk::MemoryPropertyFlags::HOST_COHERENT`: bit 2.
#[verifier::external_body]
pub(crate) fn memory_host_coherent() -> (raw: u32)
    ensures
        raw == 4,
{
    ash::vk::MemoryPropertyFlags::HOST_COHERENT.as_raw()
}

/// `ash::vk::MemoryPropertyFlags::contains`: every bit of `wanted` is set in
/// `flags`.
#[verifier::external_body]
pub(crate) fn memory_flags_contain(flags: u32, wanted: u32) -> (all: bool)
    ensures
        all == (flags & wanted == wanted),
{
    ash::vk::MemoryPropertyFlags::from_raw(flags).contains(
        ash::vk::MemoryPropertyFlags::from_raw(wanted),
    )
}

/// `ash::khr::external_memory_fd::NAME`.
#[verifier::external_body]
pub(crate) fn name_external_memory_fd() -> (name: String)
    ensures
        name@ == "VK_KHR_external_memory_fd"@,
{
    ash::khr::external_memory_fd::NAME.to_string_lossy().into_owned()
}

/// `ash::ext::external_memory_dma_buf::NAME`.
#[verifier::external_body]
pub(crate) fn name_external_memory_dma_buf() -> (name: String)
    ensures
        name@ == "VK_EXT_external_memory_dma_buf"@,
{
    ash::ext::external_memory_dma_buf::NAME.to_string_lossy().into_owned()
}

/// `ash::ext::image_drm_format_modifier::NAME`.
#[verifier::external_body]
pub(crate) fn name_image_drm_format_modifier() -> (name: String)
    ensures
        name@ == "VK_EXT_image_drm_format_modifier"@,
{
    ash::ext::image_drm_format_modifier::NAME.to_string_lossy().into_owned()
}

/// `ash::khr::external_semaphore_fd::NAME`.
#[verifier::external_body]
pub(crate) fn name_external_semaphore_fd() -> (name: String)
    ensures
        name@ == "VK_KHR_external_semaphore_fd"@,
{
    ash::khr::external_semaphore_fd::NAME.to_string_lossy().into_owned()
}

/// `ash::ext::physical_device_drm::NAME`.
#[verifier::external_body]
pub(crate) fn name_physical_device_drm() -> (name: String)
    ensures
        name@ == "VK_EXT_physical_device_drm"@,
{
    ash::ext::physical_device_drm::NAME.to_string_lossy().into_owned()
}

} // verus!
