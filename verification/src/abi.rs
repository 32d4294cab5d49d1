//! What the kernel reports, in plain values: objects of
//! `MEDIA_IOC_G_TOPOLOGY` from `<linux/media.h>` and of `VIDIOC_QUERYCAP` from
//! `<linux/videodev2.h>`, and the numbers of these two requests.

use vstd::prelude::*;

verus! {

/// `struct media_v2_entity`.
#[derive(Debug, Clone, Copy)]
pub struct MediaV2Entity {
    pub id: u32,
    pub name: [u8; 64],
    pub function: u32,
    pub flags: u32,
}

/// `struct media_v2_intf_devnode`.
#[derive(Debug, Clone, Copy)]
pub struct MediaV2IntfDevnode {
    pub major: u32,
    pub minor: u32,
}

/// `struct media_v2_interface`.
#[derive(Debug, Clone, Copy)]
pub struct MediaV2Interface {
    pub id: u32,
    pub intf_type: u32,
    pub flags: u32,
    pub devnode: MediaV2IntfDevnode,
}

/// `struct media_v2_pad`.
#[derive(Debug, Clone, Copy)]
pub struct MediaV2Pad {
    pub id: u32,
    pub entity_id: u32,
    pub flags: u32,
    pub index: u32,
}

/// `struct media_v2_link`.
#[derive(Debug, Clone, Copy)]
pub struct MediaV2Link {
    pub id: u32,
    pub source_id: u32,
    pub sink_id: u32,
    pub flags: u32,
}

/// `struct v4l2_capability`. The texts may fill their fields, with no trailing
/// NUL.
#[derive(Debug, Clone, Copy)]
pub struct V4l2Capability {
    pub driver: [u8; 16],
    pub card: [u8; 32],
    pub bus_info: [u8; 32],
    pub version: u32,
    pub capabilities: u32,
    pub device_caps: u32,
}

/// Size in bytes of `struct media_v2_topology`.
pub const MEDIA_V2_TOPOLOGY_SIZE: u32 = 72;

/// Size in bytes of `struct v4l2_capability`.
pub const V4L2_CAPABILITY_SIZE: u32 = 104;

/// `_IOWR('|', 0x04, struct media_v2_topology)`.
pub const MEDIA_IOC_G_TOPOLOGY: u32 = 0xc048_7c04;

/// `_IOR('V', 0, struct v4l2_capability)`.
pub const VIDIOC_QUERYCAP: u32 = 0x8068_5600;

/// The number of an ioctl request: direction, size of the argument, type and
/// number, as `<asm-generic/ioctl.h>` packs them.
pub open spec fn request(dir: u32, ty: u32, nr: u32, size: u32) -> u32 {
    (dir << 30u32) | (size << 16u32) | (ty << 8u32) | nr
}

/// `_IOWR(type, nr, size)`, as defined by `<asm-generic/ioctl.h>`.
pub fn iowr(ty: u32, nr: u32, size: u32) -> (r: u32)
    ensures
        r == request(3, ty, nr, size),
        r == 0xc000_0000u32 | (size << 16u32) | (ty << 8u32) | nr,
{
    assert(3u32 << 30u32 == 0xc000_0000u32) by (bit_vector);
    (3u32 << 30u32) | (size << 16u32) | (ty << 8u32) | nr
}

/// `_IOR(type, nr, size)`, as defined by `<asm-generic/ioctl.h>`.
pub fn ior(ty: u32, nr: u32, size: u32) -> (r: u32)
    ensures
        r == request(2, ty, nr, size),
        r == 0x8000_0000u32 | (size << 16u32) | (ty << 8u32) | nr,
{
    assert(2u32 << 30u32 == 0x8000_0000u32) by (bit_vector);
    (2u32 << 30u32) | (size << 16u32) | (ty << 8u32) | nr
}

/// A request number holds what it was made of, each part in bits of its own:
/// two bits of direction, 14 of size, 8 of type and 8 of number.
pub proof fn request_parts(dir: u32, ty: u32, nr: u32, size: u32)
    requires
        dir < 4,
        ty < 0x100,
        nr < 0x100,
        size < 0x4000,
    ensures
        request(dir, ty, nr, size) == dir * 0x4000_0000 + size * 0x1_0000 + ty * 0x100 + nr,
        request(dir, ty, nr, size) >> 30u32 == dir,
        request(dir, ty, nr, size) >> 16u32 & 0x3fff == size,
        request(dir, ty, nr, size) >> 8u32 & 0xff == ty,
        request(dir, ty, nr, size) & 0xff == nr,
{
    assert(({
        let r = (dir << 30u32) | (size << 16u32) | (ty << 8u32) | nr;
        &&& r == dir * 0x4000_0000 + size * 0x1_0000 + ty * 0x100 + nr
        &&& r >> 30u32 == dir
        &&& r >> 16u32 & 0x3fff == size
        &&& r >> 8u32 & 0xff == ty
        &&& r & 0xff == nr
    })) by (bit_vector)
        requires
            dir < 4,
            ty < 0x100,
            nr < 0x100,
            size < 0x4000,
    ;
}

/// The two requests are numbered as their definitions say.
pub proof fn request_numbers()
    ensures
        MEDIA_IOC_G_TOPOLOGY == request(3, 0x7c, 0x04, MEDIA_V2_TOPOLOGY_SIZE),
        VIDIOC_QUERYCAP == request(2, 0x56, 0, V4L2_CAPABILITY_SIZE),
        MEDIA_IOC_G_TOPOLOGY == 0xc048_7c04,
        VIDIOC_QUERYCAP == 0x8068_5600,
{
    assert((3u32 << 30u32) | (72u32 << 16u32) | (0x7cu32 << 8u32) | 0x04u32 == 0xc048_7c04u32)
        by (bit_vector);
    assert((2u32 << 30u32) | (104u32 << 16u32) | (0x56u32 << 8u32) | 0u32 == 0x8068_5600u32)
        by (bit_vector);
}

} // verus!
