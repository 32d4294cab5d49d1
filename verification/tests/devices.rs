use camera_ports::abi::{
    ior, iowr, MEDIA_IOC_G_TOPOLOGY, MEDIA_V2_TOPOLOGY_SIZE, V4L2_CAPABILITY_SIZE, VIDIOC_QUERYCAP,
};
use camera_ports::devices::{dev_major_minor, media_devices};

#[test]
fn requests_are_numbered_as_defined() {
    assert_eq!(iowr(b'|' as u32, 0x04, MEDIA_V2_TOPOLOGY_SIZE), 0xc048_7c04);
    assert_eq!(MEDIA_IOC_G_TOPOLOGY, 0xc048_7c04);
    assert_eq!(ior(b'V' as u32, 0, V4L2_CAPABILITY_SIZE), 0x8068_5600);
    assert_eq!(VIDIOC_QUERYCAP, 0x8068_5600);
}

#[test]
fn request_parts_stay_apart() {
    let r = iowr(0xab, 0xcd, 0x1234);
    assert_eq!(r >> 30, 3);
    assert_eq!((r >> 16) & 0x3fff, 0x1234);
    assert_eq!((r >> 8) & 0xff, 0xab);
    assert_eq!(r & 0xff, 0xcd);
    assert_eq!(ior(0, 0, 0), 2 << 30);
}

#[test]
fn device_number_is_taken_apart() {
    assert_eq!(dev_major_minor(0x5100), (81, 0));
    assert_eq!(dev_major_minor(0x5103), (81, 3));
    assert_eq!(dev_major_minor(0), (0, 0));
    assert_eq!(dev_major_minor(u64::MAX), (u32::MAX, u32::MAX));
    assert_eq!(
        dev_major_minor(libc::makedev(0x1234_5678, 0x9abc_def0)),
        (0x1234_5678, 0x9abc_def0)
    );
}

#[test]
fn every_bit_of_a_device_number_counts() {
    for bit in 0..64 {
        assert_ne!(dev_major_minor(1 << bit), (0, 0));
        for other in 0..bit {
            assert_ne!(dev_major_minor(1 << bit), dev_major_minor(1 << other));
        }
    }
}

fn names(list: &[&[u8]]) -> Vec<Vec<u8>> {
    list.iter().map(|name| name.to_vec()).collect()
}

#[test]
fn media_devices_are_picked_and_sorted() {
    let found = media_devices(&names(&[
        b"media2", b"video0", b"media10", b"media", b"media1x", b"xmedia1", b"Media1", b"media0",
        b"media-1", b"\xff", b"media\xff", b"",
    ]));
    assert_eq!(
        found,
        names(&[b"/dev/media0", b"/dev/media10", b"/dev/media2"])
    );
}

#[test]
fn listing_order_has_no_bearing() {
    let a = names(&[b"media3", b"media21", b"media2", b"null"]);
    let mut b = a.clone();
    b.reverse();
    assert_eq!(media_devices(&a), media_devices(&b));
    assert_eq!(
        media_devices(&a),
        names(&[b"/dev/media2", b"/dev/media21", b"/dev/media3"])
    );
}

#[test]
fn digits_past_ascii_do_not_count() {
    assert_eq!(media_devices(&names(&["media٣".as_bytes()])), names(&[]));
    assert_eq!(media_devices(&names(&[b"media/", b"media:"])), names(&[]));
}
