use camera_ports::component::encode_component;
use camera_ports::paths::{device_link_path, video_path};
use camera_ports::text::{bytes_to_string, c_name, read_sysfs_attr, trimmed_text};

fn field(text: &[u8]) -> [u8; 32] {
    let mut bytes = [0u8; 32];
    bytes[..text.len()].copy_from_slice(text);
    bytes
}

#[test]
fn field_ends_at_first_nul() {
    assert_eq!(c_name(b"imx708 10-001a\0garbage"), "imx708 10-001a");
    assert_eq!(
        bytes_to_string(&field(b"usb-0000:00:14.0-3")),
        Some("usb-0000:00:14.0-3".to_string())
    );
}

#[test]
fn full_field_is_read_to_its_end() {
    let full = [b'x'; 32];
    assert_eq!(bytes_to_string(&full), Some("x".repeat(32)));
    assert_eq!(c_name(b"no end"), "no end");
}

#[test]
fn blank_field_is_none() {
    assert_eq!(bytes_to_string(&[0; 32]), None);
    assert_eq!(bytes_to_string(b""), None);
    assert_eq!(bytes_to_string(b" \t\n \0x"), None);
}

#[test]
fn field_is_trimmed() {
    assert_eq!(
        bytes_to_string(b"  platform:soc \n\0"),
        Some("platform:soc".to_string())
    );
}

#[test]
fn utf8_is_decoded() {
    assert_eq!(c_name("caméra 越\0".as_bytes()), "caméra 越");
}

#[test]
fn other_bytes_are_replaced() {
    assert_eq!(c_name(b"a\xffb\0"), "a\u{fffd}b");
    assert_eq!(bytes_to_string(b" \xff "), Some("\u{fffd}".to_string()));
    // A surrogate, an overlong form and a value past the last scalar.
    for bytes in [&b"\xed\xa0\x80"[..], &b"\xc0\x80"[..], &b"\xf4\x90\x80\x80"[..]] {
        assert!(c_name(bytes).contains('\u{fffd}'));
    }
}

#[test]
fn attribute_is_trimmed_or_none() {
    assert_eq!(
        read_sysfs_attr(&Some("ABC123\n".to_string())),
        Some("ABC123".to_string())
    );
    assert_eq!(read_sysfs_attr(&Some("\n".to_string())), None);
    assert_eq!(read_sysfs_attr(&Some(String::new())), None);
    assert_eq!(read_sysfs_attr(&None), None);
}

#[test]
fn white_space_is_what_unicode_says() {
    let listed = |c: char| {
        matches!(c,
            '\u{9}'..='\u{d}' | '\u{20}' | '\u{85}' | '\u{a0}' | '\u{1680}'
            | '\u{2000}'..='\u{200a}' | '\u{2028}'..='\u{2029}' | '\u{202f}'
            | '\u{205f}' | '\u{3000}')
    };
    for c in '\0'..=char::MAX {
        assert_eq!(trimmed_text(&c.to_string()).is_none(), listed(c));
    }
}

#[test]
fn trimming_keeps_inner_white_space() {
    assert_eq!(
        trimmed_text("\u{3000}a \u{a0} b\u{2029}"),
        Some("a \u{a0} b".to_string())
    );
}

#[test]
fn runs_collapse_to_one_underscore() {
    assert_eq!(encode_component("HD Pro Webcam C920"), "HD_Pro_Webcam_C920");
    assert_eq!(encode_component("a  ,; b"), "a_b");
    assert_eq!(encode_component("a__b"), "a_b");
    assert_eq!(encode_component("a_ _b"), "a_b");
}

#[test]
fn name_characters_stay() {
    let all = "ABCXYZabcxyz0189#+-.:=@";
    assert_eq!(encode_component(all), all);
    assert_eq!(encode_component("a,b"), "a_b");
    assert_eq!(encode_component("caméra"), "cam_ra");
}

#[test]
fn no_underscore_at_either_end() {
    assert_eq!(encode_component("  serial  "), "serial");
    assert_eq!(encode_component("serial!!"), "serial");
    assert_eq!(encode_component("(serial)"), "serial");
    assert_eq!(encode_component("_serial_"), "serial");
    assert_eq!(encode_component("!?"), "");
    assert_eq!(encode_component(""), "");
}

#[test]
fn encoding_twice_changes_nothing() {
    for text in ["", "(a) b", "x__y", "A.B:C", " \u{3000}é "] {
        let once = encode_component(text);
        assert_eq!(encode_component(&once), once);
    }
}

#[test]
fn paths_hold_the_index() {
    assert_eq!(video_path(0), "/dev/video0");
    assert_eq!(video_path(10), "/dev/video10");
    assert_eq!(video_path(u32::MAX), "/dev/video4294967295");
    assert_eq!(
        device_link_path(907),
        "/sys/class/video4linux/video907/device"
    );
}

#[test]
fn text_reads_back_from_its_own_bytes() {
    let fields: [&[u8]; 6] = [
        b" usb-1 \0rest",
        b"\xff\xfe a\0b",
        b"\xe2\x82 x \xc3\0",
        " é 越\u{10ffff}\u{3000}\0".as_bytes(),
        b"\x01\x7f",
        b" \0x",
    ];
    for field in fields {
        if let Some(text) = bytes_to_string(field) {
            assert!(!text.contains('\0'));
            assert_eq!(bytes_to_string(text.as_bytes()), Some(text));
        }
    }
    assert_eq!(
        bytes_to_string(b"\xe2\x82 x \xc3\0"),
        Some("\u{fffd} x \u{fffd}".to_string())
    );
}
