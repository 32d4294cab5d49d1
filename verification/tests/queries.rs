use camera_ports::abi::V4l2Capability;
use camera_ports::bus::BusStep;
use camera_ports::media::{Entity, Link, Pad, Topology, VideoMapping};
use camera_ports::name::{topology_sensor, SensorReplies, SensorStep};
use camera_ports::serial::{find_usb_device_dir, SerialReplies, SerialStep, UsbDirStep};
use camera_ports::{device_bus, device_serial, sensor_name};
use std::collections::HashMap;

fn caps(bus_info: &[u8]) -> V4l2Capability {
    let mut bytes = [0u8; 32];
    bytes[..bus_info.len()].copy_from_slice(bus_info);
    V4l2Capability {
        driver: [b'd'; 16],
        card: [b'c'; 32],
        bus_info: bytes,
        version: 1,
        capabilities: 2,
        device_caps: 3,
    }
}

#[test]
fn bus_is_queried_and_told() {
    assert!(matches!(device_bus(3, &None), BusStep::QueryCaps(path) if path == "/dev/video3"));
    assert!(matches!(device_bus(3, &Some(None)), BusStep::Done(None)));
    let reply = Some(Some(caps(b"usb-0000:00:14.0-3")));
    assert!(matches!(
        device_bus(3, &reply),
        BusStep::Done(Some(bus)) if bus == "usb-0000:00:14.0-3"
    ));
    assert!(matches!(device_bus(3, &Some(Some(caps(b" ")))), BusStep::Done(None)));
    let full = Some(Some(caps(&[b'p'; 32])));
    assert!(matches!(device_bus(3, &full), BusStep::Done(Some(bus)) if bus == "p".repeat(32)));
}

fn dir(path: &str) -> Vec<Vec<u8>> {
    path.split('/')
        .filter(|name| !name.is_empty())
        .map(|name| name.as_bytes().to_vec())
        .collect()
}

/// Runs the search and returns what it found and all that it probed.
fn search(start: &str, hits: &[&str]) -> (Option<String>, Vec<String>) {
    let show = |d: &Vec<Vec<u8>>| {
        let names: Vec<String> = d.iter().map(|n| String::from_utf8(n.clone()).unwrap()).collect();
        format!("/{}", names.join("/"))
    };
    let mut probes = Vec::new();
    let mut asked = Vec::new();
    loop {
        match find_usb_device_dir(&dir(start), &probes) {
            UsbDirStep::Probe(d) => {
                asked.push(show(&d));
                probes.push(hits.contains(&show(&d).as_str()));
            }
            UsbDirStep::Found(d) => return (Some(show(&d)), asked),
            UsbDirStep::NotFound => return (None, asked),
        }
    }
}

#[test]
fn search_walks_up_to_the_device() {
    let (found, asked) = search("/sys/bus/1-3/1-3:1.0", &["/sys/bus/1-3", "/sys/bus"]);
    assert_eq!(found, Some("/sys/bus/1-3".to_string()));
    assert_eq!(asked, vec!["/sys/bus/1-3/1-3:1.0", "/sys/bus/1-3"]);
}

#[test]
fn search_stops_below_sys() {
    let (found, asked) = search("/sys/devices/platform", &["/sys", "/"]);
    assert_eq!(found, None);
    assert_eq!(asked, vec!["/sys/devices/platform", "/sys/devices"]);
}

#[test]
fn search_elsewhere_goes_up_to_the_root() {
    let (found, asked) = search("/a/sys", &[]);
    assert_eq!(found, None);
    assert_eq!(asked, vec!["/a/sys", "/a", "/"]);
    assert_eq!(search("/a/b", &["/"]).0, Some("/".to_string()));
    assert_eq!(search("/", &[]).1, vec!["/"]);
    assert_eq!(search("/sys", &[]).1, vec!["/sys", "/"]);
    assert_eq!(search("/sysx/y", &[]).1, vec!["/sysx/y", "/sysx", "/"]);
}

#[test]
fn serial_is_asked_for_step_by_step() {
    let mut replies = SerialReplies { device: None, probes: vec![], serial: None };
    assert!(matches!(
        device_serial(12, &replies),
        SerialStep::Canonicalize(path) if path == "/sys/class/video4linux/video12/device"
    ));
    replies.device = Some(Some(dir("/sys/devices/1-3/1-3:1.0")));
    assert!(matches!(
        device_serial(12, &replies),
        SerialStep::IsFile(file) if file == dir("/sys/devices/1-3/1-3:1.0/idVendor")
    ));
    replies.probes.push(false);
    assert!(matches!(
        device_serial(12, &replies),
        SerialStep::IsFile(file) if file == dir("/sys/devices/1-3/idVendor")
    ));
    replies.probes.push(true);
    assert!(matches!(
        device_serial(12, &replies),
        SerialStep::ReadToString(file) if file == dir("/sys/devices/1-3/serial")
    ));
    replies.serial = Some(Some(" (SN) 00 42\n".to_string()));
    assert!(matches!(
        device_serial(12, &replies),
        SerialStep::Done(Some(serial)) if serial == "SN_00_42"
    ));
}

#[test]
fn device_without_serial_has_an_empty_one() {
    let mut replies = SerialReplies {
        device: Some(Some(dir("/sys/devices/1-3"))),
        probes: vec![true],
        serial: Some(None),
    };
    assert!(matches!(
        device_serial(0, &replies),
        SerialStep::Done(Some(serial)) if serial.is_empty()
    ));
    replies.serial = Some(Some("\n".to_string()));
    assert!(matches!(
        device_serial(0, &replies),
        SerialStep::Done(Some(serial)) if serial.is_empty()
    ));
}

#[test]
fn device_that_is_not_usb_has_no_serial() {
    let mut replies = SerialReplies { device: Some(None), probes: vec![], serial: None };
    assert!(matches!(device_serial(0, &replies), SerialStep::Done(None)));
    replies.device = Some(Some(dir("/sys/devices/csi")));
    replies.probes = vec![false, false];
    assert!(matches!(device_serial(0, &replies), SerialStep::Done(None)));
}

fn graph(major: u32, minor: u32, name: &str, flags: u32) -> Topology {
    let mut t = Topology {
        entities: HashMap::new(),
        pads: HashMap::new(),
        links: vec![Link { source_id: 10, sink_id: 20, flags }],
        videos: vec![
            VideoMapping { major: 1, minor: 1, entity_id: 9 },
            VideoMapping { major, minor, entity_id: 2 },
            VideoMapping { major, minor, entity_id: 9 },
        ],
    };
    t.entities.insert(1, Entity { name: name.to_string(), function: 0x0002_0001 });
    t.entities.insert(2, Entity { name: "capture".to_string(), function: 0 });
    t.pads.insert(10, Pad { entity_id: 1 });
    t.pads.insert(20, Pad { entity_id: 2 });
    t
}

fn replies() -> SensorReplies {
    let names = ["media1", "video0", "media0", "media12"];
    SensorReplies {
        rdev: Some(Some(0x5105)),
        names: Some(Some(names.iter().map(|n| n.as_bytes().to_vec()).collect())),
        topologies: vec![],
    }
}

#[test]
fn sensor_is_asked_for_step_by_step() {
    let mut r = SensorReplies { rdev: None, names: None, topologies: vec![] };
    assert!(matches!(sensor_name(5, &r), SensorStep::Stat(path) if path == "/dev/video5"));
    r.rdev = Some(Some(0x5105));
    assert!(matches!(sensor_name(5, &r), SensorStep::ReadDir(path) if path == "/dev"));
    let mut r = replies();
    assert!(matches!(sensor_name(5, &r), SensorStep::LoadTopology(path) if path == b"/dev/media0"));
    r.topologies.push(None);
    assert!(matches!(sensor_name(5, &r), SensorStep::LoadTopology(path) if path == b"/dev/media1"));
    r.topologies.push(Some(graph(81, 6, "other", 1)));
    assert!(matches!(sensor_name(5, &r), SensorStep::LoadTopology(path) if path == b"/dev/media12"));
    r.topologies.push(Some(graph(81, 5, "imx708 10-001a", 1)));
    assert!(matches!(
        sensor_name(5, &r),
        SensorStep::Done(Some(name)) if name == "imx708 10-001a"
    ));
}

#[test]
fn first_graph_with_a_sensor_counts() {
    let mut r = replies();
    r.topologies.push(Some(graph(81, 5, "cut off", 0)));
    assert!(matches!(sensor_name(5, &r), SensorStep::LoadTopology(_)));
    r.topologies.push(Some(graph(81, 5, "first", 1)));
    assert!(matches!(sensor_name(5, &r), SensorStep::Done(Some(name)) if name == "first"));
    r.topologies.push(Some(graph(81, 5, "second", 1)));
    assert!(matches!(sensor_name(5, &r), SensorStep::Done(Some(name)) if name == "first"));
}

#[test]
fn no_graph_no_sensor() {
    let mut r = replies();
    r.topologies = vec![None, Some(graph(81, 6, "other", 1)), Some(graph(81, 5, "cut off", 0))];
    assert!(matches!(sensor_name(5, &r), SensorStep::Done(None)));
    r.names = Some(None);
    r.topologies.clear();
    assert!(matches!(sensor_name(5, &r), SensorStep::Done(None)));
    r.rdev = Some(None);
    assert!(matches!(sensor_name(5, &r), SensorStep::Done(None)));
    let bare = SensorReplies { rdev: Some(Some(1)), names: Some(Some(vec![])), topologies: vec![] };
    assert!(matches!(sensor_name(5, &bare), SensorStep::Done(None)));
}

#[test]
fn first_video_node_with_the_numbers_counts() {
    let t = graph(81, 5, "s", 1);
    assert_eq!(topology_sensor(&t, 81, 5), Some("s".to_string()));
    assert_eq!(topology_sensor(&t, 1, 1), None);
    assert_eq!(topology_sensor(&t, 5, 81), None);
}

#[test]
fn ended_search_stays_ended() {
    let start = dir("/sys/devices/1-3/1-3:1.0");
    for probes in [vec![false, true], vec![false, true, true], vec![false, true, false, true]] {
        assert!(matches!(
            find_usb_device_dir(&start, &probes),
            UsbDirStep::Found(d) if d == dir("/sys/devices/1-3")
        ));
    }
    for probes in [vec![false; 3], vec![false, false, false, true]] {
        assert!(matches!(find_usb_device_dir(&start, &probes), UsbDirStep::NotFound));
    }
}

/// Runs the search over `/dev` with these names in it.
fn run(names: &[&str]) -> Option<String> {
    let mut r = SensorReplies {
        rdev: Some(Some(0x5105)),
        names: Some(Some(names.iter().map(|n| n.as_bytes().to_vec()).collect())),
        topologies: vec![],
    };
    loop {
        match sensor_name(5, &r) {
            SensorStep::LoadTopology(path) => r.topologies.push(match path.as_slice() {
                b"/dev/media2" => Some(graph(81, 6, "other", 1)),
                b"/dev/media3" => Some(graph(81, 5, "three", 1)),
                b"/dev/media4" => Some(graph(81, 5, "four", 1)),
                _ => None,
            }),
            SensorStep::Done(name) => return name,
            _ => unreachable!(),
        }
    }
}

#[test]
fn devices_that_cannot_be_loaded_have_no_bearing() {
    assert_eq!(run(&["media4", "media3", "media2"]), Some("three".to_string()));
    assert_eq!(
        run(&["media9", "media3", "media30", "media0", "media4", "null", "media2"]),
        Some("three".to_string())
    );
    assert_eq!(run(&["media2", "media9"]), None);
}

#[test]
fn failed_listing_ends_the_search() {
    let mut r = replies();
    r.names = Some(None);
    r.topologies.push(Some(graph(81, 5, "s", 1)));
    assert!(matches!(sensor_name(5, &r), SensorStep::Done(None)));
}
