use camera_ports::abi::{
    MediaV2Entity, MediaV2IntfDevnode, MediaV2Interface, MediaV2Link, MediaV2Pad,
};
use camera_ports::media::{load_topology, Entity, Link, Pad, Topology};
use camera_ports::sensor::find_sensor;
use std::collections::{HashMap, HashSet, VecDeque};

const SENSOR: u32 = 0x0002_0001;
const VIDEO: u32 = 0x200;
const ENABLED: u32 = 1;
const INTERFACE_LINK: u32 = 1 << 28;

fn entity(id: u32, name: &str, function: u32) -> MediaV2Entity {
    let mut bytes = [0u8; 64];
    bytes[..name.len()].copy_from_slice(name.as_bytes());
    MediaV2Entity { id, name: bytes, function, flags: 0 }
}

fn pad(id: u32, entity_id: u32) -> MediaV2Pad {
    MediaV2Pad { id, entity_id, flags: 0, index: 0 }
}

fn link(source_id: u32, sink_id: u32, flags: u32) -> MediaV2Link {
    MediaV2Link { id: 0, source_id, sink_id, flags }
}

fn interface(id: u32, intf_type: u32, major: u32, minor: u32) -> MediaV2Interface {
    MediaV2Interface {
        id,
        intf_type,
        flags: 0,
        devnode: MediaV2IntfDevnode { major, minor },
    }
}

/// A graph in which pad `n` belongs to entity `n`.
fn plain(functions: &[(u32, u32)], links: &[(u32, u32, u32)]) -> Topology {
    let mut t = Topology {
        entities: HashMap::new(),
        pads: HashMap::new(),
        links: Vec::new(),
        videos: Vec::new(),
    };
    for (id, function) in functions {
        t.entities.insert(
            *id,
            Entity { name: format!("e{id}"), function: *function },
        );
        t.pads.insert(*id, Pad { entity_id: *id });
    }
    for (source_id, sink_id, flags) in links {
        t.links.push(Link {
            source_id: *source_id,
            sink_id: *sink_id,
            flags: *flags,
        });
    }
    t
}

fn found(t: &Topology, start: u32) -> Option<String> {
    find_sensor(t, start).map(|e| e.name.clone())
}

#[test]
fn objects_become_a_graph() {
    let t = load_topology(
        &vec![entity(1, "imx708 10-001a", SENSOR), entity(2, "unicam", 7)],
        &vec![
            interface(50, VIDEO, 81, 0),
            interface(51, 0x301, 81, 1),
            interface(52, VIDEO, 81, 2),
        ],
        &vec![pad(10, 1), pad(20, 2)],
        &vec![
            link(10, 20, ENABLED),
            link(50, 2, INTERFACE_LINK | ENABLED),
            link(51, 2, INTERFACE_LINK),
            link(52, 2, 2 << 28),
        ],
    );
    assert_eq!(t.entities.len(), 2);
    assert_eq!(t.entities[&1].name, "imx708 10-001a");
    assert_eq!(t.entities[&1].function, SENSOR);
    assert_eq!(t.pads.len(), 2);
    assert_eq!(t.pads[&20].entity_id, 2);
    assert_eq!(t.links.len(), 4);
    assert_eq!(
        (t.links[0].source_id, t.links[0].sink_id, t.links[0].flags),
        (10, 20, ENABLED)
    );
    assert_eq!(t.videos.len(), 1);
    assert_eq!(
        (t.videos[0].major, t.videos[0].minor, t.videos[0].entity_id),
        (81, 0, 2)
    );
}

#[test]
fn last_object_of_an_id_counts() {
    let t = load_topology(
        &vec![entity(1, "old", 5), entity(1, "new", 6)],
        &vec![interface(50, VIDEO, 1, 2), interface(50, VIDEO, 3, 4)],
        &vec![pad(10, 1), pad(10, 2)],
        &vec![
            link(50, 1, INTERFACE_LINK),
            link(50, 2, INTERFACE_LINK),
        ],
    );
    assert_eq!(t.entities.len(), 1);
    assert_eq!(t.entities[&1].name, "new");
    assert_eq!(t.entities[&1].function, 6);
    assert_eq!(t.pads[&10].entity_id, 2);
    let videos: Vec<(u32, u32, u32)> =
        t.videos.iter().map(|v| (v.major, v.minor, v.entity_id)).collect();
    assert_eq!(videos, vec![(1, 2, 2), (3, 4, 2)]);
}

#[test]
fn name_that_fills_its_field_is_kept() {
    let name = "n".repeat(64);
    let t = load_topology(&vec![entity(1, &name, 0)], &vec![], &vec![], &vec![]);
    assert_eq!(t.entities[&1].name, name);
}

#[test]
fn sensor_is_found_against_the_flow() {
    let t = plain(
        &[(1, SENSOR), (2, 0), (3, 0)],
        &[(1, 2, ENABLED), (2, 3, ENABLED)],
    );
    assert_eq!(found(&t, 3), Some("e1".to_string()));
    assert_eq!(found(&t, 1), Some("e1".to_string()));
    assert_eq!(found(&t, 9), None);
    let u = plain(&[(1, SENSOR), (2, 0)], &[(2, 1, ENABLED)]);
    assert_eq!(found(&u, 2), None);
}

#[test]
fn links_that_are_not_active_are_not_followed() {
    let nodes = [(1, SENSOR), (2, 0)];
    assert_eq!(found(&plain(&nodes, &[(1, 2, 0)]), 2), None);
    assert_eq!(found(&plain(&nodes, &[(1, 2, 2)]), 2), None);
    assert_eq!(
        found(&plain(&nodes, &[(1, 2, INTERFACE_LINK | ENABLED)]), 2),
        None
    );
    assert_eq!(found(&plain(&nodes, &[(1, 2, 3)]), 2), Some("e1".to_string()));
    assert_eq!(found(&plain(&nodes, &[(7, 2, ENABLED), (1, 8, ENABLED)]), 2), None);
}

#[test]
fn capture_nodes_of_one_receiver_are_told_apart() {
    // A receiver with two sensors, each capture node fed by one of them.
    let t = plain(
        &[(1, SENSOR), (2, SENSOR), (11, 0), (12, 0)],
        &[(1, 11, ENABLED), (1, 12, 0), (2, 11, 0), (2, 12, ENABLED)],
    );
    assert_eq!(found(&t, 11), Some("e1".to_string()));
    assert_eq!(found(&t, 12), Some("e2".to_string()));
}

#[test]
fn loops_end() {
    let t = plain(
        &[(1, 0), (2, 0), (3, 0)],
        &[(1, 2, ENABLED), (2, 3, ENABLED), (3, 1, ENABLED), (1, 1, ENABLED)],
    );
    assert_eq!(found(&t, 1), None);
    let u = plain(
        &[(1, 0), (2, 0), (4, SENSOR)],
        &[(1, 2, ENABLED), (2, 1, ENABLED), (4, 2, ENABLED)],
    );
    assert_eq!(found(&u, 1), Some("e4".to_string()));
}

#[test]
fn nearest_sensor_wins() {
    // One sensor is two links away and listed first, the other one link away.
    let t = plain(
        &[(1, SENSOR), (2, 0), (3, SENSOR), (9, 0)],
        &[(2, 9, ENABLED), (1, 2, ENABLED), (3, 9, ENABLED)],
    );
    assert_eq!(found(&t, 9), Some("e3".to_string()));
}

#[test]
fn first_listed_link_wins() {
    let t = plain(
        &[(1, SENSOR), (3, SENSOR), (9, 0)],
        &[(3, 9, ENABLED), (1, 9, ENABLED)],
    );
    assert_eq!(found(&t, 9), Some("e3".to_string()));
    // Both are two links away; what counts is where the walks part.
    let u = plain(
        &[(1, SENSOR), (3, SENSOR), (5, 0), (6, 0), (9, 0)],
        &[
            (1, 6, ENABLED),
            (3, 5, ENABLED),
            (5, 9, ENABLED),
            (6, 9, ENABLED),
        ],
    );
    assert_eq!(found(&u, 9), Some("e3".to_string()));
}

#[test]
fn unknown_entities_are_not_passed() {
    let mut t = plain(
        &[(1, SENSOR), (2, 0), (3, 0)],
        &[(1, 2, ENABLED), (2, 3, ENABLED)],
    );
    t.entities.remove(&2);
    assert_eq!(found(&t, 3), None);
}

/// A breadth-first search in a few lines.
fn breadth_first(t: &Topology, start: u32) -> Option<String> {
    let mut queue = VecDeque::from([start]);
    let mut seen = HashSet::new();
    while let Some(id) = queue.pop_front() {
        if !seen.insert(id) {
            continue;
        }
        let Some(e) = t.entities.get(&id) else { continue };
        if e.function == SENSOR {
            return Some(e.name.clone());
        }
        for l in &t.links {
            if l.flags >> 28 == 0 && l.flags & 1 == 1 {
                if let (Some(a), Some(b)) = (t.pads.get(&l.source_id), t.pads.get(&l.sink_id)) {
                    if b.entity_id == id {
                        queue.push_back(a.entity_id);
                    }
                }
            }
        }
    }
    None
}

#[test]
fn search_is_breadth_first_on_many_graphs() {
    let mut state: u64 = 7;
    let mut next = |n: u64| -> u32 {
        state = state.wrapping_mul(6364136223846793005).wrapping_add(1442695040888963407);
        ((state >> 33) % n) as u32
    };
    for _ in 0..3000 {
        let size = 1 + next(8) as u64;
        let nodes: Vec<(u32, u32)> = (0..size as u32)
            .map(|id| (id, if next(4) == 0 { SENSOR } else { 0 }))
            .collect();
        let links: Vec<(u32, u32, u32)> = (0..next(14))
            .map(|_| {
                let flags = [1, 1, 1, 1, 0, 3, INTERFACE_LINK | 1][next(7) as usize];
                (next(size + 1), next(size + 1), flags)
            })
            .collect();
        let mut t = plain(&nodes, &links);
        if next(3) == 0 {
            t.entities.remove(&next(size));
        }
        for start in 0..size as u32 + 1 {
            assert_eq!(found(&t, start), breadth_first(&t, start));
        }
    }
}

#[test]
fn inactive_links_may_stand_anywhere() {
    let nodes = [(1, SENSOR), (3, SENSOR), (5, 0), (6, 0), (9, 0)];
    let active = [(1, 6, ENABLED), (3, 5, ENABLED), (6, 9, ENABLED), (5, 9, ENABLED)];
    let idle = [(3, 9, 0), (1, 9, INTERFACE_LINK | ENABLED), (77, 9, ENABLED)];
    let expected = found(&plain(&nodes, &active), 9);
    assert_eq!(expected, Some("e1".to_string()));
    for at in 0..=active.len() {
        let mut links = active.to_vec();
        for (k, link) in idle.iter().enumerate() {
            links.insert(at + k, *link);
        }
        assert_eq!(found(&plain(&nodes, &links), 9), expected);
    }
}
