//! The name of the camera sensor behind a video device.

use crate::devices::{self, dev_major_minor, media_devices};
use crate::media::{Topology, TopologyView, VideoMapping};
use crate::paths::{self, video_path};
use crate::sensor::find_sensor;
#[allow(unused_imports)]
use crate::text;
#[allow(unused_imports)]
use crate::walk;
use vstd::prelude::*;
#[allow(unused_imports)]
use vstd::relations;
#[allow(unused_imports)]
use vstd::seq_lib;

verus! {

/// The entity behind the first of the video nodes with these numbers.
pub open spec fn video_entity(videos: Seq<VideoMapping>, major: u32, minor: u32) -> Option<u32>
    decreases videos.len(),
{
    if videos.len() == 0 {
        None
    } else if videos[0].major == major && videos[0].minor == minor {
        Some(videos[0].entity_id)
    } else {
        video_entity(videos.drop_first(), major, minor)
    }
}

/// The name of the sensor that feeds the video node with these numbers in the
/// graph.
pub open spec fn sensor_in(g: TopologyView, major: u32, minor: u32) -> Option<Seq<char>> {
    match video_entity(g.videos, major, minor) {
        None => None,
        Some(start) => match walk::sensor_of(g, start) {
            None => None,
            Some(id) => Some(g.entities[id].name),
        },
    }
}

/// The name of the sensor that feeds the video node with these numbers, from
/// the first of the graphs that tells one. A graph that could not be loaded is
/// `None`.
pub open spec fn first_sensor(graphs: Seq<Option<TopologyView>>, major: u32, minor: u32) -> Option<
    Seq<char>,
>
    decreases graphs.len(),
{
    if graphs.len() == 0 {
        None
    } else {
        let found = match graphs[0] {
            Some(g) => sensor_in(g, major, minor),
            None => None,
        };
        match found {
            Some(name) => Some(name),
            None => first_sensor(graphs.drop_first(), major, minor),
        }
    }
}

/// What [`Topology`] values, where they could be loaded, hold.
pub open spec fn graphs(topologies: Seq<Option<Topology>>) -> Seq<Option<TopologyView>> {
    topologies.map_values(
        |t: Option<Topology>|
            match t {
                Some(t) => Some(t@),
                None => None,
            },
    )
}

/// What has come back so far of what [`sensor_name`] asked for. A reply is
/// `None` until it is there, and `Some(None)` where the call failed.
#[derive(Debug)]
pub struct SensorReplies {
    /// The device number of the video device node.
    pub rdev: Option<Option<u64>>,
    /// The file names in `/dev`.
    pub names: Option<Option<Vec<Vec<u8>>>>,
    /// The graphs of the media devices asked for, oldest first; `None` for one
    /// that could not be loaded.
    pub topologies: Vec<Option<Topology>>,
}

/// What [`sensor_name`] asks for, or its result.
#[derive(Debug)]
pub enum SensorStep {
    /// Look up the device number of the device node at this path.
    Stat(String),
    /// List this directory.
    ReadDir(String),
    /// Load the graph of the media device at this path.
    LoadTopology(Vec<u8>),
    /// This is the result.
    Done(Option<String>),
}

/// What a [`SensorStep`] holds.
pub enum SensorStepView {
    Stat(Seq<char>),
    ReadDir(Seq<char>),
    LoadTopology(Seq<u8>),
    Done(Option<Seq<char>>),
}

impl View for SensorStep {
    type V = SensorStepView;

    open spec fn view(&self) -> SensorStepView {
        match self {
            SensorStep::Stat(path) => SensorStepView::Stat(path@),
            SensorStep::ReadDir(path) => SensorStepView::ReadDir(path@),
            SensorStep::LoadTopology(path) => SensorStepView::LoadTopology(path@),
            SensorStep::Done(name) => SensorStepView::Done(name.deep_view()),
        }
    }
}

/// The next step towards the name of the camera sensor behind
/// `/dev/video{index}`.
pub open spec fn sensor_step(
    index: u32,
    rdev: Option<Option<u64>>,
    names: Option<Option<Seq<Seq<u8>>>>,
    graphs: Seq<Option<TopologyView>>,
) -> SensorStepView {
    match rdev {
        None => SensorStepView::Stat(paths::video_node(index)),
        Some(None) => SensorStepView::Done(None),
        Some(Some(dev)) => match names {
            None => SensorStepView::ReadDir("/dev"@),
            Some(None) => SensorStepView::Done(None),
            Some(Some(names)) => match first_sensor(
                graphs,
                devices::major_of(dev),
                devices::minor_of(dev),
            ) {
                Some(name) => SensorStepView::Done(Some(name)),
                None => if graphs.len() < devices::media_paths(names).len() {
                    SensorStepView::LoadTopology(devices::media_paths(names)[graphs.len() as int])
                } else {
                    SensorStepView::Done(None)
                },
            },
        },
    }
}

/// The entity behind the first video node with these numbers, if any.
fn find_video(videos: &Vec<VideoMapping>, major: u32, minor: u32) -> (r: Option<u32>)
    ensures
        r == video_entity(videos@, major, minor),
        match r {
            Some(entity) => exists|i: int|
                {
                    &&& 0 <= i < videos@.len()
                    &&& #[trigger] videos@[i].major == major
                    &&& videos@[i].minor == minor
                    &&& videos@[i].entity_id == entity
                    &&& forall|j: int|
                        0 <= j < i ==> !(#[trigger] videos@[j].major == major && videos@[j].minor
                            == minor)
                },
            None => forall|j: int|
                0 <= j < videos@.len() ==> !(#[trigger] videos@[j].major == major
                    && videos@[j].minor == minor),
        },
{
    let n: usize = videos.len();
    let mut i: usize = 0;
    assert(videos@.skip(0) =~= videos@);
    while i < n
        invariant
            n == videos@.len(),
            i <= n,
            video_entity(videos@, major, minor) == video_entity(
                videos@.skip(i as int),
                major,
                minor,
            ),
            forall|j: int|
                0 <= j < i ==> !(#[trigger] videos@[j].major == major && videos@[j].minor == minor),
        decreases n - i,
    {
        let v = &videos[i];
        if v.major == major && v.minor == minor {
            return Some(v.entity_id);
        }
        assert(videos@.skip(i as int).drop_first() =~= videos@.skip(i as int + 1));
        i = i + 1;
    }
    None
}

/// The name of the sensor that feeds the video node with these numbers in the
/// graph, if any.
pub fn topology_sensor(topology: &Topology, major: u32, minor: u32) -> (name: Option<String>)
    ensures
        name.deep_view() == sensor_in(topology@, major, minor),
{
    let Some(start) = find_video(&topology.videos, major, minor) else {
        return None;
    };
    proof {
        walk::sensor_of_reachable(topology@, start);
    }
    match find_sensor(topology, start) {
        Some(sensor) => Some(sensor.name.clone()),
        None => None,
    }
}

/// The name of the sensor that feeds the video node with these numbers, from
/// the first of the graphs that tells one.
fn find_name(topologies: &Vec<Option<Topology>>, major: u32, minor: u32) -> (name: Option<String>)
    ensures
        name.deep_view() == first_sensor(graphs(topologies@), major, minor),
{
    let n: usize = topologies.len();
    let mut i: usize = 0;
    let ghost all = graphs(topologies@);
    assert(all.skip(0) =~= all);
    while i < n
        invariant
            n == topologies@.len(),
            all == graphs(topologies@),
            i <= n,
            first_sensor(all, major, minor) == first_sensor(all.skip(i as int), major, minor),
        decreases n - i,
    {
        assert(all.skip(i as int)[0] == all[i as int]);
        assert(all.skip(i as int).drop_first() =~= all.skip(i as int + 1));
        if let Some(topology) = &topologies[i] {
            let name = topology_sensor(topology, major, minor);
            if name.is_some() {
                return name;
            }
        }
        i = i + 1;
    }
    None
}

/// The next step towards the name of the camera sensor behind
/// `/dev/video{index}`, given the replies to the steps before.
///
/// The result is the name of the entity, such as `imx708 10-001a`, or `None`
/// where the device is not part of a media graph or no sensor is reachable
/// from its entity.
pub fn sensor_name(index: u32, replies: &SensorReplies) -> (step: SensorStep)
    ensures
        step@ == sensor_step(
            index,
            replies.rdev,
            replies.names.deep_view(),
            graphs(replies.topologies@),
        ),
{
    let Some(rdev) = replies.rdev else {
        return SensorStep::Stat(video_path(index));
    };
    let Some(rdev) = rdev else {
        return SensorStep::Done(None);
    };
    let (major, minor) = dev_major_minor(rdev);
    let Some(names) = &replies.names else {
        return SensorStep::ReadDir("/dev".to_owned());
    };
    let Some(names) = names else {
        return SensorStep::Done(None);
    };
    let name = find_name(&replies.topologies, major, minor);
    if name.is_some() {
        return SensorStep::Done(name);
    }
    let mut paths = media_devices(names);
    let next: usize = replies.topologies.len();
    if next < paths.len() {
        let path = paths.swap_remove(next);
        assert(path.deep_view() =~= path@);
        SensorStep::LoadTopology(path)
    } else {
        SensorStep::Done(None)
    }
}

/// Of two batches of graphs the first counts, and the second where the first
/// tells no sensor.
pub proof fn first_batch_counts(
    a: Seq<Option<TopologyView>>,
    b: Seq<Option<TopologyView>>,
    major: u32,
    minor: u32,
)
    ensures
        first_sensor(a + b, major, minor) == match first_sensor(a, major, minor) {
            Some(name) => Some(name),
            None => first_sensor(b, major, minor),
        },
    decreases a.len(),
{
    if a.len() == 0 {
        assert(a + b =~= b);
    } else {
        assert((a + b).drop_first() =~= a.drop_first() + b);
        first_batch_counts(a.drop_first(), b, major, minor);
    }
}

/// The paths of those media devices whose graphs can be loaded.
spec fn loadable(
    paths: Seq<Seq<u8>>,
    load: spec_fn(Seq<u8>) -> Option<TopologyView>,
) -> Seq<Seq<u8>>
    decreases paths.len(),
{
    if paths.len() == 0 {
        Seq::empty()
    } else if load(paths.last()) is Some {
        loadable(paths.drop_last(), load).push(paths.last())
    } else {
        loadable(paths.drop_last(), load)
    }
}

proof fn lemma_loadable_counts(
    paths: Seq<Seq<u8>>,
    load: spec_fn(Seq<u8>) -> Option<TopologyView>,
    path: Seq<u8>,
)
    ensures
        loadable(paths, load).to_multiset().count(path) == if load(path) is Some {
            paths.to_multiset().count(path)
        } else {
            0
        },
    decreases paths.len(),
{
    broadcast use vstd::multiset::group_multiset_axioms;

    if paths.len() == 0 {
        seq_lib::to_multiset_contains(paths, path);
        seq_lib::to_multiset_contains(loadable(paths, load), path);
    } else {
        let before = paths.drop_last();
        lemma_loadable_counts(before, load, path);
        assert(before.push(paths.last()) =~= paths);
        seq_lib::to_multiset_build(before, paths.last());
        seq_lib::to_multiset_build(loadable(before, load), paths.last());
    }
}

proof fn lemma_loadable_sorted(
    paths: Seq<Seq<u8>>,
    load: spec_fn(Seq<u8>) -> Option<TopologyView>,
    le: spec_fn(Seq<u8>, Seq<u8>) -> bool,
)
    requires
        relations::sorted_by(paths, le),
    ensures
        relations::sorted_by(loadable(paths, load), le),
        forall|i: int|
            0 <= i < loadable(paths, load).len() ==> paths.contains(
                #[trigger] loadable(paths, load)[i],
            ),
    decreases paths.len(),
{
    if paths.len() > 0 {
        let before = paths.drop_last();
        let kept = loadable(before, load);
        let all = loadable(paths, load);
        lemma_loadable_sorted(before, load, le);
        assert forall|i: int| 0 <= i < all.len() implies paths.contains(#[trigger] all[i]) by {
            if i < kept.len() {
                assert(before.contains(kept[i]));
                let k = choose|k: int| 0 <= k < before.len() && before[k] == kept[i];
                assert(paths[k] == all[i]);
            } else {
                assert(paths[paths.len() - 1] == all[i]);
            }
        }
        assert forall|i: int, j: int| 0 <= i < j < all.len() implies #[trigger] le(all[i], all[j]) by {
            if j == kept.len() {
                assert(before.contains(kept[i]));
                let k = choose|k: int| 0 <= k < before.len() && before[k] == kept[i];
                assert(le(paths[k], paths[paths.len() - 1]));
            } else {
                assert(le(kept[i], kept[j]));
            }
        }
    }
}

proof fn lemma_loadable_first(
    paths: Seq<Seq<u8>>,
    load: spec_fn(Seq<u8>) -> Option<TopologyView>,
    major: u32,
    minor: u32,
)
    ensures
        first_sensor(paths.map_values(load), major, minor) == first_sensor(
            loadable(paths, load).map_values(load),
            major,
            minor,
        ),
    decreases paths.len(),
{
    if paths.len() > 0 {
        let before = paths.drop_last();
        let last = seq![load(paths.last())];
        lemma_loadable_first(before, load, major, minor);
        assert(paths.map_values(load) =~= before.map_values(load) + last);
        first_batch_counts(before.map_values(load), last, major, minor);
        if load(paths.last()) is Some {
            let kept = loadable(before, load).map_values(load);
            assert(loadable(paths, load).map_values(load) =~= kept + last);
            first_batch_counts(kept, last, major, minor);
        } else {
            assert(first_sensor(last, major, minor) is None) by {
                assert(last.drop_first() =~= Seq::<Option<TopologyView>>::empty());
                assert(first_sensor(last.drop_first(), major, minor) is None);
            }
        }
    } else {
        assert(loadable(paths, load).map_values(load) =~= paths.map_values(load));
    }
}

/// A media device that cannot be loaded has no bearing on the name found:
/// `more` lists what `names` lists and besides it `extra`, of which nothing can
/// be loaded.
pub proof fn unloaded_device_is_skipped(
    names: Seq<Seq<u8>>,
    more: Seq<Seq<u8>>,
    extra: Seq<Seq<u8>>,
    load: spec_fn(Seq<u8>) -> Option<TopologyView>,
    major: u32,
    minor: u32,
)
    requires
        more.to_multiset() == (names + extra).to_multiset(),
        forall|i: int|
            0 <= i < extra.len() ==> load(devices::dev_prefix() + #[trigger] extra[i]) is None,
    ensures
        first_sensor(devices::media_paths(names).map_values(load), major, minor) == first_sensor(
            devices::media_paths(more).map_values(load),
            major,
            minor,
        ),
{
    broadcast use vstd::multiset::group_multiset_axioms;

    let le = |a: Seq<u8>, b: Seq<u8>| devices::path_le(a, b);
    let a = devices::media_paths(names);
    let b = devices::media_paths(more);
    seq_lib::lemma_multiset_commutative(names, extra);
    devices::paths_are_ordered();
    devices::lemma_media_paths(names);
    devices::lemma_media_paths(more);
    lemma_loadable_sorted(a, load, le);
    lemma_loadable_sorted(b, load, le);
    assert forall|path: Seq<u8>|
        loadable(a, load).to_multiset().count(path) == loadable(b, load).to_multiset().count(path) by {
        lemma_loadable_counts(a, load, path);
        lemma_loadable_counts(b, load, path);
        devices::lemma_path_count(names, path);
        devices::lemma_path_count(more, path);
        if path.len() >= 5 && devices::media_path(path.skip(5)) == Some(path) && load(path) is Some {
            seq_lib::to_multiset_contains(extra, path.skip(5));
            if extra.contains(path.skip(5)) {
                let i = choose|i: int| 0 <= i < extra.len() && extra[i] == path.skip(5);
                assert(load(devices::dev_prefix() + extra[i]) is None);
            }
        }
    }
    assert(loadable(a, load).to_multiset() =~= loadable(b, load).to_multiset());
    seq_lib::lemma_sorted_unique(loadable(a, load), loadable(b, load), le);
    lemma_loadable_first(a, load, major, minor);
    lemma_loadable_first(b, load, major, minor);
}

/// Once a name is found, no graph loaded later changes it.
pub proof fn found_name_is_final(
    index: u32,
    rdev: Option<Option<u64>>,
    names: Option<Option<Seq<Seq<u8>>>>,
    graphs: Seq<Option<TopologyView>>,
    more: Seq<Option<TopologyView>>,
    name: Seq<char>,
)
    requires
        sensor_step(index, rdev, names, graphs) == SensorStepView::Done(Some(name)),
    ensures
        sensor_step(index, rdev, names, graphs + more) == SensorStepView::Done(Some(name)),
{
    let dev = rdev->0->0;
    first_batch_counts(graphs, more, devices::major_of(dev), devices::minor_of(dev));
}

/// With every media device looked at, the search has ended.
pub proof fn search_ends(
    index: u32,
    dev: u64,
    names: Seq<Seq<u8>>,
    graphs: Seq<Option<TopologyView>>,
)
    requires
        graphs.len() >= devices::media_paths(names).len(),
    ensures
        sensor_step(index, Some(Some(dev)), Some(Some(names)), graphs) == SensorStepView::Done(
            first_sensor(graphs, devices::major_of(dev), devices::minor_of(dev)),
        ),
{
}

/// The order in which the names in `/dev` are listed has no bearing on what is
/// looked at next, nor on the result.
pub proof fn listing_order_does_not_matter(
    index: u32,
    rdev: Option<Option<u64>>,
    names: Seq<Seq<u8>>,
    others: Seq<Seq<u8>>,
    graphs: Seq<Option<TopologyView>>,
)
    requires
        names.to_multiset() == others.to_multiset(),
    ensures
        sensor_step(index, rdev, Some(Some(names)), graphs) == sensor_step(
            index,
            rdev,
            Some(Some(others)),
            graphs,
        ),
{
    devices::listing_order_does_not_matter(names, others);
}

/// The graph tells a sensor for the video node: the node is part of the graph
/// and a walk leads from its entity to a sensor.
pub open spec fn tells_sensor(g: TopologyView, major: u32, minor: u32) -> bool {
    match video_entity(g.videos, major, minor) {
        Some(start) => exists|w: Seq<int>| walk::reaches_sensor(g, start, w),
        None => false,
    }
}

/// A name is found exactly where one of the graphs that were loaded holds the
/// video node and a walk from its entity to a sensor, and it is then the name
/// of the sensor at the end of the nearest such walk in the first such graph.
pub proof fn name_of_reachable_sensor(graphs: Seq<Option<TopologyView>>, major: u32, minor: u32)
    ensures
        first_sensor(graphs, major, minor) is None <==> forall|i: int|
            0 <= i < graphs.len() ==> !(#[trigger] graphs[i] matches Some(g) && tells_sensor(
                g,
                major,
                minor,
            )),
        first_sensor(graphs, major, minor) matches Some(name) ==> exists|i: int|
            {
                &&& 0 <= i < graphs.len()
                &&& #[trigger] graphs[i] matches Some(g)
                &&& sensor_in(g, major, minor) == Some(name)
                &&& forall|j: int|
                    0 <= j < i ==> !(#[trigger] graphs[j] matches Some(h) && tells_sensor(
                        h,
                        major,
                        minor,
                    ))
            },
    decreases graphs.len(),
{
    if graphs.len() > 0 {
        let rest = graphs.drop_first();
        name_of_reachable_sensor(rest, major, minor);
        if let Some(g) = graphs[0] {
            if let Some(start) = video_entity(g.videos, major, minor) {
                walk::sensor_of_reachable(g, start);
            }
        }
        let here = graphs[0] matches Some(g) && tells_sensor(g, major, minor);
        assert(here <==> (graphs[0] matches Some(g) && sensor_in(g, major, minor) is Some));
        assert forall|i: int| 0 <= i < rest.len() implies #[trigger] rest[i] == graphs[i + 1] by {}
        if !here {
            if first_sensor(graphs, major, minor) is None {
                assert forall|i: int| 0 <= i < graphs.len() implies !(#[trigger] graphs[i] matches Some(g)
                    && tells_sensor(g, major, minor)) by {
                    if i > 0 {
                        assert(rest[i - 1] == graphs[i]);
                    }
                }
            } else {
                let name = first_sensor(graphs, major, minor)->0;
                let k = choose|k: int|
                    {
                        &&& 0 <= k < rest.len()
                        &&& #[trigger] rest[k] matches Some(g)
                        &&& sensor_in(g, major, minor) == Some(name)
                        &&& forall|j: int|
                            0 <= j < k ==> !(#[trigger] rest[j] matches Some(h) && tells_sensor(
                                h,
                                major,
                                minor,
                            ))
                    };
                assert(graphs[k + 1] == rest[k]);
                let g = graphs[k + 1]->0;
                walk::sensor_of_reachable(g, video_entity(g.videos, major, minor)->0);
                assert(tells_sensor(g, major, minor));
                assert forall|j: int| 0 <= j < k + 1 implies !(#[trigger] graphs[j] matches Some(h)
                    && tells_sensor(h, major, minor)) by {
                    if j > 0 {
                        assert(rest[j - 1] == graphs[j]);
                    }
                }
            }
        }
    }
}

/// The entity given for a device number is that of a video node with just this
/// major and this minor number, at `i`, and no node before it has both; where
/// none is given, no video node has both.
pub proof fn video_node_by_numbers(videos: Seq<VideoMapping>, major: u32, minor: u32) -> (i: int)
    ensures
        match video_entity(videos, major, minor) {
            Some(entity) => {
                &&& 0 <= i < videos.len()
                &&& videos[i].major == major
                &&& videos[i].minor == minor
                &&& videos[i].entity_id == entity
                &&& forall|j: int|
                    0 <= j < i ==> !(#[trigger] videos[j].major == major && videos[j].minor
                        == minor)
            },
            None => forall|j: int|
                0 <= j < videos.len() ==> !(#[trigger] videos[j].major == major && videos[j].minor
                    == minor),
        },
    decreases videos.len(),
{
    if videos.len() == 0 || (videos[0].major == major && videos[0].minor == minor) {
        0
    } else {
        let rest = videos.drop_first();
        let i = 1 + video_node_by_numbers(rest, major, minor);
        assert forall|j: int| 0 < j < videos.len() implies #[trigger] videos[j] == rest[j - 1] by {}
        i
    }
}

/// Two video nodes are told apart by either number: only the first node that has
/// both counts, and the graph tells the name of the sensor that feeds its
/// entity.
pub proof fn first_node_counts(g: TopologyView, major: u32, minor: u32, i: int)
    requires
        0 <= i < g.videos.len(),
        g.videos[i].major == major,
        g.videos[i].minor == minor,
        forall|j: int|
            0 <= j < i ==> !(#[trigger] g.videos[j].major == major && g.videos[j].minor == minor),
    ensures
        video_entity(g.videos, major, minor) == Some(g.videos[i].entity_id),
        sensor_in(g, major, minor) is Some <==> walk::sensor_of(g, g.videos[i].entity_id) is Some,
        walk::sensor_of(g, g.videos[i].entity_id) matches Some(id) ==> sensor_in(g, major, minor)
            == Some(g.entities[id].name),
{
    let k = video_node_by_numbers(g.videos, major, minor);
    assert(g.videos[i].major == major);
    if k < i {
        assert(g.videos[k].major == major);
    }
}

/// A graph in which no video node has both numbers tells no sensor.
pub proof fn unknown_node_has_no_sensor(g: TopologyView, major: u32, minor: u32)
    requires
        forall|j: int|
            0 <= j < g.videos.len() ==> !(#[trigger] g.videos[j].major == major
                && g.videos[j].minor == minor),
    ensures
        sensor_in(g, major, minor) is None,
{
    let k = video_node_by_numbers(g.videos, major, minor);
    if video_entity(g.videos, major, minor) is Some {
        assert(g.videos[k].major == major);
    }
}

/// The first graph that was loaded and tells a sensor counts.
pub proof fn first_graph_counts(
    graphs: Seq<Option<TopologyView>>,
    major: u32,
    minor: u32,
    i: int,
    g: TopologyView,
)
    requires
        0 <= i < graphs.len(),
        graphs[i] == Some(g),
        sensor_in(g, major, minor) is Some,
        forall|j: int|
            0 <= j < i ==> (#[trigger] graphs[j] matches Some(h) ==> sensor_in(h, major, minor)
                is None),
    ensures
        first_sensor(graphs, major, minor) == sensor_in(g, major, minor),
    decreases i,
{
    if i > 0 {
        assert(graphs[0] matches Some(h) ==> sensor_in(h, major, minor) is None);
        first_graph_counts(graphs.drop_first(), major, minor, i - 1, g);
    }
}

/// Where none of the graphs that were loaded tells a sensor, there is none.
pub proof fn no_graph_no_sensor(graphs: Seq<Option<TopologyView>>, major: u32, minor: u32)
    requires
        forall|j: int|
            0 <= j < graphs.len() ==> (#[trigger] graphs[j] matches Some(h) ==> sensor_in(
                h,
                major,
                minor,
            ) is None),
    ensures
        first_sensor(graphs, major, minor) is None,
    decreases graphs.len(),
{
    if graphs.len() > 0 {
        assert(graphs[0] matches Some(h) ==> sensor_in(h, major, minor) is None);
        no_graph_no_sensor(graphs.drop_first(), major, minor);
    }
}

/// As many graphs as there are replies, each in its place.
pub proof fn graphs_are_what_was_loaded(topologies: Seq<Option<Topology>>)
    ensures
        graphs(topologies).len() == topologies.len(),
        forall|i: int|
            0 <= i < topologies.len() ==> #[trigger] graphs(topologies)[i] == match topologies[i] {
                Some(t) => Some(t@),
                None => None,
            },
{
}

/// A step shows what it holds.
pub proof fn sensor_step_is_what_it_holds(text: String, path: Vec<u8>, name: Option<String>)
    ensures
        SensorStep::Stat(text)@ == SensorStepView::Stat(text@),
        SensorStep::ReadDir(text)@ == SensorStepView::ReadDir(text@),
        SensorStep::LoadTopology(path)@ == SensorStepView::LoadTopology(path@),
        SensorStep::Done(name)@ == SensorStepView::Done(
            match name {
                Some(name) => Some(name@),
                None => None,
            },
        ),
{
}

/// What is asked for: the number of the device node, then the names in `/dev`.
/// There is no name where either fails.
pub proof fn device_is_looked_up(
    index: u32,
    dev: u64,
    names: Option<Option<Seq<Seq<u8>>>>,
    graphs: Seq<Option<TopologyView>>,
)
    ensures
        sensor_step(index, None, names, graphs) == SensorStepView::Stat(
            seq!['/', 'd', 'e', 'v', '/', 'v', 'i', 'd', 'e', 'o'] + text::decimal(index as nat),
        ),
        sensor_step(index, Some(None), names, graphs) == SensorStepView::Done(None),
        sensor_step(index, Some(Some(dev)), None, graphs) == SensorStepView::ReadDir(
            seq!['/', 'd', 'e', 'v'],
        ),
        sensor_step(index, Some(Some(dev)), Some(None), graphs) == SensorStepView::Done(None),
{
    paths::paths_in_full(index);
    reveal_strlit("/dev");
    assert("/dev"@ =~= seq!['/', 'd', 'e', 'v']);
}

/// The media devices are loaded one by one in their order, until a graph tells a
/// sensor for the device number or none is left.
pub proof fn media_devices_are_loaded_in_order(
    index: u32,
    dev: u64,
    names: Seq<Seq<u8>>,
    graphs: Seq<Option<TopologyView>>,
    major: u32,
    minor: u32,
)
    requires
        major == (dev / 0x100) % 0x1000 + (dev / 0x1000_0000_0000) * 0x1000,
        minor == dev % 0x100 + ((dev / 0x10_0000) % 0x100_0000) * 0x100,
    ensures
        ({
            let step = sensor_step(index, Some(Some(dev)), Some(Some(names)), graphs);
            let paths = devices::media_paths(names);
            match first_sensor(graphs, major, minor) {
                Some(name) => step == SensorStepView::Done(Some(name)),
                None => {
                    &&& graphs.len() < paths.len() ==> step == SensorStepView::LoadTopology(
                        paths[graphs.len() as int],
                    )
                    &&& graphs.len() >= paths.len() ==> step == SensorStepView::Done(None)
                },
            }
        }),
{
    devices::device_number_by_bits(dev);
}

/// A camera is named: where a graph that was loaded holds the video node with
/// the numbers that make up `dev`, at `node`, no graph before it does, and
/// enabled data links lead from a camera sensor to the entity of that node, the
/// result is the name of a camera sensor that such links lead from, no more of
/// them than on the way given.
pub proof fn camera_is_named(
    index: u32,
    dev: u64,
    names: Seq<Seq<u8>>,
    graphs: Seq<Option<TopologyView>>,
    i: int,
    g: TopologyView,
    node: int,
    path: Seq<int>,
    stops: Seq<u32>,
) -> (chain: (Seq<int>, Seq<u32>))
    requires
        0 <= i < graphs.len(),
        graphs[i] == Some(g),
        0 <= node < g.videos.len(),
        g.videos[node].major == (dev / 0x100) % 0x1000 + (dev / 0x1000_0000_0000) * 0x1000,
        g.videos[node].minor == dev % 0x100 + ((dev / 0x10_0000) % 0x100_0000) * 0x100,
        forall|n: int|
            0 <= n < node ==> !(#[trigger] g.videos[n].major == g.videos[node].major
                && g.videos[n].minor == g.videos[node].minor),
        forall|j: int, n: int|
            0 <= j < i && graphs[j] is Some && 0 <= n < graphs[j]->0.videos.len() ==> !(
            #[trigger] graphs[j]->0.videos[n].major == g.videos[node].major
                && graphs[j]->0.videos[n].minor == g.videos[node].minor),
        stops.len() == path.len() + 1,
        stops[0] == g.videos[node].entity_id,
        forall|k: int| #![trigger path[k]]
            0 <= k < path.len() ==> {
                &&& 0 <= path[k] < g.links.len()
                &&& g.links[path[k]].flags & 0xf000_0000 == 0
                &&& g.links[path[k]].flags & 1 != 0
                &&& g.pads.contains_key(g.links[path[k]].sink_id)
                &&& g.pads.contains_key(g.links[path[k]].source_id)
                &&& g.pads[g.links[path[k]].sink_id].entity_id == stops[k]
                &&& g.pads[g.links[path[k]].source_id].entity_id == stops[k + 1]
                &&& g.entities.contains_key(stops[k])
            },
        g.entities.contains_key(stops.last()),
        g.entities[stops.last()].function == 0x0002_0001,
    ensures
        sensor_step(index, Some(Some(dev)), Some(Some(names)), graphs) == SensorStepView::Done(
            Some(g.entities[chain.1.last()].name),
        ),
        g.entities.contains_key(chain.1.last()),
        g.entities[chain.1.last()].function == 0x0002_0001,
        chain.0.len() <= path.len(),
        chain.1.len() == chain.0.len() + 1,
        chain.1[0] == g.videos[node].entity_id,
        forall|k: int| #![trigger chain.0[k]]
            0 <= k < chain.0.len() ==> {
                &&& 0 <= chain.0[k] < g.links.len()
                &&& g.links[chain.0[k]].flags & 0xf000_0000 == 0
                &&& g.links[chain.0[k]].flags & 1 != 0
                &&& g.pads[g.links[chain.0[k]].sink_id].entity_id == chain.1[k]
                &&& g.pads[g.links[chain.0[k]].source_id].entity_id == chain.1[k + 1]
            },
{
    let start = g.videos[node].entity_id;
    let major = g.videos[node].major;
    let minor = g.videos[node].minor;
    let chain = walk::reachable_sensor_is_found(g, start, path, stops);
    let fed = walk::sensor_feeds_start(g, start);
    first_node_counts(g, major, minor, node);
    assert forall|j: int| 0 <= j < i implies (#[trigger] graphs[j] matches Some(h) ==> sensor_in(
        h,
        major,
        minor,
    ) is None) by {
        if let Some(h) = graphs[j] {
            assert forall|n: int| 0 <= n < h.videos.len() implies !(#[trigger] h.videos[n].major
                == major && h.videos[n].minor == minor) by {
                assert(graphs[j]->0.videos[n].major == h.videos[n].major);
            }
            unknown_node_has_no_sensor(h, major, minor);
        }
    }
    first_graph_counts(graphs, major, minor, i, g);
    media_devices_are_loaded_in_order(index, dev, names, graphs, major, minor);
    chain
}

} // verus!
