//! Objects of a media-controller graph.

use crate::abi::{MediaV2Entity, MediaV2Interface, MediaV2Link, MediaV2Pad};
use crate::text::{self, c_name};
use std::collections::HashMap;
use vstd::prelude::*;

verus! {

broadcast use vstd::std_specs::hash::group_hash_axioms;

/// Interface type of a V4L video node, from `<linux/media.h>`.
pub const MEDIA_INTF_T_V4L_VIDEO: u32 = 0x0000_0200;

/// Entity function of a camera sensor, from `<linux/media.h>`.
pub const MEDIA_ENT_F_CAM_SENSOR: u32 = 0x0002_0001;

/// Link flag: the link is currently active.
pub const MEDIA_LNK_FL_ENABLED: u32 = 0x0000_0001;

/// The bits of the link flags that hold the link type.
pub const MEDIA_LNK_FL_LINK_TYPE: u32 = 0xf000_0000;

/// Link type: the link connects two pads.
pub const MEDIA_LNK_FL_DATA_LINK: u32 = 0x0000_0000;

/// Link type: the link connects an interface to an entity.
pub const MEDIA_LNK_FL_INTERFACE_LINK: u32 = 0x1000_0000;

/// An entity of the graph.
#[derive(Debug, Clone)]
pub struct Entity {
    pub name: String,
    pub function: u32,
}

/// What an [`Entity`] holds.
pub struct EntityView {
    pub name: Seq<char>,
    pub function: u32,
}

impl View for Entity {
    type V = EntityView;

    open spec fn view(&self) -> EntityView {
        EntityView { name: self.name@, function: self.function }
    }
}

/// A pad of an entity.
#[derive(Debug, Clone, Copy)]
pub struct Pad {
    pub entity_id: u32,
}

/// A link of the graph. Data links connect pads, interface links connect an
/// interface to an entity.
#[derive(Debug, Clone, Copy)]
pub struct Link {
    pub source_id: u32,
    pub sink_id: u32,
    pub flags: u32,
}

/// The entity behind a video device node.
#[derive(Debug, Clone, Copy)]
pub struct VideoMapping {
    pub major: u32,
    pub minor: u32,
    pub entity_id: u32,
}

/// A media-controller graph.
#[derive(Debug)]
pub struct Topology {
    pub entities: HashMap<u32, Entity>,
    pub pads: HashMap<u32, Pad>,
    pub links: Vec<Link>,
    pub videos: Vec<VideoMapping>,
}

/// What a [`Topology`] holds: entities and pads by id, and the links and
/// video nodes in the order in which the kernel listed them.
#[verifier::ext_equal]
pub struct TopologyView {
    pub entities: Map<u32, EntityView>,
    pub pads: Map<u32, Pad>,
    pub links: Seq<Link>,
    pub videos: Seq<VideoMapping>,
}

impl View for Topology {
    type V = TopologyView;

    open spec fn view(&self) -> TopologyView {
        TopologyView {
            entities: self.entities@.map_values(|e: Entity| e@),
            pads: self.pads@,
            links: self.links@,
            videos: self.videos@,
        }
    }
}

/// The entities by id. Of several with one id, the last listed counts.
pub open spec fn entity_table(raw: Seq<MediaV2Entity>) -> Map<u32, EntityView>
    decreases raw.len(),
{
    if raw.len() == 0 {
        Map::empty()
    } else {
        entity_table(raw.drop_last()).insert(
            raw.last().id,
            EntityView {
                name: text::decoded(text::until_nul(raw.last().name@)),
                function: raw.last().function,
            },
        )
    }
}

/// The pads by id. Of several with one id, the last listed counts.
pub open spec fn pad_table(raw: Seq<MediaV2Pad>) -> Map<u32, Pad>
    decreases raw.len(),
{
    if raw.len() == 0 {
        Map::empty()
    } else {
        pad_table(raw.drop_last()).insert(
            raw.last().id,
            Pad { entity_id: raw.last().entity_id },
        )
    }
}

/// The links, in order.
pub open spec fn link_list(raw: Seq<MediaV2Link>) -> Seq<Link> {
    raw.map_values(
        |l: MediaV2Link| Link { source_id: l.source_id, sink_id: l.sink_id, flags: l.flags },
    )
}

/// The entity that each interface belongs to, by the id of the interface: the
/// sink of the interface link from it, the last listed where there are several.
pub open spec fn interface_entities(links: Seq<Link>) -> Map<u32, u32>
    decreases links.len(),
{
    if links.len() == 0 {
        Map::empty()
    } else if links.last().flags & MEDIA_LNK_FL_LINK_TYPE == MEDIA_LNK_FL_INTERFACE_LINK {
        interface_entities(links.drop_last()).insert(links.last().source_id, links.last().sink_id)
    } else {
        interface_entities(links.drop_last())
    }
}

/// The video nodes: the video interfaces that belong to an entity, in order.
pub open spec fn video_list(raw: Seq<MediaV2Interface>, entities: Map<u32, u32>) -> Seq<
    VideoMapping,
>
    decreases raw.len(),
{
    if raw.len() == 0 {
        Seq::empty()
    } else {
        let before = video_list(raw.drop_last(), entities);
        let last = raw.last();
        if last.intf_type == MEDIA_INTF_T_V4L_VIDEO && entities.contains_key(last.id) {
            before.push(
                VideoMapping {
                    major: last.devnode.major,
                    minor: last.devnode.minor,
                    entity_id: entities[last.id],
                },
            )
        } else {
            before
        }
    }
}

/// The interface is a video node, with these numbers and this entity.
pub open spec fn is_video(intf: MediaV2Interface, entities: Map<u32, u32>, v: VideoMapping) -> bool {
    &&& intf.intf_type == MEDIA_INTF_T_V4L_VIDEO
    &&& entities.contains_key(intf.id)
    &&& v.major == intf.devnode.major
    &&& v.minor == intf.devnode.minor
    &&& v.entity_id == entities[intf.id]
}

fn load_entities(raw: &Vec<MediaV2Entity>) -> (entities: HashMap<u32, Entity>)
    ensures
        entities@.map_values(|e: Entity| e@) == entity_table(raw@),
{
    let mut entities: HashMap<u32, Entity> = HashMap::new();
    let n: usize = raw.len();
    let mut i: usize = 0;
    assert(raw@.take(0) =~= Seq::<MediaV2Entity>::empty());
    assert(entities@.map_values(|e: Entity| e@) =~= Map::<u32, EntityView>::empty());
    while i < n
        invariant
            n == raw@.len(),
            i <= n,
            entities@.map_values(|e: Entity| e@) == entity_table(raw@.take(i as int)),
        decreases n - i,
    {
        let ghost before = entities@;
        let e = &raw[i];
        let entity = Entity { name: c_name(e.name.as_slice()), function: e.function };
        entities.insert(e.id, entity);
        proof {
            assert(raw@.take(i as int + 1).drop_last() =~= raw@.take(i as int));
            assert(entities@.map_values(|e: Entity| e@) =~= before.map_values(
                |e: Entity| e@,
            ).insert(e.id, entity@));
        }
        i = i + 1;
    }
    assert(raw@.take(n as int) =~= raw@);
    entities
}

fn load_pads(raw: &Vec<MediaV2Pad>) -> (pads: HashMap<u32, Pad>)
    ensures
        pads@ == pad_table(raw@),
{
    let mut pads: HashMap<u32, Pad> = HashMap::new();
    let n: usize = raw.len();
    let mut i: usize = 0;
    assert(raw@.take(0) =~= Seq::<MediaV2Pad>::empty());
    while i < n
        invariant
            n == raw@.len(),
            i <= n,
            pads@ == pad_table(raw@.take(i as int)),
        decreases n - i,
    {
        let p = &raw[i];
        pads.insert(p.id, Pad { entity_id: p.entity_id });
        assert(raw@.take(i as int + 1).drop_last() =~= raw@.take(i as int));
        i = i + 1;
    }
    assert(raw@.take(n as int) =~= raw@);
    pads
}

fn load_links(raw: &Vec<MediaV2Link>) -> (links: Vec<Link>)
    ensures
        links@ == link_list(raw@),
{
    let mut links: Vec<Link> = Vec::new();
    let n: usize = raw.len();
    let mut i: usize = 0;
    while i < n
        invariant
            n == raw@.len(),
            i <= n,
            links@ == link_list(raw@.take(i as int)),
        decreases n - i,
    {
        let l = &raw[i];
        links.push(Link { source_id: l.source_id, sink_id: l.sink_id, flags: l.flags });
        assert(links@ =~= link_list(raw@.take(i as int + 1)));
        i = i + 1;
    }
    assert(raw@.take(n as int) =~= raw@);
    links
}

fn load_interface_entities(links: &Vec<Link>) -> (entities: HashMap<u32, u32>)
    ensures
        entities@ == interface_entities(links@),
{
    let mut entities: HashMap<u32, u32> = HashMap::new();
    let n: usize = links.len();
    let mut i: usize = 0;
    assert(links@.take(0) =~= Seq::<Link>::empty());
    while i < n
        invariant
            n == links@.len(),
            i <= n,
            entities@ == interface_entities(links@.take(i as int)),
        decreases n - i,
    {
        let link = &links[i];
        if link.flags & MEDIA_LNK_FL_LINK_TYPE == MEDIA_LNK_FL_INTERFACE_LINK {
            entities.insert(link.source_id, link.sink_id);
        }
        assert(links@.take(i as int + 1).drop_last() =~= links@.take(i as int));
        i = i + 1;
    }
    assert(links@.take(n as int) =~= links@);
    entities
}

fn load_videos(raw: &Vec<MediaV2Interface>, entities: &HashMap<u32, u32>) -> (videos: Vec<
    VideoMapping,
>)
    ensures
        videos@ == video_list(raw@, entities@),
{
    let mut videos: Vec<VideoMapping> = Vec::new();
    let n: usize = raw.len();
    let mut i: usize = 0;
    assert(raw@.take(0) =~= Seq::<MediaV2Interface>::empty());
    while i < n
        invariant
            n == raw@.len(),
            i <= n,
            videos@ == video_list(raw@.take(i as int), entities@),
        decreases n - i,
    {
        let intf = &raw[i];
        assert(raw@.take(i as int + 1).drop_last() =~= raw@.take(i as int));
        i = i + 1;
        if intf.intf_type != MEDIA_INTF_T_V4L_VIDEO {
            continue;
        }
        let Some(entity_id) = entities.get(&intf.id) else {
            continue;
        };
        videos.push(
            VideoMapping {
                major: intf.devnode.major,
                minor: intf.devnode.minor,
                entity_id: *entity_id,
            },
        );
    }
    assert(raw@.take(n as int) =~= raw@);
    videos
}

/// The graph made of the objects that the kernel lists.
pub open spec fn graph(
    entities: Seq<MediaV2Entity>,
    interfaces: Seq<MediaV2Interface>,
    pads: Seq<MediaV2Pad>,
    links: Seq<MediaV2Link>,
) -> TopologyView {
    TopologyView {
        entities: entity_table(entities),
        pads: pad_table(pads),
        links: link_list(links),
        videos: video_list(interfaces, interface_entities(link_list(links))),
    }
}

/// Builds the graph from the objects that the kernel lists.
pub fn load_topology(
    entities: &Vec<MediaV2Entity>,
    interfaces: &Vec<MediaV2Interface>,
    pads: &Vec<MediaV2Pad>,
    links: &Vec<MediaV2Link>,
) -> (topology: Topology)
    ensures
        topology@ == graph(entities@, interfaces@, pads@, links@),
        topology.links@.len() == links@.len(),
        forall|i: int| #![trigger topology.links@[i]]
            0 <= i < links@.len() ==> topology.links@[i].source_id == links@[i].source_id
                && topology.links@[i].sink_id == links@[i].sink_id && topology.links@[i].flags
                == links@[i].flags,
{
    let graph_links = load_links(links);
    let interface_entity = load_interface_entities(&graph_links);
    let videos = load_videos(interfaces, &interface_entity);
    Topology {
        entities: load_entities(entities),
        pads: load_pads(pads),
        links: graph_links,
        videos,
    }
}

/// Of several entities with one id, the one listed last counts.
pub proof fn last_entity_counts(raw: Seq<MediaV2Entity>, i: int)
    requires
        0 <= i < raw.len(),
        forall|j: int| i < j < raw.len() ==> (#[trigger] raw[j]).id != raw[i].id,
    ensures
        entity_table(raw).contains_key(raw[i].id),
        entity_table(raw)[raw[i].id].function == raw[i].function,
        entity_table(raw)[raw[i].id].name == text::decoded(text::until_nul(raw[i].name@)),
    decreases raw.len(),
{
    if i < raw.len() - 1 {
        let before = raw.drop_last();
        assert(raw[raw.len() - 1].id != raw[i].id);
        assert forall|j: int| i < j < before.len() implies (#[trigger] before[j]).id
            != before[i].id by {
            assert(before[j] == raw[j]);
        }
        last_entity_counts(before, i);
    }
}

/// Of several pads with one id, the one listed last counts.
pub proof fn last_pad_counts(raw: Seq<MediaV2Pad>, i: int)
    requires
        0 <= i < raw.len(),
        forall|j: int| i < j < raw.len() ==> (#[trigger] raw[j]).id != raw[i].id,
    ensures
        pad_table(raw).contains_key(raw[i].id),
        pad_table(raw)[raw[i].id].entity_id == raw[i].entity_id,
    decreases raw.len(),
{
    if i < raw.len() - 1 {
        let before = raw.drop_last();
        assert(raw[raw.len() - 1].id != raw[i].id);
        assert forall|j: int| i < j < before.len() implies (#[trigger] before[j]).id
            != before[i].id by {
            assert(before[j] == raw[j]);
        }
        last_pad_counts(before, i);
    }
}

/// The tables hold no id that is not listed.
pub proof fn only_listed_ids(entities: Seq<MediaV2Entity>, pads: Seq<MediaV2Pad>, id: u32)
    ensures
        entity_table(entities).contains_key(id) ==> exists|i: int|
            0 <= i < entities.len() && (#[trigger] entities[i]).id == id,
        pad_table(pads).contains_key(id) ==> exists|i: int|
            0 <= i < pads.len() && (#[trigger] pads[i]).id == id,
    decreases entities.len() + pads.len(),
{
    if entity_table(entities).contains_key(id) {
        if entities.last().id == id {
            assert(entities[entities.len() - 1].id == id);
        } else {
            let before = entities.drop_last();
            only_listed_ids(before, pads, id);
            let i = choose|i: int| 0 <= i < before.len() && (#[trigger] before[i]).id == id;
            assert(entities[i].id == id);
        }
    }
    if pad_table(pads).contains_key(id) {
        if pads.last().id == id {
            assert(pads[pads.len() - 1].id == id);
        } else {
            let before = pads.drop_last();
            only_listed_ids(entities, before, id);
            let i = choose|i: int| 0 <= i < before.len() && (#[trigger] before[i]).id == id;
            assert(pads[i].id == id);
        }
    }
}

/// An interface belongs to the entity that the last listed interface link from
/// it leads to.
pub proof fn last_interface_link_counts(links: Seq<Link>, i: int)
    requires
        0 <= i < links.len(),
        links[i].flags & MEDIA_LNK_FL_LINK_TYPE == MEDIA_LNK_FL_INTERFACE_LINK,
        forall|j: int|
            i < j < links.len() && (#[trigger] links[j]).source_id == links[i].source_id
                ==> links[j].flags & MEDIA_LNK_FL_LINK_TYPE != MEDIA_LNK_FL_INTERFACE_LINK,
    ensures
        interface_entities(links).contains_key(links[i].source_id),
        interface_entities(links)[links[i].source_id] == links[i].sink_id,
    decreases links.len(),
{
    if i < links.len() - 1 {
        let before = links.drop_last();
        assert(links[links.len() - 1] == links.last());
        assert forall|j: int|
            i < j < before.len() && (#[trigger] before[j]).source_id
                == before[i].source_id implies before[j].flags & MEDIA_LNK_FL_LINK_TYPE
            != MEDIA_LNK_FL_INTERFACE_LINK by {
            assert(before[j] == links[j]);
        }
        last_interface_link_counts(before, i);
    }
}

/// Every video node is a listed video interface that belongs to an entity, and
/// every such interface is a video node.
pub proof fn video_nodes(raw: Seq<MediaV2Interface>, entities: Map<u32, u32>, v: VideoMapping)
    ensures
        video_list(raw, entities).contains(v) <==> exists|i: int|
            0 <= i < raw.len() && is_video(#[trigger] raw[i], entities, v),
    decreases raw.len(),
{
    let list = video_list(raw, entities);
    if raw.len() > 0 {
        let before = raw.drop_last();
        let shorter = video_list(before, entities);
        video_nodes(before, entities, v);
        if list.contains(v) {
            let k = choose|k: int| 0 <= k < list.len() && list[k] == v;
            if k < shorter.len() {
                assert(shorter[k] == v);
                let i = choose|i: int| 0 <= i < before.len() && is_video(#[trigger] before[i], entities, v);
                assert(is_video(raw[i], entities, v));
            } else {
                assert(is_video(raw[raw.len() - 1], entities, v));
            }
        }
        if exists|i: int| 0 <= i < raw.len() && is_video(#[trigger] raw[i], entities, v) {
            let i = choose|i: int| 0 <= i < raw.len() && is_video(#[trigger] raw[i], entities, v);
            if i < before.len() {
                assert(is_video(before[i], entities, v));
                let k = choose|k: int| 0 <= k < shorter.len() && shorter[k] == v;
                assert(list[k] == v);
            } else {
                assert(list[list.len() - 1] == v);
            }
        }
    }
}

/// A graph is what its tables and lists hold, field by field.
pub proof fn graph_is_what_it_holds(t: Topology, id: u32)
    ensures
        t@.links == t.links@,
        t@.videos == t.videos@,
        t@.pads == t.pads@,
        t@.entities.contains_key(id) <==> t.entities@.contains_key(id),
        t.entities@.contains_key(id) ==> t@.entities[id].name == t.entities@[id].name@
            && t@.entities[id].function == t.entities@[id].function,
{
}

/// The graph has as many links as are listed, in the same order, and each has
/// the source, the sink and the flags of the listed one.
pub proof fn links_are_kept(
    entities: Seq<MediaV2Entity>,
    interfaces: Seq<MediaV2Interface>,
    pads: Seq<MediaV2Pad>,
    links: Seq<MediaV2Link>,
)
    ensures
        ({
            let g = graph(entities, interfaces, pads, links);
            &&& g.links.len() == links.len()
            &&& forall|i: int| #![trigger g.links[i]]
                0 <= i < links.len() ==> g.links[i].source_id == links[i].source_id
                    && g.links[i].sink_id == links[i].sink_id && g.links[i].flags == links[i].flags
        }),
{
}

/// Every entity of the graph is a listed one: the last of its id, with the
/// function and the name of that one; and every id that is listed is there.
pub proof fn entities_are_listed(
    entities: Seq<MediaV2Entity>,
    interfaces: Seq<MediaV2Interface>,
    pads: Seq<MediaV2Pad>,
    links: Seq<MediaV2Link>,
    id: u32,
) -> (i: int)
    ensures
        ({
            let g = graph(entities, interfaces, pads, links);
            if g.entities.contains_key(id) {
                &&& 0 <= i < entities.len()
                &&& entities[i].id == id
                &&& forall|j: int| i < j < entities.len() ==> (#[trigger] entities[j]).id != id
                &&& g.entities[id].function == entities[i].function
                &&& g.entities[id].name == text::decoded(text::until_nul(entities[i].name@))
            } else {
                forall|j: int| 0 <= j < entities.len() ==> (#[trigger] entities[j]).id != id
            }
        }),
    decreases entities.len(),
{
    if entities.len() == 0 {
        0
    } else if entities.last().id == id {
        entities.len() - 1
    } else {
        let before = entities.drop_last();
        let i = entities_are_listed(before, interfaces, pads, links, id);
        assert forall|j: int| 0 <= j < entities.len() && (j < before.len() ==> before[j].id
            != id) implies (#[trigger] entities[j]).id != id by {
            if j < before.len() {
                assert(before[j] == entities[j]);
            }
        }
        i
    }
}

/// Every pad of the graph is a listed one: the last of its id, on the entity of
/// that one; and every id that is listed is there.
pub proof fn pads_are_listed(
    entities: Seq<MediaV2Entity>,
    interfaces: Seq<MediaV2Interface>,
    pads: Seq<MediaV2Pad>,
    links: Seq<MediaV2Link>,
    id: u32,
) -> (i: int)
    ensures
        ({
            let g = graph(entities, interfaces, pads, links);
            if g.pads.contains_key(id) {
                &&& 0 <= i < pads.len()
                &&& pads[i].id == id
                &&& forall|j: int| i < j < pads.len() ==> (#[trigger] pads[j]).id != id
                &&& g.pads[id].entity_id == pads[i].entity_id
            } else {
                forall|j: int| 0 <= j < pads.len() ==> (#[trigger] pads[j]).id != id
            }
        }),
    decreases pads.len(),
{
    if pads.len() == 0 {
        0
    } else if pads.last().id == id {
        pads.len() - 1
    } else {
        let before = pads.drop_last();
        let i = pads_are_listed(entities, interfaces, before, links, id);
        assert forall|j: int| 0 <= j < pads.len() && (j < before.len() ==> before[j].id
            != id) implies (#[trigger] pads[j]).id != id by {
            if j < before.len() {
                assert(before[j] == pads[j]);
            }
        }
        i
    }
}

/// An interface belongs to an entity exactly where an interface link leads from
/// it, and then to the sink of the last such link.
pub proof fn interface_links_are_listed(links: Seq<Link>, id: u32) -> (i: int)
    ensures
        if interface_entities(links).contains_key(id) {
            &&& 0 <= i < links.len()
            &&& links[i].source_id == id
            &&& links[i].flags & 0xf000_0000 == 0x1000_0000
            &&& interface_entities(links)[id] == links[i].sink_id
            &&& forall|j: int| #![trigger links[j]]
                i < j < links.len() ==> !(links[j].source_id == id && links[j].flags & 0xf000_0000
                    == 0x1000_0000)
        } else {
            forall|j: int| #![trigger links[j]]
                0 <= j < links.len() ==> !(links[j].source_id == id && links[j].flags & 0xf000_0000
                    == 0x1000_0000)
        },
    decreases links.len(),
{
    if links.len() == 0 {
        0
    } else if links.last().source_id == id && links.last().flags & 0xf000_0000 == 0x1000_0000 {
        links.len() - 1
    } else {
        let before = links.drop_last();
        let i = interface_links_are_listed(before, id);
        assert(interface_entities(links).contains_key(id) == interface_entities(
            before,
        ).contains_key(id));
        assert forall|j: int| #![trigger links[j]]
            0 <= j < links.len() && (j < before.len() ==> !(before[j].source_id == id
                && before[j].flags & 0xf000_0000 == 0x1000_0000)) implies !(links[j].source_id == id
            && links[j].flags & 0xf000_0000 == 0x1000_0000) by {
            if j < before.len() {
                assert(before[j] == links[j]);
            }
        }
        i
    }
}

/// The video nodes of the graph are the listed video interfaces from which an
/// interface link leads, all of them and in the order in which they are
/// listed: node `j` is interface `at[j]`, with its numbers, and its entity is
/// the sink of link `via[j]`, the last interface link from that interface.
pub proof fn video_nodes_are_listed(
    entities: Seq<MediaV2Entity>,
    interfaces: Seq<MediaV2Interface>,
    pads: Seq<MediaV2Pad>,
    links: Seq<MediaV2Link>,
) -> (place: (Seq<int>, Seq<int>))
    ensures
        ({
            let videos = graph(entities, interfaces, pads, links).videos;
            let at = place.0;
            let via = place.1;
            &&& at.len() == videos.len()
            &&& via.len() == videos.len()
            &&& forall|j: int, k: int| 0 <= j < k < at.len() ==> #[trigger] at[j] < #[trigger] at[k]
            &&& forall|j: int| #![trigger at[j]] #![trigger videos[j]]
                0 <= j < videos.len() ==> {
                    &&& 0 <= at[j] < interfaces.len()
                    &&& interfaces[at[j]].intf_type == 0x200
                    &&& videos[j].major == interfaces[at[j]].devnode.major
                    &&& videos[j].minor == interfaces[at[j]].devnode.minor
                    &&& 0 <= via[j] < links.len()
                    &&& links[via[j]].source_id == interfaces[at[j]].id
                    &&& links[via[j]].flags & 0xf000_0000 == 0x1000_0000
                    &&& videos[j].entity_id == links[via[j]].sink_id
                    &&& forall|l: int| #![trigger links[l]]
                        via[j] < l < links.len() ==> !(links[l].source_id == interfaces[at[j]].id
                            && links[l].flags & 0xf000_0000 == 0x1000_0000)
                }
            &&& forall|i: int, l: int| #![trigger interfaces[i], links[l]]
                0 <= i < interfaces.len() && interfaces[i].intf_type == 0x200 && 0 <= l
                    < links.len() && links[l].source_id == interfaces[i].id && links[l].flags
                    & 0xf000_0000 == 0x1000_0000 ==> at.contains(i)
        }),
    decreases interfaces.len(),
{
    let list = link_list(links);
    let owner = interface_entities(list);
    if interfaces.len() == 0 {
        (Seq::empty(), Seq::empty())
    } else {
        let before = interfaces.drop_last();
        let last = interfaces.last();
        let (at0, via0) = video_nodes_are_listed(entities, before, pads, links);
        let i = interface_links_are_listed(list, last.id);
        let new = last.intf_type == 0x200 && owner.contains_key(last.id);
        let at = if new { at0.push(interfaces.len() - 1) } else { at0 };
        let via = if new { via0.push(i) } else { via0 };
        let shorter = graph(entities, before, pads, links).videos;
        let videos = graph(entities, interfaces, pads, links).videos;
        assert forall|j: int| #![trigger at[j]] #![trigger videos[j]] 0 <= j < videos.len() implies {
            &&& 0 <= at[j] < interfaces.len()
            &&& interfaces[at[j]].intf_type == 0x200
            &&& videos[j].major == interfaces[at[j]].devnode.major
            &&& videos[j].minor == interfaces[at[j]].devnode.minor
            &&& 0 <= via[j] < links.len()
            &&& links[via[j]].source_id == interfaces[at[j]].id
            &&& links[via[j]].flags & 0xf000_0000 == 0x1000_0000
            &&& videos[j].entity_id == links[via[j]].sink_id
            &&& forall|l: int| #![trigger links[l]]
                via[j] < l < links.len() ==> !(links[l].source_id == interfaces[at[j]].id
                    && links[l].flags & 0xf000_0000 == 0x1000_0000)
        } by {
            if j < shorter.len() {
                assert(videos[j] == shorter[j]);
                assert(before[at0[j]] == interfaces[at[j]]);
            } else {
                assert forall|l: int| #![trigger links[l]]
                    via[j] < l < links.len() implies !(links[l].source_id == interfaces[at[j]].id
                    && links[l].flags & 0xf000_0000 == 0x1000_0000) by {
                    assert(list[l].source_id == links[l].source_id && list[l].flags
                        == links[l].flags);
                }
            }
        }
        assert forall|k: int, l: int| #![trigger interfaces[k], links[l]]
            0 <= k < interfaces.len() && interfaces[k].intf_type == 0x200 && 0 <= l < links.len()
                && links[l].source_id == interfaces[k].id && links[l].flags & 0xf000_0000
                == 0x1000_0000 implies at.contains(k) by {
            if k < before.len() {
                assert(before[k] == interfaces[k]);
                assert(at0.contains(k));
                let j = choose|j: int| 0 <= j < at0.len() && at0[j] == k;
                assert(at[j] == k);
            } else {
                assert(list[l].source_id == links[l].source_id && list[l].flags == links[l].flags);
                assert(new);
                assert(at[at.len() - 1] == k);
            }
        }
        assert forall|j: int, k: int| 0 <= j < k < at.len() implies #[trigger] at[j]
            < #[trigger] at[k] by {
            assert(shorter[j] == videos[j]);
            if k < at0.len() {
                assert(at0[j] < at0[k]);
            }
        }
        (at, via)
    }
}

} // verus!
