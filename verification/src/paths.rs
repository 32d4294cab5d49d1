//! Where the kernel keeps what belongs to `/dev/video{index}`.

use crate::text::{self, push_decimal};
use vstd::prelude::*;
use vstd::string::*;

verus! {

/// `/dev/video{index}`.
pub open spec fn video_node(index: u32) -> Seq<char> {
    "/dev/video"@ + text::decimal(index as nat)
}

/// `/sys/class/video4linux/video{index}/device`.
pub open spec fn device_link(index: u32) -> Seq<char> {
    "/sys/class/video4linux/video"@ + text::decimal(index as nat) + "/device"@
}

/// The path of the video device node with this index.
pub fn video_path(index: u32) -> (path: String)
    ensures
        path@ == video_node(index),
{
    let mut path = "/dev/video".to_owned();
    push_decimal(&mut path, index);
    path
}

/// The path of the sysfs link from the video device to its hardware.
pub fn device_link_path(index: u32) -> (path: String)
    ensures
        path@ == device_link(index),
{
    let mut path = "/sys/class/video4linux/video".to_owned();
    push_decimal(&mut path, index);
    path.append("/device");
    path
}

/// Different video devices have different paths.
pub proof fn video_nodes_differ(a: u32, b: u32)
    requires
        video_node(a) == video_node(b),
    ensures
        a == b,
{
    let n = "/dev/video"@.len() as int;
    assert(video_node(a).skip(n) =~= text::decimal(a as nat));
    assert(video_node(b).skip(n) =~= text::decimal(b as nat));
    text::decimals_differ(a as nat, b as nat);
}

/// The paths, in full.
pub proof fn paths_in_full(index: u32)
    ensures
        video_node(index) == seq!['/', 'd', 'e', 'v', '/', 'v', 'i', 'd', 'e', 'o'] + text::decimal(
            index as nat,
        ),
        device_link(index) == seq![
            '/', 's', 'y', 's', '/', 'c', 'l', 'a', 's', 's', '/', 'v', 'i', 'd', 'e', 'o', '4', 'l',
            'i', 'n', 'u', 'x', '/', 'v', 'i', 'd', 'e', 'o',
        ] + text::decimal(index as nat) + seq!['/', 'd', 'e', 'v', 'i', 'c', 'e'],
{
    reveal_strlit("/dev/video");
    reveal_strlit("/sys/class/video4linux/video");
    reveal_strlit("/device");
    assert("/dev/video"@ =~= seq!['/', 'd', 'e', 'v', '/', 'v', 'i', 'd', 'e', 'o']);
    assert("/sys/class/video4linux/video"@ =~= seq![
        '/', 's', 'y', 's', '/', 'c', 'l', 'a', 's', 's', '/', 'v', 'i', 'd', 'e', 'o', '4', 'l',
        'i', 'n', 'u', 'x', '/', 'v', 'i', 'd', 'e', 'o',
    ]);
    assert("/device"@ =~= seq!['/', 'd', 'e', 'v', 'i', 'c', 'e']);
}

} // verus!
