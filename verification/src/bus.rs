//! Where a video device is attached.

use crate::abi::V4l2Capability;
use crate::paths::{self, video_path};
use crate::text::{self, bytes_to_string};
use vstd::prelude::*;
#[allow(unused_imports)]
use vstd::utf8;

verus! {

/// What [`device_bus`] asks for, or its result.
#[derive(Debug)]
pub enum BusStep {
    /// Query the capabilities of the device node at this path.
    QueryCaps(String),
    /// This is the result.
    Done(Option<String>),
}

/// What a [`BusStep`] holds.
pub enum BusStepView {
    QueryCaps(Seq<char>),
    Done(Option<Seq<char>>),
}

impl View for BusStep {
    type V = BusStepView;

    open spec fn view(&self) -> BusStepView {
        match self {
            BusStep::QueryCaps(path) => BusStepView::QueryCaps(path@),
            BusStep::Done(bus) => BusStepView::Done(bus.deep_view()),
        }
    }
}

/// The bus location that the capabilities of a device tell.
pub open spec fn bus_location(caps: V4l2Capability) -> Option<Seq<char>> {
    text::non_blank(text::decoded(text::until_nul(caps.bus_info@)))
}

/// The next step towards the bus location of `/dev/video{index}`, given the
/// capabilities of the device: `None` until they are there, and `Some(None)`
/// where the query failed.
///
/// The result is what the V4L2 `bus_info` field holds, such as
/// `usb-0000:00:14.0-3` or `platform:...`, or `None` where that is blank.
pub fn device_bus(index: u32, caps: &Option<Option<V4l2Capability>>) -> (step: BusStep)
    ensures
        step@ == match *caps {
            None => BusStepView::QueryCaps(paths::video_node(index)),
            Some(None) => BusStepView::Done(None),
            Some(Some(caps)) => BusStepView::Done(bus_location(caps)),
        },
{
    match caps {
        None => BusStep::QueryCaps(video_path(index)),
        Some(None) => BusStep::Done(None),
        Some(Some(caps)) => BusStep::Done(bytes_to_string(caps.bus_info.as_slice())),
    }
}

/// A step shows what it holds.
pub proof fn bus_step_is_what_it_holds(path: String, bus: Option<String>)
    ensures
        BusStep::QueryCaps(path)@ == BusStepView::QueryCaps(path@),
        BusStep::Done(bus)@ == BusStepView::Done(
            match bus {
                Some(text) => Some(text@),
                None => None,
            },
        ),
{
}

/// An ASCII bus location without white space at either end is told in full,
/// whatever its length `n`, where it fills the field or a NUL follows it.
pub proof fn ascii_location_is_told_in_full(caps: V4l2Capability, n: int)
    requires
        0 < n <= 32,
        forall|i: int| 0 <= i < n ==> 0 < #[trigger] caps.bus_info@[i] < 0x80,
        caps.bus_info@[0] != 0x20 && !(0x09 <= caps.bus_info@[0] <= 0x0d),
        caps.bus_info@[n - 1] != 0x20 && !(0x09 <= caps.bus_info@[n - 1] <= 0x0d),
        n < 32 ==> caps.bus_info@[n] == 0,
    ensures
        bus_location(caps) is Some,
        bus_location(caps)->0.len() == n,
        forall|i: int|
            0 <= i < n ==> #[trigger] bus_location(caps)->0[i] == caps.bus_info@[i] as char,
{
    let field = caps.bus_info@;
    text::field_holds_ascii(field, n);
    let s = text::decoded(text::until_nul(field));
    let none = Seq::<char>::empty();
    assert(s[0] == field[0] as char && s[n - 1] == field[n - 1] as char);
    text::padding_is_taken_off(none, s, none);
    assert(none + s + none =~= s);
}

/// A bus location is told in full, without the white space around it, where the
/// bytes of the text fill the field or a NUL follows them.
pub proof fn location_is_told_in_full(
    caps: V4l2Capability,
    before: Seq<char>,
    s: Seq<char>,
    after: Seq<char>,
)
    requires
        s.len() > 0,
        !text::white_space(s[0]),
        !text::white_space(s.last()),
        forall|i: int| 0 <= i < before.len() ==> text::white_space(#[trigger] before[i]),
        forall|i: int| 0 <= i < after.len() ==> text::white_space(#[trigger] after[i]),
        !(before + s + after).contains('\0'),
        utf8::encode_utf8(before + s + after).len() <= 32,
        caps.bus_info@.take(utf8::encode_utf8(before + s + after).len() as int)
            == utf8::encode_utf8(before + s + after),
        utf8::encode_utf8(before + s + after).len() < 32
            ==> caps.bus_info@[utf8::encode_utf8(before + s + after).len() as int] == 0,
    ensures
        bus_location(caps) == Some(s),
{
    text::field_holds_text(caps.bus_info@, before + s + after);
    text::padding_is_taken_off(before, s, after);
}

/// A device whose field holds nothing but ASCII white space before its first NUL
/// tells no bus location.
pub proof fn blank_location_is_not_told(caps: V4l2Capability, n: int)
    requires
        0 <= n <= 32,
        forall|i: int|
            0 <= i < n ==> #[trigger] caps.bus_info@[i] == 0x20 || 0x09 <= caps.bus_info@[i] <= 0x0d,
        n < 32 ==> caps.bus_info@[n] == 0,
    ensures
        bus_location(caps) is None,
{
    let field = caps.bus_info@;
    text::field_holds_ascii(field, n);
    let s = text::decoded(text::until_nul(field));
    assert forall|i: int| 0 <= i < s.len() implies text::white_space(#[trigger] s[i]) by {
        assert(s[i] == field[i] as char);
        assert(field[i] == 0x20 || 0x09 <= field[i] <= 0x0d);
    }
    text::blank_is_white_space(s);
}

} // verus!
