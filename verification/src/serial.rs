//! The serial number of the USB device behind a video device.

use crate::component::{self, encode_component};
use crate::paths::{self, device_link_path};
use crate::text::{self, read_sysfs_attr};
use vstd::prelude::*;

verus! {

/// The bytes of `sys`.
pub open spec fn sys() -> Seq<u8> {
    seq![0x73, 0x79, 0x73]
}

/// The bytes of `idVendor`.
pub open spec fn id_vendor() -> Seq<u8> {
    seq![0x69, 0x64, 0x56, 0x65, 0x6e, 0x64, 0x6f, 0x72]
}

/// The bytes of `serial`.
pub open spec fn serial() -> Seq<u8> {
    seq![0x73, 0x65, 0x72, 0x69, 0x61, 0x6c]
}

/// Where the search for the USB device directory stands.
///
/// A directory is the list of the names on the way to it from the root.
#[derive(Debug)]
pub enum UsbDirStep {
    /// It is to be found out whether this directory holds `idVendor`.
    Probe(Vec<Vec<u8>>),
    /// This is the directory.
    Found(Vec<Vec<u8>>),
    /// There is none.
    NotFound,
}

/// What a [`UsbDirStep`] holds.
pub enum UsbDirStepView {
    Probe(Seq<Seq<u8>>),
    Found(Seq<Seq<u8>>),
    NotFound,
}

impl View for UsbDirStep {
    type V = UsbDirStepView;

    open spec fn view(&self) -> UsbDirStepView {
        match self {
            UsbDirStep::Probe(dir) => UsbDirStepView::Probe(dir.deep_view()),
            UsbDirStep::Found(dir) => UsbDirStepView::Found(dir.deep_view()),
            UsbDirStep::NotFound => UsbDirStepView::NotFound,
        }
    }
}

/// The directory `k` levels above `dir`.
pub open spec fn above(dir: Seq<Seq<u8>>, k: int) -> Seq<Seq<u8>> {
    dir.take(dir.len() - k)
}

/// How many directories are searched: `dir` and those above it, up to the root
/// or, on a way that leads up through `/sys`, up to what lies below `/sys`.
pub open spec fn searched(dir: Seq<Seq<u8>>) -> int {
    if dir.len() >= 2 && dir[0] == sys() {
        dir.len() - 1
    } else {
        dir.len() as int + 1
    }
}

/// The directory `k` levels above `dir` is the first of those searched that
/// holds `idVendor`.
pub open spec fn first_hit(dir: Seq<Seq<u8>>, probes: Seq<bool>, k: int) -> bool {
    &&& 0 <= k < searched(dir)
    &&& k < probes.len()
    &&& probes[k]
    &&& forall|j: int| 0 <= j < k ==> !#[trigger] probes[j]
}

/// Where the search from `dir` upward stands once it is known of as many
/// directories as there are `probes` whether they hold `idVendor`.
pub open spec fn usb_search(dir: Seq<Seq<u8>>, probes: Seq<bool>) -> UsbDirStepView {
    if exists|k: int| first_hit(dir, probes, k) {
        UsbDirStepView::Found(above(dir, choose|k: int| first_hit(dir, probes, k)))
    } else if probes.len() < searched(dir) {
        UsbDirStepView::Probe(above(dir, probes.len() as int))
    } else {
        UsbDirStepView::NotFound
    }
}

fn is_sys(name: &Vec<u8>) -> (r: bool)
    ensures
        r == (name@ == sys()),
{
    let r = name.len() == 3 && name[0] == 0x73 && name[1] == 0x79 && name[2] == 0x73;
    proof {
        if r {
            assert(name@ =~= sys());
        }
    }
    r
}

/// A copy of the first `n` names of `dir`.
fn ancestor(dir: &Vec<Vec<u8>>, n: usize) -> (r: Vec<Vec<u8>>)
    requires
        n <= dir@.len(),
    ensures
        r.deep_view() == dir.deep_view().take(n as int),
{
    let mut r: Vec<Vec<u8>> = Vec::new();
    let mut i: usize = 0;
    while i < n
        invariant
            n <= dir@.len(),
            i <= n,
            r.deep_view() == dir.deep_view().take(i as int),
        decreases n - i,
    {
        let name = vstd::slice::slice_to_vec(dir[i].as_slice());
        let ghost before = r.deep_view();
        r.push(name);
        proof {
            assert(name.deep_view() =~= dir@[i as int].deep_view());
            assert(r.deep_view() =~= before.push(name.deep_view()));
            assert(dir.deep_view().take(i + 1) =~= before.push(name.deep_view()));
        }
        i = i + 1;
    }
    r
}

/// The next step in the search for the USB device directory.
///
/// The search walks up from the directory of a USB interface, such as
/// `.../1-3:1.0`, to that of the USB device, such as `.../1-3`: the first that
/// holds `idVendor`. `canonical` is where it starts, without symbolic links,
/// and `probes` holds the answers to the probes so far, oldest first.
pub fn find_usb_device_dir(canonical: &Vec<Vec<u8>>, probes: &Vec<bool>) -> (step: UsbDirStep)
    ensures
        step@ == usb_search(canonical.deep_view(), probes@),
{
    let ghost dir = canonical.deep_view();
    let mut n: usize = canonical.len();
    let mut k: usize = 0;
    loop
        invariant
            dir == canonical.deep_view(),
            n == canonical@.len() - k,
            k < searched(dir),
            k <= probes@.len(),
            forall|j: int| 0 <= j < k ==> !#[trigger] probes@[j],
        decreases n,
    {
        if k == probes.len() {
            return UsbDirStep::Probe(ancestor(canonical, n));
        }
        if probes[k] {
            assert(first_hit(dir, probes@, k as int));
            return UsbDirStep::Found(ancestor(canonical, n));
        }
        if n == 0 {
            return UsbDirStep::NotFound;
        }
        n = n - 1;
        assert(n >= 1 ==> dir[0] =~= canonical@[0]@);
        if n == 1 && is_sys(&canonical[0]) {
            return UsbDirStep::NotFound;
        }
        k = k + 1;
    }
}

/// What has come back so far of what [`device_serial`] asked for. A reply is
/// `None` until it is there, and `Some(None)` where the call failed.
#[derive(Debug)]
pub struct SerialReplies {
    /// The directory that the device link leads to, without symbolic links.
    pub device: Option<Option<Vec<Vec<u8>>>>,
    /// Whether the files asked about exist, oldest first.
    pub probes: Vec<bool>,
    /// What the `serial` file holds.
    pub serial: Option<Option<String>>,
}

/// What [`device_serial`] asks for, or its result.
///
/// A file is the list of the names on the way to it from the root.
#[derive(Debug)]
pub enum SerialStep {
    /// Resolve this path.
    Canonicalize(String),
    /// Find out whether this is a file.
    IsFile(Vec<Vec<u8>>),
    /// Read this file.
    ReadToString(Vec<Vec<u8>>),
    /// This is the result.
    Done(Option<String>),
}

/// What a [`SerialStep`] holds.
pub enum SerialStepView {
    Canonicalize(Seq<char>),
    IsFile(Seq<Seq<u8>>),
    ReadToString(Seq<Seq<u8>>),
    Done(Option<Seq<char>>),
}

impl View for SerialStep {
    type V = SerialStepView;

    open spec fn view(&self) -> SerialStepView {
        match self {
            SerialStep::Canonicalize(path) => SerialStepView::Canonicalize(path@),
            SerialStep::IsFile(file) => SerialStepView::IsFile(file.deep_view()),
            SerialStep::ReadToString(file) => SerialStepView::ReadToString(file.deep_view()),
            SerialStep::Done(serial) => SerialStepView::Done(serial.deep_view()),
        }
    }
}

/// The serial number, from what its file holds: as udev writes it in a name,
/// and empty where the file could not be read or is blank.
pub open spec fn serial_number(file: Option<Seq<char>>) -> Seq<char> {
    match file {
        Some(text) => match text::non_blank(text) {
            Some(serial) => component::encoded(serial),
            None => Seq::empty(),
        },
        None => Seq::empty(),
    }
}

/// The next step towards the serial number of the USB device behind
/// `/dev/video{index}`.
pub open spec fn serial_step(
    index: u32,
    device: Option<Option<Seq<Seq<u8>>>>,
    probes: Seq<bool>,
    file: Option<Option<Seq<char>>>,
) -> SerialStepView {
    match device {
        None => SerialStepView::Canonicalize(paths::device_link(index)),
        Some(None) => SerialStepView::Done(None),
        Some(Some(dir)) => match usb_search(dir, probes) {
            UsbDirStepView::Probe(dir) => SerialStepView::IsFile(dir.push(id_vendor())),
            UsbDirStepView::NotFound => SerialStepView::Done(None),
            UsbDirStepView::Found(dir) => match file {
                None => SerialStepView::ReadToString(dir.push(serial())),
                Some(file) => SerialStepView::Done(Some(serial_number(file))),
            },
        },
    }
}

proof fn lemma_push_name(dir: Vec<Vec<u8>>, name: Vec<u8>, file: Vec<Vec<u8>>)
    requires
        file@ == dir@.push(name),
    ensures
        file.deep_view() == dir.deep_view().push(name@),
{
    assert(name.deep_view() =~= name@);
    assert(file.deep_view() =~= dir.deep_view().push(name@));
}

/// The next step towards the serial number of the USB device behind
/// `/dev/video{index}`, given the replies to the steps before.
///
/// The result is `None` where there is no such device, as behind a CSI sensor,
/// and empty where the device has no serial number.
pub fn device_serial(index: u32, replies: &SerialReplies) -> (step: SerialStep)
    ensures
        step@ == serial_step(
            index,
            replies.device.deep_view(),
            replies.probes@,
            replies.serial.deep_view(),
        ),
{
    let Some(device) = &replies.device else {
        return SerialStep::Canonicalize(device_link_path(index));
    };
    let Some(canonical) = device else {
        return SerialStep::Done(None);
    };
    match find_usb_device_dir(canonical, &replies.probes) {
        UsbDirStep::NotFound => SerialStep::Done(None),
        UsbDirStep::Probe(dir) => {
            let mut file = dir;
            let name: Vec<u8> = vec![0x69, 0x64, 0x56, 0x65, 0x6e, 0x64, 0x6f, 0x72];
            file.push(name);
            proof {
                assert(name@ =~= id_vendor());
                lemma_push_name(dir, name, file);
            }
            SerialStep::IsFile(file)
        },
        UsbDirStep::Found(dir) => {
            let Some(text) = &replies.serial else {
                let mut file = dir;
                let name: Vec<u8> = vec![0x73, 0x65, 0x72, 0x69, 0x61, 0x6c];
                file.push(name);
                proof {
                    assert(name@ =~= serial());
                    lemma_push_name(dir, name, file);
                }
                return SerialStep::ReadToString(file);
            };
            match read_sysfs_attr(text) {
                Some(serial) => SerialStep::Done(Some(encode_component(serial.as_str()))),
                None => SerialStep::Done(Some(String::new())),
            }
        },
    }
}

/// Once it is known of every directory on the way up whether it holds
/// `idVendor`, the search has ended: at the first that does, if any does.
pub proof fn search_finds_nearest(dir: Seq<Seq<u8>>, holds: spec_fn(Seq<Seq<u8>>) -> bool)
    ensures
        ({
            let probes = Seq::new(searched(dir) as nat, |k: int| holds(above(dir, k)));
            match usb_search(dir, probes) {
                UsbDirStepView::Found(found) => exists|k: int|
                    {
                        &&& 0 <= k < searched(dir)
                        &&& found == #[trigger] above(dir, k)
                        &&& holds(found)
                        &&& forall|j: int| 0 <= j < k ==> !holds(#[trigger] above(dir, j))
                    },
                UsbDirStepView::NotFound => forall|k: int|
                    0 <= k < searched(dir) ==> !holds(#[trigger] above(dir, k)),
                UsbDirStepView::Probe(_) => false,
            }
        }),
{
    let probes = Seq::new(searched(dir) as nat, |k: int| holds(above(dir, k)));
    if exists|k: int| first_hit(dir, probes, k) {
        let k = choose|k: int| first_hit(dir, probes, k);
        assert forall|j: int| 0 <= j < k implies !holds(#[trigger] above(dir, j)) by {
            assert(!probes[j]);
        }
    } else {
        assert forall|k: int| 0 <= k < searched(dir) implies !holds(#[trigger] above(dir, k)) by {
            lemma_no_hit(dir, probes, k);
            assert(!probes[k]);
        }
    }
}

proof fn lemma_no_hit(dir: Seq<Seq<u8>>, probes: Seq<bool>, k: int)
    requires
        !exists|k: int| first_hit(dir, probes, k),
        k < searched(dir),
        k < probes.len(),
    ensures
        forall|j: int| 0 <= j <= k ==> !#[trigger] probes[j],
    decreases k + 1,
{
    if k >= 0 {
        lemma_no_hit(dir, probes, k - 1);
        assert(!first_hit(dir, probes, k));
    }
}

/// A directory that the search ends at was probed, and the answer was yes; all
/// that were probed before it were not.
pub proof fn found_directory_was_probed(dir: Seq<Seq<u8>>, probes: Seq<bool>, found: Seq<Seq<u8>>)
    requires
        usb_search(dir, probes) == UsbDirStepView::Found(found),
    ensures
        exists|k: int|
            {
                &&& 0 <= k < probes.len()
                &&& probes[k]
                &&& usb_search(dir, #[trigger] probes.take(k)) == UsbDirStepView::Probe(found)
            },
{
    let k = choose|k: int| first_hit(dir, probes, k);
    let asked = probes.take(k);
    assert forall|j: int| !first_hit(dir, asked, j) by {
        if 0 <= j < k {
            assert(asked[j] == probes[j]);
        }
    }
    assert(usb_search(dir, probes.take(k)) == UsbDirStepView::Probe(found));
}

/// On the way up through `/sys` nothing is probed but what lies below it.
pub proof fn search_stays_below_sys(dir: Seq<Seq<u8>>, probes: Seq<bool>, next: Seq<Seq<u8>>)
    requires
        dir.len() >= 2,
        dir[0] == sys(),
        usb_search(dir, probes) == UsbDirStepView::Probe(next) || usb_search(dir, probes)
            == UsbDirStepView::Found(next),
    ensures
        next.len() >= 2,
        next.is_prefix_of(dir),
{
}

/// A serial number is fit to stand in a name: it has no leading, trailing or
/// doubled `_`, and nothing that may not stand there.
pub proof fn serial_is_clean(
    index: u32,
    device: Option<Option<Seq<Seq<u8>>>>,
    probes: Seq<bool>,
    file: Option<Option<Seq<char>>>,
    serial: Seq<char>,
)
    requires
        serial_step(index, device, probes, file) == SerialStepView::Done(Some(serial)),
    ensures
        component::well_encoded(serial),
{
    match file {
        Some(Some(text)) => match text::non_blank(text) {
            Some(s) => component::encoding_is_clean(s),
            None => {},
        },
        _ => {},
    }
}

/// Once the search has ended, no answer that comes later changes its result.
pub proof fn ended_search_stays(dir: Seq<Seq<u8>>, probes: Seq<bool>, more: Seq<bool>)
    requires
        !(usb_search(dir, probes) is Probe),
    ensures
        usb_search(dir, probes + more) == usb_search(dir, probes),
{
    let all = probes + more;
    if exists|k: int| first_hit(dir, probes, k) {
        let k = choose|k: int| first_hit(dir, probes, k);
        assert forall|j: int| 0 <= j < k implies !#[trigger] all[j] by {
            assert(all[j] == probes[j]);
        }
        assert(first_hit(dir, all, k));
    } else {
        assert forall|k: int| !first_hit(dir, all, k) by {
            if 0 <= k < searched(dir) {
                lemma_no_hit(dir, probes, k);
                assert(all[k] == probes[k]);
            }
        }
    }
}

/// A step of the search shows the names that it holds.
pub proof fn usb_step_is_what_it_holds(dir: Vec<Vec<u8>>)
    ensures
        UsbDirStep::Probe(dir)@ matches UsbDirStepView::Probe(names) && names.len() == dir@.len()
            && forall|i: int| 0 <= i < names.len() ==> #[trigger] names[i] == dir@[i]@,
        UsbDirStep::Found(dir)@ matches UsbDirStepView::Found(names) && names.len() == dir@.len()
            && forall|i: int| 0 <= i < names.len() ==> #[trigger] names[i] == dir@[i]@,
        UsbDirStep::NotFound@ == UsbDirStepView::NotFound,
{
    let names = dir.deep_view();
    assert forall|i: int| 0 <= i < names.len() implies #[trigger] names[i] == dir@[i]@ by {
        assert(dir@[i].deep_view() =~= dir@[i]@);
    }
}

/// A step shows what it holds.
pub proof fn serial_step_is_what_it_holds(
    path: String,
    file: Vec<Vec<u8>>,
    serial: Option<String>,
)
    ensures
        SerialStep::Canonicalize(path)@ == SerialStepView::Canonicalize(path@),
        SerialStep::IsFile(file)@ matches SerialStepView::IsFile(names) && names.len()
            == file@.len() && forall|i: int|
            0 <= i < names.len() ==> #[trigger] names[i] == file@[i]@,
        SerialStep::ReadToString(file)@ matches SerialStepView::ReadToString(names) && names.len()
            == file@.len() && forall|i: int|
            0 <= i < names.len() ==> #[trigger] names[i] == file@[i]@,
        SerialStep::Done(serial)@ == SerialStepView::Done(
            match serial {
                Some(text) => Some(text@),
                None => None,
            },
        ),
{
    let names = file.deep_view();
    assert forall|i: int| 0 <= i < names.len() implies #[trigger] names[i] == file@[i]@ by {
        assert(file@[i].deep_view() =~= file@[i]@);
    }
}

/// From a directory below `/sys`, of any depth, each path on the way up is
/// probed, to the last that is longer than `/sys`: where the paths of more than
/// `n` names were probed in vain, that of `n` names is probed next. The search
/// ends there where the answer is yes, and in vain where it is no for a path of
/// two names.
pub proof fn search_below_sys(dir: Seq<Seq<u8>>, probes: Seq<bool>, n: int)
    requires
        dir.len() >= 2,
        dir[0] == seq![0x73u8, 0x79, 0x73],
        2 <= n <= dir.len(),
        probes.len() >= dir.len() - n,
        forall|j: int| 0 <= j < dir.len() - n ==> !#[trigger] probes[j],
    ensures
        probes.len() == dir.len() - n ==> usb_search(dir, probes) == UsbDirStepView::Probe(
            dir.take(n),
        ),
        probes.len() > dir.len() - n && probes[dir.len() - n] ==> usb_search(dir, probes)
            == UsbDirStepView::Found(dir.take(n)),
        probes.len() > dir.len() - n && !probes[dir.len() - n] && n == 2 ==> usb_search(dir, probes)
            == UsbDirStepView::NotFound,
{
    lemma_search_at(dir, probes, dir.len() - n);
}

/// From a directory that does not lie below `/sys`, the search goes up name by
/// name to the root, the path of no names.
pub proof fn search_elsewhere(dir: Seq<Seq<u8>>, probes: Seq<bool>, n: int)
    requires
        dir.len() < 2 || dir[0] != seq![0x73u8, 0x79, 0x73],
        0 <= n <= dir.len(),
        probes.len() >= dir.len() - n,
        forall|j: int| 0 <= j < dir.len() - n ==> !#[trigger] probes[j],
    ensures
        probes.len() == dir.len() - n ==> usb_search(dir, probes) == UsbDirStepView::Probe(
            dir.take(n),
        ),
        probes.len() > dir.len() - n && probes[dir.len() - n] ==> usb_search(dir, probes)
            == UsbDirStepView::Found(dir.take(n)),
        probes.len() > dir.len() - n && !probes[dir.len() - n] && n == 0 ==> usb_search(dir, probes)
            == UsbDirStepView::NotFound,
{
    lemma_search_at(dir, probes, dir.len() - n);
}

proof fn lemma_search_at(dir: Seq<Seq<u8>>, probes: Seq<bool>, k: int)
    requires
        0 <= k < searched(dir),
        k <= probes.len(),
        forall|j: int| 0 <= j < k ==> !#[trigger] probes[j],
    ensures
        k == probes.len() ==> usb_search(dir, probes) == UsbDirStepView::Probe(above(dir, k)),
        k < probes.len() && probes[k] ==> usb_search(dir, probes) == UsbDirStepView::Found(
            above(dir, k),
        ),
        k < probes.len() && !probes[k] && k == searched(dir) - 1 ==> usb_search(dir, probes)
            == UsbDirStepView::NotFound,
{
    if k < probes.len() && probes[k] {
        assert(first_hit(dir, probes, k));
        let hit = choose|i: int| first_hit(dir, probes, i);
        assert(hit == k);
    } else if k == probes.len() || k == searched(dir) - 1 {
        assert forall|i: int| !first_hit(dir, probes, i) by {
            if 0 <= i < k {
                assert(!probes[i]);
            }
        }
    }
}

/// A search from below `/sys` has ended in vain only once each path of two or
/// more names on the way up was probed and the answer was no.
pub proof fn vain_search_left_nothing_out(dir: Seq<Seq<u8>>, probes: Seq<bool>, n: int)
    requires
        dir.len() >= 2,
        dir[0] == seq![0x73u8, 0x79, 0x73],
        usb_search(dir, probes) == UsbDirStepView::NotFound,
        2 <= n <= dir.len(),
    ensures
        dir.len() - n < probes.len(),
        !probes[dir.len() - n],
{
    lemma_no_hit(dir, probes, dir.len() - n);
}

/// A search from below `/sys` that was not in vain has ended at a path of two or
/// more names on the way up that was probed, and the answer was yes; for each
/// longer path it was no.
pub proof fn search_ends_at_nearest(
    dir: Seq<Seq<u8>>,
    probes: Seq<bool>,
    found: Seq<Seq<u8>>,
)
    requires
        dir.len() >= 2,
        dir[0] == seq![0x73u8, 0x79, 0x73],
        usb_search(dir, probes) == UsbDirStepView::Found(found),
    ensures
        2 <= found.len() <= dir.len(),
        found == dir.take(found.len() as int),
        dir.len() - found.len() < probes.len(),
        probes[dir.len() - found.len()],
        forall|j: int| 0 <= j < dir.len() - found.len() ==> !#[trigger] probes[j],
{
}

/// What is asked for, and what becomes of it: the device link is resolved, each
/// directory is probed for `idVendor`, and `serial` is read from the one found.
/// There is no serial number where the link cannot be resolved or no directory
/// is found.
pub proof fn serial_is_asked_for(
    index: u32,
    dir: Seq<Seq<u8>>,
    probes: Seq<bool>,
    file: Option<Option<Seq<char>>>,
)
    ensures
        serial_step(index, None, probes, file) == SerialStepView::Canonicalize(
            seq![
                '/', 's', 'y', 's', '/', 'c', 'l', 'a', 's', 's', '/', 'v', 'i', 'd', 'e', 'o', '4',
                'l', 'i', 'n', 'u', 'x', '/', 'v', 'i', 'd', 'e', 'o',
            ] + text::decimal(index as nat) + seq!['/', 'd', 'e', 'v', 'i', 'c', 'e'],
        ),
        serial_step(index, Some(None), probes, file) == SerialStepView::Done(None),
        usb_search(dir, probes) is NotFound ==> serial_step(index, Some(Some(dir)), probes, file)
            == SerialStepView::Done(None),
        usb_search(dir, probes) matches UsbDirStepView::Probe(next) ==> serial_step(
            index,
            Some(Some(dir)),
            probes,
            file,
        ) == SerialStepView::IsFile(
            next.push(seq![0x69u8, 0x64, 0x56, 0x65, 0x6e, 0x64, 0x6f, 0x72]),
        ),
        usb_search(dir, probes) matches UsbDirStepView::Found(found) ==> serial_step(
            index,
            Some(Some(dir)),
            probes,
            None,
        ) == SerialStepView::ReadToString(found.push(seq![0x73u8, 0x65, 0x72, 0x69, 0x61, 0x6c])),
        usb_search(dir, probes) is Found ==> serial_step(
            index,
            Some(Some(dir)),
            probes,
            Some(None),
        ) == SerialStepView::Done(Some(Seq::<char>::empty())),
{
    paths::paths_in_full(index);
}

/// The serial number is the text in the file without the white space around it,
/// encoded; a text of characters that may stand in a name is kept as it is.
pub proof fn serial_is_read(
    index: u32,
    dir: Seq<Seq<u8>>,
    probes: Seq<bool>,
    before: Seq<char>,
    s: Seq<char>,
    after: Seq<char>,
)
    requires
        usb_search(dir, probes) is Found,
        s.len() > 0,
        !text::white_space(s[0]),
        !text::white_space(s.last()),
        forall|i: int| 0 <= i < before.len() ==> text::white_space(#[trigger] before[i]),
        forall|i: int| 0 <= i < after.len() ==> text::white_space(#[trigger] after[i]),
    ensures
        serial_step(index, Some(Some(dir)), probes, Some(Some(before + s + after)))
            == SerialStepView::Done(Some(component::encoded(s))),
        (forall|i: int| 0 <= i < s.len() ==> component::name_char(#[trigger] s[i])) ==> serial_step(
            index,
            Some(Some(dir)),
            probes,
            Some(Some(before + s + after)),
        ) == SerialStepView::Done(Some(s)),
{
    text::padding_is_taken_off(before, s, after);
    if forall|i: int| 0 <= i < s.len() ==> component::name_char(#[trigger] s[i]) {
        component::names_are_kept(s);
    }
}

/// A serial number file that is blank gives an empty serial number.
pub proof fn blank_serial_is_empty(
    index: u32,
    dir: Seq<Seq<u8>>,
    probes: Seq<bool>,
    blank: Seq<char>,
)
    requires
        usb_search(dir, probes) is Found,
        forall|i: int| 0 <= i < blank.len() ==> text::white_space(#[trigger] blank[i]),
    ensures
        serial_step(index, Some(Some(dir)), probes, Some(Some(blank))) == SerialStepView::Done(
            Some(Seq::<char>::empty()),
        ),
{
    text::blank_is_white_space(blank);
}

} // verus!
