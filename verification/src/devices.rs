//! Device numbers and the media devices in `/dev`.

#[allow(unused_imports)]
use crate::text;
use vstd::prelude::*;
#[allow(unused_imports)]
use vstd::relations;
#[allow(unused_imports)]
use vstd::seq_lib;
#[allow(unused_imports)]
use vstd::utf8;

verus! {

// Device numbers.

/// The major number in a device number.
pub open spec fn major_of(dev: u64) -> u32 {
    (((dev & 0x0000_0000_000f_ff00) >> 8u64) | ((dev & 0xffff_f000_0000_0000) >> 32u64)) as u32
}

/// The minor number in a device number.
pub open spec fn minor_of(dev: u64) -> u32 {
    ((dev & 0x0000_0000_0000_00ff) | ((dev & 0x0000_0fff_fff0_0000) >> 12u64)) as u32
}

/// `libc::major` takes the major number out of a device number.
#[verifier::external_body]
fn libc_major(dev: u64) -> (r: u32)
    ensures
        r == major_of(dev),
{
    libc::major(dev)
}

/// `libc::minor` takes the minor number out of a device number.
#[verifier::external_body]
fn libc_minor(dev: u64) -> (r: u32)
    ensures
        r == minor_of(dev),
{
    libc::minor(dev)
}

/// The major and minor number of a device node, from its device number.
pub fn dev_major_minor(rdev: u64) -> (r: (u32, u32))
    ensures
        r == (major_of(rdev), minor_of(rdev)),
{
    (libc_major(rdev), libc_minor(rdev))
}

/// Major and minor number tell device nodes apart: two device numbers that
/// agree in both are the same.
pub proof fn device_numbers_differ(a: u64, b: u64)
    requires
        major_of(a) == major_of(b),
        minor_of(a) == minor_of(b),
    ensures
        a == b,
{
    assert(a == b) by (bit_vector)
        requires
            (((a & 0x0000_0000_000f_ff00) >> 8u64) | ((a & 0xffff_f000_0000_0000) >> 32u64)) as u32
                == (((b & 0x0000_0000_000f_ff00) >> 8u64) | ((b & 0xffff_f000_0000_0000)
                >> 32u64)) as u32,
            ((a & 0x0000_0000_0000_00ff) | ((a & 0x0000_0fff_fff0_0000) >> 12u64)) as u32 == ((b
                & 0x0000_0000_0000_00ff) | ((b & 0x0000_0fff_fff0_0000) >> 12u64)) as u32,
    ;
}

// Media devices.

/// The bytes of `media`.
pub open spec fn media_prefix() -> Seq<u8> {
    seq![0x6d, 0x65, 0x64, 0x69, 0x61]
}

/// The bytes of `/dev/`.
pub open spec fn dev_prefix() -> Seq<u8> {
    seq![0x2f, 0x64, 0x65, 0x76, 0x2f]
}

/// The file name is that of a media device: `media` and a decimal number.
pub open spec fn media_name(name: Seq<u8>) -> bool {
    &&& name.len() > 5
    &&& name.take(5) == media_prefix()
    &&& forall|i: int| 5 <= i < name.len() ==> 0x30 <= #[trigger] name[i] <= 0x39
}

/// The path of a media device, for a file name in `/dev` that is that of one.
pub open spec fn media_path(name: Seq<u8>) -> Option<Seq<u8>> {
    if media_name(name) {
        Some(dev_prefix() + name)
    } else {
        None
    }
}

/// The order of paths: that of their bytes, from the first on.
pub open spec fn path_le(a: Seq<u8>, b: Seq<u8>) -> bool
    decreases a.len(),
{
    a.len() == 0 || (b.len() > 0 && (a[0] < b[0] || (a[0] == b[0] && path_le(
        a.drop_first(),
        b.drop_first(),
    ))))
}

/// The paths of the media devices among the file names in `/dev`, in order.
pub open spec fn media_paths(names: Seq<Seq<u8>>) -> Seq<Seq<u8>> {
    names.filter_map(|name: Seq<u8>| media_path(name)).sort_by(
        |a: Seq<u8>, b: Seq<u8>| path_le(a, b),
    )
}

fn is_media_name(name: &Vec<u8>) -> (r: bool)
    ensures
        r == media_name(name@),
{
    let n: usize = name.len();
    if n <= 5 {
        return false;
    }
    if name[0] != 0x6d || name[1] != 0x65 || name[2] != 0x64 || name[3] != 0x69 || name[4] != 0x61 {
        proof {
            let five = name@.take(5);
            assert(five[0] == name@[0] && five[1] == name@[1] && five[2] == name@[2] && five[3]
                == name@[3] && five[4] == name@[4]);
        }
        return false;
    }
    assert(name@.take(5) =~= media_prefix());
    let mut i: usize = 5;
    while i < n
        invariant
            n == name@.len(),
            5 <= i <= n,
            forall|k: int| 5 <= k < i ==> 0x30 <= #[trigger] name@[k] <= 0x39,
        decreases n - i,
    {
        if name[i] < 0x30 || name[i] > 0x39 {
            return false;
        }
        i = i + 1;
    }
    true
}

fn is_path_le(a: &Vec<u8>, b: &Vec<u8>) -> (r: bool)
    ensures
        r == path_le(a@, b@),
{
    let mut i: usize = 0;
    assert(a@.skip(0) =~= a@ && b@.skip(0) =~= b@);
    while i < a.len()
        invariant
            i <= a@.len(),
            i <= b@.len(),
            path_le(a@, b@) == path_le(a@.skip(i as int), b@.skip(i as int)),
        decreases a@.len() - i,
    {
        if i >= b.len() || b[i] < a[i] {
            return false;
        }
        if a[i] < b[i] {
            return true;
        }
        assert(a@.skip(i as int).drop_first() =~= a@.skip(i as int + 1));
        assert(b@.skip(i as int).drop_first() =~= b@.skip(i as int + 1));
        i = i + 1;
    }
    true
}

proof fn lemma_path_le_total(a: Seq<u8>, b: Seq<u8>)
    ensures
        path_le(a, a),
        path_le(a, b) || path_le(b, a),
        path_le(a, b) && path_le(b, a) ==> a == b,
    decreases a.len(),
{
    if a.len() > 0 {
        lemma_path_le_total(a.drop_first(), a.drop_first());
        if b.len() > 0 {
            lemma_path_le_total(a.drop_first(), b.drop_first());
            if path_le(a, b) && path_le(b, a) {
                assert(a =~= seq![a[0]] + a.drop_first());
                assert(b =~= seq![b[0]] + b.drop_first());
            }
        }
    } else if path_le(b, a) {
        assert(a =~= b);
    }
}

proof fn lemma_path_le_transitive(a: Seq<u8>, b: Seq<u8>, c: Seq<u8>)
    requires
        path_le(a, b),
        path_le(b, c),
    ensures
        path_le(a, c),
    decreases a.len(),
{
    if a.len() > 0 && a[0] == b[0] && b[0] == c[0] {
        lemma_path_le_transitive(a.drop_first(), b.drop_first(), c.drop_first());
    }
}

/// Paths are in total order.
pub proof fn paths_are_ordered()
    ensures
        relations::total_ordering(|a: Seq<u8>, b: Seq<u8>| path_le(a, b)),
{
    let le = |a: Seq<u8>, b: Seq<u8>| path_le(a, b);
    assert forall|a: Seq<u8>| #[trigger] le(a, a) by {
        lemma_path_le_total(a, a);
    }
    assert forall|a: Seq<u8>, b: Seq<u8>| #[trigger] le(a, b) && #[trigger] le(b, a) implies a == b by {
        lemma_path_le_total(a, b);
    }
    assert forall|a: Seq<u8>, b: Seq<u8>| #[trigger] le(a, b) || #[trigger] le(b, a) by {
        lemma_path_le_total(a, b);
    }
    assert forall|a: Seq<u8>, b: Seq<u8>, c: Seq<u8>| #[trigger]
        le(a, b) && #[trigger] le(b, c) implies le(a, c) by {
        lemma_path_le_transitive(a, b, c);
    }
}

/// The paths of the media devices among the file names in `/dev`, in order.
pub fn media_devices(names: &Vec<Vec<u8>>) -> (paths: Vec<Vec<u8>>)
    ensures
        paths.deep_view() == media_paths(names.deep_view()),
{
    let ghost le = |a: Seq<u8>, b: Seq<u8>| path_le(a, b);
    let ghost pick = |name: Seq<u8>| media_path(name);
    let ghost listed = names.deep_view();
    let mut paths: Vec<Vec<u8>> = Vec::new();
    let n: usize = names.len();
    let mut i: usize = 0;
    proof {
        paths_are_ordered();
        assert(listed.take(0) =~= Seq::<Seq<u8>>::empty());
        assert(paths.deep_view() =~= Seq::<Seq<u8>>::empty());
    }
    while i < n
        invariant
            le == (|a: Seq<u8>, b: Seq<u8>| path_le(a, b)),
            pick == (|name: Seq<u8>| media_path(name)),
            relations::total_ordering(le),
            listed == names.deep_view(),
            n == names@.len(),
            i <= n,
            relations::sorted_by(paths.deep_view(), le),
            paths.deep_view().to_multiset() == listed.take(i as int).filter_map(pick).to_multiset(),
        decreases n - i,
    {
        let name = &names[i];
        proof {
            listed.lemma_filter_map_take_succ(pick, i as int);
            assert(listed[i as int] == name@);
        }
        if is_media_name(name) {
            let mut path: Vec<u8> = vec![0x2f, 0x64, 0x65, 0x76, 0x2f];
            let mut k: usize = 0;
            while k < name.len()
                invariant
                    k <= name@.len(),
                    path@ == dev_prefix() + name@.take(k as int),
                decreases name@.len() - k,
            {
                path.push(name[k]);
                k = k + 1;
                assert(name@.take(k as int) =~= name@.take(k - 1).push(name@[k - 1]));
            }
            assert(name@.take(k as int) =~= name@);
            let ghost before = paths.deep_view();
            let ghost new = path@;
            let mut at: usize = 0;
            while at < paths.len() && is_path_le(&paths[at], &path)
                invariant
                    le == (|a: Seq<u8>, b: Seq<u8>| path_le(a, b)),
                    before == paths.deep_view(),
                    new == path@,
                    at <= paths@.len(),
                    forall|j: int| 0 <= j < at ==> le(#[trigger] before[j], new),
                decreases paths@.len() - at,
            {
                assert(before[at as int] == paths@[at as int]@);
                at = at + 1;
            }
            proof {
                assert(path.deep_view() =~= new);
                if at < before.len() {
                    assert(before[at as int] =~= paths@[at as int]@);
                    assert(!le(before[at as int], new));
                }
            }
            paths.insert(at, path);
            proof {
                let after = paths.deep_view();
                assert(after =~= before.insert(at as int, new));
                if at < before.len() {
                    assert(le(before[at as int], new) || le(new, before[at as int]));
                }
                assert forall|j: int, l: int| 0 <= j < l < after.len() implies #[trigger] le(
                    after[j],
                    after[l],
                ) by {
                    if j == at {
                        if l - 1 > at {
                            assert(le(before[at as int], before[l - 1]));
                        }
                        assert(le(new, before[at as int]));
                    } else if l != at {
                        let a = if j < at { j } else { j - 1 };
                        let b = if l < at { l } else { l - 1 };
                        assert(le(before[a], before[b]));
                    }
                }
                seq_lib::to_multiset_insert(before, at as int, new);
                let found = listed.take(i as int).filter_map(pick);
                seq_lib::to_multiset_build(found, new);
                assert(listed.take(i + 1).filter_map(pick) =~= found.push(new));
            }
        } else {
            assert(listed.take(i + 1).filter_map(pick) =~= listed.take(i as int).filter_map(pick));
        }
        i = i + 1;
    }
    proof {
        assert(listed.take(n as int) =~= listed);
        let found = listed.filter_map(pick);
        found.lemma_sort_by_ensures(le);
        seq_lib::lemma_sorted_unique(paths.deep_view(), found.sort_by(le), le);
    }
    paths
}

proof fn lemma_found_count(names: Seq<Seq<u8>>, path: Seq<u8>)
    ensures
        names.filter_map(|name: Seq<u8>| media_path(name)).to_multiset().count(path) == if path.len()
            >= 5 && media_path(path.skip(5)) == Some(path) {
            names.to_multiset().count(path.skip(5))
        } else {
            0
        },
    decreases names.len(),
{
    broadcast use vstd::multiset::group_multiset_axioms;

    let pick = |name: Seq<u8>| media_path(name);
    if names.len() == 0 {
        assert(names =~= Seq::<Seq<u8>>::empty());
        assert(names.filter_map(pick) =~= Seq::<Seq<u8>>::empty());
        seq_lib::to_multiset_contains(names, path.skip(5));
        seq_lib::to_multiset_contains(names.filter_map(pick), path);
    } else {
        let before = names.drop_last();
        let last = names.last();
        lemma_found_count(before, path);
        names.lemma_filter_map_take_succ(pick, names.len() - 1);
        assert(names.take(names.len() as int) =~= names);
        assert(names.take(names.len() - 1) =~= before);
        assert(before.push(last) =~= names);
        seq_lib::to_multiset_build(before, last);
        let found = before.filter_map(pick);
        if media_name(last) {
            let new = dev_prefix() + last;
            assert(names.filter_map(pick) =~= found.push(new));
            seq_lib::to_multiset_build(found, new);
            assert(new.skip(5) =~= last);
            if path.len() >= 5 && path.skip(5) == last && media_path(path.skip(5)) == Some(path) {
                assert(path == new);
            }
        } else {
            assert(names.filter_map(pick) =~= found);
        }
    }
}

pub(crate) proof fn lemma_media_paths(names: Seq<Seq<u8>>)
    ensures
        relations::sorted_by(media_paths(names), |a: Seq<u8>, b: Seq<u8>| path_le(a, b)),
{
    paths_are_ordered();
    names.filter_map(|name: Seq<u8>| media_path(name)).lemma_sort_by_ensures(
        |a: Seq<u8>, b: Seq<u8>| path_le(a, b),
    );
}

pub(crate) proof fn lemma_path_count(names: Seq<Seq<u8>>, path: Seq<u8>)
    ensures
        media_paths(names).to_multiset().count(path) == if path.len() >= 5 && media_path(
            path.skip(5),
        ) == Some(path) {
            names.to_multiset().count(path.skip(5))
        } else {
            0
        },
{
    paths_are_ordered();
    names.filter_map(|name: Seq<u8>| media_path(name)).lemma_sort_by_ensures(
        |a: Seq<u8>, b: Seq<u8>| path_le(a, b),
    );
    lemma_found_count(names, path);
}

/// The order in which the file names are listed has no bearing on the media
/// devices found, nor on their order.
pub proof fn listing_order_does_not_matter(names: Seq<Seq<u8>>, others: Seq<Seq<u8>>)
    requires
        names.to_multiset() == others.to_multiset(),
    ensures
        media_paths(names) == media_paths(others),
{
    let le = |a: Seq<u8>, b: Seq<u8>| path_le(a, b);
    let pick = |name: Seq<u8>| media_path(name);
    let a = names.filter_map(pick);
    let b = others.filter_map(pick);
    assert forall|path: Seq<u8>| a.to_multiset().count(path) == b.to_multiset().count(path) by {
        lemma_found_count(names, path);
        lemma_found_count(others, path);
    }
    assert(a.to_multiset() =~= b.to_multiset());
    paths_are_ordered();
    a.lemma_sort_by_ensures(le);
    b.lemma_sort_by_ensures(le);
    seq_lib::lemma_sorted_unique(a.sort_by(le), b.sort_by(le), le);
}

/// The media devices found are those whose names are listed, each in `/dev`,
/// and they come in order.
pub proof fn media_devices_are_listed(names: Seq<Seq<u8>>, path: Seq<u8>)
    ensures
        media_paths(names).contains(path) <==> exists|i: int|
            0 <= i < names.len() && media_path(#[trigger] names[i]) == Some(path),
        forall|i: int, j: int|
            0 <= i < j < media_paths(names).len() ==> path_le(
                #[trigger] media_paths(names)[i],
                #[trigger] media_paths(names)[j],
            ),
{
    let le = |a: Seq<u8>, b: Seq<u8>| path_le(a, b);
    let pick = |name: Seq<u8>| media_path(name);
    let found = names.filter_map(pick);
    let sorted = found.sort_by(le);
    paths_are_ordered();
    found.lemma_sort_by_ensures(le);
    assert forall|i: int, j: int| 0 <= i < j < sorted.len() implies path_le(
        #[trigger] sorted[i],
        #[trigger] sorted[j],
    ) by {
        assert(le(sorted[i], sorted[j]));
    }
    seq_lib::to_multiset_contains(found, path);
    seq_lib::to_multiset_contains(sorted, path);
    lemma_found_count(names, path);
    if sorted.contains(path) {
        seq_lib::to_multiset_contains(names, path.skip(5));
        let i = choose|i: int| 0 <= i < names.len() && names[i] == path.skip(5);
        assert(media_path(names[i]) == Some(path));
    }
    if exists|i: int| 0 <= i < names.len() && media_path(#[trigger] names[i]) == Some(path) {
        let i = choose|i: int| 0 <= i < names.len() && media_path(#[trigger] names[i]) == Some(path);
        assert(path.skip(5) =~= names[i]);
        seq_lib::to_multiset_contains(names, names[i]);
        assert(names.contains(names[i]));
    }
}

/// The text is `media` and a decimal number.
pub open spec fn media_text(name: Seq<char>) -> bool {
    &&& name.len() > 5
    &&& name.take(5) == seq!['m', 'e', 'd', 'i', 'a']
    &&& forall|i: int| 5 <= i < name.len() ==> '0' <= #[trigger] name[i] <= '9'
}

/// The file name of a media device is text, and reads `media` and a decimal
/// number; no other file name does.
pub proof fn media_name_is_text(name: Seq<u8>)
    ensures
        media_name(name) <==> utf8::valid_utf8(name) && media_text(utf8::decode_utf8(name)),
{
    if media_name(name) {
        let chars = name.map_values(|b: u8| b as char);
        assert forall|i: int| 0 <= i < name.len() implies #[trigger] name[i] < 0x80 by {
            if i < 5 {
                assert(name[i] == name.take(5)[i]);
            }
        }
        text::ascii_is_kept(name);
        assert(chars.take(5) =~= seq!['m', 'e', 'd', 'i', 'a']) by {
            let five = name.take(5);
            assert(name[0] == five[0] && name[1] == five[1] && name[2] == five[2] && name[3]
                == five[3] && name[4] == five[4]);
        }
        assert forall|i: int| 5 <= i < chars.len() implies '0' <= #[trigger] chars[i] <= '9' by {
            assert(0x30 <= name[i] <= 0x39);
        }
    }
    if utf8::valid_utf8(name) && media_text(utf8::decode_utf8(name)) {
        let chars = utf8::decode_utf8(name);
        let five = chars.take(5);
        assert(chars[0] == five[0] && chars[1] == five[1] && chars[2] == five[2] && chars[3]
            == five[3] && chars[4] == five[4]);
        assert(utf8::is_ascii_chars(chars)) by {
            assert forall|i: int| 0 <= i < chars.len() implies '\0' <= #[trigger] chars[i]
                <= '\u{7f}' by {
                if i >= 5 {
                    assert('0' <= chars[i] <= '9');
                }
            }
        }
        utf8::decode_utf8_encode_utf8(name);
        utf8::is_ascii_chars_encode_utf8(chars);
        assert forall|i: int| 0 <= i < name.len() implies #[trigger] name[i] == chars[i] as u8 by {}
        assert(name.take(5) =~= media_prefix());
        assert forall|i: int| 5 <= i < name.len() implies 0x30 <= #[trigger] name[i] <= 0x39 by {
            assert('0' <= chars[i] <= '9');
        }
    }
}

/// The major number is made of the bits 8 to 19 and, above them, 44 to 63 of the
/// device number; the minor number of the bits 0 to 7 and, above them, 20 to 43.
pub proof fn device_number_by_bits(dev: u64)
    ensures
        major_of(dev) == (dev / 0x100) % 0x1000 + (dev / 0x1000_0000_0000) * 0x1000,
        minor_of(dev) == dev % 0x100 + ((dev / 0x10_0000) % 0x100_0000) * 0x100,
{
    assert((((dev & 0x0000_0000_000f_ff00) >> 8u64) | ((dev & 0xffff_f000_0000_0000)
        >> 32u64)) as u32 == (dev / 0x100) % 0x1000 + (dev / 0x1000_0000_0000) * 0x1000)
        by (bit_vector);
    assert(((dev & 0x0000_0000_0000_00ff) | ((dev & 0x0000_0fff_fff0_0000) >> 12u64)) as u32
        == dev % 0x100 + ((dev / 0x10_0000) % 0x100_0000) * 0x100) by (bit_vector);
}

/// Every file name `media` with one or more decimal digits behind it is found
/// as often as it is listed, in `/dev/`.
pub proof fn media_device_is_found(names: Seq<Seq<u8>>, digits: Seq<u8>)
    requires
        digits.len() > 0,
        forall|i: int| 0 <= i < digits.len() ==> 0x30 <= #[trigger] digits[i] <= 0x39,
    ensures
        media_paths(names).to_multiset().count(
            seq![0x2fu8, 0x64, 0x65, 0x76, 0x2f, 0x6d, 0x65, 0x64, 0x69, 0x61] + digits,
        ) == names.to_multiset().count(seq![0x6du8, 0x65, 0x64, 0x69, 0x61] + digits),
{
    let name = seq![0x6du8, 0x65, 0x64, 0x69, 0x61] + digits;
    let path = seq![0x2fu8, 0x64, 0x65, 0x76, 0x2f, 0x6d, 0x65, 0x64, 0x69, 0x61] + digits;
    assert(name.take(5) =~= media_prefix());
    assert forall|i: int| 5 <= i < name.len() implies 0x30 <= #[trigger] name[i] <= 0x39 by {
        assert(name[i] == digits[i - 5]);
    }
    assert(path =~= dev_prefix() + name);
    assert(path.skip(5) =~= name);
    lemma_path_count(names, path);
}

/// Nothing else is found: every path is `/dev/media` with one or more decimal
/// digits behind it.
pub proof fn only_media_devices_are_found(names: Seq<Seq<u8>>, k: int)
    requires
        0 <= k < media_paths(names).len(),
    ensures
        media_paths(names)[k].len() > 10,
        media_paths(names)[k].take(10) == seq![
            0x2fu8, 0x64, 0x65, 0x76, 0x2f, 0x6d, 0x65, 0x64, 0x69, 0x61,
        ],
        forall|i: int|
            10 <= i < media_paths(names)[k].len() ==> 0x30 <= #[trigger] media_paths(names)[k][i]
                <= 0x39,
        names.contains(media_paths(names)[k].skip(5)),
{
    let path = media_paths(names)[k];
    media_devices_are_listed(names, path);
    assert(media_paths(names).contains(path));
    let i = choose|i: int| 0 <= i < names.len() && media_path(#[trigger] names[i]) == Some(path);
    let name = names[i];
    assert(path == dev_prefix() + name);
    assert(path.skip(5) =~= name);
    let five = name.take(5);
    assert(name[0] == five[0] && name[1] == five[1] && name[2] == five[2] && name[3] == five[3]
        && name[4] == five[4]);
    assert(path.take(10) =~= seq![
        0x2fu8, 0x64, 0x65, 0x76, 0x2f, 0x6d, 0x65, 0x64, 0x69, 0x61,
    ]);
    assert forall|j: int| 10 <= j < path.len() implies 0x30 <= #[trigger] path[j] <= 0x39 by {
        assert(path[j] == name[j - 5]);
    }
}

proof fn lemma_path_le_at(a: Seq<u8>, b: Seq<u8>) -> (n: int)
    requires
        path_le(a, b),
    ensures
        0 <= n <= a.len(),
        n <= b.len(),
        a.take(n) == b.take(n),
        n < a.len() ==> n < b.len() && a[n] < b[n],
    decreases a.len(),
{
    if a.len() > 0 && a[0] == b[0] {
        let n = 1 + lemma_path_le_at(a.drop_first(), b.drop_first());
        assert(a.take(n) =~= seq![a[0]] + a.drop_first().take(n - 1));
        assert(b.take(n) =~= seq![b[0]] + b.drop_first().take(n - 1));
        n
    } else {
        assert(a.take(0) =~= b.take(0));
        0
    }
}

/// Of two paths found, the one that comes first agrees with the other up to some
/// byte `n`, and there it ends or holds the smaller byte.
pub proof fn media_devices_come_in_byte_order(names: Seq<Seq<u8>>, i: int, j: int) -> (n: int)
    requires
        0 <= i < j < media_paths(names).len(),
    ensures
        ({
            let a = media_paths(names)[i];
            let b = media_paths(names)[j];
            &&& 0 <= n <= a.len()
            &&& n <= b.len()
            &&& a.take(n) == b.take(n)
            &&& n < a.len() ==> n < b.len() && a[n] < b[n]
        }),
{
    media_devices_are_listed(names, media_paths(names)[i]);
    lemma_path_le_at(media_paths(names)[i], media_paths(names)[j])
}

} // verus!
