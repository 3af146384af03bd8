//! The list of networks that a scan finds, and how to join one of them.

use core::cmp::Ordering;
use vstd::prelude::*;
use vstd::utf8::*;

#[allow(unused_imports)]
use crate::text::byte_len;
use crate::text::Text;
use crate::utf8::{decode, same_text};

verus! {

/// Maximum length of an SSID, in bytes.
pub const SSID_MAX: usize = 32;

/// How many networks the portal lists.
pub const MAX_NETWORKS: usize = 24;

/// One scanned network.
pub struct Network {
    pub ssid: Text,
    pub rssi: i16,
}

impl View for Network {
    type V = (Seq<char>, i16);

    open spec fn view(&self) -> (Seq<char>, i16) {
        (self.ssid@, self.rssi)
    }
}

/// What a scan reports of one access point: its SSID in the first `ssid_len` bytes
/// of `ssid`, and its signal strength.
#[derive(Clone, Copy)]
pub struct Beacon {
    pub ssid: [u8; SSID_MAX],
    pub ssid_len: u8,
    pub rssi: i16,
}

/// Up to [`MAX_NETWORKS`] networks, kept in a `heapless` vector.
#[verifier::external_body]
pub struct NetworkList {
    inner: heapless::Vec<Network, MAX_NETWORKS>,
}

/// The names and signal strengths that `list` holds, in order.
pub uninterp spec fn listed(list: NetworkList) -> Seq<(Seq<char>, i16)>;

impl View for NetworkList {
    type V = Seq<(Seq<char>, i16)>;

    open spec fn view(&self) -> Seq<(Seq<char>, i16)> {
        listed(*self)
    }
}

/// Calls `heapless::Vec::new`: an empty vector.
#[verifier::external_body]
fn heapless_new() -> (list: NetworkList)
    ensures
        listed(list) == Seq::<(Seq<char>, i16)>::empty(),
{
    NetworkList { inner: heapless::Vec::new() }
}

/// Calls `push` of a `heapless` vector: appends `network` unless the vector holds as
/// many items as it has room for, which leaves it as it was.
#[verifier::external_body]
fn heapless_push(list: &mut NetworkList, network: Network) -> (fitted: bool)
    ensures
        fitted == (listed(*old(list)).len() < MAX_NETWORKS),
        listed(*final(list)) == (if listed(*old(list)).len() < MAX_NETWORKS {
            listed(*old(list)).push(network@)
        } else {
            listed(*old(list))
        }),
{
    list.inner.push(network).is_ok()
}

/// Calls `as_slice` of a `heapless` vector: its items in order, no more than it has
/// room for.
#[verifier::external_body]
fn heapless_as_slice(list: &NetworkList) -> (items: &[Network])
    ensures
        items@.len() == listed(*list).len(),
        items@.len() <= MAX_NETWORKS,
        forall|i: int| 0 <= i < items@.len() ==> (#[trigger] items@[i])@ == listed(*list)[i],
{
    list.inner.as_slice()
}

/// The names and signal strengths of some networks.
pub open spec fn entries(networks: Seq<Network>) -> Seq<(Seq<char>, i16)> {
    Seq::new(networks.len(), |i: int| networks[i]@)
}

/// Calls `as_mut_slice` of a `heapless` vector: its items in order. What is written to
/// them is what the vector holds afterwards.
#[verifier::external_body]
fn heapless_as_mut_slice(list: &mut NetworkList) -> (items: &mut [Network])
    ensures
        entries(items@) == listed(*old(list)),
        listed(*final(list)) == entries(final(items)@),
{
    list.inner.as_mut_slice()
}

/// Whether the networks are ordered from the strongest signal to the weakest.
pub open spec fn strongest_first(list: Seq<(Seq<char>, i16)>) -> bool {
    forall|i: int, j: int| 0 <= i < j < list.len() ==> list[i].1 >= list[j].1
}

/// Calls `sort_unstable_by` on the slice of a `heapless` vector with
/// [`by_strength`]: the same items, the stronger ones first. The order of items of
/// equal strength is left open.
#[verifier::external_body]
fn heapless_sort(list: &mut NetworkList)
    ensures
        listed(*final(list)).to_multiset() == listed(*old(list)).to_multiset(),
        strongest_first(listed(*final(list))),
{
    list.inner.sort_unstable_by(|a, b| by_strength(a, b));
}

/// The order of two networks: the one with the stronger signal comes first.
fn by_strength(a: &Network, b: &Network) -> (order: Ordering)
    ensures
        order is Less <==> a.rssi > b.rssi,
        order is Greater <==> a.rssi < b.rssi,
{
    if a.rssi > b.rssi {
        Ordering::Less
    } else if a.rssi < b.rssi {
        Ordering::Greater
    } else {
        Ordering::Equal
    }
}

/// The name in a beacon: none where it is hidden (empty) or not valid UTF-8.
pub open spec fn beacon_name(ssid: Seq<u8>, ssid_len: u8) -> Option<Seq<char>> {
    let len = if ssid_len <= SSID_MAX {
        ssid_len as int
    } else {
        SSID_MAX as int
    };
    let raw = ssid.subrange(0, len);
    if len > 0 && valid_utf8(raw) {
        Some(decode_utf8(raw))
    } else {
        None
    }
}

/// The first entry with this name, or the list's length where there is none.
pub open spec fn find_name(list: Seq<(Seq<char>, i16)>, name: Seq<char>) -> int
    decreases list.len(),
{
    if list.len() == 0 || list[0].0 == name {
        0
    } else {
        1 + find_name(list.drop_first(), name)
    }
}

/// The list after a network `name` was seen with strength `rssi`: a known network
/// keeps the stronger signal, a new one is added while there is room.
pub open spec fn seen(list: Seq<(Seq<char>, i16)>, name: Seq<char>, rssi: i16) -> Seq<
    (Seq<char>, i16),
> {
    let i = find_name(list, name);
    if i < list.len() {
        if rssi > list[i].1 {
            list.update(i, (name, rssi))
        } else {
            list
        }
    } else if list.len() < MAX_NETWORKS {
        list.push((name, rssi))
    } else {
        list
    }
}

impl Beacon {
    /// The name in this beacon, if it has one.
    pub open spec fn name(&self) -> Option<Seq<char>> {
        beacon_name(self.ssid@, self.ssid_len)
    }
}

/// The list after one beacon.
pub open spec fn recorded(list: Seq<(Seq<char>, i16)>, beacon: Beacon) -> Seq<(Seq<char>, i16)> {
    match beacon.name() {
        Some(name) => seen(list, name, beacon.rssi),
        None => list,
    }
}

/// Entry `i` is the first with this name if no earlier one has it.
proof fn lemma_find_name(list: Seq<(Seq<char>, i16)>, name: Seq<char>, i: int)
    requires
        0 <= i <= list.len(),
        forall|j: int| 0 <= j < i ==> (#[trigger] list[j]).0 != name,
        i < list.len() ==> list[i].0 == name,
    ensures
        find_name(list, name) == i,
    decreases list.len(),
{
    if i > 0 {
        let rest = list.drop_first();
        assert forall|j: int| 0 <= j < i - 1 implies (#[trigger] rest[j]).0 != name by {
            assert(rest[j] == list[j + 1]);
        }
        lemma_find_name(rest, name, i - 1);
    }
}

impl NetworkList {
    /// A list without networks.
    pub fn new() -> (list: NetworkList)
        ensures
            list@ == Seq::<(Seq<char>, i16)>::empty(),
    {
        heapless_new()
    }

    /// The networks in the list, in order.
    pub fn as_slice(&self) -> (networks: &[Network])
        ensures
            networks@.len() == self@.len() <= MAX_NETWORKS,
            forall|i: int| 0 <= i < networks@.len() ==> (#[trigger] networks@[i])@ == self@[i],
    {
        heapless_as_slice(self)
    }

    /// Take one beacon of a scan into account.
    pub fn record(&mut self, beacon: &Beacon)
        ensures
            final(self)@ == recorded(old(self)@, *beacon),
    {
        let len: usize = if beacon.ssid_len as usize <= SSID_MAX {
            beacon.ssid_len as usize
        } else {
            SSID_MAX
        };
        if len == 0 {
            return ;
        }
        let name: &str = match decode(&beacon.ssid.as_slice()[0..len]) {
            Some(name) => name,
            None => {
                return ;
            },
        };
        let ghost before = self@;
        let networks: &[Network] = self.as_slice();
        let count: usize = networks.len();
        let mut i: usize = 0;
        while i < count && !same_text(networks[i].ssid.as_str(), name)
            invariant
                i <= count,
                count == networks@.len() == before.len(),
                forall|j: int| 0 <= j < count ==> (#[trigger] networks@[j])@ == before[j],
                forall|j: int| 0 <= j < i ==> (#[trigger] before[j]).0 != name@,
            decreases count - i,
        {
            assert(networks@[i as int]@ == before[i as int]);
            i += 1;
        }
        assert(i < count ==> networks@[i as int]@ == before[i as int]);
        proof {
            lemma_find_name(before, name@, i as int);
        }
        if i < count {
            let known: i16 = networks[i].rssi;
            if beacon.rssi > known {
                let items: &mut [Network] = heapless_as_mut_slice(self);
                items[i].rssi = beacon.rssi;
            }
            return ;
        }
        let mut ssid: Text = Text::new::<SSID_MAX>();
        proof {
            decode_utf8_encode_utf8(beacon.ssid@.subrange(0, len as int));
            assert(Seq::<char>::empty() + name@ =~= name@);
        }
        ssid.push_str(name);
        heapless_push(self, Network { ssid, rssi: beacon.rssi });
    }

    /// Order the list from the strongest signal to the weakest.
    pub fn rank(&mut self)
        ensures
            final(self)@.to_multiset() == old(self)@.to_multiset(),
            strongest_first(final(self)@),
    {
        heapless_sort(self)
    }
}

/// The list after a sequence of beacons, before it is ranked.
pub open spec fn scanned(beacons: Seq<Beacon>) -> Seq<(Seq<char>, i16)>
    decreases beacons.len(),
{
    if beacons.len() == 0 {
        seq![]
    } else {
        recorded(scanned(beacons.drop_last()), beacons.last())
    }
}

/// The networks that a scan found: up to [`MAX_NETWORKS`] of them, each once with the
/// strongest signal that was reported of it, and ordered by it.
pub fn scan(beacons: &[Beacon]) -> (list: NetworkList)
    ensures
        list@.to_multiset() == scanned(beacons@).to_multiset(),
        strongest_first(list@),
{
    let mut list: NetworkList = NetworkList::new();
    let mut i: usize = 0;
    assert(beacons@.take(0) =~= seq![]);
    while i < beacons.len()
        invariant
            i <= beacons@.len(),
            list@ == scanned(beacons@.take(i as int)),
        decreases beacons@.len() - i,
    {
        assert(beacons@.take(i + 1).drop_last() =~= beacons@.take(i as int));
        list.record(&beacons[i]);
        i += 1;
    }
    assert(beacons@.take(i as int) =~= beacons@);
    list.rank();
    list
}

/// How to join a network.
#[derive(Clone, Copy, Debug, PartialEq, Eq, Structural)]
pub enum JoinMode {
    /// As an open network.
    Open,
    /// With the password as the passphrase.
    Passphrase,
}

/// How to join with `password`: an empty one means an open network.
pub open spec fn mode_for(password: Seq<char>) -> JoinMode {
    if password.len() == 0 {
        JoinMode::Open
    } else {
        JoinMode::Passphrase
    }
}

/// How to join with `password`: an empty one means an open network.
pub fn join_mode(password: &str) -> (mode: JoinMode)
    ensures
        mode == mode_for(password@),
        mode == (if password@.len() == 0 {
            JoinMode::Open
        } else {
            JoinMode::Passphrase
        }),
{
    if password.is_empty() {
        JoinMode::Open
    } else {
        JoinMode::Passphrase
    }
}

/// What [`find_name`] points at.
proof fn lemma_found(list: Seq<(Seq<char>, i16)>, name: Seq<char>)
    ensures
        0 <= find_name(list, name) <= list.len(),
        find_name(list, name) < list.len() ==> list[find_name(list, name)].0 == name,
        forall|j: int| 0 <= j < find_name(list, name) ==> (#[trigger] list[j]).0 != name,
    decreases list.len(),
{
    if list.len() > 0 {
        let rest = list.drop_first();
        lemma_found(rest, name);
        assert forall|j: int| 0 <= j < find_name(list, name) implies (#[trigger] list[j]).0
            != name by {
            if j > 0 {
                assert(list[j] == rest[j - 1]);
            }
        }
    }
}

/// Whatever a scan reports, no network is listed twice and the list never exceeds
/// its maximum.
pub proof fn law_no_network_twice(beacons: Seq<Beacon>)
    ensures
        scanned(beacons).len() <= MAX_NETWORKS,
        forall|i: int, j: int|
            0 <= i < j < scanned(beacons).len() ==> scanned(beacons)[i].0 != scanned(beacons)[j].0,
    decreases beacons.len(),
{
    if beacons.len() > 0 {
        law_no_network_twice(beacons.drop_last());
        if let Some(name) = beacons.last().name() {
            lemma_found(scanned(beacons.drop_last()), name);
        }
    }
}

/// A listed network has the strongest signal that the scan reported of its name.
pub proof fn law_strongest_signal_kept(beacons: Seq<Beacon>, i: int)
    requires
        0 <= i < scanned(beacons).len(),
    ensures
        forall|k: int|
            0 <= k < beacons.len() && (#[trigger] beacons[k]).name() == Some(
                scanned(beacons)[i].0,
            ) ==> beacons[k].rssi <= scanned(beacons)[i].1,
        exists|k: int|
            0 <= k < beacons.len() && (#[trigger] beacons[k]).name() == Some(
                scanned(beacons)[i].0,
            ) && beacons[k].rssi == scanned(beacons)[i].1,
    decreases beacons.len(),
{
    let past = beacons.drop_last();
    let last = beacons.last();
    let before = scanned(past);
    let now = scanned(beacons);
    let name = now[i].0;
    law_no_network_twice(past);
    law_every_network_listed(past);
    if let Some(seen_name) = last.name() {
        lemma_found(before, seen_name);
    }
    let n = beacons.len() - 1;
    assert(beacons[n] == last);
    if i < before.len() {
        law_strongest_signal_kept(past, i);
        assert(before[i].0 == name);
        assert forall|k: int|
            0 <= k < beacons.len() && (#[trigger] beacons[k]).name() == Some(
                name,
            ) implies beacons[k].rssi <= now[i].1 by {
            if k < n {
                assert(past[k] == beacons[k]);
            } else {
                lemma_find_name_of(before, i);
            }
        }
        let w = choose|k: int|
            0 <= k < past.len() && (#[trigger] past[k]).name() == Some(name) && past[k].rssi
                == before[i].1;
        assert(past[w] == beacons[w]);
        if now[i].1 != before[i].1 {
            assert(beacons[n].name() == Some(name));
        } else {
            assert(beacons[w].name() == Some(name) && beacons[w].rssi == now[i].1);
        }
    } else {
        assert(last.name() == Some(name) && last.rssi == now[i].1);
        assert forall|k: int|
            0 <= k < beacons.len() && (#[trigger] beacons[k]).name() == Some(
                name,
            ) implies beacons[k].rssi <= now[i].1 by {
            if k < n {
                assert(past[k] == beacons[k]);
                assert(past[k].name() == Some(name));
                lemma_found(before, name);
            }
        }
        assert(beacons[n].name() == Some(name) && beacons[n].rssi == now[i].1);
    }
}

/// In a list without duplicates an entry is found by its own name.
proof fn lemma_find_name_of(list: Seq<(Seq<char>, i16)>, i: int)
    requires
        0 <= i < list.len(),
        forall|a: int, b: int| 0 <= a < b < list.len() ==> list[a].0 != list[b].0,
    ensures
        find_name(list, list[i].0) == i,
{
    lemma_find_name(list, list[i].0, i);
}

/// Every network that a scan names is listed, unless the list is full.
pub proof fn law_every_network_listed(beacons: Seq<Beacon>)
    ensures
        forall|k: int|
            0 <= k < beacons.len() ==> match (#[trigger] beacons[k]).name() {
                Some(name) => scanned(beacons).len() == MAX_NETWORKS || find_name(
                    scanned(beacons),
                    name,
                ) < scanned(beacons).len(),
                None => true,
            },
    decreases beacons.len(),
{
    if beacons.len() > 0 {
        let past = beacons.drop_last();
        let before = scanned(past);
        let now = scanned(beacons);
        law_every_network_listed(past);
        law_no_network_twice(past);
        assert forall|k: int| 0 <= k < beacons.len() implies match (#[trigger] beacons[k]).name() {
            Some(name) => now.len() == MAX_NETWORKS || find_name(now, name) < now.len(),
            None => true,
        } by {
            if let Some(name) = beacons[k].name() {
                lemma_found(now, name);
                lemma_found(before, name);
                if let Some(seen_name) = beacons.last().name() {
                    lemma_found(before, seen_name);
                }
                if k < past.len() {
                    assert(past[k] == beacons[k]);
                    let at = find_name(before, name);
                    if at < before.len() {
                        assert(now[at].0 == name);
                    }
                } else {
                    assert(beacons[k] == beacons.last());
                    let at = find_name(before, name);
                    if now.len() < MAX_NETWORKS {
                        assert(now[at].0 == name);
                    }
                }
            }
        }
    }
}

/// Ranking neither adds nor loses a network, and lists none twice that was listed
/// once.
pub proof fn law_ranking_keeps_networks(
    before: Seq<(Seq<char>, i16)>,
    after: Seq<(Seq<char>, i16)>,
)
    requires
        after.to_multiset() == before.to_multiset(),
    ensures
        after.len() == before.len(),
        forall|network: (Seq<char>, i16)| after.contains(network) <==> before.contains(network),
        (forall|i: int, j: int| 0 <= i < j < before.len() ==> before[i].0 != before[j].0) ==> (
        forall|i: int, j: int| 0 <= i < j < after.len() ==> after[i].0 != after[j].0),
{
    before.to_multiset_ensures();
    after.to_multiset_ensures();
    assert forall|network: (Seq<char>, i16)| after.contains(network) <==> before.contains(
        network,
    ) by {
        vstd::seq_lib::to_multiset_contains(after, network);
        vstd::seq_lib::to_multiset_contains(before, network);
    }
    if forall|i: int, j: int| 0 <= i < j < before.len() ==> before[i].0 != before[j].0 {
        assert(before.no_duplicates());
        before.lemma_multiset_has_no_duplicates();
        after.lemma_multiset_has_no_duplicates_conv();
        assert forall|i: int, j: int| 0 <= i < j < after.len() implies after[i].0 != after[j].0 by {
            assert(after.contains(after[i]) && after.contains(after[j]));
            let k = choose|k: int| 0 <= k < before.len() && before[k] == after[i];
            let l = choose|l: int| 0 <= l < before.len() && before[l] == after[j];
            if after[i].0 == after[j].0 {
                assert(before[k].0 == before[l].0);
            }
        }
    }
}

/// What [`scan`] returns keeps all of this: at most [`MAX_NETWORKS`] networks, with names
/// of at most [`SSID_MAX`] bytes, none twice, and each with the strongest signal that was
/// reported of its name.
pub proof fn law_scan_result(beacons: Seq<Beacon>, list: Seq<(Seq<char>, i16)>, i: int)
    requires
        list.to_multiset() == scanned(beacons).to_multiset(),
        0 <= i < list.len(),
    ensures
        list.len() <= MAX_NETWORKS,
        byte_len(list[i].0) <= SSID_MAX,
        forall|j: int| 0 <= j < list.len() && j != i ==> (#[trigger] list[j]).0 != list[i].0,
        forall|k: int|
            0 <= k < beacons.len() && (#[trigger] beacons[k]).name() == Some(list[i].0)
                ==> beacons[k].rssi <= list[i].1,
        exists|k: int|
            0 <= k < beacons.len() && (#[trigger] beacons[k]).name() == Some(list[i].0)
                && beacons[k].rssi == list[i].1,
{
    law_no_network_twice(beacons);
    law_ranking_keeps_networks(scanned(beacons), list);
    assert(list.contains(list[i]));
    let at = choose|at: int| 0 <= at < scanned(beacons).len() && scanned(beacons)[at] == list[i];
    law_strongest_signal_kept(beacons, at);
    let k = choose|k: int|
        0 <= k < beacons.len() && (#[trigger] beacons[k]).name() == Some(list[i].0)
            && beacons[k].rssi == list[i].1;
    let len = if beacons[k].ssid_len <= SSID_MAX {
        beacons[k].ssid_len as int
    } else {
        SSID_MAX as int
    };
    decode_utf8_encode_utf8(beacons[k].ssid@.subrange(0, len));
}

/// Every password but the empty one is used.
pub proof fn law_every_password_is_used(password: Seq<char>)
    ensures
        mode_for(password) is Passphrase <==> password != Seq::<char>::empty(),
{
    if password.len() == 0 {
        assert(password =~= Seq::<char>::empty());
    }
}

// ---- what is listed, beacon by beacon ----

/// Whether the name in a beacon is `name`: its first bytes, as many as the beacon says but
/// no more than a name has room for, are `name` in UTF-8.
pub open spec fn names(beacon: Beacon, name: Seq<char>) -> bool {
    let len = if beacon.ssid_len < 32 {
        beacon.ssid_len as int
    } else {
        32
    };
    name.len() > 0 && beacon.ssid@.take(len) == encode_utf8(name)
}

/// Every name of 1 to 32 bytes in UTF-8 is read, whatever its characters are, and nothing
/// but such a name is.
pub proof fn law_every_name_is_read(beacon: Beacon, name: Seq<char>)
    ensures
        beacon.name() == Some(name) <==> names(beacon, name),
{
    let len = if beacon.ssid_len < 32 {
        beacon.ssid_len as int
    } else {
        32
    };
    let raw = beacon.ssid@.take(len);
    assert(raw =~= beacon.ssid@.subrange(0, len));
    if names(beacon, name) {
        encode_utf8_valid_utf8(name);
        encode_utf8_decode_utf8(name);
        if len == 0 {
            lemma_some_bytes(name);
        }
    }
    if beacon.name() == Some(name) {
        decode_utf8_encode_utf8(raw);
        if name.len() == 0 {
            assert(encode_utf8(name).len() == 0);
        }
    }
}

/// A text with a character takes a byte.
proof fn lemma_some_bytes(name: Seq<char>)
    requires
        name.len() > 0,
    ensures
        encode_utf8(name).len() > 0,
{
    encode_utf8_decode_utf8(name);
    if encode_utf8(name).len() == 0 {
        assert(encode_utf8(name) =~= encode_utf8(seq![]));
        encode_utf8_decode_utf8(seq![]);
    }
}

/// A beacon without a name changes nothing: an empty one, or one that is not UTF-8.
pub proof fn law_nameless_beacons_are_ignored(list: Seq<(Seq<char>, i16)>, beacon: Beacon)
    requires
        forall|name: Seq<char>| !names(beacon, name),
    ensures
        recorded(list, beacon) == list,
{
    if let Some(name) = beacon.name() {
        law_every_name_is_read(beacon, name);
    }
}

/// A beacon of a listed network changes at most that entry, which then has the stronger
/// of the two signals.
pub proof fn law_known_network_keeps_the_stronger_signal(
    list: Seq<(Seq<char>, i16)>,
    beacon: Beacon,
    i: int,
)
    requires
        0 <= i < list.len(),
        names(beacon, list[i].0),
        forall|j: int| 0 <= j < i ==> (#[trigger] list[j]).0 != list[i].0,
    ensures
        recorded(list, beacon).len() == list.len(),
        recorded(list, beacon)[i].0 == list[i].0,
        recorded(list, beacon)[i].1 == (if beacon.rssi >= list[i].1 {
            beacon.rssi
        } else {
            list[i].1
        }),
        forall|j: int| 0 <= j < list.len() && j != i ==> #[trigger] recorded(list, beacon)[j]
            == list[j],
{
    law_every_name_is_read(beacon, list[i].0);
    lemma_find_name(list, list[i].0, i);
}

/// A beacon of a network that is not listed adds it at the end, with its signal, while
/// there is room, and changes nothing else.
pub proof fn law_new_network_is_added(
    list: Seq<(Seq<char>, i16)>,
    beacon: Beacon,
    name: Seq<char>,
)
    requires
        names(beacon, name),
        forall|j: int| 0 <= j < list.len() ==> (#[trigger] list[j]).0 != name,
    ensures
        recorded(list, beacon) == (if list.len() < 24 {
            list.push((name, beacon.rssi))
        } else {
            list
        }),
{
    law_every_name_is_read(beacon, name);
    lemma_find_name(list, name, list.len() as int);
}

/// Every named network is listed unless the list is full, whatever it is called and
/// wherever in the scan it comes, and with a signal that is no weaker than reported.
pub proof fn law_every_named_network_is_listed(beacons: Seq<Beacon>, k: int, name: Seq<char>)
    requires
        0 <= k < beacons.len(),
        names(beacons[k], name),
    ensures
        scanned(beacons).len() == 24 || exists|i: int|
            0 <= i < scanned(beacons).len() && (#[trigger] scanned(beacons)[i]).0 == name
                && scanned(beacons)[i].1 >= beacons[k].rssi,
{
    law_every_name_is_read(beacons[k], name);
    law_every_network_listed(beacons);
    let i = find_name(scanned(beacons), name);
    lemma_found(scanned(beacons), name);
    if scanned(beacons).len() != 24 {
        law_strongest_signal_kept(beacons, i);
        assert(scanned(beacons)[i].0 == name);
    }
}

/// Everything listed was reported: under this name and with this signal.
pub proof fn law_only_reported_networks_are_listed(beacons: Seq<Beacon>, i: int)
    requires
        0 <= i < scanned(beacons).len(),
    ensures
        exists|k: int|
            0 <= k < beacons.len() && names(#[trigger] beacons[k], scanned(beacons)[i].0)
                && beacons[k].rssi == scanned(beacons)[i].1,
{
    law_strongest_signal_kept(beacons, i);
    let name = scanned(beacons)[i].0;
    let k = choose|k: int|
        0 <= k < beacons.len() && (#[trigger] beacons[k]).name() == Some(name) && beacons[k].rssi
            == scanned(beacons)[i].1;
    law_every_name_is_read(beacons[k], name);
    assert(names(beacons[k], name));
}

/// First come, first served: more beacons take no network off the list, and one that is
/// named while there is room stays on it.
pub proof fn law_listed_networks_stay(beacons: Seq<Beacon>, k: int, i: int)
    requires
        0 <= k <= beacons.len(),
        0 <= i < scanned(beacons.take(k)).len(),
    ensures
        i < scanned(beacons).len(),
        scanned(beacons)[i].0 == scanned(beacons.take(k))[i].0,
        scanned(beacons)[i].1 >= scanned(beacons.take(k))[i].1,
    decreases beacons.len() - k,
{
    if k == beacons.len() {
        assert(beacons.take(k) =~= beacons);
    } else {
        let here = scanned(beacons.take(k));
        assert(beacons.take(k + 1).drop_last() =~= beacons.take(k));
        assert(beacons.take(k + 1).last() == beacons[k]);
        if let Some(name) = beacons[k].name() {
            lemma_found(here, name);
        }
        law_listed_networks_stay(beacons, k + 1, i);
    }
}

/// What [`scan`] returns lists every named network, unless it is full.
pub proof fn law_scan_lists_every_network(
    beacons: Seq<Beacon>,
    list: Seq<(Seq<char>, i16)>,
    k: int,
    name: Seq<char>,
)
    requires
        list.to_multiset() == scanned(beacons).to_multiset(),
        0 <= k < beacons.len(),
        names(beacons[k], name),
    ensures
        list.len() == 24 || exists|i: int|
            0 <= i < list.len() && (#[trigger] list[i]).0 == name && list[i].1 >= beacons[k].rssi,
{
    law_every_named_network_is_listed(beacons, k, name);
    law_ranking_keeps_networks(scanned(beacons), list);
    if list.len() != 24 {
        let i = choose|i: int|
            0 <= i < scanned(beacons).len() && (#[trigger] scanned(beacons)[i]).0 == name
                && scanned(beacons)[i].1 >= beacons[k].rssi;
        assert(scanned(beacons).contains(scanned(beacons)[i]));
        assert(list.contains(scanned(beacons)[i]));
        let j = choose|j: int| 0 <= j < list.len() && list[j] == scanned(beacons)[i];
        assert(list[j].0 == name);
    }
}

/// In a ranked list no network stands before a stronger one.
pub proof fn law_stronger_networks_come_first(list: Seq<(Seq<char>, i16)>, i: int, j: int)
    requires
        strongest_first(list),
        0 <= i < list.len(),
        0 <= j < list.len(),
        list[i].1 > list[j].1,
    ensures
        i < j,
{
}

} // verus!
