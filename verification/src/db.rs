//! The presence store and its query projections.
//!
//! The store maps canonical hardware addresses to devices; a device holds
//! the set of stations it is currently associated with and the timestamps
//! of the last event of each kind.  [`Database::witness`] is the single
//! mutating operation; every query is a pure projection of the current
//! content.  All listings are ordered by the natural order of strings, so
//! equal stores always produce equal answers.

use crate::order::{
    insert_sorted, insert_sorted_at, insert_sorted_contains, insert_sorted_keeps_sorted, lex_lt,
    lex_lt_asymmetric, lex_lt_connected, lex_lt_irreflexive, lex_lt_strict_order, remove_one,
    remove_one_absent, remove_one_at, remove_one_contains_other, remove_one_keeps_sorted,
    sorted_by, str_eq, str_lt, strict_order,
};
use crate::parser::{Action, Event, EventView};
use crate::Timestamp;
use vstd::multiset::Multiset;
use vstd::prelude::*;

verus! {

/// One (hostname, interface) pair on which a device was observed.
#[derive(Debug, PartialEq, Eq)]
pub struct Station {
    pub hostname: String,
    pub interface: String,
}

/// The mathematical content of a [`Station`].
pub ghost struct StationView {
    pub hostname: Seq<char>,
    pub interface: Seq<char>,
}

impl View for Station {
    type V = StationView;

    open spec fn view(&self) -> StationView {
        StationView { hostname: self.hostname@, interface: self.interface@ }
    }
}

/// Stations are ordered by hostname, then interface.
pub open spec fn station_lt(a: StationView, b: StationView) -> bool {
    lex_lt(a.hostname, b.hostname) || (a.hostname == b.hostname && lex_lt(
        a.interface,
        b.interface,
    ))
}

/// The station order as one shared function value.
pub open spec fn station_order() -> spec_fn(StationView, StationView) -> bool {
    |a: StationView, b: StationView| station_lt(a, b)
}

pub proof fn station_lt_strict_order()
    ensures
        strict_order(station_order()),
{
    let lt = station_order();
    assert forall|a: StationView| !(#[trigger] lt(a, a)) by {
        lex_lt_irreflexive(a.hostname);
        lex_lt_irreflexive(a.interface);
    }
    assert forall|a: StationView, b: StationView, c: StationView|
        #[trigger] lt(a, b) && #[trigger] lt(b, c) implies lt(a, c) by {
        lex_lt_transitive_all(a.hostname, b.hostname, c.hostname);
        lex_lt_transitive_all(a.interface, b.interface, c.interface);
        lex_lt_asymmetric(a.hostname, b.hostname);
    }
    assert forall|a: StationView, b: StationView| a != b implies #[trigger] lt(a, b) || lt(b, a) by {
        lex_lt_connected(a.hostname, b.hostname);
        lex_lt_connected(a.interface, b.interface);
    }
}

proof fn lex_lt_transitive_all(a: Seq<char>, b: Seq<char>, c: Seq<char>)
    ensures
        lex_lt(a, b) && lex_lt(b, c) ==> lex_lt(a, c),
{
    crate::order::lex_lt_transitive(a, b, c);
}

/// One device: where it currently is, and when it was last seen.
struct Device {
    stations: Vec<Station>,
    last_associated: Option<Timestamp>,
    last_disassociated: Option<Timestamp>,
    last_observed: Option<Timestamp>,
}

/// The mathematical content of a device: its stations in ascending order,
/// and the last-event timestamps.
pub ghost struct DeviceView {
    pub stations: Seq<StationView>,
    pub last_associated: Option<Timestamp>,
    pub last_disassociated: Option<Timestamp>,
    pub last_observed: Option<Timestamp>,
}

impl View for Device {
    type V = DeviceView;

    closed spec fn view(&self) -> DeviceView {
        DeviceView {
            stations: self.stations@.map_values(|s: Station| s@),
            last_associated: self.last_associated,
            last_disassociated: self.last_disassociated,
            last_observed: self.last_observed,
        }
    }
}

/// A device's stations are strictly ascending: a set, in a canonical order.
pub open spec fn device_inv(d: DeviceView) -> bool {
    sorted_by(d.stations, station_order())
}

/// A device that has never been seen anywhere.
pub open spec fn empty_device() -> DeviceView {
    DeviceView {
        stations: Seq::empty(),
        last_associated: None,
        last_disassociated: None,
        last_observed: None,
    }
}

/// One keyed entry of the store.
struct DevEntry {
    mac: String,
    device: Device,
}

/// The mathematical content of an entry.
pub ghost struct EntryView {
    pub mac: Seq<char>,
    pub device: DeviceView,
}

impl View for DevEntry {
    type V = EntryView;

    closed spec fn view(&self) -> EntryView {
        EntryView { mac: self.mac@, device: self.device@ }
    }
}

/// The entry sequence of the store's vector.
spec fn entry_views(v: Seq<DevEntry>) -> Seq<EntryView> {
    v.map_values(|e: DevEntry| e@)
}

/// The mathematical content of the whole store: entries in ascending key
/// order, and the timestamp of the most recent event of any kind.
pub ghost struct StoreModel {
    pub devices: Seq<EntryView>,
    pub last_event_timestamp: Option<Timestamp>,
}

/// Entries are ordered by their key.
pub open spec fn entry_lt(a: EntryView, b: EntryView) -> bool {
    lex_lt(a.mac, b.mac)
}

/// The entry order as one shared function value.
pub open spec fn entry_order() -> spec_fn(EntryView, EntryView) -> bool {
    |a: EntryView, b: EntryView| entry_lt(a, b)
}

/// The store's invariant: keys strictly ascending, every device well formed.
pub open spec fn store_inv(m: StoreModel) -> bool {
    &&& sorted_by(m.devices, entry_order())
    &&& forall|i: int| 0 <= i < m.devices.len() ==> device_inv((#[trigger] m.devices[i]).device)
}

/// The device recorded under a key, if any.
pub open spec fn lookup(devs: Seq<EntryView>, mac: Seq<char>) -> Option<DeviceView>
    decreases devs.len(),
{
    if devs.len() == 0 {
        None
    } else if devs[0].mac == mac {
        Some(devs[0].device)
    } else {
        lookup(devs.drop_first(), mac)
    }
}

/// What one event does to the device it names.
pub open spec fn apply_action(d: DeviceView, ev: EventView) -> DeviceView {
    let st = StationView { hostname: ev.hostname, interface: ev.interface };
    let lt = station_order();
    match ev.action {
        Action::Associated => DeviceView {
            stations: insert_sorted(d.stations, st, lt),
            last_associated: Some(ev.timestamp),
            ..d
        },
        Action::Observed => DeviceView {
            stations: insert_sorted(d.stations, st, lt),
            last_observed: Some(ev.timestamp),
            ..d
        },
        Action::Disassociated => DeviceView {
            stations: remove_one(d.stations, st),
            last_disassociated: Some(ev.timestamp),
            ..d
        },
    }
}

/// Apply an event to the entry sequence: update the named device in place,
/// or create it — lazily, with empty defaults — at its ordered position.
pub open spec fn upsert(devs: Seq<EntryView>, ev: EventView) -> Seq<EntryView>
    decreases devs.len(),
{
    if devs.len() == 0 {
        seq![EntryView { mac: ev.mac, device: apply_action(empty_device(), ev) }]
    } else if devs[0].mac == ev.mac {
        seq![EntryView { mac: ev.mac, device: apply_action(devs[0].device, ev) }]
            + devs.drop_first()
    } else if lex_lt(ev.mac, devs[0].mac) {
        seq![EntryView { mac: ev.mac, device: apply_action(empty_device(), ev) }] + devs
    } else {
        seq![devs[0]] + upsert(devs.drop_first(), ev)
    }
}

/// What [`Database::witness`] does, stated over the model.
pub open spec fn witness_model(m: StoreModel, ev: EventView) -> StoreModel {
    StoreModel { devices: upsert(m.devices, ev), last_event_timestamp: Some(ev.timestamp) }
}

/// In a sorted sequence, a key below the head is absent.
proof fn lookup_below(devs: Seq<EntryView>, x: Seq<char>)
    requires
        sorted_by(devs, entry_order()),
        devs.len() > 0 ==> lex_lt(x, devs[0].mac),
    ensures
        lookup(devs, x) is None,
    decreases devs.len(),
{
    if devs.len() > 0 {
        lex_lt_irreflexive(x);
        assert(devs[0].mac != x);
        crate::order::sorted_by_drop_first(devs, entry_order());
        let d = devs.drop_first();
        if d.len() > 0 {
            assert(entry_lt(devs[0], devs[1]));
            assert(d[0] == devs[1]);
            crate::order::lex_lt_transitive(x, devs[0].mac, d[0].mac);
        }
        lookup_below(d, x);
    }
}

/// An upsert changes the lookup of the named key exactly as the event says,
/// and no other.
pub proof fn upsert_lookup(devs: Seq<EntryView>, ev: EventView, x: Seq<char>)
    requires
        sorted_by(devs, entry_order()),
    ensures
        lookup(upsert(devs, ev), x) == if x == ev.mac {
            Some(
                apply_action(
                    match lookup(devs, ev.mac) {
                        Some(d) => d,
                        None => empty_device(),
                    },
                    ev,
                ),
            )
        } else {
            lookup(devs, x)
        },
    decreases devs.len(),
{
    reveal_with_fuel(lookup, 3);
    let r = upsert(devs, ev);
    let target = if x == ev.mac {
        Some(
            apply_action(
                match lookup(devs, ev.mac) {
                    Some(d) => d,
                    None => empty_device(),
                },
                ev,
            ),
        )
    } else {
        lookup(devs, x)
    };
    if devs.len() == 0 {
        assert(r[0] == EntryView { mac: ev.mac, device: apply_action(empty_device(), ev) });
        assert(r.drop_first() =~= Seq::<EntryView>::empty());
        assert(lookup(r, x) == target);
    } else if devs[0].mac == ev.mac {
        assert(r[0] == EntryView { mac: ev.mac, device: apply_action(devs[0].device, ev) });
        assert(r.drop_first() =~= devs.drop_first());
        if x != ev.mac {
            crate::order::sorted_by_drop_first(devs, entry_order());
        }
        assert(lookup(r, x) == target);
    } else if lex_lt(ev.mac, devs[0].mac) {
        assert(r[0] == EntryView { mac: ev.mac, device: apply_action(empty_device(), ev) });
        assert(r.drop_first() =~= devs);
        lex_lt_irreflexive(ev.mac);
        lookup_below(devs, ev.mac);
        assert(lookup(r, x) == target);
    } else {
        crate::order::sorted_by_drop_first(devs, entry_order());
        upsert_lookup(devs.drop_first(), ev, x);
        assert(r[0] == devs[0]);
        assert(r.drop_first() =~= upsert(devs.drop_first(), ev));
        assert(lookup(r, x) == target);
    }
}

/// Every entry of an upsert result carries either an old key or the new one.
proof fn upsert_macs(devs: Seq<EntryView>, ev: EventView, i: int)
    requires
        0 <= i < upsert(devs, ev).len(),
    ensures
        upsert(devs, ev)[i].mac == ev.mac || exists|j: int|
            0 <= j < devs.len() && (#[trigger] devs[j]).mac == upsert(devs, ev)[i].mac,
    decreases devs.len(),
{
    let r = upsert(devs, ev);
    if devs.len() == 0 {
    } else if devs[0].mac == ev.mac {
        if i > 0 {
            assert(r[i] == devs.drop_first()[i - 1]);
            assert(devs[i] == r[i]);
        }
    } else if lex_lt(ev.mac, devs[0].mac) {
        if i > 0 {
            assert(r[i] == devs[i - 1]);
        }
    } else {
        if i == 0 {
            assert(r[0] == devs[0]);
        } else {
            assert(r[i] == upsert(devs.drop_first(), ev)[i - 1]);
            upsert_macs(devs.drop_first(), ev, i - 1);
            let rr = upsert(devs.drop_first(), ev);
            if rr[i - 1].mac != ev.mac {
                let j = choose|j: int|
                    0 <= j < devs.drop_first().len() && (#[trigger] devs.drop_first()[j]).mac
                        == rr[i - 1].mac;
                assert(devs[j + 1].mac == r[i].mac);
            }
        }
    }
}

/// Witnessing keeps the store well formed.
pub proof fn witness_model_keeps_inv(m: StoreModel, ev: EventView)
    requires
        store_inv(m),
    ensures
        store_inv(witness_model(m, ev)),
{
    upsert_keeps_inv(m.devices, ev);
}

proof fn upsert_keeps_inv(devs: Seq<EntryView>, ev: EventView)
    requires
        sorted_by(devs, entry_order()),
        forall|i: int| 0 <= i < devs.len() ==> device_inv((#[trigger] devs[i]).device),
    ensures
        sorted_by(upsert(devs, ev), entry_order()),
        forall|i: int|
            0 <= i < upsert(devs, ev).len() ==> device_inv((#[trigger] upsert(devs, ev)[i]).device),
    decreases devs.len(),
{
    let r = upsert(devs, ev);
    if devs.len() == 0 {
        apply_action_keeps_inv(empty_device(), ev);
        assert(r[0].device == apply_action(empty_device(), ev));
    } else if devs[0].mac == ev.mac {
        apply_action_keeps_inv(devs[0].device, ev);
        assert forall|a: int, b: int| 0 <= a < b < r.len() implies entry_lt(r[a], r[b]) by {
            assert(r[0].mac == devs[0].mac);
            if a > 0 {
                assert(r[a] == devs[a]);
            }
            assert(r[b] == devs[b]);
        }
        assert forall|i: int| 0 <= i < r.len() implies device_inv((#[trigger] r[i]).device) by {
            if i > 0 {
                assert(r[i] == devs[i]);
            }
        }
    } else if lex_lt(ev.mac, devs[0].mac) {
        apply_action_keeps_inv(empty_device(), ev);
        assert forall|a: int, b: int| 0 <= a < b < r.len() implies entry_lt(r[a], r[b]) by {
            if a > 0 {
                assert(r[a] == devs[a - 1]);
            }
            assert(r[b] == devs[b - 1]);
            if a == 0 && b > 1 {
                assert(entry_lt(devs[0], devs[b - 1]));
                crate::order::lex_lt_transitive(ev.mac, devs[0].mac, devs[b - 1].mac);
            }
        }
        assert forall|i: int| 0 <= i < r.len() implies device_inv((#[trigger] r[i]).device) by {
            if i > 0 {
                assert(r[i] == devs[i - 1]);
            }
        }
    } else {
        lex_lt_connected(ev.mac, devs[0].mac);
        assert(lex_lt(devs[0].mac, ev.mac));
        crate::order::sorted_by_drop_first(devs, entry_order());
        upsert_keeps_inv(devs.drop_first(), ev);
        let rr = upsert(devs.drop_first(), ev);
        assert forall|a: int, b: int| 0 <= a < b < r.len() implies entry_lt(r[a], r[b]) by {
            if a > 0 {
                assert(r[a] == rr[a - 1]);
            }
            assert(r[b] == rr[b - 1]);
            if a == 0 {
                assert(r[0] == devs[0]);
                upsert_macs(devs.drop_first(), ev, b - 1);
                if rr[b - 1].mac == ev.mac {
                } else {
                    let j = choose|j: int|
                        0 <= j < devs.drop_first().len() && (#[trigger] devs.drop_first()[j]).mac
                            == rr[b - 1].mac;
                    assert(devs[j + 1] == devs.drop_first()[j]);
                    assert(entry_lt(devs[0], devs[j + 1]));
                }
            }
        }
        assert forall|i: int| 0 <= i < r.len() implies device_inv((#[trigger] r[i]).device) by {
            if i == 0 {
                assert(r[0] == devs[0]);
            } else {
                assert(r[i] == rr[i - 1]);
            }
        }
    }
}

/// Where the scan of a sorted entry sequence stops is where the upsert acts.
proof fn upsert_at(devs: Seq<EntryView>, ev: EventView, j: int)
    requires
        sorted_by(devs, entry_order()),
        0 <= j <= devs.len(),
        forall|i: int| 0 <= i < j ==> lex_lt((#[trigger] devs[i]).mac, ev.mac),
        j < devs.len() ==> !lex_lt(devs[j].mac, ev.mac),
    ensures
        j < devs.len() && devs[j].mac == ev.mac ==> upsert(devs, ev) == devs.update(
            j,
            EntryView { mac: ev.mac, device: apply_action(devs[j].device, ev) },
        ),
        !(j < devs.len() && devs[j].mac == ev.mac) ==> upsert(devs, ev) == devs.take(j) + seq![
            EntryView { mac: ev.mac, device: apply_action(empty_device(), ev) },
        ] + devs.skip(j),
    decreases devs.len(),
{
    let r = upsert(devs, ev);
    if devs.len() == 0 {
        assert(r =~= devs.take(0) + seq![
            EntryView { mac: ev.mac, device: apply_action(empty_device(), ev) },
        ] + devs.skip(0));
    } else if j == 0 {
        if devs[0].mac == ev.mac {
            assert(r =~= devs.update(
                0,
                EntryView { mac: ev.mac, device: apply_action(devs[0].device, ev) },
            ));
        } else {
            assert(lex_lt(ev.mac, devs[0].mac)) by {
                lex_lt_connected(ev.mac, devs[0].mac);
            }
            assert(r =~= devs.take(0) + seq![
                EntryView { mac: ev.mac, device: apply_action(empty_device(), ev) },
            ] + devs.skip(0));
        }
    } else {
        assert(lex_lt(devs[0].mac, ev.mac));
        assert(devs[0].mac != ev.mac) by {
            lex_lt_irreflexive(devs[0].mac);
        }
        assert(!lex_lt(ev.mac, devs[0].mac)) by {
            lex_lt_asymmetric(devs[0].mac, ev.mac);
        }
        let d = devs.drop_first();
        assert forall|i: int| 0 <= i < j - 1 implies lex_lt((#[trigger] d[i]).mac, ev.mac) by {
            assert(d[i] == devs[i + 1]);
        }
        crate::order::sorted_by_drop_first(devs, entry_order());
        if j - 1 < d.len() {
            assert(d[j - 1] == devs[j]);
        }
        upsert_at(d, ev, j - 1);
        if j < devs.len() && devs[j].mac == ev.mac {
            assert(r =~= devs.update(
                j,
                EntryView { mac: ev.mac, device: apply_action(devs[j].device, ev) },
            ));
        } else {
            assert(r =~= devs.take(j) + seq![
                EntryView { mac: ev.mac, device: apply_action(empty_device(), ev) },
            ] + devs.skip(j));
        }
    }
}

/// The store: the single authoritative, mutable index.
///
/// `last_event_timestamp` is the timestamp of the most recent witnessed
/// event of any kind; the surrounding process reads it to detect staleness
/// of the input stream.
pub struct Database {
    devices: Vec<DevEntry>,
    pub last_event_timestamp: Option<Timestamp>,
}

impl View for Database {
    type V = StoreModel;

    closed spec fn view(&self) -> StoreModel {
        StoreModel {
            devices: self.devices@.map_values(|e: DevEntry| e@),
            last_event_timestamp: self.last_event_timestamp,
        }
    }
}

impl Database {
    /// The store is well formed; established by [`Database::new`] and kept
    /// by [`Database::witness`].
    pub open spec fn wf(self) -> bool {
        store_inv(self@)
    }

    /// A fresh, empty store.
    pub fn new() -> (r: Database)
        ensures
            r.wf(),
            r@.devices == Seq::<EntryView>::empty(),
            r@.last_event_timestamp is None,
    {
        let r = Database { devices: Vec::new(), last_event_timestamp: None };
        proof {
            assert(r@.devices =~= Seq::<EntryView>::empty());
        }
        r
    }

    /// Apply one event: update `last_event_timestamp` unconditionally, and
    /// the named device — created empty on first sight — as the action
    /// says.  Total: there is no failure case.
    pub fn witness(&mut self, ev: Event)
        requires
            old(self).wf(),
        ensures
            final(self).wf(),
            final(self)@ == witness_model(old(self)@, ev@),
    {
        let ghost m0 = self@;
        let ghost evv = ev@;
        let Event { timestamp, hostname, interface, mac, action } = ev;
        let station = Station { hostname, interface };
        self.last_event_timestamp = Some(timestamp);
        let n = self.devices.len();
        let mut j: usize = 0;
        while j < n && str_lt(self.devices[j].mac.as_str(), mac.as_str())
            invariant
                n == self.devices.len(),
                m0.devices == self.devices@.map_values(|e: DevEntry| e@),
                j <= n,
                forall|i: int|
                    0 <= i < j ==> lex_lt((#[trigger] m0.devices[i]).mac, mac@),
            decreases n - j,
        {
            proof {
                assert(m0.devices[j as int] == self.devices@[j as int]@);
            }
            j = j + 1;
        }
        proof {
            assert(forall|i: int|
                0 <= i < m0.devices.len() ==> #[trigger] m0.devices[i]
                    == self.devices@.map_values(|e: DevEntry| e@)[i]);
            if j < n {
                assert(m0.devices[j as int] == self.devices@[j as int]@);
                assert(!lex_lt(m0.devices[j as int].mac, mac@));
            }
        }
        let found = j < n && str_eq(self.devices[j].mac.as_str(), mac.as_str());
        proof {
            upsert_at(m0.devices, evv, j as int);
        }
        if found {
            let entry = self.devices.remove(j);
            let device = apply_event(entry.device, action, timestamp, station);
            let mac_key = entry.mac;
            self.devices.insert(j, DevEntry { mac: mac_key, device });
            proof {
                let after = self.devices@.map_values(|e: DevEntry| e@);
                assert(after =~= m0.devices.update(
                    j as int,
                    EntryView { mac: evv.mac, device: apply_action(m0.devices[j as int].device, evv) },
                ));
                assert(self@.devices == upsert(m0.devices, evv));
                witness_keeps_inv_update(m0.devices, evv, j as int);
                assert(self@.last_event_timestamp == Some(evv.timestamp));
                assert(self@ == witness_model(m0, evv));
            }
        } else {
            let empty_vec: Vec<Station> = Vec::new();
            proof {
                assert(empty_vec@.map_values(|s: Station| s@) =~= Seq::<StationView>::empty());
            }
            let fresh = Device {
                stations: empty_vec,
                last_associated: None,
                last_disassociated: None,
                last_observed: None,
            };
            proof {
                assert(fresh@ == empty_device());
            }
            let device = apply_event(fresh, action, timestamp, station);
            self.devices.insert(j, DevEntry { mac, device });
            proof {
                let after = self.devices@.map_values(|e: DevEntry| e@);
                assert(after =~= m0.devices.take(j as int) + seq![
                    EntryView { mac: evv.mac, device: apply_action(empty_device(), evv) },
                ] + m0.devices.skip(j as int));
                assert(self@.devices == upsert(m0.devices, evv));
                witness_keeps_inv_insert(m0.devices, evv, j as int);
                assert(self@.last_event_timestamp == Some(evv.timestamp));
                assert(self@ == witness_model(m0, evv));
            }
        }
    }
}

/// The invariant survives an in-place update of the matched entry.
proof fn witness_keeps_inv_update(devs: Seq<EntryView>, ev: EventView, j: int)
    requires
        sorted_by(devs, entry_order()),
        forall|i: int| 0 <= i < devs.len() ==> device_inv((#[trigger] devs[i]).device),
        0 <= j < devs.len(),
        devs[j].mac == ev.mac,
    ensures
        ({
            let after = devs.update(
                j,
                EntryView { mac: ev.mac, device: apply_action(devs[j].device, ev) },
            );
            sorted_by(after, entry_order()) && forall|i: int|
                0 <= i < after.len() ==> device_inv((#[trigger] after[i]).device)
        }),
{
    let after = devs.update(j, EntryView { mac: ev.mac, device: apply_action(devs[j].device, ev) });
    apply_action_keeps_inv(devs[j].device, ev);
    assert forall|a: int, b: int| 0 <= a < b < after.len() implies entry_lt(after[a], after[b]) by {
        assert(after[a].mac == devs[a].mac && after[b].mac == devs[b].mac);
    }
}

/// The invariant survives inserting a fresh entry at its ordered position.
proof fn witness_keeps_inv_insert(devs: Seq<EntryView>, ev: EventView, j: int)
    requires
        sorted_by(devs, entry_order()),
        forall|i: int| 0 <= i < devs.len() ==> device_inv((#[trigger] devs[i]).device),
        0 <= j <= devs.len(),
        forall|i: int| 0 <= i < j ==> lex_lt((#[trigger] devs[i]).mac, ev.mac),
        j < devs.len() ==> !lex_lt(devs[j].mac, ev.mac) && devs[j].mac != ev.mac,
    ensures
        ({
            let after = devs.take(j) + seq![
                EntryView { mac: ev.mac, device: apply_action(empty_device(), ev) },
            ] + devs.skip(j);
            sorted_by(after, entry_order()) && forall|i: int|
                0 <= i < after.len() ==> device_inv((#[trigger] after[i]).device)
        }),
{
    let e = EntryView { mac: ev.mac, device: apply_action(empty_device(), ev) };
    let after = devs.take(j) + seq![e] + devs.skip(j);
    apply_action_keeps_inv(empty_device(), ev);
    if j < devs.len() {
        lex_lt_connected(devs[j].mac, ev.mac);
    }
    assert forall|a: int, b: int| 0 <= a < b < after.len() implies entry_lt(after[a], after[b]) by {
        if a < j {
            assert(after[a] == devs[a]);
        } else if a == j {
            assert(after[a] == e);
        } else {
            assert(after[a] == devs[a - 1]);
        }
        if b < j {
            assert(after[b] == devs[b]);
        } else if b == j {
            assert(after[b] == e);
        } else {
            assert(after[b] == devs[b - 1]);
        }
        if a < j && b == j {
            assert(lex_lt(devs[a].mac, ev.mac));
        } else if a == j && b > j {
            lex_lt_connected(ev.mac, devs[j].mac);
            assert(lex_lt(ev.mac, devs[j].mac));
            if b - 1 > j {
                assert(entry_lt(devs[j], devs[b - 1]));
                crate::order::lex_lt_transitive(ev.mac, devs[j].mac, devs[b - 1].mac);
            }
        }
    }
    assert forall|i: int| 0 <= i < after.len() implies device_inv((#[trigger] after[i]).device) by {
        if i < j {
            assert(after[i] == devs[i]);
        } else if i == j {
            assert(after[i] == e);
        } else {
            assert(after[i] == devs[i - 1]);
        }
    }
}

/// Applying an action keeps the device's stations sorted.
proof fn apply_action_keeps_inv(d: DeviceView, ev: EventView)
    requires
        device_inv(d),
    ensures
        device_inv(apply_action(d, ev)),
{
    let st = StationView { hostname: ev.hostname, interface: ev.interface };
    let lt = |a: StationView, b: StationView| station_lt(a, b);
    station_lt_strict_order();
    match ev.action {
        Action::Associated => insert_sorted_keeps_sorted(d.stations, st, lt),
        Action::Observed => insert_sorted_keeps_sorted(d.stations, st, lt),
        Action::Disassociated => remove_one_keeps_sorted(d.stations, st, lt),
    }
}

/// Update one device as the action says: insert or remove the station,
/// overwrite the matching timestamp.
fn apply_event(d: Device, action: Action, timestamp: Timestamp, station: Station) -> (r: Device)
    requires
        device_inv(d@),
    ensures
        r@ == apply_action(
            d@,
            EventView {
                timestamp,
                hostname: station@.hostname,
                interface: station@.interface,
                mac: Seq::empty(),
                action,
            },
        ),
        device_inv(r@),
{
    let ghost dv = d@;
    let ghost evv = EventView {
        timestamp,
        hostname: station@.hostname,
        interface: station@.interface,
        mac: Seq::empty(),
        action,
    };
    proof {
        apply_action_keeps_inv(dv, evv);
    }
    let Device { mut stations, last_associated, last_disassociated, last_observed } = d;
    match action {
        Action::Associated => {
            insert_station(&mut stations, station);
            Device {
                stations,
                last_associated: Some(timestamp),
                last_disassociated,
                last_observed,
            }
        },
        Action::Observed => {
            insert_station(&mut stations, station);
            Device {
                stations,
                last_associated,
                last_disassociated,
                last_observed: Some(timestamp),
            }
        },
        Action::Disassociated => {
            remove_station(&mut stations, &station);
            Device {
                stations,
                last_associated,
                last_disassociated: Some(timestamp),
                last_observed,
            }
        },
    }
}

fn station_lt_exec(a: &Station, b: &Station) -> (r: bool)
    ensures
        r == station_lt(a@, b@),
{
    if str_lt(a.hostname.as_str(), b.hostname.as_str()) {
        true
    } else if str_eq(a.hostname.as_str(), b.hostname.as_str()) {
        str_lt(a.interface.as_str(), b.interface.as_str())
    } else {
        false
    }
}

fn station_eq_exec(a: &Station, b: &Station) -> (r: bool)
    ensures
        r == (a@ == b@),
{
    str_eq(a.hostname.as_str(), b.hostname.as_str()) && str_eq(
        a.interface.as_str(),
        b.interface.as_str(),
    )
}

/// The station sequence of a vector of stations.
pub open spec fn station_views(v: Seq<Station>) -> Seq<StationView> {
    v.map_values(|s: Station| s@)
}

/// Insert a station into a sorted vector, keeping it sorted and duplicate
/// free.
fn insert_station(stations: &mut Vec<Station>, st: Station)
    requires
        sorted_by(station_views(old(stations)@), station_order()),
    ensures
        station_views(final(stations)@) == insert_sorted(
            station_views(old(stations)@),
            st@,
            station_order(),
        ),
{
    let ghost s0 = station_views(stations@);
    proof {
        station_lt_strict_order();
    }
    let n = stations.len();
    let mut j: usize = 0;
    while j < n && station_lt_exec(&stations[j], &st)
        invariant
            n == stations.len(),
            s0 == station_views(stations@),
            j <= n,
            forall|i: int| 0 <= i < j ==> station_lt(#[trigger] s0[i], st@),
        decreases n - j,
    {
        proof {
            assert(s0[j as int] == stations@[j as int]@);
        }
        j = j + 1;
    }
    proof {
        if j < n {
            assert(s0[j as int] == stations@[j as int]@);
        }
    }
    if j < n && station_eq_exec(&stations[j], &st) {
        proof {
            insert_sorted_at(s0, st@, station_order(), j as int);
        }
        return ;
    }
    proof {
        insert_sorted_at(s0, st@, station_order(), j as int);
    }
    stations.insert(j, st);
    proof {
        assert(station_views(stations@) =~= s0.take(j as int) + seq![st@] + s0.skip(j as int));
    }
}

/// Remove a station — matched by exact (hostname, interface) equality —
/// from the vector; a no-op when absent.
fn remove_station(stations: &mut Vec<Station>, st: &Station)
    ensures
        station_views(final(stations)@) == remove_one(station_views(old(stations)@), st@),
{
    let ghost s0 = station_views(stations@);
    let n = stations.len();
    let mut j: usize = 0;
    while j < n && !station_eq_exec(&stations[j], st)
        invariant
            n == stations.len(),
            s0 == station_views(stations@),
            j <= n,
            forall|i: int| 0 <= i < j ==> #[trigger] s0[i] != st@,
        decreases n - j,
    {
        proof {
            assert(s0[j as int] == stations@[j as int]@);
        }
        j = j + 1;
    }
    if j < n {
        proof {
            assert(s0[j as int] == stations@[j as int]@);
            remove_one_at(s0, st@, j as int);
        }
        stations.remove(j);
        proof {
            assert(station_views(stations@) =~= s0.take(j as int) + s0.skip(j as int + 1));
        }
    } else {
        proof {
            remove_one_absent(s0, st@);
        }
    }
}

/// Selecting devices by where their current stations are.
pub enum StationQuery {
    Hostname(String),
    Interface(String),
    HostnameInterface(String, String),
}

/// The filters of [`Database::device_list`].
pub enum DeviceQuery {
    All,
    Online,
    Offline,
    Station(StationQuery),
}

/// One row of a device listing: the device's key, fields and a computed
/// `online` flag, all copied out of the store.
#[derive(Debug, PartialEq, Eq)]
pub struct DeviceListItem {
    pub mac: String,
    pub access_points: Vec<String>,
    pub stations: Vec<Station>,
    pub last_associated: Option<Timestamp>,
    pub last_disassociated: Option<Timestamp>,
    pub last_observed: Option<Timestamp>,
    pub online: bool,
}

/// The mathematical content of a [`DeviceListItem`].
pub ghost struct ListItemView {
    pub mac: Seq<char>,
    pub access_points: Seq<Seq<char>>,
    pub stations: Seq<StationView>,
    pub last_associated: Option<Timestamp>,
    pub last_disassociated: Option<Timestamp>,
    pub last_observed: Option<Timestamp>,
    pub online: bool,
}

impl View for DeviceListItem {
    type V = ListItemView;

    open spec fn view(&self) -> ListItemView {
        ListItemView {
            mac: self.mac@,
            access_points: self.access_points@.map_values(|h: String| h@),
            stations: self.stations@.map_values(|s: Station| s@),
            last_associated: self.last_associated,
            last_disassociated: self.last_disassociated,
            last_observed: self.last_observed,
            online: self.online,
        }
    }
}

/// One row of a grouped projection: the device's key and timestamps, the
/// station set left out as redundant with the grouping key.
#[derive(Debug, PartialEq, Eq)]
pub struct DeviceMapItem {
    pub mac: String,
    pub last_associated: Option<Timestamp>,
    pub last_disassociated: Option<Timestamp>,
    pub last_observed: Option<Timestamp>,
}

/// The mathematical content of a [`DeviceMapItem`].
pub ghost struct MapItemView {
    pub mac: Seq<char>,
    pub last_associated: Option<Timestamp>,
    pub last_disassociated: Option<Timestamp>,
    pub last_observed: Option<Timestamp>,
}

impl View for DeviceMapItem {
    type V = MapItemView;

    open spec fn view(&self) -> MapItemView {
        MapItemView {
            mac: self.mac@,
            last_associated: self.last_associated,
            last_disassociated: self.last_disassociated,
            last_observed: self.last_observed,
        }
    }
}

/// A station at the given hostname.
pub open spec fn host_pred(h: Seq<char>) -> spec_fn(StationView) -> bool {
    |st: StationView| st.hostname == h
}

/// Exactly the given station.
pub open spec fn exact_pred(h: Seq<char>, ifc: Seq<char>) -> spec_fn(StationView) -> bool {
    |st: StationView| st == StationView { hostname: h, interface: ifc }
}

/// The device currently has a station at the given hostname.
pub open spec fn device_has_host(d: DeviceView, h: Seq<char>) -> bool {
    d.stations.any(host_pred(h))
}

/// The device currently has exactly this station.
pub open spec fn device_has_station(d: DeviceView, h: Seq<char>, ifc: Seq<char>) -> bool {
    d.stations.any(exact_pred(h, ifc))
}

/// An entry whose device has a station at the given hostname.
pub open spec fn entry_host_pred(h: Seq<char>) -> spec_fn(EntryView) -> bool {
    |e: EntryView| device_has_host(e.device, h)
}

/// An entry whose device has exactly the given station.
pub open spec fn entry_station_pred(h: Seq<char>, ifc: Seq<char>) -> spec_fn(EntryView) -> bool {
    |e: EntryView| device_has_station(e.device, h, ifc)
}

/// Some current station of some device is at the given hostname.
pub open spec fn store_has_host(m: StoreModel, h: Seq<char>) -> bool {
    m.devices.any(entry_host_pred(h))
}

/// Some device is currently at exactly the given station.
pub open spec fn store_has_station(m: StoreModel, h: Seq<char>, ifc: Seq<char>) -> bool {
    m.devices.any(entry_station_pred(h, ifc))
}

/// A station satisfying a station filter.
pub open spec fn sq_pred(sq: StationQuery) -> spec_fn(StationView) -> bool {
    |st: StationView| station_matches(st, sq)
}

/// Which devices a filter selects.
pub open spec fn query_matches(d: DeviceView, q: DeviceQuery) -> bool {
    match q {
        DeviceQuery::All => true,
        DeviceQuery::Online => d.stations.len() > 0,
        DeviceQuery::Offline => d.stations.len() == 0,
        DeviceQuery::Station(sq) => d.stations.any(sq_pred(sq)),
    }
}

/// The filter of a query as one shared function value.
pub open spec fn query_pred(q: DeviceQuery) -> spec_fn(EntryView) -> bool {
    |e: EntryView| query_matches(e.device, q)
}

/// The distinct hostnames of an ascending station sequence, in order:
/// stations sorted by hostname first keep equal hostnames adjacent, so
/// dropping repetitions of the previous hostname is enough.
pub open spec fn hostnames_of(s: Seq<StationView>) -> Seq<Seq<char>>
    decreases s.len(),
{
    if s.len() == 0 {
        Seq::empty()
    } else if s.len() >= 2 && s[s.len() - 2].hostname == s[s.len() - 1].hostname {
        hostnames_of(s.drop_last())
    } else {
        hostnames_of(s.drop_last()).push(s[s.len() - 1].hostname)
    }
}

/// The listing row a store entry produces.
pub open spec fn list_item_view(e: EntryView) -> ListItemView {
    ListItemView {
        mac: e.mac,
        access_points: hostnames_of(e.device.stations),
        stations: e.device.stations,
        last_associated: e.device.last_associated,
        last_disassociated: e.device.last_disassociated,
        last_observed: e.device.last_observed,
        online: e.device.stations.len() > 0,
    }
}

/// The row constructor as one shared function value.
pub open spec fn list_item_fn() -> spec_fn(EntryView) -> ListItemView {
    |e: EntryView| list_item_view(e)
}

/// What [`Database::device_list`] returns: the selected entries, in key
/// order, each turned into a row.
pub open spec fn list_model(devs: Seq<EntryView>, q: DeviceQuery) -> Seq<ListItemView> {
    devs.filter(query_pred(q)).map_values(list_item_fn())
}

/// The views of a vector of rows.
pub open spec fn item_views(s: Seq<DeviceListItem>) -> Seq<ListItemView> {
    s.map_values(|it: DeviceListItem| it@)
}

/// Extending the entries by one extends the listing by its row when the
/// filter selects it.
proof fn list_model_push(devs: Seq<EntryView>, q: DeviceQuery, e: EntryView)
    ensures
        list_model(devs.push(e), q) == if query_matches(e.device, q) {
            list_model(devs, q).push(list_item_view(e))
        } else {
            list_model(devs, q)
        },
{
    devs.lemma_filter_push(e, query_pred(q));
    devs.filter(query_pred(q)).lemma_push_map_commute(list_item_fn(), e);
}

proof fn lookup_at(devs: Seq<EntryView>, x: Seq<char>, j: int)
    requires
        0 <= j < devs.len(),
        devs[j].mac == x,
        forall|i: int| 0 <= i < j ==> (#[trigger] devs[i]).mac != x,
    ensures
        lookup(devs, x) == Some(devs[j].device),
    decreases j,
{
    if j > 0 {
        let d = devs.drop_first();
        assert(d[j - 1] == devs[j]);
        assert forall|i: int| 0 <= i < j - 1 implies (#[trigger] d[i]).mac != x by {
            assert(d[i] == devs[i + 1]);
        }
        lookup_at(d, x, j - 1);
    }
}

proof fn lookup_none_all(devs: Seq<EntryView>, x: Seq<char>)
    requires
        forall|i: int| 0 <= i < devs.len() ==> (#[trigger] devs[i]).mac != x,
    ensures
        lookup(devs, x) is None,
    decreases devs.len(),
{
    if devs.len() > 0 {
        let d = devs.drop_first();
        assert forall|i: int| 0 <= i < d.len() implies (#[trigger] d[i]).mac != x by {
            assert(d[i] == devs[i + 1]);
        }
        lookup_none_all(d, x);
    }
}

fn copy_station(s: &Station) -> (r: Station)
    ensures
        r@ == s@,
{
    Station { hostname: s.hostname.clone(), interface: s.interface.clone() }
}

/// Copy a device's stations out, in order.
fn copy_stations(stations: &Vec<Station>) -> (r: Vec<Station>)
    ensures
        station_views(r@) == station_views(stations@),
{
    let n = stations.len();
    let mut out: Vec<Station> = Vec::new();
    let mut i: usize = 0;
    proof {
        assert(station_views(out@) =~= station_views(stations@).take(0));
    }
    while i < n
        invariant
            n == stations.len(),
            i <= n,
            station_views(out@) == station_views(stations@).take(i as int),
        decreases n - i,
    {
        let st = copy_station(&stations[i]);
        let ghost prev = out@;
        out.push(st);
        proof {
            prev.lemma_push_map_commute(|s: Station| s@, st);
            station_views(stations@).lemma_take_succ_push(i as int);
            assert(station_views(stations@)[i as int] == stations@[i as int]@);
            assert(station_views(out@) =~= station_views(stations@).take(i as int + 1));
        }
        i = i + 1;
    }
    proof {
        assert(station_views(stations@).take(n as int) =~= station_views(stations@));
    }
    out
}

/// The distinct hostnames of a device's (sorted) stations, in order.
fn collect_access_points(stations: &Vec<Station>) -> (r: Vec<String>)
    ensures
        r@.map_values(|h: String| h@) == hostnames_of(station_views(stations@)),
{
    let ghost sv = station_views(stations@);
    let n = stations.len();
    let mut out: Vec<String> = Vec::new();
    let mut i: usize = 0;
    proof {
        assert(sv.take(0) =~= Seq::<StationView>::empty());
    }
    while i < n
        invariant
            n == stations.len(),
            sv == station_views(stations@),
            i <= n,
            out@.map_values(|h: String| h@) == hostnames_of(sv.take(i as int)),
        decreases n - i,
    {
        let repeat = i > 0 && str_eq(
            stations[i - 1].hostname.as_str(),
            stations[i].hostname.as_str(),
        );
        proof {
            let t = sv.take(i as int + 1);
            assert(t.drop_last() =~= sv.take(i as int));
            assert(t[t.len() - 1] == sv[i as int]);
            assert(sv[i as int] == stations@[i as int]@);
            if i > 0 {
                assert(t[t.len() - 2] == sv[i as int - 1]);
                assert(sv[i as int - 1] == stations@[i as int - 1]@);
            }
        }
        if !repeat {
            let h = stations[i].hostname.clone();
            out.push(h);
            proof {
                assert(out@.map_values(|h: String| h@) =~= hostnames_of(sv.take(i as int + 1)));
            }
        } else {
            proof {
                assert(out@.map_values(|h: String| h@) =~= hostnames_of(sv.take(i as int + 1)));
            }
        }
        i = i + 1;
    }
    proof {
        assert(sv.take(n as int) =~= sv);
    }
    out
}

/// Build the listing row for one entry.
fn make_list_item(mac: &String, device: &Device) -> (r: DeviceListItem)
    ensures
        r@ == list_item_view(EntryView { mac: mac@, device: device@ }),
{
    let access_points = collect_access_points(&device.stations);
    let stations = copy_stations(&device.stations);
    let online = !device.stations.is_empty();
    DeviceListItem {
        mac: mac.clone(),
        access_points,
        stations,
        last_associated: device.last_associated,
        last_disassociated: device.last_disassociated,
        last_observed: device.last_observed,
        online,
    }
}

/// Build the grouped-projection row for one entry.
fn make_map_item(mac: &String, device: &Device) -> (r: DeviceMapItem)
    ensures
        r@ == (MapItemView {
            mac: mac@,
            last_associated: device@.last_associated,
            last_disassociated: device@.last_disassociated,
            last_observed: device@.last_observed,
        }),
{
    DeviceMapItem {
        mac: mac.clone(),
        last_associated: device.last_associated,
        last_disassociated: device.last_disassociated,
        last_observed: device.last_observed,
    }
}

/// Does the filter select this device?
fn matches_exec(device: &Device, q: &DeviceQuery) -> (r: bool)
    ensures
        r == query_matches(device@, *q),
{
    match q {
        DeviceQuery::All => true,
        DeviceQuery::Online => !device.stations.is_empty(),
        DeviceQuery::Offline => device.stations.is_empty(),
        DeviceQuery::Station(sq) => {
            proof {
                assert(*q == DeviceQuery::Station(*sq));
            }
            let n = device.stations.len();
            let mut j: usize = 0;
            while j < n
                invariant
                    n == device.stations.len(),
                    j <= n,
                    *q == DeviceQuery::Station(*sq),
                    forall|i: int|
                        0 <= i < j ==> !station_matches(#[trigger] device@.stations[i], *sq),
                decreases n - j,
            {
                let st = &device.stations[j];
                let hit = match sq {
                    StationQuery::Hostname(h) => str_eq(st.hostname.as_str(), h.as_str()),
                    StationQuery::Interface(ifc) => str_eq(st.interface.as_str(), ifc.as_str()),
                    StationQuery::HostnameInterface(h, ifc) => str_eq(
                        st.hostname.as_str(),
                        h.as_str(),
                    ) && str_eq(st.interface.as_str(), ifc.as_str()),
                };
                proof {
                    assert(device@.stations[j as int] == device.stations@[j as int]@);
                }
                if hit {
                    proof {
                        assert(sq_pred(*sq)(device@.stations[j as int]));
                        assert(query_matches(device@, *q));
                    }
                    return true;
                }
                j = j + 1;
            }
            proof {
                assert forall|k: int| 0 <= k < device@.stations.len() implies !(#[trigger] sq_pred(
                    *sq,
                )(device@.stations[k])) by {
                    assert(!station_matches(device@.stations[k], *sq));
                }
                assert(!query_matches(device@, *q));
            }
            false
        },
    }
}

/// One station satisfies a station filter.
pub open spec fn station_matches(st: StationView, sq: StationQuery) -> bool {
    match sq {
        StationQuery::Hostname(h) => st.hostname == h@,
        StationQuery::Interface(ifc) => st.interface == ifc@,
        StationQuery::HostnameInterface(h, ifc) => st == StationView {
            hostname: h@,
            interface: ifc@,
        },
    }
}


/// The string contents of a vector of strings.
pub open spec fn string_views(v: Seq<String>) -> Seq<Seq<char>> {
    v.map_values(|x: String| x@)
}

/// The rows of a vector of grouped-projection rows.
pub open spec fn map_item_views(v: Seq<DeviceMapItem>) -> Seq<MapItemView> {
    v.map_values(|x: DeviceMapItem| x@)
}

/// The row constructor of the grouped projections as one shared value.
pub open spec fn map_item_fn() -> spec_fn(EntryView) -> MapItemView {
    |e: EntryView| MapItemView {
        mac: e.mac,
        last_associated: e.device.last_associated,
        last_disassociated: e.device.last_disassociated,
        last_observed: e.device.last_observed,
    }
}

/// Some entry of the sequence has a station at the hostname.
pub open spec fn devs_have_host(devs: Seq<EntryView>, h: Seq<char>) -> bool {
    devs.any(entry_host_pred(h))
}

/// Some entry of the sequence is at exactly the station.
pub open spec fn devs_have_station(devs: Seq<EntryView>, h: Seq<char>, ifc: Seq<char>) -> bool {
    devs.any(entry_station_pred(h, ifc))
}

/// What the value list of [`Database::device_map`] holds for one hostname.
pub open spec fn host_devices_model(devs: Seq<EntryView>, h: Seq<char>) -> Seq<MapItemView> {
    devs.filter(entry_host_pred(h)).map_values(map_item_fn())
}

/// What the value list of [`Database::station_map`] holds for one station.
pub open spec fn station_devices_model(
    devs: Seq<EntryView>,
    h: Seq<char>,
    ifc: Seq<char>,
) -> Seq<MapItemView> {
    devs.filter(entry_station_pred(h, ifc)).map_values(map_item_fn())
}

/// A prefix one longer satisfies `any` iff the shorter prefix did, or the
/// new element does.
proof fn any_take_step<A>(s: Seq<A>, j: int, p: spec_fn(A) -> bool)
    requires
        0 <= j < s.len(),
    ensures
        s.take(j + 1).any(p) <==> (s.take(j).any(p) || p(s[j])),
{
    let t1 = s.take(j + 1);
    let t0 = s.take(j);
    if t1.any(p) {
        let k = choose|k: int| 0 <= k < t1.len() && #[trigger] p(t1[k]);
        if k < j {
            assert(t0[k] == t1[k]);
            assert(p(t0[k]));
        } else {
            assert(t1[j] == s[j]);
        }
    }
    if t0.any(p) {
        let k = choose|k: int| 0 <= k < t0.len() && #[trigger] p(t0[k]);
        assert(t1[k] == t0[k]);
        assert(p(t1[k]));
    }
    if p(s[j]) {
        assert(t1[j] == s[j]);
        assert(p(t1[j]));
    }
}

/// A full-length prefix is the sequence itself.
proof fn any_take_full<A>(s: Seq<A>, p: spec_fn(A) -> bool)
    ensures
        s.take(s.len() as int).any(p) == s.any(p),
{
    assert(s.take(s.len() as int) =~= s);
}

/// Insert a string into a sorted, duplicate-free vector of strings.
fn insert_unique_string(v: &mut Vec<String>, x: &String)
    requires
        sorted_by(string_views(old(v)@), crate::order::lex_order()),
    ensures
        string_views(final(v)@) == insert_sorted(
            string_views(old(v)@),
            x@,
            crate::order::lex_order(),
        ),
        sorted_by(string_views(final(v)@), crate::order::lex_order()),
        forall|h: Seq<char>| #[trigger]
            string_views(final(v)@).contains(h) <==> string_views(old(v)@).contains(h) || h == x@,
{
    let ghost s0 = string_views(v@);
    let ghost lt = crate::order::lex_order();
    proof {
        lex_lt_strict_order();
        insert_sorted_contains(s0, x@, lt);
        insert_sorted_keeps_sorted(s0, x@, lt);
    }
    let n = v.len();
    let mut j: usize = 0;
    while j < n && str_lt(v[j].as_str(), x.as_str())
        invariant
            n == v.len(),
            s0 == string_views(v@),
            j <= n,
            forall|i: int| 0 <= i < j ==> lex_lt(#[trigger] s0[i], x@),
        decreases n - j,
    {
        proof {
            assert(s0[j as int] == v@[j as int]@);
        }
        j = j + 1;
    }
    proof {
        if j < n {
            assert(s0[j as int] == v@[j as int]@);
        }
        lex_lt_connected(x@, if j < n { s0[j as int] } else { x@ });
        insert_sorted_at(s0, x@, lt, j as int);
    }
    if j < n && str_eq(v[j].as_str(), x.as_str()) {
        return ;
    }
    let xc = x.clone();
    v.insert(j, xc);
    proof {
        assert(string_views(v@) =~= s0.take(j as int) + seq![x@] + s0.skip(j as int));
    }
}

/// The sorted distinct hostnames of all current stations of all entries.
fn collect_hosts(devices: &Vec<DevEntry>) -> (r: Vec<String>)
    ensures
        sorted_by(string_views(r@), crate::order::lex_order()),
        forall|h: Seq<char>| #[trigger]
            string_views(r@).contains(h) <==> devs_have_host(entry_views(devices@), h),
{
    let ghost evs = entry_views(devices@);
    let n = devices.len();
    let mut out: Vec<String> = Vec::new();
    let mut i: usize = 0;
    proof {
        assert forall|h: Seq<char>| !(#[trigger] string_views(out@).contains(h)) by {
            assert(string_views(out@).len() == 0);
        }
        assert forall|h: Seq<char>| !devs_have_host(evs.take(0), h) by {
            assert(evs.take(0).len() == 0);
        }
    }
    while i < n
        invariant
            n == devices.len(),
            evs == entry_views(devices@),
            i <= n,
            sorted_by(string_views(out@), crate::order::lex_order()),
            forall|h: Seq<char>| #[trigger]
                string_views(out@).contains(h) <==> devs_have_host(evs.take(i as int), h),
        decreases n - i,
    {
        let stations = &devices[i].device.stations;
        let ghost sv = evs[i as int].device.stations;
        proof {
            assert(evs[i as int] == devices@[i as int]@);
            assert(sv == station_views(stations@));
        }
        let sn = stations.len();
        let mut j: usize = 0;
        while j < sn
            invariant
                n == devices.len(),
                evs == entry_views(devices@),
                i < n,
                sn == stations.len(),
                sv == station_views(stations@),
                sv == evs[i as int].device.stations,
                j <= sn,
                sorted_by(string_views(out@), crate::order::lex_order()),
                forall|h: Seq<char>| #[trigger]
                    string_views(out@).contains(h) <==> devs_have_host(evs.take(i as int), h)
                    || sv.take(j as int).any(host_pred(h)),
            decreases sn - j,
        {
            insert_unique_string(&mut out, &stations[j].hostname);
            proof {
                let x = stations@[j as int]@.hostname;
                assert(sv[j as int] == stations@[j as int]@);
                assert forall|h: Seq<char>| #[trigger]
                    string_views(out@).contains(h) <==> devs_have_host(evs.take(i as int), h)
                    || sv.take(j as int + 1).any(host_pred(h)) by {
                    any_take_step(sv, j as int, host_pred(h));
                    assert(host_pred(h)(sv[j as int]) == (x == h));
                }
            }
            j = j + 1;
        }
        proof {
            assert forall|h: Seq<char>| #[trigger]
                string_views(out@).contains(h) <==> devs_have_host(evs.take(i as int + 1), h) by {
                any_take_step(evs, i as int, entry_host_pred(h));
                assert(sv.take(sn as int) =~= sv);
                assert(entry_host_pred(h)(evs[i as int]) == evs[i as int].device.stations.any(
                    host_pred(h),
                ));
            }
        }
        i = i + 1;
    }
    proof {
        assert(evs.take(n as int) =~= evs);
    }
    out
}

/// The sorted distinct interfaces active under a hostname.
fn interfaces_at(devices: &Vec<DevEntry>, h: &str) -> (r: Vec<String>)
    ensures
        sorted_by(string_views(r@), crate::order::lex_order()),
        forall|ifc: Seq<char>| #[trigger]
            string_views(r@).contains(ifc) <==> devs_have_station(entry_views(devices@), h@, ifc),
{
    let ghost evs = entry_views(devices@);
    let n = devices.len();
    let mut out: Vec<String> = Vec::new();
    let mut i: usize = 0;
    proof {
        assert forall|ifc: Seq<char>| !(#[trigger] string_views(out@).contains(ifc)) by {
            assert(string_views(out@).len() == 0);
        }
        assert forall|ifc: Seq<char>| !devs_have_station(evs.take(0), h@, ifc) by {
            assert(evs.take(0).len() == 0);
        }
    }
    while i < n
        invariant
            n == devices.len(),
            evs == entry_views(devices@),
            i <= n,
            sorted_by(string_views(out@), crate::order::lex_order()),
            forall|ifc: Seq<char>| #[trigger]
                string_views(out@).contains(ifc) <==> devs_have_station(
                    evs.take(i as int),
                    h@,
                    ifc,
                ),
        decreases n - i,
    {
        let stations = &devices[i].device.stations;
        let ghost sv = evs[i as int].device.stations;
        proof {
            assert(evs[i as int] == devices@[i as int]@);
            assert(sv == station_views(stations@));
        }
        let sn = stations.len();
        let mut j: usize = 0;
        while j < sn
            invariant
                n == devices.len(),
                evs == entry_views(devices@),
                i < n,
                sn == stations.len(),
                sv == station_views(stations@),
                sv == evs[i as int].device.stations,
                j <= sn,
                sorted_by(string_views(out@), crate::order::lex_order()),
                forall|ifc: Seq<char>| #[trigger]
                    string_views(out@).contains(ifc) <==> devs_have_station(
                        evs.take(i as int),
                        h@,
                        ifc,
                    ) || sv.take(j as int).any(exact_pred(h@, ifc)),
            decreases sn - j,
        {
            let hit = str_eq(stations[j].hostname.as_str(), h);
            if hit {
                insert_unique_string(&mut out, &stations[j].interface);
            }
            proof {
                let stj = sv[j as int];
                assert(stj == stations@[j as int]@);
                assert forall|ifc: Seq<char>| #[trigger]
                    string_views(out@).contains(ifc) <==> devs_have_station(
                        evs.take(i as int),
                        h@,
                        ifc,
                    ) || sv.take(j as int + 1).any(exact_pred(h@, ifc)) by {
                    any_take_step(sv, j as int, exact_pred(h@, ifc));
                    assert(exact_pred(h@, ifc)(stj) == (stj == StationView {
                        hostname: h@,
                        interface: ifc,
                    }));
                    if hit && ifc == stj.interface {
                        assert(stj == StationView { hostname: h@, interface: ifc });
                    }
                }
            }
            j = j + 1;
        }
        proof {
            assert forall|ifc: Seq<char>| #[trigger]
                string_views(out@).contains(ifc) <==> devs_have_station(
                    evs.take(i as int + 1),
                    h@,
                    ifc,
                ) by {
                any_take_step(evs, i as int, entry_station_pred(h@, ifc));
                assert(sv.take(sn as int) =~= sv);
                assert(entry_station_pred(h@, ifc)(evs[i as int])
                    == evs[i as int].device.stations.any(exact_pred(h@, ifc)));
            }
        }
        i = i + 1;
    }
    proof {
        assert(evs.take(n as int) =~= evs);
    }
    out
}

/// Pushing an entry extends a hostname group by its row when the device is
/// at that hostname.
proof fn host_items_push(devs: Seq<EntryView>, h: Seq<char>, e: EntryView)
    ensures
        host_devices_model(devs.push(e), h) == if device_has_host(e.device, h) {
            host_devices_model(devs, h).push(map_item_fn()(e))
        } else {
            host_devices_model(devs, h)
        },
{
    devs.lemma_filter_push(e, entry_host_pred(h));
    devs.filter(entry_host_pred(h)).lemma_push_map_commute(map_item_fn(), e);
}

/// Pushing an entry extends a station group by its row when the device is
/// at that station.
proof fn station_items_push(devs: Seq<EntryView>, h: Seq<char>, ifc: Seq<char>, e: EntryView)
    ensures
        station_devices_model(devs.push(e), h, ifc) == if device_has_station(e.device, h, ifc) {
            station_devices_model(devs, h, ifc).push(map_item_fn()(e))
        } else {
            station_devices_model(devs, h, ifc)
        },
{
    devs.lemma_filter_push(e, entry_station_pred(h, ifc));
    devs.filter(entry_station_pred(h, ifc)).lemma_push_map_commute(map_item_fn(), e);
}

/// Does the device currently have a station at the hostname?
fn device_has_host_exec(device: &Device, h: &str) -> (r: bool)
    ensures
        r == device_has_host(device@, h@),
{
    let n = device.stations.len();
    let mut j: usize = 0;
    while j < n
        invariant
            n == device.stations.len(),
            j <= n,
            forall|i: int| 0 <= i < j ==> !(#[trigger] host_pred(h@)(device@.stations[i])),
        decreases n - j,
    {
        proof {
            assert(device@.stations[j as int] == device.stations@[j as int]@);
        }
        if str_eq(device.stations[j].hostname.as_str(), h) {
            proof {
                assert(host_pred(h@)(device@.stations[j as int]));
            }
            return true;
        }
        j = j + 1;
    }
    false
}

/// Is the device currently at exactly this station?
fn device_has_station_exec(device: &Device, h: &str, ifc: &str) -> (r: bool)
    ensures
        r == device_has_station(device@, h@, ifc@),
{
    let n = device.stations.len();
    let mut j: usize = 0;
    while j < n
        invariant
            n == device.stations.len(),
            j <= n,
            forall|i: int| 0 <= i < j ==> !(#[trigger] exact_pred(h@, ifc@)(device@.stations[i])),
        decreases n - j,
    {
        proof {
            assert(device@.stations[j as int] == device.stations@[j as int]@);
        }
        if str_eq(device.stations[j].hostname.as_str(), h) && str_eq(
            device.stations[j].interface.as_str(),
            ifc,
        ) {
            proof {
                assert(exact_pred(h@, ifc@)(device@.stations[j as int]));
            }
            return true;
        }
        j = j + 1;
    }
    false
}

/// The rows of the devices currently at the hostname, in key order.
fn host_map_items(devices: &Vec<DevEntry>, h: &str) -> (r: Vec<DeviceMapItem>)
    ensures
        map_item_views(r@) == host_devices_model(entry_views(devices@), h@),
{
    let ghost evs = entry_views(devices@);
    let n = devices.len();
    let mut out: Vec<DeviceMapItem> = Vec::new();
    let mut i: usize = 0;
    proof {
        reveal(Seq::filter);
        assert(evs.take(0) =~= Seq::<EntryView>::empty());
        assert(map_item_views(out@) =~= host_devices_model(evs.take(0), h@));
    }
    while i < n
        invariant
            n == devices.len(),
            evs == entry_views(devices@),
            i <= n,
            map_item_views(out@) == host_devices_model(evs.take(i as int), h@),
        decreases n - i,
    {
        proof {
            assert(evs[i as int] == devices@[i as int]@);
        }
        let hit = device_has_host_exec(&devices[i].device, h);
        if hit {
            let item = make_map_item(&devices[i].mac, &devices[i].device);
            let ghost prev = out@;
            out.push(item);
            proof {
                evs.lemma_take_succ_push(i as int);
                host_items_push(evs.take(i as int), h@, evs[i as int]);
                prev.lemma_push_map_commute(|x: DeviceMapItem| x@, item);
                assert(item@ == map_item_fn()(evs[i as int]));
                assert(map_item_views(out@) == host_devices_model(evs.take(i as int + 1), h@));
            }
        } else {
            proof {
                evs.lemma_take_succ_push(i as int);
                host_items_push(evs.take(i as int), h@, evs[i as int]);
                assert(map_item_views(out@) == host_devices_model(evs.take(i as int + 1), h@));
            }
        }
        i = i + 1;
    }
    proof {
        assert(evs.take(n as int) =~= evs);
    }
    out
}

/// The rows of the devices currently at exactly the station, in key order.
fn station_map_items(devices: &Vec<DevEntry>, h: &str, ifc: &str) -> (r: Vec<DeviceMapItem>)
    ensures
        map_item_views(r@) == station_devices_model(entry_views(devices@), h@, ifc@),
{
    let ghost evs = entry_views(devices@);
    let n = devices.len();
    let mut out: Vec<DeviceMapItem> = Vec::new();
    let mut i: usize = 0;
    proof {
        reveal(Seq::filter);
        assert(evs.take(0) =~= Seq::<EntryView>::empty());
        assert(map_item_views(out@) =~= station_devices_model(evs.take(0), h@, ifc@));
    }
    while i < n
        invariant
            n == devices.len(),
            evs == entry_views(devices@),
            i <= n,
            map_item_views(out@) == station_devices_model(evs.take(i as int), h@, ifc@),
        decreases n - i,
    {
        proof {
            assert(evs[i as int] == devices@[i as int]@);
        }
        let hit = device_has_station_exec(&devices[i].device, h, ifc);
        if hit {
            let item = make_map_item(&devices[i].mac, &devices[i].device);
            let ghost prev = out@;
            out.push(item);
            proof {
                evs.lemma_take_succ_push(i as int);
                station_items_push(evs.take(i as int), h@, ifc@, evs[i as int]);
                prev.lemma_push_map_commute(|x: DeviceMapItem| x@, item);
                assert(item@ == map_item_fn()(evs[i as int]));
                assert(map_item_views(out@) == station_devices_model(
                    evs.take(i as int + 1),
                    h@,
                    ifc@,
                ));
            }
        } else {
            proof {
                evs.lemma_take_succ_push(i as int);
                station_items_push(evs.take(i as int), h@, ifc@, evs[i as int]);
                assert(map_item_views(out@) == station_devices_model(
                    evs.take(i as int + 1),
                    h@,
                    ifc@,
                ));
            }
        }
        i = i + 1;
    }
    proof {
        assert(evs.take(n as int) =~= evs);
    }
    out
}

/// The hostnames of a station-index listing.
pub open spec fn hi_hosts(v: Seq<HostInterfaces>) -> Seq<Seq<char>> {
    v.map_values(|x: HostInterfaces| x.hostname@)
}

/// The hostnames of a device-map listing.
pub open spec fn hd_hosts(v: Seq<HostDevices>) -> Seq<Seq<char>> {
    v.map_values(|x: HostDevices| x.hostname@)
}

/// The hostnames of a station-map listing.
pub open spec fn hs_hosts(v: Seq<HostStationMap>) -> Seq<Seq<char>> {
    v.map_values(|x: HostStationMap| x.hostname@)
}

/// The interfaces of one station-map group.
pub open spec fn id_ifcs(v: Seq<InterfaceDevices>) -> Seq<Seq<char>> {
    v.map_values(|x: InterfaceDevices| x.interface@)
}

/// One hostname and the interfaces currently active under it.
#[derive(Debug, PartialEq, Eq)]
pub struct HostInterfaces {
    pub hostname: String,
    pub interfaces: Vec<String>,
}

/// One hostname and the devices currently associated there.
#[derive(Debug, PartialEq, Eq)]
pub struct HostDevices {
    pub hostname: String,
    pub devices: Vec<DeviceMapItem>,
}

/// One interface and the devices currently on it.
#[derive(Debug, PartialEq, Eq)]
pub struct InterfaceDevices {
    pub interface: String,
    pub devices: Vec<DeviceMapItem>,
}

/// One hostname with its interfaces, each with its devices.
#[derive(Debug, PartialEq, Eq)]
pub struct HostStationMap {
    pub hostname: String,
    pub interfaces: Vec<InterfaceDevices>,
}

impl Database {
    /// The devices selected by the filter, in ascending address order.
    pub fn device_list(&self, query: DeviceQuery) -> (r: Vec<DeviceListItem>)
        requires
            self.wf(),
        ensures
            item_views(r@) == list_model(self@.devices, query),
    {
        let ghost devs = self@.devices;
        let n = self.devices.len();
        let mut out: Vec<DeviceListItem> = Vec::new();
        let mut i: usize = 0;
        proof {
            reveal(Seq::filter);
            assert(devs.take(0) =~= Seq::<EntryView>::empty());
            assert(item_views(out@) =~= list_model(devs.take(0), query));
        }
        while i < n
            invariant
                n == self.devices.len(),
                devs == self@.devices,
                i <= n,
                item_views(out@) == list_model(devs.take(i as int), query),
            decreases n - i,
        {
            proof {
                assert(devs[i as int] == self.devices@[i as int]@);
            }
            let hit = matches_exec(&self.devices[i].device, &query);
            if hit {
                let item = make_list_item(&self.devices[i].mac, &self.devices[i].device);
                let ghost prev = out@;
                out.push(item);
                proof {
                    devs.lemma_take_succ_push(i as int);
                    list_model_push(devs.take(i as int), query, devs[i as int]);
                    prev.lemma_push_map_commute(|it: DeviceListItem| it@, item);
                    assert(item@ == list_item_view(devs[i as int]));
                    assert(item_views(out@) == list_model(devs.take(i as int + 1), query));
                }
            } else {
                proof {
                    devs.lemma_take_succ_push(i as int);
                    list_model_push(devs.take(i as int), query, devs[i as int]);
                    assert(item_views(out@) == list_model(devs.take(i as int + 1), query));
                }
            }
            i = i + 1;
        }
        proof {
            assert(devs.take(n as int) =~= devs);
        }
        out
    }

    /// Look up one device by its canonical hardware address; absent means
    /// the address was never witnessed.
    pub fn get(&self, mac: &str) -> (r: Option<DeviceListItem>)
        requires
            self.wf(),
        ensures
            match r {
                Some(item) => lookup(self@.devices, mac@) matches Some(d) && item@
                    == list_item_view(EntryView { mac: mac@, device: d }),
                None => lookup(self@.devices, mac@) is None,
            },
    {
        let ghost devs = self@.devices;
        let n = self.devices.len();
        let mut i: usize = 0;
        while i < n
            invariant
                n == self.devices.len(),
                devs == self@.devices,
                i <= n,
                forall|k: int| 0 <= k < i ==> (#[trigger] devs[k]).mac != mac@,
            decreases n - i,
        {
            proof {
                assert(devs[i as int] == self.devices@[i as int]@);
            }
            if str_eq(self.devices[i].mac.as_str(), mac) {
                proof {
                    lookup_at(devs, mac@, i as int);
                }
                let item = make_list_item(&self.devices[i].mac, &self.devices[i].device);
                return Some(item);
            }
            i = i + 1;
        }
        proof {
            lookup_none_all(devs, mac@);
        }
        None
    }

    /// The distinct hostnames with at least one currently associated
    /// device, in ascending order.
    pub fn access_points(&self) -> (r: Vec<String>)
        requires
            self.wf(),
        ensures
            sorted_by(string_views(r@), crate::order::lex_order()),
            forall|h: Seq<char>| #[trigger]
                string_views(r@).contains(h) <==> store_has_host(self@, h),
    {
        collect_hosts(&self.devices)
    }

    /// Each active hostname with its distinct active interfaces, both in
    /// ascending order.
    pub fn stations(&self) -> (r: Vec<HostInterfaces>)
        requires
            self.wf(),
        ensures
            sorted_by(hi_hosts(r@), crate::order::lex_order()),
            forall|h: Seq<char>| #[trigger]
                hi_hosts(r@).contains(h) <==> store_has_host(self@, h),
            forall|k: int|
                0 <= k < r@.len() ==> sorted_by(
                    string_views((#[trigger] r@[k]).interfaces@),
                    crate::order::lex_order(),
                ),
            forall|k: int, ifc: Seq<char>|
                0 <= k < r@.len() ==> (#[trigger] string_views(r@[k].interfaces@).contains(ifc)
                    <==> store_has_station(self@, r@[k].hostname@, ifc)),
    {
        let hosts = collect_hosts(&self.devices);
        let hn = hosts.len();
        let mut out: Vec<HostInterfaces> = Vec::new();
        let mut k: usize = 0;
        while k < hn
            invariant
                hn == hosts.len(),
                self@.devices == entry_views(self.devices@),
                k <= hn,
                out@.len() == k,
                forall|t: int|
                    0 <= t < k ==> (#[trigger] out@[t]).hostname@ == string_views(hosts@)[t],
                forall|t: int|
                    0 <= t < k ==> sorted_by(
                        string_views((#[trigger] out@[t]).interfaces@),
                        crate::order::lex_order(),
                    ),
                forall|t: int, ifc: Seq<char>|
                    0 <= t < k ==> (#[trigger] string_views(out@[t].interfaces@).contains(ifc)
                        <==> devs_have_station(entry_views(self.devices@), out@[t].hostname@, ifc)),
            decreases hn - k,
        {
            let interfaces = interfaces_at(&self.devices, hosts[k].as_str());
            let row = HostInterfaces { hostname: hosts[k].clone(), interfaces };
            out.push(row);
            k = k + 1;
        }
        proof {
            assert(hi_hosts(out@) =~= string_views(hosts@));
        }
        out
    }

    /// Each active hostname, in ascending order, with the devices currently
    /// associated there, in ascending address order.
    pub fn device_map(&self) -> (r: Vec<HostDevices>)
        requires
            self.wf(),
        ensures
            sorted_by(hd_hosts(r@), crate::order::lex_order()),
            forall|h: Seq<char>| #[trigger]
                hd_hosts(r@).contains(h) <==> store_has_host(self@, h),
            forall|k: int|
                0 <= k < r@.len() ==> map_item_views((#[trigger] r@[k]).devices@)
                    == host_devices_model(self@.devices, r@[k].hostname@),
    {
        let hosts = collect_hosts(&self.devices);
        let hn = hosts.len();
        let mut out: Vec<HostDevices> = Vec::new();
        let mut k: usize = 0;
        while k < hn
            invariant
                hn == hosts.len(),
                self@.devices == entry_views(self.devices@),
                k <= hn,
                out@.len() == k,
                forall|t: int|
                    0 <= t < k ==> (#[trigger] out@[t]).hostname@ == string_views(hosts@)[t],
                forall|t: int|
                    0 <= t < k ==> map_item_views((#[trigger] out@[t]).devices@)
                        == host_devices_model(entry_views(self.devices@), out@[t].hostname@),
            decreases hn - k,
        {
            let items = host_map_items(&self.devices, hosts[k].as_str());
            let row = HostDevices { hostname: hosts[k].clone(), devices: items };
            out.push(row);
            k = k + 1;
        }
        proof {
            assert(hd_hosts(out@) =~= string_views(hosts@));
        }
        out
    }

    /// Each active hostname with its active interfaces, each interface with
    /// the devices currently on it, everything in ascending order.
    pub fn station_map(&self) -> (r: Vec<HostStationMap>)
        requires
            self.wf(),
        ensures
            sorted_by(hs_hosts(r@), crate::order::lex_order()),
            forall|h: Seq<char>| #[trigger]
                hs_hosts(r@).contains(h) <==> store_has_host(self@, h),
            forall|k: int|
                0 <= k < r@.len() ==> sorted_by(
                    id_ifcs((#[trigger] r@[k]).interfaces@),
                    crate::order::lex_order(),
                ),
            forall|k: int, ifc: Seq<char>|
                0 <= k < r@.len() ==> (#[trigger] id_ifcs(r@[k].interfaces@).contains(ifc)
                    <==> store_has_station(self@, r@[k].hostname@, ifc)),
            forall|k: int, l: int|
                0 <= k < r@.len() && 0 <= l < r@[k].interfaces@.len() ==> map_item_views(
                    (#[trigger] r@[k].interfaces@[l]).devices@,
                ) == station_devices_model(
                    self@.devices,
                    r@[k].hostname@,
                    r@[k].interfaces@[l].interface@,
                ),
    {
        let hosts = collect_hosts(&self.devices);
        let hn = hosts.len();
        let mut out: Vec<HostStationMap> = Vec::new();
        let mut k: usize = 0;
        while k < hn
            invariant
                hn == hosts.len(),
                self@.devices == entry_views(self.devices@),
                k <= hn,
                out@.len() == k,
                forall|t: int|
                    0 <= t < k ==> (#[trigger] out@[t]).hostname@ == string_views(hosts@)[t],
                forall|t: int|
                    0 <= t < k ==> sorted_by(
                        id_ifcs((#[trigger] out@[t]).interfaces@),
                        crate::order::lex_order(),
                    ),
                forall|t: int, ifc: Seq<char>|
                    0 <= t < k ==> (#[trigger] id_ifcs(out@[t].interfaces@).contains(ifc)
                        <==> devs_have_station(
                        entry_views(self.devices@),
                        out@[t].hostname@,
                        ifc,
                    )),
                forall|t: int, l: int|
                    0 <= t < k && 0 <= l < out@[t].interfaces@.len() ==> map_item_views(
                        (#[trigger] out@[t].interfaces@[l]).devices@,
                    ) == station_devices_model(
                        entry_views(self.devices@),
                        out@[t].hostname@,
                        out@[t].interfaces@[l].interface@,
                    ),
            decreases hn - k,
        {
            let ifcs = interfaces_at(&self.devices, hosts[k].as_str());
            let ifc_count = ifcs.len();
            let mut rows: Vec<InterfaceDevices> = Vec::new();
            let mut l: usize = 0;
            while l < ifc_count
                invariant
                    ifc_count == ifcs.len(),
                    self@.devices == entry_views(self.devices@),
                    hn == hosts.len(),
                    k < hn,
                    l <= ifc_count,
                    rows@.len() == l,
                    forall|t: int|
                        0 <= t < l ==> (#[trigger] rows@[t]).interface@ == string_views(ifcs@)[t],
                    forall|t: int|
                        0 <= t < l ==> map_item_views((#[trigger] rows@[t]).devices@)
                            == station_devices_model(
                            entry_views(self.devices@),
                            hosts@[k as int]@,
                            rows@[t].interface@,
                        ),
                decreases ifc_count - l,
            {
                let items = station_map_items(
                    &self.devices,
                    hosts[k].as_str(),
                    ifcs[l].as_str(),
                );
                let row = InterfaceDevices { interface: ifcs[l].clone(), devices: items };
                rows.push(row);
                l = l + 1;
            }
            proof {
                assert(id_ifcs(rows@) =~= string_views(ifcs@));
            }
            let row = HostStationMap { hostname: hosts[k].clone(), interfaces: rows };
            out.push(row);
            k = k + 1;
        }
        proof {
            assert(hs_hosts(out@) =~= string_views(hosts@));
        }
        out
    }
}

/// For every store content, the `Online` and `Offline` listings are
/// disjoint, and together they hold exactly the rows of the `All` listing.
pub proof fn lemma_online_offline_partition(m: StoreModel)
    ensures
        forall|x: ListItemView|
            !(#[trigger] list_model(m.devices, DeviceQuery::Online).contains(x) && #[trigger]
            list_model(m.devices, DeviceQuery::Offline).contains(x)),
        list_model(m.devices, DeviceQuery::Online).to_multiset().add(
            list_model(m.devices, DeviceQuery::Offline).to_multiset(),
        ) == list_model(m.devices, DeviceQuery::All).to_multiset(),
{
    assert forall|x: ListItemView|
        !(#[trigger] list_model(m.devices, DeviceQuery::Online).contains(x) && #[trigger]
        list_model(m.devices, DeviceQuery::Offline).contains(x)) by {
        if list_model(m.devices, DeviceQuery::Online).contains(x) && list_model(
            m.devices,
            DeviceQuery::Offline,
        ).contains(x) {
            list_item_online(m.devices, DeviceQuery::Online, x);
            list_item_online(m.devices, DeviceQuery::Offline, x);
        }
    }
    partition_multiset(m.devices);
}

/// A row of a filtered listing reports `online` as the filter demanded.
proof fn list_item_online(devs: Seq<EntryView>, q: DeviceQuery, x: ListItemView)
    requires
        list_model(devs, q).contains(x),
        q == DeviceQuery::Online || q == DeviceQuery::Offline,
    ensures
        x.online == (q == DeviceQuery::Online),
{
    broadcast use vstd::prelude::Seq::lemma_filter_pred;

    let f = devs.filter(query_pred(q));
    let k = choose|k: int| 0 <= k < list_model(devs, q).len() && list_model(devs, q)[k] == x;
    assert(list_model(devs, q)[k] == list_item_fn()(f[k]));
    assert(query_pred(q)(f[k]));
}

proof fn partition_multiset(devs: Seq<EntryView>)
    ensures
        list_model(devs, DeviceQuery::Online).to_multiset().add(
            list_model(devs, DeviceQuery::Offline).to_multiset(),
        ) == list_model(devs, DeviceQuery::All).to_multiset(),
    decreases devs.len(),
{
    broadcast use vstd::prelude::Seq::to_multiset_ensures;
    broadcast use vstd::multiset::group_multiset_axioms;

    if devs.len() == 0 {
        reveal(Seq::filter);
        assert(devs.filter(query_pred(DeviceQuery::Online)) =~= Seq::<EntryView>::empty());
        assert(devs.filter(query_pred(DeviceQuery::Offline)) =~= Seq::<EntryView>::empty());
        assert(devs.filter(query_pred(DeviceQuery::All)) =~= Seq::<EntryView>::empty());
        assert(list_model(devs, DeviceQuery::Online) =~= Seq::<ListItemView>::empty());
        assert(list_model(devs, DeviceQuery::Offline) =~= Seq::<ListItemView>::empty());
        assert(list_model(devs, DeviceQuery::All) =~= Seq::<ListItemView>::empty());
        broadcast use vstd::multiset::lemma_multiset_empty_len;

        let on = list_model(devs, DeviceQuery::Online);
        let off = list_model(devs, DeviceQuery::Offline);
        let all = list_model(devs, DeviceQuery::All);
        on.to_multiset_ensures();
        off.to_multiset_ensures();
        all.to_multiset_ensures();
        assert(on.to_multiset() =~= Multiset::<ListItemView>::empty());
        assert(off.to_multiset() =~= Multiset::<ListItemView>::empty());
        assert(all.to_multiset() =~= Multiset::<ListItemView>::empty());
        assert(on.to_multiset().add(off.to_multiset()) =~= all.to_multiset());
    } else {
        let d = devs.drop_last();
        let e = devs.last();
        partition_multiset(d);
        assert(devs =~= d.push(e));
        list_model_push(d, DeviceQuery::Online, e);
        list_model_push(d, DeviceQuery::Offline, e);
        list_model_push(d, DeviceQuery::All, e);
        let on = list_model(d, DeviceQuery::Online);
        let off = list_model(d, DeviceQuery::Offline);
        let all = list_model(d, DeviceQuery::All);
        let x = list_item_view(e);
        on.to_multiset_ensures();
        off.to_multiset_ensures();
        all.to_multiset_ensures();
        if e.device.stations.len() > 0 {
            assert(list_model(devs, DeviceQuery::Online) == on.push(x));
            assert(list_model(devs, DeviceQuery::Offline) == off);
            assert(on.push(x).to_multiset() =~= on.to_multiset().insert(x));
            assert(all.push(x).to_multiset() =~= all.to_multiset().insert(x));
            assert(on.to_multiset().insert(x).add(off.to_multiset()) =~= on.to_multiset().add(
                off.to_multiset(),
            ).insert(x));
        } else {
            assert(list_model(devs, DeviceQuery::Online) == on);
            assert(list_model(devs, DeviceQuery::Offline) == off.push(x));
            assert(off.push(x).to_multiset() =~= off.to_multiset().insert(x));
            assert(all.push(x).to_multiset() =~= all.to_multiset().insert(x));
            assert(on.to_multiset().add(off.to_multiset().insert(x)) =~= on.to_multiset().add(
                off.to_multiset(),
            ).insert(x));
        }
    }
}

/// Witnessing an event records the named device, and no other key changes.
pub proof fn lemma_witness_names_address(m: StoreModel, ev: EventView)
    requires
        store_inv(m),
    ensures
        lookup(witness_model(m, ev).devices, ev.mac) is Some,
        forall|x: Seq<char>|
            x != ev.mac ==> #[trigger] lookup(witness_model(m, ev).devices, x) == lookup(
                m.devices,
                x,
            ),
{
    upsert_lookup(m.devices, ev, ev.mac);
    assert forall|x: Seq<char>| x != ev.mac implies #[trigger] lookup(
        witness_model(m, ev).devices,
        x,
    ) == lookup(m.devices, x) by {
        upsert_lookup(m.devices, ev, x);
    }
}

/// A device once recorded is never removed: the index only grows.
pub proof fn lemma_devices_never_evicted(m: StoreModel, ev: EventView, x: Seq<char>)
    requires
        store_inv(m),
        lookup(m.devices, x) is Some,
    ensures
        lookup(witness_model(m, ev).devices, x) is Some,
{
    upsert_lookup(m.devices, ev, x);
}

/// Witnessing an association and then a disassociation of the same station
/// leaves the device's station set empty, when the device had no presence
/// before.
pub proof fn lemma_associate_then_disassociate(m: StoreModel, a: EventView, d: EventView)
    requires
        store_inv(m),
        a.action == Action::Associated,
        d.action == Action::Disassociated,
        d.mac == a.mac,
        d.hostname == a.hostname,
        d.interface == a.interface,
        match lookup(m.devices, a.mac) {
            Some(dev) => dev.stations.len() == 0,
            None => true,
        },
    ensures
        lookup(witness_model(witness_model(m, a), d).devices, a.mac) matches Some(dev)
            && dev.stations.len() == 0,
{
    let st = StationView { hostname: a.hostname, interface: a.interface };
    let m1 = witness_model(m, a);
    witness_model_keeps_inv(m, a);
    upsert_lookup(m.devices, a, a.mac);
    upsert_lookup(m1.devices, d, a.mac);
    let dev0 = match lookup(m.devices, a.mac) {
        Some(x) => x,
        None => empty_device(),
    };
    let s1 = insert_sorted(dev0.stations, st, station_order());
    assert(s1 == seq![st]);
    assert(remove_one(s1, st) == s1.drop_first());
    assert(s1.drop_first() =~= Seq::<StationView>::empty());
}

/// Disassociating on a different interface does not end presence recorded
/// on the original station.
pub proof fn lemma_disassociate_other_interface(m: StoreModel, a: EventView, d: EventView)
    requires
        store_inv(m),
        a.action == Action::Associated,
        d.action == Action::Disassociated,
        d.mac == a.mac,
        d.hostname == a.hostname,
        d.interface != a.interface,
    ensures
        lookup(witness_model(witness_model(m, a), d).devices, a.mac) matches Some(dev)
            && dev.stations.contains(
            StationView { hostname: a.hostname, interface: a.interface },
        ),
{
    let st_a = StationView { hostname: a.hostname, interface: a.interface };
    let st_d = StationView { hostname: d.hostname, interface: d.interface };
    let m1 = witness_model(m, a);
    witness_model_keeps_inv(m, a);
    upsert_lookup(m.devices, a, a.mac);
    upsert_lookup(m1.devices, d, a.mac);
    let dev0 = match lookup(m.devices, a.mac) {
        Some(x) => x,
        None => empty_device(),
    };
    let s1 = insert_sorted(dev0.stations, st_a, station_order());
    insert_sorted_contains(dev0.stations, st_a, station_order());
    assert(s1.contains(st_a));
    assert(st_d != st_a) by {
        if st_d == st_a {
            assert(st_d.interface == st_a.interface);
        }
    }
    remove_one_contains_other(s1, st_d, st_a);
}
} // verus!
