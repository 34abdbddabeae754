use presence::db::{Database, DeviceQuery, StationQuery};
use presence::parser::{parse, Action, Event};
use presence::Timestamp;

fn ts(secs: i64) -> Timestamp {
    Timestamp { secs, nanos: 0 }
}

fn ev(action: Action, mac: &str, host: &str, interface: &str, secs: i64) -> Event {
    Event {
        timestamp: ts(secs),
        hostname: host.to_string(),
        interface: interface.to_string(),
        mac: mac.to_string(),
        action,
    }
}

const MAC_A: &str = "32:42:fd:88:86:0c";
const MAC_B: &str = "04:17:b6:37:96:dc";

#[test]
fn witnessed_association_is_visible() {
    let mut db = Database::new();
    let l = "{\"host\":\"den-ap\",\"program\":\"hostapd\",\"timestamp\":\"2024-01-01T09:42:46Z\",\"message\":\"wl1.1: STA 32:42:fd:88:86:0c IEEE 802.11: associated\"}";
    let event = parse(l).unwrap().unwrap();
    db.witness(event);
    let item = db.get(MAC_A).unwrap();
    assert!(item.online);
    assert_eq!(item.stations.len(), 1);
    assert_eq!(item.stations[0].hostname, "den-ap");
    assert_eq!(item.stations[0].interface, "wl1.1");
    assert_eq!(item.last_associated, Some(ts(1704102166)));
    assert_eq!(item.last_disassociated, None);
    assert_eq!(item.last_observed, None);
    assert_eq!(db.last_event_timestamp, Some(ts(1704102166)));
}

#[test]
fn non_applicable_line_leaves_store_unchanged() {
    let mut db = Database::new();
    let l = "{\"host\":\"den-ap\",\"program\":\"other-daemon\",\"timestamp\":\"2024-01-01T09:42:46Z\",\"message\":\"wl1.1: STA 32:42:fd:88:86:0c IEEE 802.11: associated\"}";
    if let Ok(Some(event)) = parse(l) {
        db.witness(event);
    }
    assert!(db.get(MAC_A).is_none());
    assert_eq!(db.last_event_timestamp, None);
    assert_eq!(db.device_list(DeviceQuery::All).len(), 0);
}

#[test]
fn get_of_unknown_address_is_absent() {
    let db = Database::new();
    assert!(db.get(MAC_A).is_none());
}

#[test]
fn associate_then_disassociate_same_station_goes_offline() {
    let mut db = Database::new();
    db.witness(ev(Action::Associated, MAC_A, "den-ap", "wl1.1", 1));
    db.witness(ev(Action::Disassociated, MAC_A, "den-ap", "wl1.1", 2));
    let item = db.get(MAC_A).unwrap();
    assert!(!item.online);
    assert_eq!(item.stations.len(), 0);
    assert_eq!(item.last_associated, Some(ts(1)));
    assert_eq!(item.last_disassociated, Some(ts(2)));
}

#[test]
fn disassociate_on_other_interface_keeps_presence() {
    let mut db = Database::new();
    db.witness(ev(Action::Associated, MAC_A, "den-ap", "wl1.1", 1));
    db.witness(ev(Action::Disassociated, MAC_A, "den-ap", "wl2", 2));
    let item = db.get(MAC_A).unwrap();
    assert!(item.online);
    assert_eq!(item.stations.len(), 1);
    assert_eq!(item.stations[0].interface, "wl1.1");
}

#[test]
fn disassociate_on_other_hostname_keeps_presence() {
    let mut db = Database::new();
    db.witness(ev(Action::Associated, MAC_A, "den-ap", "wl1.1", 1));
    db.witness(ev(Action::Disassociated, MAC_A, "attic-ap", "wl1.1", 2));
    let item = db.get(MAC_A).unwrap();
    assert!(item.online);
    assert_eq!(item.stations[0].hostname, "den-ap");
}

#[test]
fn disassociate_creates_offline_device() {
    let mut db = Database::new();
    db.witness(ev(Action::Disassociated, MAC_A, "den-ap", "wl1.1", 5));
    let item = db.get(MAC_A).unwrap();
    assert!(!item.online);
    assert_eq!(item.stations.len(), 0);
    assert_eq!(item.last_disassociated, Some(ts(5)));
    // the device shows up in the offline listing, never evicted
    assert_eq!(db.device_list(DeviceQuery::Offline).len(), 1);
}

#[test]
fn observe_inserts_station_and_timestamp() {
    let mut db = Database::new();
    db.witness(ev(Action::Observed, MAC_A, "den-ap", "wl1.1", 7));
    let item = db.get(MAC_A).unwrap();
    assert!(item.online);
    assert_eq!(item.last_observed, Some(ts(7)));
    assert_eq!(item.last_associated, None);
}

#[test]
fn repeated_association_is_idempotent_on_stations() {
    let mut db = Database::new();
    db.witness(ev(Action::Associated, MAC_A, "den-ap", "wl1.1", 1));
    db.witness(ev(Action::Associated, MAC_A, "den-ap", "wl1.1", 9));
    let item = db.get(MAC_A).unwrap();
    assert_eq!(item.stations.len(), 1);
    assert_eq!(item.last_associated, Some(ts(9)));
}

#[test]
fn timestamps_overwrite_by_arrival_order() {
    // a later-arriving event with an earlier timestamp still wins
    let mut db = Database::new();
    db.witness(ev(Action::Associated, MAC_A, "den-ap", "wl1.1", 100));
    db.witness(ev(Action::Associated, MAC_A, "den-ap", "wl1.1", 50));
    let item = db.get(MAC_A).unwrap();
    assert_eq!(item.last_associated, Some(ts(50)));
    assert_eq!(db.last_event_timestamp, Some(ts(50)));
}

#[test]
fn addresses_differing_in_case_name_one_device() {
    let mut db = Database::new();
    let upper = "{\"host\":\"den-ap\",\"program\":\"hostapd\",\"timestamp\":\"2024-01-01T09:42:46Z\",\"message\":\"wl1.1: STA AA:BB:CC:DD:EE:FF IEEE 802.11: associated\"}";
    let lower = "{\"host\":\"den-ap\",\"program\":\"hostapd\",\"timestamp\":\"2024-01-01T09:42:47Z\",\"message\":\"wl2: STA aa:bb:cc:dd:ee:ff IEEE 802.11: associated\"}";
    db.witness(parse(upper).unwrap().unwrap());
    db.witness(parse(lower).unwrap().unwrap());
    let all = db.device_list(DeviceQuery::All);
    assert_eq!(all.len(), 1);
    assert_eq!(all[0].mac, "aa:bb:cc:dd:ee:ff");
    assert_eq!(all[0].stations.len(), 2);
}

#[test]
fn online_and_offline_partition_all() {
    let mut db = Database::new();
    db.witness(ev(Action::Associated, MAC_A, "den-ap", "wl1.1", 1));
    db.witness(ev(Action::Associated, MAC_B, "attic-ap", "wl0", 2));
    db.witness(ev(Action::Disassociated, MAC_B, "attic-ap", "wl0", 3));
    let all = db.device_list(DeviceQuery::All);
    let online = db.device_list(DeviceQuery::Online);
    let offline = db.device_list(DeviceQuery::Offline);
    assert_eq!(all.len(), 2);
    assert_eq!(online.len(), 1);
    assert_eq!(offline.len(), 1);
    assert_eq!(online[0].mac, MAC_A);
    assert_eq!(offline[0].mac, MAC_B);
    for item in &all {
        let in_online = online.iter().any(|x| x == item);
        let in_offline = offline.iter().any(|x| x == item);
        assert!(in_online != in_offline);
    }
}

#[test]
fn listing_is_ordered_by_address() {
    let mut db = Database::new();
    db.witness(ev(Action::Associated, MAC_A, "den-ap", "wl1.1", 1));
    db.witness(ev(Action::Associated, MAC_B, "attic-ap", "wl0", 2));
    db.witness(ev(Action::Associated, "10:00:00:00:00:01", "den-ap", "wl0", 3));
    let all = db.device_list(DeviceQuery::All);
    let macs: Vec<&str> = all.iter().map(|x| x.mac.as_str()).collect();
    assert_eq!(macs, vec!["04:17:b6:37:96:dc", "10:00:00:00:00:01", "32:42:fd:88:86:0c"]);
}

#[test]
fn station_filters_select_by_current_presence() {
    let mut db = Database::new();
    db.witness(ev(Action::Associated, MAC_A, "den-ap", "wl1.1", 1));
    db.witness(ev(Action::Associated, MAC_B, "attic-ap", "wl1.1", 2));
    let by_host = db.device_list(DeviceQuery::Station(StationQuery::Hostname("den-ap".to_string())));
    assert_eq!(by_host.len(), 1);
    assert_eq!(by_host[0].mac, MAC_A);
    let by_if = db.device_list(DeviceQuery::Station(StationQuery::Interface("wl1.1".to_string())));
    assert_eq!(by_if.len(), 2);
    let by_both = db.device_list(DeviceQuery::Station(StationQuery::HostnameInterface(
        "attic-ap".to_string(),
        "wl1.1".to_string(),
    )));
    assert_eq!(by_both.len(), 1);
    assert_eq!(by_both[0].mac, MAC_B);
    let none = db.device_list(DeviceQuery::Station(StationQuery::HostnameInterface(
        "den-ap".to_string(),
        "wl9".to_string(),
    )));
    assert_eq!(none.len(), 0);
}

#[test]
fn access_points_are_sorted_and_distinct() {
    let mut db = Database::new();
    db.witness(ev(Action::Associated, MAC_A, "den-ap", "wl1.1", 1));
    db.witness(ev(Action::Associated, MAC_A, "attic-ap", "wl0", 2));
    db.witness(ev(Action::Associated, MAC_B, "den-ap", "wl2", 3));
    let aps = db.access_points();
    assert_eq!(aps, vec!["attic-ap".to_string(), "den-ap".to_string()]);
}

#[test]
fn stations_index_groups_interfaces_by_hostname() {
    let mut db = Database::new();
    db.witness(ev(Action::Associated, MAC_A, "den-ap", "wl1.1", 1));
    db.witness(ev(Action::Associated, MAC_B, "den-ap", "wl0", 2));
    db.witness(ev(Action::Associated, MAC_B, "attic-ap", "wl0", 3));
    let idx = db.stations();
    assert_eq!(idx.len(), 2);
    assert_eq!(idx[0].hostname, "attic-ap");
    assert_eq!(idx[0].interfaces, vec!["wl0".to_string()]);
    assert_eq!(idx[1].hostname, "den-ap");
    assert_eq!(idx[1].interfaces, vec!["wl0".to_string(), "wl1.1".to_string()]);
}

#[test]
fn device_map_groups_online_devices_only() {
    let mut db = Database::new();
    db.witness(ev(Action::Associated, MAC_A, "den-ap", "wl1.1", 1));
    db.witness(ev(Action::Associated, MAC_B, "den-ap", "wl0", 2));
    db.witness(ev(Action::Disassociated, MAC_B, "den-ap", "wl0", 3));
    let map = db.device_map();
    assert_eq!(map.len(), 1);
    assert_eq!(map[0].hostname, "den-ap");
    assert_eq!(map[0].devices.len(), 1);
    assert_eq!(map[0].devices[0].mac, MAC_A);
    assert_eq!(map[0].devices[0].last_associated, Some(ts(1)));
}

#[test]
fn device_map_keys_are_sorted() {
    let mut db = Database::new();
    db.witness(ev(Action::Associated, MAC_A, "zeta-ap", "wl0", 1));
    db.witness(ev(Action::Associated, MAC_B, "alpha-ap", "wl0", 2));
    let map = db.device_map();
    assert_eq!(map.len(), 2);
    assert_eq!(map[0].hostname, "alpha-ap");
    assert_eq!(map[1].hostname, "zeta-ap");
}

#[test]
fn station_map_groups_by_hostname_and_interface() {
    let mut db = Database::new();
    db.witness(ev(Action::Associated, MAC_A, "den-ap", "wl1.1", 1));
    db.witness(ev(Action::Associated, MAC_B, "den-ap", "wl0", 2));
    db.witness(ev(Action::Associated, MAC_B, "attic-ap", "wl0", 3));
    let map = db.station_map();
    assert_eq!(map.len(), 2);
    assert_eq!(map[0].hostname, "attic-ap");
    assert_eq!(map[0].interfaces.len(), 1);
    assert_eq!(map[0].interfaces[0].interface, "wl0");
    assert_eq!(map[0].interfaces[0].devices.len(), 1);
    assert_eq!(map[0].interfaces[0].devices[0].mac, MAC_B);
    assert_eq!(map[1].hostname, "den-ap");
    assert_eq!(map[1].interfaces.len(), 2);
    assert_eq!(map[1].interfaces[0].interface, "wl0");
    assert_eq!(map[1].interfaces[1].interface, "wl1.1");
    assert_eq!(map[1].interfaces[1].devices[0].mac, MAC_A);
}

#[test]
fn station_map_omits_offline_devices() {
    let mut db = Database::new();
    db.witness(ev(Action::Associated, MAC_A, "den-ap", "wl1.1", 1));
    db.witness(ev(Action::Disassociated, MAC_A, "den-ap", "wl1.1", 2));
    assert_eq!(db.station_map().len(), 0);
    assert_eq!(db.device_map().len(), 0);
    assert_eq!(db.access_points().len(), 0);
}

#[test]
fn multi_station_item_lists_access_points_sorted_distinct() {
    let mut db = Database::new();
    db.witness(ev(Action::Associated, MAC_A, "den-ap", "wl1.1", 1));
    db.witness(ev(Action::Associated, MAC_A, "den-ap", "wl2", 2));
    db.witness(ev(Action::Associated, MAC_A, "attic-ap", "wl0", 3));
    let item = db.get(MAC_A).unwrap();
    assert_eq!(item.access_points, vec!["attic-ap".to_string(), "den-ap".to_string()]);
    assert_eq!(item.stations.len(), 3);
    // stations are ordered by hostname, then interface
    assert_eq!(item.stations[0].hostname, "attic-ap");
    assert_eq!(item.stations[1].interface, "wl1.1");
    assert_eq!(item.stations[2].interface, "wl2");
}
