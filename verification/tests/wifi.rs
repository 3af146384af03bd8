use pico_proxy::wifi::{join_mode, scan, Beacon, JoinMode, NetworkList, MAX_NETWORKS};

fn beacon(name: &[u8], rssi: i16) -> Beacon {
    let mut ssid = [0u8; 32];
    ssid[..name.len()].copy_from_slice(name);
    Beacon { ssid, ssid_len: name.len() as u8, rssi }
}

fn names(list: &NetworkList) -> Vec<(String, i16)> {
    list.as_slice()
        .iter()
        .map(|n| (String::from(n.ssid.as_str()), n.rssi))
        .collect()
}

#[test]
fn a_new_list_is_empty() {
    assert!(names(&NetworkList::new()).is_empty());
    assert!(names(&scan(&[])).is_empty());
}

#[test]
fn a_scan_lists_each_network_once_with_its_strongest_signal() {
    let list = scan(&[
        beacon(b"weak", -80),
        beacon(b"home", -60),
        beacon(b"home", -40),
        beacon(b"home", -50),
        beacon(b"cafe", -55),
    ]);
    assert_eq!(
        names(&list),
        [
            (String::from("home"), -40),
            (String::from("cafe"), -55),
            (String::from("weak"), -80)
        ]
    );
}

#[test]
fn beacons_are_recorded_in_order_until_the_list_is_ranked() {
    let mut list = NetworkList::new();
    list.record(&beacon(b"a", -70));
    list.record(&beacon(b"b", -60));
    list.record(&beacon(b"a", -75));
    assert_eq!(names(&list), [(String::from("a"), -70), (String::from("b"), -60)]);
    list.record(&beacon(b"a", -50));
    assert_eq!(names(&list), [(String::from("a"), -50), (String::from("b"), -60)]);
    list.record(&beacon(b"b", i16::MAX));
    list.rank();
    assert_eq!(names(&list), [(String::from("b"), i16::MAX), (String::from("a"), -50)]);
}

#[test]
fn ranking_keeps_networks_of_equal_strength() {
    let mut list = scan(&[beacon(b"a", -50), beacon(b"b", -50), beacon(b"c", -40)]);
    list.rank();
    let mut all = names(&list);
    assert_eq!(all[0], (String::from("c"), -40));
    all.sort();
    assert_eq!(
        all,
        [
            (String::from("a"), -50),
            (String::from("b"), -50),
            (String::from("c"), -40)
        ]
    );
}

#[test]
fn hidden_and_unreadable_names_are_left_out() {
    let list = scan(&[beacon(b"", -10), beacon(b"\xff\xfe", -10), beacon(b"ok", -90)]);
    assert_eq!(names(&list), [(String::from("ok"), -90)]);
}

#[test]
fn only_the_announced_bytes_of_a_name_count() {
    let mut b = beacon(b"office-5GHz", -30);
    b.ssid_len = 6;
    assert_eq!(names(&scan(&[b])), [(String::from("office"), -30)]);
    // A length beyond the maximum counts as the maximum.
    let mut full = beacon(&[b'x'; 32], -30);
    full.ssid_len = 200;
    assert_eq!(names(&scan(&[full])), [("x".repeat(32), -30)]);
    // Names are compared by their characters.
    let both = scan(&[beacon("caf\u{e9}".as_bytes(), -30), beacon(b"cafe", -31)]);
    assert_eq!(names(&both).len(), 2);
}

#[test]
fn a_full_list_takes_no_new_network_but_still_updates_known_ones() {
    let mut beacons: Vec<Beacon> = (0..MAX_NETWORKS as u8)
        .map(|i| beacon(&[b'a' + i], -60 - i as i16))
        .collect();
    beacons.push(beacon(b"late", -1));
    beacons.push(beacon(b"x", -2));
    let list = scan(&beacons);
    let all = names(&list);
    assert_eq!(all.len(), 24);
    assert_eq!(all[0], (String::from("x"), -2));
    assert!(all.iter().all(|(name, _)| name != "late"));
    assert!(all.windows(2).all(|pair| pair[0].1 >= pair[1].1));
}

#[test]
fn an_empty_password_means_an_open_network() {
    assert_eq!(join_mode(""), JoinMode::Open);
    assert_eq!(join_mode("secret"), JoinMode::Passphrase);
    assert_eq!(join_mode(" "), JoinMode::Passphrase);
}
