use pico_proxy::net::{
    ap_config, ap_ssid, confirm_online, probe_host, step, Action, Check, NetEvent, NetState,
    AP_CHANNEL, CHECK_TIMEOUT_SECS,
};
use pico_proxy::shared::{ConnectRequest, Status};
use pico_proxy::text::Text;

fn request(ssid: &str, password: &str) -> ConnectRequest {
    let mut s = Text::new::<32>();
    let mut p = Text::new::<63>();
    s.push_str(ssid);
    p.push_str(password);
    ConnectRequest { ssid: s, password: p }
}

/// The actions as words.
fn words(actions: &[Action]) -> Vec<String> {
    actions
        .iter()
        .map(|action| match action {
            Action::StartAp => String::from("start ap"),
            Action::CloseAp => String::from("close ap"),
            Action::UseApAddress => String::from("ap address"),
            Action::UseDhcp => String::from("dhcp"),
            Action::SetStatus(status) => format!("status {}", status.as_str()),
            Action::RequestScan => String::from("request scan"),
            Action::Scan => String::from("scan"),
            Action::PublishNetworks => String::from("publish"),
            Action::Join(r) => format!("join {} {}", r.ssid.as_str(), r.password.as_str()),
            Action::CheckOnline => String::from("check"),
            Action::Leave => String::from("leave"),
            Action::SetLed(on) => format!("led {}", on),
        })
        .collect()
}

const BACK: [&str; 6] = [
    "status failed",
    "leave",
    "ap address",
    "start ap",
    "status portal",
    "request scan",
];

#[test]
fn the_access_point_is_configured_statically() {
    let config = ap_config();
    assert_eq!(config.address, [192, 168, 4, 1]);
    assert_eq!(config.prefix_len, 24);
    assert_eq!(config.gateway, [192, 168, 4, 1]);
    assert_eq!(config.dns_server, [192, 168, 4, 1]);
    assert_eq!(ap_ssid(), "Pico-Proxy");
    assert_eq!(AP_CHANNEL, 6);
    assert_eq!(probe_host(), "example.com");
    assert_eq!(CHECK_TIMEOUT_SECS, 25);
}

#[test]
fn a_lookup_with_an_address_means_online() {
    assert!(confirm_online(Check::Resolved(1)));
    assert!(confirm_online(Check::Resolved(4)));
    assert!(!confirm_online(Check::Resolved(0)));
    assert!(!confirm_online(Check::LookupFailed));
    assert!(!confirm_online(Check::TimedOut));
}

#[test]
fn the_device_starts_as_portal_and_scans() {
    let (state, actions) = step(NetState::Boot, NetEvent::Started);
    assert_eq!(state, NetState::Portal);
    assert_eq!(words(&actions), ["start ap", "status portal", "request scan"]);
}

#[test]
fn a_scan_returns_to_the_portal() {
    let (state, actions) = step(NetState::Portal, NetEvent::Scan);
    assert_eq!(state, NetState::Scanning);
    assert_eq!(words(&actions), ["status scanning", "scan"]);
    let (state, actions) = step(state, NetEvent::Scanned);
    assert_eq!(state, NetState::Portal);
    assert_eq!(words(&actions), ["publish", "status portal"]);
}

#[test]
fn a_chosen_network_is_joined_and_checked() {
    let (state, actions) = step(NetState::Portal, NetEvent::Connect(request("home", "secret")));
    assert_eq!(state, NetState::Joining);
    assert_eq!(
        words(&actions),
        ["status connecting", "close ap", "dhcp", "join home secret"]
    );
    let (state, actions) = step(state, NetEvent::Joined(true));
    assert_eq!(state, NetState::Checking);
    assert_eq!(words(&actions), ["check"]);
    let (state, actions) = step(state, NetEvent::Checked(true));
    assert_eq!(state, NetState::Online);
    assert_eq!(words(&actions), ["status connected"]);
}

#[test]
fn a_failed_join_leads_back_to_the_portal() {
    let (state, actions) = step(NetState::Joining, NetEvent::Joined(false));
    assert_eq!(state, NetState::Portal);
    assert_eq!(words(&actions), BACK);
}

#[test]
fn a_failed_check_leads_back_to_the_portal() {
    let (state, actions) = step(NetState::Checking, NetEvent::Checked(false));
    assert_eq!(state, NetState::Portal);
    assert_eq!(words(&actions), BACK);
}

#[test]
fn led_commands_are_served_while_waiting() {
    for state in [NetState::Portal, NetState::Checking, NetState::Online] {
        for on in [false, true] {
            let (next, actions) = step(state, NetEvent::Led(on));
            assert_eq!(next, state);
            assert_eq!(words(&actions), [format!("led {}", on)]);
        }
    }
}

#[test]
fn online_is_final() {
    for event in [
        NetEvent::Started,
        NetEvent::Scan,
        NetEvent::Connect(request("other", "")),
        NetEvent::Scanned,
        NetEvent::Joined(false),
        NetEvent::Checked(false),
    ] {
        let (next, actions) = step(NetState::Online, event);
        assert_eq!(next, NetState::Online);
        assert!(actions.is_empty());
    }
}

/// What the radio is used for after some actions.
fn radio(mut open: bool, mut client: bool, actions: &[Action]) -> (bool, bool) {
    for action in actions {
        match action {
            Action::StartAp => open = true,
            Action::CloseAp => open = false,
            Action::Join(_) => client = true,
            Action::Leave => client = false,
            _ => {}
        }
        assert!(!(open && client));
    }
    (open, client)
}

#[test]
fn the_radio_is_never_access_point_and_client_at_once() {
    let (_, started) = step(NetState::Boot, NetEvent::Started);
    assert_eq!(radio(false, false, &started), (true, false));
    let (_, joining) = step(NetState::Portal, NetEvent::Connect(request("home", "")));
    assert_eq!(radio(true, false, &joining), (false, true));
    let (_, back) = step(NetState::Joining, NetEvent::Joined(false));
    assert_eq!(radio(false, true, &back), (true, false));
}

#[test]
fn the_last_status_belongs_to_the_state() {
    let (_, actions) = step(NetState::Checking, NetEvent::Checked(false));
    let last = actions.iter().rev().find_map(|action| match action {
        Action::SetStatus(status) => Some(*status),
        _ => None,
    });
    assert_eq!(last, Some(Status::Portal));
}
