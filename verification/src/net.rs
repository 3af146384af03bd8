//! The network side of the device: its address as an access point, and the machine
//! that leads from the portal to an upstream network.
//!
//! The device has one radio, which is an access point or a client, never both. It
//! starts as the access point of the portal. A connect request closes the access
//! point and joins the chosen network; where that fails the portal comes back.
//!
//! [`step`] decides; its actions are carried out, in order, by whoever owns the
//! radio and the stack.

use vstd::prelude::*;

use crate::dhcp_server::SERVER_OCTETS;
#[allow(unused_imports)]
use crate::dhcp_server::{pool_address, SUBNET_MASK};
use crate::shared::{ConnectRequest, Status};

verus! {

/// Channel of the access point in the 2.4 GHz band.
pub const AP_CHANNEL: u8 = 6;

/// Length of the network prefix of the access point's subnet.
pub const AP_PREFIX_LEN: u8 = 24;

/// How long the check for internet access may take, in seconds.
pub const CHECK_TIMEOUT_SECS: u64 = 25;

/// Name of the access point. It is open: the portal is the gatekeeper.
pub fn ap_ssid() -> (ssid: &'static str)
    ensures
        ssid@ == "Pico-Proxy"@,
{
    "Pico-Proxy"
}

/// The host that is looked up to see whether the internet is reachable.
pub fn probe_host() -> (host: &'static str)
    ensures
        host@ == "example.com"@,
{
    "example.com"
}

/// A static IPv4 configuration.
#[derive(Clone, Copy)]
pub struct StaticConfig {
    pub address: [u8; 4],
    pub prefix_len: u8,
    pub gateway: [u8; 4],
    pub dns_server: [u8; 4],
}

/// The static configuration of the access point: the device is its own gateway and
/// advertises itself as DNS server.
pub fn ap_config() -> (config: StaticConfig)
    ensures
        config.address@ == SERVER_OCTETS@,
        config.prefix_len == AP_PREFIX_LEN,
        config.gateway@ == SERVER_OCTETS@,
        config.dns_server@ == SERVER_OCTETS@,
{
    StaticConfig {
        address: SERVER_OCTETS,
        prefix_len: AP_PREFIX_LEN,
        gateway: SERVER_OCTETS,
        dns_server: SERVER_OCTETS,
    }
}

/// How the check for internet access ended.
#[derive(Clone, Copy, Debug, PartialEq, Eq, Structural)]
pub enum Check {
    /// There was a lease, and the lookup gave so many addresses.
    Resolved(usize),
    /// There was a lease, and the lookup failed.
    LookupFailed,
    /// The time was up first.
    TimedOut,
}

/// Whether a check shows that the internet is reachable.
pub open spec fn shows_online(check: Check) -> bool {
    check matches Check::Resolved(count) && count > 0
}

/// Whether a check shows that the internet is reachable.
pub fn confirm_online(check: Check) -> (online: bool)
    ensures
        online == shows_online(check),
        online == (check matches Check::Resolved(count) && count > 0),
{
    match check {
        Check::Resolved(count) => count > 0,
        Check::LookupFailed => false,
        Check::TimedOut => false,
    }
}

/// Where the machine stands, named by what it waits for.
#[derive(Clone, Copy, Debug, PartialEq, Eq, Structural)]
pub enum NetState {
    /// The start of the program.
    Boot,
    /// A scan request or a connect request.
    Portal,
    /// The end of a scan.
    Scanning,
    /// The end of a join attempt.
    Joining,
    /// The end of the check for internet access.
    Checking,
    /// Nothing but LED commands; a reboot is needed to choose another network.
    Online,
}

/// What the machine reacts to.
pub enum NetEvent {
    /// The program started.
    Started,
    /// A scan was requested.
    Scan,
    /// The user chose a network.
    Connect(ConnectRequest),
    /// The scan ended.
    Scanned,
    /// The join attempt ended; whether it succeeded.
    Joined(bool),
    /// The check for internet access ended; whether it is reachable.
    Checked(bool),
    /// The other core wants the LED on or off.
    Led(bool),
}

/// What the machine has done.
pub enum Action {
    /// Open the access point.
    StartAp,
    /// Close the access point, so that the radio is free.
    CloseAp,
    /// Take the access point's static address.
    UseApAddress,
    /// Obtain an address by DHCP.
    UseDhcp,
    /// Publish the status, and tell the other core.
    SetStatus(Status),
    /// Raise a scan request.
    RequestScan,
    /// Scan for networks.
    Scan,
    /// Publish the networks that the scan found.
    PublishNetworks,
    /// Join the requested network.
    Join(ConnectRequest),
    /// Check whether the internet is reachable.
    CheckOnline,
    /// Leave the network that was to be joined.
    Leave,
    /// Switch the LED.
    SetLed(bool),
}

/// What follows an attempt that failed: back to the portal, with a fresh scan, so that
/// the user can retry.
pub open spec fn fall_back() -> Seq<Action> {
    seq![
        Action::SetStatus(Status::Failed),
        Action::Leave,
        Action::UseApAddress,
        Action::StartAp,
        Action::SetStatus(Status::Portal),
        Action::RequestScan,
    ]
}

/// The next state and the actions that an event leads to. An event that the state does
/// not wait for changes nothing.
pub open spec fn transition(state: NetState, event: NetEvent) -> (NetState, Seq<Action>) {
    match (state, event) {
        (NetState::Boot, NetEvent::Started) => (
            NetState::Portal,
            seq![Action::StartAp, Action::SetStatus(Status::Portal), Action::RequestScan],
        ),
        (NetState::Portal, NetEvent::Scan) => (
            NetState::Scanning,
            seq![Action::SetStatus(Status::Scanning), Action::Scan],
        ),
        (NetState::Scanning, NetEvent::Scanned) => (
            NetState::Portal,
            seq![Action::PublishNetworks, Action::SetStatus(Status::Portal)],
        ),
        (NetState::Portal, NetEvent::Connect(request)) => (
            NetState::Joining,
            seq![
                Action::SetStatus(Status::Connecting),
                Action::CloseAp,
                Action::UseDhcp,
                Action::Join(request),
            ],
        ),
        (NetState::Joining, NetEvent::Joined(ok)) => if ok {
            (NetState::Checking, seq![Action::CheckOnline])
        } else {
            (NetState::Portal, fall_back())
        },
        (NetState::Checking, NetEvent::Checked(ok)) => if ok {
            (NetState::Online, seq![Action::SetStatus(Status::Connected)])
        } else {
            (NetState::Portal, fall_back())
        },
        (NetState::Portal | NetState::Checking | NetState::Online, NetEvent::Led(on)) => (
            state,
            seq![Action::SetLed(on)],
        ),
        _ => (state, seq![]),
    }
}

/// The actions that lead back to the portal.
fn back_to_portal() -> (actions: Vec<Action>)
    ensures
        actions@ == fall_back(),
{
    let mut actions: Vec<Action> = Vec::new();
    actions.push(Action::SetStatus(Status::Failed));
    actions.push(Action::Leave);
    actions.push(Action::UseApAddress);
    actions.push(Action::StartAp);
    actions.push(Action::SetStatus(Status::Portal));
    actions.push(Action::RequestScan);
    assert(actions@ =~= fall_back());
    actions
}

/// React to an event. Returns the next state and the actions to carry out, in order.
pub fn step(state: NetState, event: NetEvent) -> (next: (NetState, Vec<Action>))
    ensures
        (next.0, next.1@) == transition(state, event),
{
    let mut actions: Vec<Action> = Vec::new();
    let ghost goal = transition(state, event);
    let next: NetState = match (state, event) {
        (NetState::Boot, NetEvent::Started) => {
            actions.push(Action::StartAp);
            actions.push(Action::SetStatus(Status::Portal));
            actions.push(Action::RequestScan);
            NetState::Portal
        },
        (NetState::Portal, NetEvent::Scan) => {
            actions.push(Action::SetStatus(Status::Scanning));
            actions.push(Action::Scan);
            NetState::Scanning
        },
        (NetState::Scanning, NetEvent::Scanned) => {
            actions.push(Action::PublishNetworks);
            actions.push(Action::SetStatus(Status::Portal));
            NetState::Portal
        },
        (NetState::Portal, NetEvent::Connect(request)) => {
            actions.push(Action::SetStatus(Status::Connecting));
            actions.push(Action::CloseAp);
            actions.push(Action::UseDhcp);
            actions.push(Action::Join(request));
            NetState::Joining
        },
        (NetState::Joining, NetEvent::Joined(ok)) => {
            if ok {
                actions.push(Action::CheckOnline);
                NetState::Checking
            } else {
                actions = back_to_portal();
                NetState::Portal
            }
        },
        (NetState::Checking, NetEvent::Checked(ok)) => {
            if ok {
                actions.push(Action::SetStatus(Status::Connected));
                NetState::Online
            } else {
                actions = back_to_portal();
                NetState::Portal
            }
        },
        (NetState::Portal | NetState::Checking | NetState::Online, NetEvent::Led(on)) => {
            actions.push(Action::SetLed(on));
            state
        },
        _ => state,
    };
    assert(actions@ =~= goal.1);
    (next, actions)
}

// ---- laws ----

/// The published status after some actions, if it was `status` before.
pub open spec fn status_after(status: Status, actions: Seq<Action>) -> Status
    decreases actions.len(),
{
    if actions.len() == 0 {
        status
    } else {
        match actions.last() {
            Action::SetStatus(s) => s,
            _ => status_after(status, actions.drop_last()),
        }
    }
}

/// The status that belongs to a state.
pub open spec fn status_of(state: NetState) -> Status {
    match state {
        NetState::Boot | NetState::Portal => Status::Portal,
        NetState::Scanning => Status::Scanning,
        NetState::Joining | NetState::Checking => Status::Connecting,
        NetState::Online => Status::Connected,
    }
}

/// The status that the machine published last belongs to the state that it is in.
pub proof fn law_status_tells_the_state(state: NetState, event: NetEvent)
    ensures
        status_after(status_of(state), transition(state, event).1) == status_of(
            transition(state, event).0,
        ),
{
    reveal_with_fuel(status_after, 5);
    let actions = transition(state, event).1;
    if actions.len() > 1 {
        assert(actions.drop_last().last() == actions[actions.len() - 2]);
        if actions.len() > 2 {
            assert(actions.drop_last().drop_last().last() == actions[actions.len() - 3]);
            if actions.len() > 3 {
                assert(actions.drop_last().drop_last().drop_last().last() == actions[actions.len()
                    - 4]);
            }
        }
    }
}

/// What the radio is used for.
pub enum Radio {
    Idle,
    AccessPoint,
    Client,
}

/// The radio after an action, or `None` where the radio was in no state for it: an
/// access point is opened on an idle radio, closed only while it is open, and a
/// network is joined on an idle radio.
pub open spec fn radio_after(radio: Radio, action: Action) -> Option<Radio> {
    match action {
        Action::StartAp => if radio is Idle {
            Some(Radio::AccessPoint)
        } else {
            None
        },
        Action::CloseAp => if radio is AccessPoint {
            Some(Radio::Idle)
        } else {
            None
        },
        Action::Scan => if radio is AccessPoint {
            Some(radio)
        } else {
            None
        },
        Action::Join(_) => if radio is Idle {
            Some(Radio::Client)
        } else {
            None
        },
        Action::CheckOnline => if radio is Client {
            Some(radio)
        } else {
            None
        },
        Action::Leave => if radio is Client {
            Some(Radio::Idle)
        } else {
            None
        },
        _ => Some(radio),
    }
}

/// The radio after some actions.
pub open spec fn radio_after_all(radio: Radio, actions: Seq<Action>) -> Option<Radio>
    decreases actions.len(),
{
    if actions.len() == 0 {
        Some(radio)
    } else {
        match radio_after_all(radio, actions.drop_last()) {
            Some(before) => radio_after(before, actions.last()),
            None => None,
        }
    }
}

/// What the radio is used for in a state.
pub open spec fn radio_of(state: NetState) -> Radio {
    match state {
        NetState::Boot => Radio::Idle,
        NetState::Portal | NetState::Scanning => Radio::AccessPoint,
        NetState::Joining | NetState::Checking | NetState::Online => Radio::Client,
    }
}

/// The radio is never access point and client at once: the access point is closed
/// before a network is joined, and the network is left before the access point is
/// opened again.
pub proof fn law_one_radio(state: NetState, event: NetEvent)
    ensures
        radio_after_all(radio_of(state), transition(state, event).1) == Some(
            radio_of(transition(state, event).0),
        ),
{
    reveal_with_fuel(radio_after_all, 7);
    let actions = transition(state, event).1;
    assert(actions.take(actions.len() as int) =~= actions);
    let n = actions.len();
    let radio = radio_of(state);
    assert(radio_after_all(radio, actions.take(0)) == Some(radio));
    if n >= 1 {
        assert(actions.take(1).drop_last() =~= actions.take(0));
    }
    if n >= 2 {
        assert(actions.take(2).drop_last() =~= actions.take(1));
    }
    if n >= 3 {
        assert(actions.take(3).drop_last() =~= actions.take(2));
    }
    if n >= 4 {
        assert(actions.take(4).drop_last() =~= actions.take(3));
    }
    if n >= 5 {
        assert(actions.take(5).drop_last() =~= actions.take(4));
    }
    if n >= 6 {
        assert(actions.take(6).drop_last() =~= actions.take(5));
    }
}

/// A connect attempt that fails at any point leads back to the portal: the failure is
/// published, the access point is open again under its own address, and a fresh scan
/// is requested.
pub proof fn law_failure_leads_back(state: NetState, event: NetEvent)
    requires
        state is Joining && event == NetEvent::Joined(false) || state is Checking && event
            == NetEvent::Checked(false),
    ensures
        transition(state, event) == (NetState::Portal, fall_back()),
        fall_back().contains(Action::SetStatus(Status::Failed)),
        fall_back().contains(Action::UseApAddress),
        fall_back().contains(Action::StartAp),
        fall_back().last() == Action::RequestScan,
{
    assert(fall_back()[0] == Action::SetStatus(Status::Failed));
    assert(fall_back()[2] == Action::UseApAddress);
    assert(fall_back()[3] == Action::StartAp);
}

/// Once online the machine stays there; only the LED still changes.
pub proof fn law_online_is_final(event: NetEvent)
    ensures
        transition(NetState::Online, event).0 == NetState::Online,
        forall|i: int|
            0 <= i < transition(NetState::Online, event).1.len() ==> (#[trigger] transition(
                NetState::Online,
                event,
            ).1[i]) is SetLed,
{
}

/// The network that is joined is the one that was requested.
pub proof fn law_requested_network_is_joined(request: ConnectRequest)
    ensures
        transition(NetState::Portal, NetEvent::Connect(request)).0 == NetState::Joining,
        transition(NetState::Portal, NetEvent::Connect(request)).1.last() == Action::Join(request),
{
}

/// Every address of the lease pool lies in the access point's subnet.
pub proof fn law_pool_is_in_the_subnet(last_octet: u8, i: int)
    requires
        0 <= i < 4,
    ensures
        pool_address(last_octet)[i] & SUBNET_MASK@[i] == SERVER_OCTETS@[i] & SUBNET_MASK@[i],
{
    let x = pool_address(last_octet)[i];
    let y = SERVER_OCTETS@[i];
    if i == 3 {
        assert(x & 0 == 0) by (bit_vector);
        assert(y & 0 == 0) by (bit_vector);
    }
}

/// How the stack gets its address.
pub enum Addressing {
    /// The access point's own address.
    Static,
    /// What the network assigns by DHCP.
    Dhcp,
}

/// How the stack gets its address after some actions.
pub open spec fn addressing_after(addressing: Addressing, actions: Seq<Action>) -> Addressing
    decreases actions.len(),
{
    if actions.len() == 0 {
        addressing
    } else {
        match actions.last() {
            Action::UseApAddress => Addressing::Static,
            Action::UseDhcp => Addressing::Dhcp,
            _ => addressing_after(addressing, actions.drop_last()),
        }
    }
}

/// How the stack gets its address in a state.
pub open spec fn addressing_of(state: NetState) -> Addressing {
    match state {
        NetState::Boot | NetState::Portal | NetState::Scanning => Addressing::Static,
        NetState::Joining | NetState::Checking | NetState::Online => Addressing::Dhcp,
    }
}

/// The device has its own address while it is an access point, and is a DHCP client
/// while it joins or has joined a network, whichever network that is.
pub proof fn law_address_fits_the_state(state: NetState, event: NetEvent)
    ensures
        addressing_after(addressing_of(state), transition(state, event).1) == addressing_of(
            transition(state, event).0,
        ),
{
    reveal_with_fuel(addressing_after, 5);
    let actions = transition(state, event).1;
    if actions.len() > 1 {
        assert(actions.drop_last().last() == actions[actions.len() - 2]);
        if actions.len() > 2 {
            assert(actions.drop_last().drop_last().last() == actions[actions.len() - 3]);
            if actions.len() > 3 {
                assert(actions.drop_last().drop_last().drop_last().last() == actions[actions.len()
                    - 4]);
            }
        }
    }
}

/// A connect request, whatever it holds, sets off these and no other actions.
pub proof fn law_connect_sequence(request: ConnectRequest)
    ensures
        transition(NetState::Portal, NetEvent::Connect(request)) == (
            NetState::Joining,
            seq![
                Action::SetStatus(Status::Connecting),
                Action::CloseAp,
                Action::UseDhcp,
                Action::Join(request),
            ],
        ),
{
}

/// An attempt that fails, at the join or at the check, sets off these and no other actions.
pub proof fn law_failure_sequence()
    ensures
        transition(NetState::Joining, NetEvent::Joined(false)) == transition(
            NetState::Checking,
            NetEvent::Checked(false),
        ),
        transition(NetState::Joining, NetEvent::Joined(false)) == (
            NetState::Portal,
            seq![
                Action::SetStatus(Status::Failed),
                Action::Leave,
                Action::UseApAddress,
                Action::StartAp,
                Action::SetStatus(Status::Portal),
                Action::RequestScan,
            ],
        ),
{
}

/// A network that was joined is checked, and one that passed the check is announced.
pub proof fn law_success_is_checked_and_announced()
    ensures
        transition(NetState::Joining, NetEvent::Joined(true)) == (
            NetState::Checking,
            seq![Action::CheckOnline],
        ),
        transition(NetState::Checking, NetEvent::Checked(true)) == (
            NetState::Online,
            seq![Action::SetStatus(Status::Connected)],
        ),
{
}

/// Every way into the portal but the end of a scan raises a scan request, and a scan
/// request, once served, publishes what the scan found.
pub proof fn law_portal_is_scanned(state: NetState, event: NetEvent)
    ensures
        transition(state, event).0 is Portal && !(state is Portal) && !(state is Scanning)
            ==> transition(state, event).1.last() is RequestScan,
        transition(NetState::Portal, NetEvent::Scan).0 is Scanning,
        transition(NetState::Portal, NetEvent::Scan).1.last() is Scan,
        transition(NetState::Scanning, NetEvent::Scanned).0 is Portal,
        transition(NetState::Scanning, NetEvent::Scanned).1[0] is PublishNetworks,
{
}

/// Whether the machine waits for this event in this state.
pub open spec fn awaits(state: NetState, event: NetEvent) -> bool {
    match event {
        NetEvent::Started => state is Boot,
        NetEvent::Scan => state is Portal,
        NetEvent::Connect(_) => state is Portal,
        NetEvent::Scanned => state is Scanning,
        NetEvent::Joined(_) => state is Joining,
        NetEvent::Checked(_) => state is Checking,
        NetEvent::Led(_) => state is Portal || state is Checking || state is Online,
    }
}

/// An event that the machine does not wait for changes nothing, an LED command only the
/// LED, and any other event that it waits for leads to another state.
pub proof fn law_events_are_awaited(state: NetState, event: NetEvent)
    ensures
        !awaits(state, event) ==> transition(state, event) == (state, Seq::<Action>::empty()),
        awaits(state, event) ==> match event {
            NetEvent::Led(on) => transition(state, event) == (state, seq![Action::SetLed(on)]),
            _ => transition(state, event).0 != state,
        },
{
}

/// The states that a run of events leads to.
pub open spec fn state_after(state: NetState, events: Seq<NetEvent>) -> NetState
    decreases events.len(),
{
    if events.len() == 0 {
        state
    } else {
        transition(state_after(state, events.drop_last()), events.last()).0
    }
}

/// All actions of a run of events.
pub open spec fn actions_after(state: NetState, events: Seq<NetEvent>) -> Seq<Action>
    decreases events.len(),
{
    if events.len() == 0 {
        seq![]
    } else {
        actions_after(state, events.drop_last()) + transition(
            state_after(state, events.drop_last()),
            events.last(),
        ).1
    }
}

/// What some actions leave of the address, more actions change from there.
proof fn lemma_addressing_on(addressing: Addressing, p: Seq<Action>, q: Seq<Action>)
    ensures
        addressing_after(addressing, p + q) == addressing_after(addressing_after(addressing, p), q),
    decreases q.len(),
{
    if q.len() == 0 {
        assert(p + q =~= p);
    } else {
        lemma_addressing_on(addressing, p, q.drop_last());
        assert((p + q).drop_last() =~= p + q.drop_last());
    }
}

/// Whatever happens after the start, address and state fit together.
pub proof fn law_address_always_fits(events: Seq<NetEvent>)
    ensures
        addressing_after(Addressing::Static, actions_after(NetState::Boot, events))
            == addressing_of(state_after(NetState::Boot, events)),
    decreases events.len(),
{
    if events.len() > 0 {
        let past = events.drop_last();
        law_address_always_fits(past);
        let state = state_after(NetState::Boot, past);
        law_address_fits_the_state(state, events.last());
        lemma_addressing_on(
            Addressing::Static,
            actions_after(NetState::Boot, past),
            transition(state, events.last()).1,
        );
    }
}

/// However many addresses the lookup gives, one is enough; without one, or without a
/// lookup that ended in time, the device is not online.
pub proof fn law_one_address_is_enough(count: usize)
    ensures
        shows_online(Check::Resolved(count)) <==> count >= 1,
        !shows_online(Check::LookupFailed),
        !shows_online(Check::TimedOut),
{
}

} // verus!
