//! Sessions: clients, credentials, origins, names and addresses.

use mdtree::lookup::SelectorText;
use mdtree::reads::NodeSelector;
use mdtree::serving::{
    default_workspace_name, find_wireguard_ipv4, parse_ipv4, parse_ipv4_address, session_url,
    workspace_order, BrowseUiOptions, Ipv4Address, WorkspaceSource,
};
use mdtree::session::{
    enforce_same_origin, generate_session_credential, keeps_draining, origin_matches_host, stop,
    to_hex, ClientActivity, HeaderText, StopStatus, CREDENTIAL_BYTES, DRAIN_WINDOW, SESSION_HEADER,
};

const SECOND: u64 = 1_000_000_000;

#[test]
fn does_not_shut_down_before_any_client_has_connected() {
    let activity = ClientActivity::default();
    assert!(!activity.should_shut_down(100 * SECOND));
}

#[test]
fn does_not_shut_down_while_a_client_remains_connected() {
    let mut activity = ClientActivity::default();
    activity.client_connected();
    activity.client_connected();
    activity.client_disconnected(SECOND);
    assert!(!activity.should_shut_down(100 * SECOND));
    assert_eq!(activity.connected(), 1);
}

#[test]
fn shuts_down_only_after_the_grace_period_elapses_since_the_last_client_left() {
    let now = 100 * SECOND;
    let mut activity = ClientActivity::default();
    activity.client_connected();
    activity.client_disconnected(now);
    assert!(!activity.should_shut_down(now));

    activity.disconnected_at = Some(now - 10 * SECOND);
    assert!(activity.should_shut_down(now));
    activity.disconnected_at = Some(now - 5 * SECOND);
    assert!(!activity.should_shut_down(now));
    assert!(activity.should_shut_down(now + 1));
}

#[test]
fn a_new_connection_within_the_grace_period_cancels_the_pending_shutdown() {
    let mut activity = ClientActivity::default();
    activity.client_connected();
    activity.client_disconnected(SECOND);
    activity.client_connected();
    assert!(!activity.should_shut_down(100 * SECOND));
}

#[test]
fn a_stopping_server_waits_for_connections_within_the_window() {
    assert!(keeps_draining(1, 0));
    assert!(keeps_draining(3, DRAIN_WINDOW - 1));
    assert!(!keeps_draining(1, DRAIN_WINDOW));
    assert!(!keeps_draining(0, 0));
}

#[test]
fn stopping_takes_the_session_credential() {
    let credential = "abc".to_string();
    assert_eq!(SESSION_HEADER, "x-mdtree-session");
    assert_eq!(stop(&Some("abc".into()), &credential), StopStatus::Accepted);
    assert_eq!(stop(&Some("abd".into()), &credential), StopStatus::Forbidden);
    assert_eq!(stop(&None, &credential), StopStatus::Forbidden);
}

#[test]
fn generated_credentials_are_long_and_distinct_per_call() {
    let first = generate_session_credential();
    let second = generate_session_credential();
    assert_eq!(first.len(), CREDENTIAL_BYTES * 2);
    assert!(first.chars().all(|character| character.is_ascii_hexdigit()));
    assert_ne!(first, second);
}

#[test]
fn bytes_are_written_as_two_lower_case_digits_each() {
    assert_eq!(to_hex(&vec![0, 9, 10, 171, 255]), "00090aabff");
    assert_eq!(to_hex(&vec![]), "");
}

#[test]
fn origin_matching_accepts_only_the_requested_host() {
    let host = "192.0.2.10:4000";
    assert!(origin_matches_host(host, &"http://192.0.2.10:4000".to_string()));
    assert!(!origin_matches_host(host, &"http://127.0.0.1:4000".to_string()));
    assert!(!origin_matches_host(host, &"http://127.0.0.1:4001".to_string()));
    assert!(!origin_matches_host(host, &"http://evil.example".to_string()));
}

#[test]
fn only_a_present_and_foreign_origin_is_rejected() {
    let host = HeaderText::Text("h:1".into());
    assert!(enforce_same_origin(&HeaderText::Absent, &host));
    assert!(enforce_same_origin(&HeaderText::Absent, &HeaderText::Absent));
    assert!(enforce_same_origin(&HeaderText::Text("http://h:1".into()), &host));
    assert!(!enforce_same_origin(&HeaderText::Text("https://h:1".into()), &host));
    assert!(!enforce_same_origin(&HeaderText::Unreadable, &host));
    assert!(!enforce_same_origin(&HeaderText::Text("http://h:1".into()), &HeaderText::Absent));
    assert!(!enforce_same_origin(&HeaderText::Text("http://".into()), &HeaderText::Unreadable));
}

#[test]
fn parses_ipv4_from_linux_address_output() {
    let output = b"7: wg0    inet 10.44.0.3/24 scope global wg0\n";
    assert_eq!(
        parse_ipv4_address(output),
        Some(Ipv4Address::new(10, 44, 0, 3))
    );
}

#[test]
fn selects_the_first_wireguard_interface_with_an_advertisable_ipv4_address() {
    let address = find_wireguard_ipv4(b"wg0 wg-office\n", |interface: &str| match interface {
        "wg0" => None,
        "wg-office" => Some(Ipv4Address::new(10, 60, 0, 8)),
        _ => unreachable!(),
    });
    assert_eq!(address, Some(Ipv4Address::new(10, 60, 0, 8)));
}

#[test]
fn interfaces_behind_an_advertisable_address_are_not_asked() {
    let address = find_wireguard_ipv4(b"wg0 wg1\n", |interface: &str| match interface {
        "wg0" => Some(Ipv4Address::new(10, 1, 0, 2)),
        _ => unreachable!(),
    });
    assert_eq!(address, Some(Ipv4Address::new(10, 1, 0, 2)));
}

#[test]
fn ignores_non_advertisable_wireguard_addresses() {
    assert_eq!(
        find_wireguard_ipv4(b"wg0\n", |_: &str| Some(Ipv4Address::localhost())),
        None
    );
    assert_eq!(
        find_wireguard_ipv4(b"wg0\n", |_: &str| Some(Ipv4Address::new(0, 0, 0, 0))),
        None
    );
}

#[test]
fn addresses_are_four_plain_numerals_up_to_255() {
    for (text, octets) in [
        ("10.44.0.3", [10, 44, 0, 3]),
        ("255.255.255.255", [255, 255, 255, 255]),
        ("0.0.0.0", [0, 0, 0, 0]),
        ("100.200.30.9", [100, 200, 30, 9]),
    ] {
        let address = parse_ipv4(text).expect("address");
        assert_eq!([address.a, address.b, address.c, address.d], octets);
        assert_eq!(address.to_text(), text);
    }
    for text in [
        "1.2.3", "1.2.3.4.5", "256.1.1.1", "01.1.1.1", "1..1.1", "", "1.2.3.4 ", "a.b.c.d",
        "1.2.3.-4", "1.2.3.+4", "00.0.0.0", "999.1.1.1", "1000.1.1.1", "1.2.3.\u{661}",
    ] {
        assert_eq!(parse_ipv4(text), None, "{text}");
    }
    assert_eq!(parse_ipv4_address(b"no \xff address 1.2.3.4/8\n"), Some(Ipv4Address::new(1, 2, 3, 4)));
    assert_eq!(parse_ipv4_address(b""), None);
}

#[test]
fn the_session_url_names_address_and_port() {
    assert_eq!(
        session_url(Ipv4Address::new(10, 0, 0, 7), 8080),
        "http://10.0.0.7:8080"
    );
}

#[test]
fn generic_file_names_give_way_to_their_directory() {
    let parent = Some("northstar".to_string());
    assert_eq!(default_workspace_name("notes", &parent, "northstar/notes.mdtree"), "notes");
    assert_eq!(default_workspace_name(".mdtree", &parent, "northstar/.mdtree"), "northstar");
    assert_eq!(default_workspace_name("MDTree", &parent, "northstar/MDTree.db"), "northstar");
    assert_eq!(default_workspace_name("", &parent, "x"), "northstar");
    assert_eq!(default_workspace_name(".mdtree", &None, ".mdtree"), ".mdtree");
    assert_eq!(default_workspace_name("", &Some(String::new()), "/"), "/");
}

#[test]
fn workspaces_are_listed_by_name_with_letter_case_aside() {
    let names: Vec<String> = ["beta", "Alpha", "alpha", "\u{c9}cole", "Beta", "alpha", "alp"]
        .iter()
        .map(|name| (*name).to_string())
        .collect();
    let mut expected: Vec<usize> = (0..names.len()).collect();
    expected.sort_by(|left, right| {
        names[*left]
            .to_lowercase()
            .cmp(&names[*right].to_lowercase())
            .then_with(|| names[*left].cmp(&names[*right]))
    });
    assert_eq!(workspace_order(&names), expected);
    assert_eq!(workspace_order(&names), vec![6, 1, 2, 5, 4, 0, 3]);
}

#[test]
fn options_default_to_a_quiet_session() {
    let options = BrowseUiOptions::default();
    assert!(options.selector.is_none() && !options.open_browser);
    assert_eq!(options.port, 0);
    let source = WorkspaceSource { path: "a.mdtree".into(), name: None };
    assert_eq!(source.path, "a.mdtree");
    assert!(source.name.is_none());
}

#[test]
fn the_served_root_is_selected_or_the_only_one() {
    let store = mdtree::workspace::new_tables();
    let absent = SelectorText {
        raw: "orders".into(),
        parsed: Ok(NodeSelector::Slug("orders".into())),
    };
    assert_eq!(store.resolve_root(&Some(absent), 1), Err("node not found: orders".to_string()));
    let broken = SelectorText { raw: "?".into(), parsed: Err("invalid selector".into()) };
    assert_eq!(store.resolve_root(&Some(broken), 1), Err("invalid selector".to_string()));
    let ignored = SelectorText { raw: "?".into(), parsed: Err("invalid selector".into()) };
    assert_eq!(store.resolve_root(&Some(ignored), 2), Err("node not found: root".to_string()));
    assert_eq!(store.resolve_root(&None, 1), Err("node not found: root".to_string()));
}
