//! Routing of protocol requests, channel definitions and the bootstrap
//! reply.

use conduit_core::plugin::{default_kind, filter_known_channels, open_channel};
use conduit_core::protocol::hex_encode;
use conduit_core::route::{check_webview_label, parse_route, route_request};
use conduit_core::{BootstrapInfo, ChannelBuffer, ChannelDefError, ChannelDefs, ChannelKind, Route};

const KEY: [u8; 32] = [0x5a; 32];

fn key_text() -> String {
    hex_encode(&KEY)
}

fn route(url: &str, key: Option<Option<&str>>) -> Route {
    route_request(url, key, &KEY)
}

fn reject(r: Route) -> (u16, String) {
    match r {
        Route::Reject(status, message) => (status, message),
        Route::Invoke(name) => panic!("expected a rejection, got invoke {name}"),
        Route::Drain(name) => panic!("expected a rejection, got drain {name}"),
    }
}

const NOT_FOUND: &str = "not found: expected /invoke/<cmd> or /drain/<channel>";

#[test]
fn parse_route_splits_action_and_target() {
    assert_eq!(
        parse_route("conduit://localhost/invoke/echo"),
        Some(("invoke".to_string(), "echo".to_string()))
    );
    assert_eq!(
        parse_route("conduit://localhost/drain/a/b"),
        Some(("drain".to_string(), "a/b".to_string()))
    );
    assert_eq!(
        parse_route("conduit://localhost///invoke/x"),
        Some(("invoke".to_string(), "x".to_string()))
    );
    assert_eq!(
        parse_route("conduit://localhost/invoke/"),
        Some(("invoke".to_string(), String::new()))
    );
}

#[test]
fn parse_route_without_two_segments() {
    assert_eq!(parse_route("conduit://localhost"), None);
    assert_eq!(parse_route("conduit://localhost/"), None);
    assert_eq!(parse_route("conduit://localhost/invoke"), None);
    assert_eq!(parse_route("no-scheme/invoke/x"), None);
    assert_eq!(parse_route(""), None);
}

#[test]
fn route_invoke_and_drain() {
    let key = key_text();
    match route("conduit://localhost/invoke/hello%20world", Some(Some(&key))) {
        Route::Invoke(name) => assert_eq!(name, "hello world"),
        _ => panic!("expected invoke"),
    }
    match route("conduit://localhost/drain/telemetry", Some(Some(&key))) {
        Route::Drain(name) => assert_eq!(name, "telemetry"),
        _ => panic!("expected drain"),
    }
}

#[test]
fn route_checks_in_order() {
    let key = key_text();
    // A bad path is refused before the key is looked at.
    assert_eq!(
        reject(route("conduit://localhost/invoke", None)),
        (404, NOT_FOUND.to_string())
    );
    assert_eq!(
        reject(route("conduit://localhost/invoke/x", None)),
        (401, "missing invoke key".to_string())
    );
    assert_eq!(
        reject(route("conduit://localhost/invoke/x", Some(None))),
        (401, "invalid invoke key header".to_string())
    );
    let wrong = hex_encode(&[0u8; 32]);
    assert_eq!(
        reject(route("conduit://localhost/invoke/x", Some(Some(&wrong)))),
        (403, "invalid invoke key".to_string())
    );
    assert_eq!(
        reject(route("conduit://localhost/invoke/a%2Fb", Some(Some(&key)))),
        (400, "invalid command name".to_string())
    );
    assert_eq!(
        reject(route("conduit://localhost/drain/a/b", Some(Some(&key)))),
        (400, "invalid command name".to_string())
    );
    assert_eq!(
        reject(route("conduit://localhost/other/x", Some(Some(&key)))),
        (404, NOT_FOUND.to_string())
    );
}

#[test]
fn route_accepts_upper_case_key() {
    let key = key_text().to_uppercase();
    assert!(matches!(
        route("conduit://localhost/invoke/x", Some(Some(&key))),
        Route::Invoke(_)
    ));
}

#[test]
fn webview_labels() {
    assert!(check_webview_label("main"));
    assert!(check_webview_label("win_2-a"));
    assert!(check_webview_label(&"a".repeat(128)));
    assert!(!check_webview_label(""));
    assert!(!check_webview_label(&"a".repeat(129)));
    assert!(!check_webview_label("bad label"));
    assert!(!check_webview_label("é"));
}

#[test]
fn bootstrap_info_for_launch() {
    let info = BootstrapInfo::for_launch(key_text(), vec!["telemetry".to_string()]);
    assert_eq!(info.protocol_version, 1);
    assert_eq!(info.protocol_base, "conduit://localhost");
    assert_eq!(info.invoke_key, key_text());
    assert_eq!(info.channels, vec!["telemetry".to_string()]);
}

#[test]
fn channel_defs_refuse_duplicates_and_bad_names() {
    let mut defs = ChannelDefs::new();
    assert_eq!(defs.define("telemetry".to_string(), default_kind(false)), Ok(()));
    assert_eq!(
        defs.define("telemetry".to_string(), ChannelKind::Lossy(128)),
        Err(ChannelDefError::DuplicateName)
    );
    assert_eq!(
        defs.define("telemetry".to_string(), default_kind(true)),
        Err(ChannelDefError::DuplicateName)
    );
    assert_eq!(
        defs.define("my channel".to_string(), default_kind(false)),
        Err(ChannelDefError::InvalidName)
    );
    assert_eq!(
        defs.define(String::new(), default_kind(false)),
        Err(ChannelDefError::InvalidName)
    );
    assert_eq!(defs.define("data".to_string(), ChannelKind::Reliable(0)), Ok(()));
    assert_eq!(defs.len(), 2);
    assert!(defs.contains("data"));
    assert!(!defs.contains("dat"));
    assert_eq!(defs.names(), vec!["telemetry".to_string(), "data".to_string()]);
    let entries = defs.into_entries();
    assert_eq!(
        entries,
        vec![
            ("telemetry".to_string(), ChannelKind::Lossy(64 * 1024)),
            ("data".to_string(), ChannelKind::Reliable(0)),
        ]
    );
}

#[test]
fn open_channel_builds_the_right_buffer() {
    match open_channel(ChannelKind::Lossy(32)) {
        ChannelBuffer::Lossy(rb) => assert_eq!(rb.capacity(), 32),
        ChannelBuffer::Reliable(_) => panic!("expected a lossy channel"),
    }
    let ch = open_channel(default_kind(true));
    assert!(ch.is_ordered());
    match ch {
        ChannelBuffer::Reliable(q) => assert_eq!(q.max_bytes(), 64 * 1024),
        ChannelBuffer::Lossy(_) => panic!("expected a reliable channel"),
    }
}

#[test]
fn subscribe_keeps_known_channels_in_order() {
    let known = vec!["a".to_string(), "b".to_string()];
    let requested = vec![
        "b".to_string(),
        "zzz".to_string(),
        "a".to_string(),
        "b".to_string(),
    ];
    assert_eq!(
        filter_known_channels(requested, &known),
        vec!["b".to_string(), "a".to_string(), "b".to_string()]
    );
    assert!(filter_known_channels(vec!["x".to_string()], &known).is_empty());
}
