//! Settings, events and the shim.
use flashpoint::events::{forward, Event, Occurrence, Step};
use flashpoint::settings::{
    buffer_size, concurrency_limit, console_wanted, parse_unsigned, requests_per_second,
    scheduler_interval_ms, server_port, shim_port, ws_channel_capacity,
};
use flashpoint::shim::{prepare_url, process_url, relay, target_base, Upstream};

#[test]
fn numbers_are_read_as_the_standard_library_reads_them() {
    for text in [
        "0", "7", "+7", "007", "65535", "65536", "18446744073709551615", "18446744073709551616",
        "99999999999999999999999999", "", "+", "-", "-1", "-0", " 1", "1 ", "1.0", "1e3", "0x10", "++1",
        "1_000", "\u{0661}", "1a",
    ] {
        assert_eq!(parse_unsigned(text, u64::MAX), text.parse::<u64>().ok(), "{text:?}");
        assert_eq!(
            parse_unsigned(text, u16::MAX as u64),
            text.parse::<u16>().ok().map(|n| n as u64),
            "{text:?}"
        );
    }
}

#[test]
fn settings_have_defaults() {
    assert_eq!(concurrency_limit(None), 1024);
    assert_eq!(buffer_size(None), 1024);
    assert_eq!(requests_per_second(None), u64::MAX / 4);
    assert_eq!(ws_channel_capacity(None), 100);
    assert_eq!(server_port(None), 8080);
    assert_eq!(shim_port(None), 26658);
    assert_eq!(scheduler_interval_ms(None), 1000);
}

#[test]
fn settings_that_cannot_be_read_have_defaults_too() {
    assert_eq!(concurrency_limit(Some("many")), 1024);
    assert_eq!(buffer_size(Some("-4")), 1024);
    assert_eq!(requests_per_second(Some("")), u64::MAX / 4);
    assert_eq!(ws_channel_capacity(Some("1.5")), 100);
    assert_eq!(server_port(Some("65536")), 8080);
    assert_eq!(shim_port(Some("x")), 26658);
    assert_eq!(scheduler_interval_ms(Some("99999999999999999999")), 1000);
}

#[test]
fn settings_are_taken() {
    assert_eq!(concurrency_limit(Some("8")), 8);
    assert_eq!(buffer_size(Some("16")), 16);
    assert_eq!(requests_per_second(Some("250")), 250);
    assert_eq!(ws_channel_capacity(Some("0")), 0);
    assert_eq!(server_port(Some("65535")), 65535);
    assert_eq!(shim_port(Some("9000")), 9000);
    assert_eq!(scheduler_interval_ms(Some("100")), 100);
}

#[test]
fn the_console_is_wanted_by_three_words() {
    for word in ["1", "true", "yes"] {
        assert!(console_wanted(Some(word)));
    }
    for word in ["", "0", "True", "no", "11"] {
        assert!(!console_wanted(Some(word)));
    }
    assert!(!console_wanted(None));
}

#[test]
fn messages_are_forwarded() {
    assert!(matches!(forward(Occurrence::Message("m".to_string())), Step::Send(text) if text == "m"));
    assert!(matches!(forward(Occurrence::Lagged(7)), Step::CountLag(7)));
    assert!(matches!(forward(Occurrence::Lagged(1)), Step::CountLag(1)));
    assert!(matches!(forward(Occurrence::Closed), Step::Stop));
    assert!(matches!(forward(Occurrence::Delivered(true)), Step::Wait));
    assert!(matches!(forward(Occurrence::Delivered(false)), Step::Stop));
}

#[test]
fn events_have_names() {
    let all = vec![
        (Event::Reset, "reset", true),
        (Event::IntentsBulkSubmitted { count: 1 }, "intents_bulk_submitted", true),
        (Event::AuctionSubmitted { id: 1, client_id: None }, "auction_submitted", true),
        (Event::AuctionBatchSubmitted { id: 1 }, "auction_submitted", true),
        (Event::AuctionCleared { cleared: 0 }, "auction_cleared", true),
        (Event::AuctionCanceled { id: 1 }, "auction_canceled", true),
        (Event::Shutdown, "shutdown", false),
    ];
    for (event, name, traced) in all {
        assert_eq!(event.label(), name);
        assert_eq!(event.traced(), traced);
    }
}

#[test]
fn abci_shim_forwards_prepare_and_process() {
    let base = target_base(Some("http://10.0.0.1:9"));
    assert_eq!(prepare_url(&base), "http://10.0.0.1:9/abci/prepare_proposal");
    assert_eq!(process_url(&base), "http://10.0.0.1:9/abci/process_proposal");
    let body = relay(Upstream::Answered { status: 200, body: ("fifo", 2) }).unwrap();
    assert_eq!(body.0, "fifo");
    assert!(body.1 >= 1);
    assert_eq!(relay(Upstream::Answered { status: 200, body: true }), Ok(true));
}

#[test]
fn the_shim_points_at_the_local_server() {
    assert_eq!(target_base(None), "http://127.0.0.1:8080");
}

#[test]
fn failures_upstream_are_told() {
    let gone: Result<u8, (u16, String)> = relay(Upstream::Unreachable("refused".to_string()));
    assert_eq!(gone, Err((502, "refused".to_string())));
    let garbled: Result<u8, (u16, String)> = relay(Upstream::Unreadable("no json".to_string()));
    assert_eq!(garbled, Err((502, "no json".to_string())));
    for status in [199, 300, 404, 500] {
        let failed = relay(Upstream::Answered { status, body: 1 });
        assert_eq!(failed, Err((status, "upstream error".to_string())));
    }
    assert_eq!(relay(Upstream::Answered { status: 299, body: 1 }), Ok(1));
}
