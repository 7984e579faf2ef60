use coppa::host::websocket::{
    is_spectrum_broadcast, is_spectrum_tag, WebSocketServer, WsAction, WsBroadcast,
    WsClientMessage, WsConnection, WsInput, WsStatus,
};
use coppa::host::HostEvent;

#[test]
fn test_is_spectrum_broadcast_identifies_spectrum_messages_only() {
    let bins = vec!["0.0"; 128].join(",");
    let spectrum_json = format!(r#"{{"type":"spectrum","bins":[{}],"timestamp_ms":0}}"#, bins);
    assert!(is_spectrum_broadcast(&spectrum_json));

    let data_json = r#"{"type":"data","data":"hello"}"#;
    assert!(!is_spectrum_broadcast(data_json));

    let status_json = r#"{"type":"status","connected":false}"#;
    assert!(!is_spectrum_broadcast(status_json));

    assert!(!is_spectrum_broadcast("not valid json"));
}

#[test]
fn test_ws_server_default() {
    let server = WebSocketServer::default_port();
    assert_eq!(server.port(), 8400);
}

fn text(message: WsClientMessage) -> WsInput {
    WsInput::Text { text: String::new(), parsed: Ok(message) }
}

#[test]
fn only_a_text_field_at_the_top_counts() {
    assert!(is_spectrum_broadcast(r#"{"type":"\u0073pectrum"}"#));
    assert!(!is_spectrum_broadcast(r#"{"type":7}"#));
    assert!(!is_spectrum_broadcast(r#"{"inner":{"type":"spectrum"}}"#));
    assert!(!is_spectrum_broadcast(r#"["spectrum"]"#));
    assert!(is_spectrum_tag(&Some("spectrum".to_string())));
    assert!(!is_spectrum_tag(&None));
}

#[test]
fn requests_become_actions() {
    let idle = WsStatus::default();
    let mut c = WsConnection::new(4);
    assert_eq!(
        c.on_input(text(WsClientMessage::Connect {
            source: "A".to_string(),
            destination: "B".to_string(),
        }), &idle),
        WsAction::Emit(HostEvent::ConnectRequest {
            client_id: 4,
            source: "A".to_string(),
            destination: "B".to_string(),
        })
    );
    assert_eq!(
        c.on_input(text(WsClientMessage::Disconnect), &idle),
        WsAction::Emit(HostEvent::DisconnectRequest { client_id: 4 })
    );
    assert_eq!(
        c.on_input(text(WsClientMessage::Send { data: "hi".to_string() }), &idle),
        WsAction::Emit(HostEvent::DataReceived { client_id: 4, data: b"hi".to_vec() })
    );
    assert_eq!(c.on_input(text(WsClientMessage::Status), &idle), WsAction::ReplyStatus(idle.clone()));
    assert_eq!(c.on_input(WsInput::OtherFrame, &idle), WsAction::Ignore);
    assert_eq!(c.on_input(WsInput::Closed, &idle), WsAction::Close);
}

#[test]
fn spectrum_is_forwarded_on_request_only() {
    let spectrum = r#"{"type":"spectrum","bins":[]}"#.to_string();
    let data = r#"{"type":"data","data":"x"}"#.to_string();
    let idle = WsStatus::default();
    let mut c = WsConnection::new(1);
    assert_eq!(c.on_broadcast(WsBroadcast::Text(spectrum.clone())), WsAction::Ignore);
    assert_eq!(c.on_broadcast(WsBroadcast::Text(data.clone())), WsAction::Forward(data.clone()));
    c.on_input(text(WsClientMessage::Spectrum { enabled: true }), &idle);
    assert_eq!(
        c.on_broadcast(WsBroadcast::Text(spectrum.clone())),
        WsAction::Forward(spectrum.clone())
    );
    c.on_input(text(WsClientMessage::Status), &idle);
    assert_eq!(
        c.on_broadcast(WsBroadcast::Text(spectrum.clone())),
        WsAction::Forward(spectrum.clone())
    );
    c.on_input(text(WsClientMessage::Spectrum { enabled: false }), &idle);
    assert_eq!(c.on_broadcast(WsBroadcast::Text(spectrum)), WsAction::Ignore);
    assert_eq!(c.on_broadcast(WsBroadcast::Lagged), WsAction::Ignore);
    assert_eq!(c.on_broadcast(WsBroadcast::Closed), WsAction::Close);
}

#[test]
fn the_given_tag_decides() {
    let c = WsConnection::new(1);
    let b = WsBroadcast::Text("x".to_string());
    assert_eq!(c.on_tagged_broadcast(b.clone(), true), WsAction::Ignore);
    assert_eq!(c.on_tagged_broadcast(b, false), WsAction::Forward("x".to_string()));
}

#[test]
fn clients_are_numbered_and_limited() {
    let mut server = WebSocketServer::with_bind_addr(80, "0.0.0.0".to_string());
    assert_eq!(server.addr(), "0.0.0.0:80");
    for i in 0..16 {
        assert_eq!(server.accept(), Some(1 + i));
    }
    assert_eq!(server.accept(), None);
    server.release();
    assert_eq!(server.accept(), Some(17));
    assert_eq!(WebSocketServer::new(9).addr(), "127.0.0.1:9");
}

#[test]
fn status_replies_carry_live_values() {
    let live = WsStatus {
        connected: true,
        remote_call: Some("VK3DEF".to_string()),
        snr: Some(18),
        level: Some(5),
        cfo_bits: Some((-3.5f32).to_bits()),
    };
    let mut c = WsConnection::new(1);
    match c.on_input(text(WsClientMessage::Status), &live) {
        WsAction::ReplyStatus(status) => {
            assert!(status.connected);
            assert_eq!(status.remote_call.as_deref(), Some("VK3DEF"));
            assert_eq!(status.snr, Some(18));
            assert_eq!(status.level, Some(5));
            assert_eq!(status.cfo_bits.map(f32::from_bits), Some(-3.5));
        }
        other => panic!("{:?}", other),
    }
    let idle = WsStatus::default();
    assert_eq!(
        c.on_input(text(WsClientMessage::Status), &idle),
        WsAction::ReplyStatus(WsStatus {
            connected: false,
            remote_call: None,
            snr: None,
            level: None,
            cfo_bits: None,
        })
    );
    assert_eq!(
        c.on_input(text(WsClientMessage::Spectrum { enabled: true }), &live),
        WsAction::Ignore
    );
}

#[test]
fn texts_that_cannot_be_read_are_answered_with_the_reason() {
    let mut c = WsConnection::new(1);
    let input = WsInput::Text { text: "x".to_string(), parsed: Err("why".to_string()) };
    assert_eq!(
        c.on_input(input, &WsStatus::default()),
        WsAction::ReplyError("Invalid message: why".to_string())
    );
}
